use size_table_generator::errors::Error;
use size_table_generator::group::SheetRow;
use size_table_generator::models::{ItemCode, SizeCode};
use size_table_generator::resolve::{Glossary, TranslateClient};
use size_table_generator::tables::{build_tables, create_item_meta, ItemInfo};
use size_table_generator::grammar::SizeDetails;

fn header(cells: &[&str]) -> Vec<String> {
    cells.iter().map(|c| String::from(*c)).collect()
}

fn row(item: &str, size: &str, ordinal: &str, text: &str) -> SheetRow {
    SheetRow {
        cells: vec![String::from(item), String::from(size), String::from(text)],
        item_code: Some(ItemCode { text: String::from(item) }),
        size_code: Some(SizeCode { text: String::from(size), ordinal: String::from(ordinal) }),
    }
}

fn client(pairs: &[(&str, &str)]) -> TranslateClient {
    TranslateClient::new(Glossary::from_pairs(
        pairs.iter().map(|(k, v)| (String::from(*k), String::from(*v))).collect(),
    ))
}

#[test]
fn end_to_end_one_item_two_sizes() {
    let h = header(&["品番", "SZ", "採寸"]);
    let rows = vec![
        row("A001", "S", "Ⅰ", "肩宽:42.5 胸围:104"),
        row("A001", "M", "Ⅱ", "肩宽:43.5 胸围:106"),
    ];
    let c = client(&[("肩宽", "shoulder"), ("胸围", "bust")]);
    let resp = build_tables(&h, rows, &c).unwrap();
    assert_eq!(resp.item_meta.len(), 1);
    let meta = &resp.item_meta[0];
    assert_eq!(meta.code, "A001");
    assert_eq!(meta.size_code, "S");
    assert_eq!(meta.table.head, vec!["尺码", "shoulder", "bust"]);
    assert_eq!(meta.table.body.len(), 2);
    assert_eq!(meta.table.body[0], vec!["Ⅰ", "42.5", "104"]);
    assert_eq!(meta.table.body[1], vec!["Ⅱ", "43.5", "106"]);
}

#[test]
fn header_in_any_order_is_classified_semantically() {
    let h = header(&["採寸", "品番", "SZ"]);
    let rows = vec![SheetRow {
        cells: vec![String::from("丈:70"), String::from("A"), String::from("S")],
        item_code: Some(ItemCode { text: String::from("A") }),
        size_code: Some(SizeCode { text: String::from("S"), ordinal: String::from("Ⅰ") }),
    }];
    let resp = build_tables(&h, rows, &client(&[])).unwrap();
    assert_eq!(resp.item_meta[0].table.head, vec!["尺码", "丈"]);
    assert_eq!(resp.item_meta[0].table.body[0], vec!["Ⅰ", "70"]);
}

#[test]
fn bad_header_aborts_before_rows() {
    let h = header(&["品番", "SZ"]);
    let rows = vec![row("A", "S", "Ⅰ", "丈:1")];
    assert_eq!(build_tables(&h, rows, &client(&[])), Err(Error::InvalidSheetFormat));
}

#[test]
fn no_data_rows_is_empty_file() {
    let h = header(&["品番", "SZ", "採寸"]);
    assert_eq!(build_tables(&h, Vec::new(), &client(&[])), Err(Error::EmptyFile));
}

#[test]
fn rejected_item_code_aborts_the_run() {
    let h = header(&["品番", "SZ", "採寸"]);
    let mut bad = row("A", "S", "Ⅰ", "丈:1");
    bad.item_code = None;
    assert_eq!(build_tables(&h, vec![bad], &client(&[])), Err(Error::InvalidItemCode));
}

#[test]
fn rejected_size_code_aborts_the_run() {
    let h = header(&["品番", "SZ", "採寸"]);
    let mut bad = row("A", "S", "Ⅰ", "丈:1");
    bad.size_code = None;
    assert_eq!(build_tables(&h, vec![bad], &client(&[])), Err(Error::InvalidSizeCode));
}

#[test]
fn empty_measurement_cell_aborts_the_run() {
    let h = header(&["品番", "SZ", "採寸"]);
    let rows = vec![row("A", "S", "Ⅰ", "")];
    assert_eq!(build_tables(&h, rows, &client(&[])), Err(Error::EmptySizeText));
}

#[test]
fn malformed_measurement_token_aborts_the_run() {
    let h = header(&["品番", "SZ", "採寸"]);
    let rows = vec![row("A", "S", "Ⅰ", "丈70")];
    assert_eq!(
        build_tables(&h, rows, &client(&[])),
        Err(Error::InvalidSizeText { error_line: String::from("丈70") })
    );
}

#[test]
fn mismatched_measurement_names_are_rejected() {
    let h = header(&["品番", "SZ", "採寸"]);
    let rows = vec![row("A", "S", "Ⅰ", "肩宽:42 胸围:104"), row("A", "M", "Ⅱ", "肩宽:43 裾幅:50")];
    assert_eq!(
        build_tables(&h, rows, &client(&[])),
        Err(Error::MismatchedSizeNames { error_line: String::from("肩宽:43 裾幅:50") })
    );
}

#[test]
fn duplicate_rows_collapse_before_tables_are_built() {
    let h = header(&["品番", "SZ", "採寸"]);
    let rows = vec![row("A", "S", "Ⅰ", "丈:1"), row("A", "S", "Ⅰ", "丈:9")];
    let resp = build_tables(&h, rows, &client(&[])).unwrap();
    assert_eq!(resp.item_meta[0].table.body, vec![vec!["Ⅰ", "1"]]);
}

#[test]
fn create_item_meta_builds_the_positional_table() {
    let infos = vec![
        ItemInfo {
            item_code: ItemCode { text: String::from("A001") },
            size_code: SizeCode { text: String::from("S"), ordinal: String::from("Ⅰ") },
            size_text: SizeDetails::parse(String::from("shoulder:42.5 bust:104")).unwrap(),
        },
        ItemInfo {
            item_code: ItemCode { text: String::from("A001") },
            size_code: SizeCode { text: String::from("M"), ordinal: String::from("Ⅱ") },
            size_text: SizeDetails::parse(String::from("shoulder:43.5 bust:106")).unwrap(),
        },
    ];
    let meta = create_item_meta(infos);
    assert_eq!(meta.code, "A001");
    assert_eq!(meta.size_code, "S");
    assert_eq!(meta.table.head, vec!["尺码", "shoulder", "bust"]);
    assert_eq!(meta.table.body[0], vec!["Ⅰ", "42.5", "104"]);
    assert_eq!(meta.table.body[1], vec!["Ⅱ", "43.5", "106"]);
}
