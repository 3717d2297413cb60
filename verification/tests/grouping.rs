use size_table_generator::errors::Error;
use size_table_generator::group::{group_rows, SheetRow};
use size_table_generator::models::{ItemCode, SizeCode};

fn row(item: &str, size: &str, text: &str) -> SheetRow {
    SheetRow {
        cells: vec![String::from(item), String::from(size), String::from(text)],
        item_code: Some(ItemCode { text: String::from(item) }),
        size_code: Some(SizeCode { text: String::from(size), ordinal: String::from(size) }),
    }
}

#[test]
fn groups_are_sorted_by_item_code_with_rows_in_input_order() {
    let rows = vec![
        row("B", "S", "丈:1"),
        row("A", "S", "丈:2"),
        row("A", "M", "丈:3"),
        row("B", "M", "丈:4"),
    ];
    let groups = group_rows(rows, 0, 1).unwrap();
    assert_eq!(groups.len(), 2);
    assert_eq!(groups[0].len(), 2);
    assert_eq!(groups[0][0].cells[1], "S");
    assert_eq!(groups[0][0].cells[0], "A");
    assert_eq!(groups[0][1].cells[1], "M");
    assert_eq!(groups[1].len(), 2);
    assert_eq!(groups[1][0].cells[0], "B");
    assert_eq!(groups[1][0].cells[1], "S");
    assert_eq!(groups[1][1].cells[1], "M");
}

#[test]
fn duplicate_item_size_pair_keeps_the_first_row() {
    let rows = vec![row("A", "S", "丈:first"), row("A", "S", "丈:second"), row("A", "M", "丈:3")];
    let groups = group_rows(rows, 0, 1).unwrap();
    assert_eq!(groups.len(), 1);
    assert_eq!(groups[0].len(), 2);
    assert_eq!(groups[0][0].cells[2], "丈:first");
    assert_eq!(groups[0][1].cells[2], "丈:3");
}

#[test]
fn lexical_order_not_numeric_order() {
    let rows = vec![row("10", "S", "丈:1"), row("2", "S", "丈:2")];
    let groups = group_rows(rows, 0, 1).unwrap();
    assert_eq!(groups[0][0].cells[0], "10");
    assert_eq!(groups[1][0].cells[0], "2");
}

#[test]
fn empty_sheet_is_an_error() {
    assert!(matches!(group_rows(Vec::new(), 0, 1), Err(Error::EmptyFile)));
}
