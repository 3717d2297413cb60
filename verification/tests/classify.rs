use size_table_generator::classify::{check_column, get_column_indices};
use size_table_generator::errors::Error;

fn header(cells: &[&str]) -> Vec<String> {
    cells.iter().map(|c| String::from(*c)).collect()
}

#[test]
fn check_column_accepts_the_three_labels() {
    assert_eq!(check_column(0, "品番"), Ok(0));
    assert_eq!(check_column(3, "SZ"), Ok(3));
    assert_eq!(check_column(7, "採寸"), Ok(7));
}

#[test]
fn check_column_trims_surrounding_whitespace() {
    assert_eq!(check_column(2, " SZ "), Ok(2));
    assert_eq!(check_column(2, "　品番　"), Ok(2));
}

#[test]
fn check_column_rejects_other_labels() {
    assert_eq!(check_column(0, "color"), Err(Error::InvalidSheetFormat));
    assert_eq!(check_column(0, ""), Err(Error::InvalidSheetFormat));
    assert_eq!(check_column(0, "品番x"), Err(Error::InvalidSheetFormat));
}

#[test]
fn columns_are_found_in_semantic_order() {
    assert_eq!(get_column_indices(&header(&["品番", "SZ", "採寸"])), Ok((0, 1, 2)));
    assert_eq!(get_column_indices(&header(&["採寸", "品番", "SZ"])), Ok((1, 2, 0)));
    assert_eq!(
        get_column_indices(&header(&["色", "SZ", "納期", "採寸", "品番"])),
        Ok((4, 1, 3))
    );
}

#[test]
fn missing_measurement_column_is_rejected() {
    assert_eq!(
        get_column_indices(&header(&["品番", "SZ", "備考"])),
        Err(Error::InvalidSheetFormat)
    );
}

#[test]
fn duplicate_label_is_rejected() {
    assert_eq!(
        get_column_indices(&header(&["品番", "SZ", "採寸", "SZ"])),
        Err(Error::InvalidSheetFormat)
    );
}

#[test]
fn empty_header_is_rejected() {
    assert_eq!(get_column_indices(&header(&[])), Err(Error::InvalidSheetFormat));
}
