use size_table_generator::errors::Error;
use size_table_generator::grammar::{MySpecification, SizeDetail, SizeDetails};
use size_table_generator::text::escape_colon_whitespace;

#[test]
fn single_token_parses_to_its_pair() {
    let sd = SizeDetail::parse(String::from("肩宽:42.5")).unwrap();
    assert_eq!(sd.name, "肩宽");
    assert_eq!(sd.value, "42.5");
    let set = SizeDetails::parse(String::from("肩宽:42.5")).unwrap();
    assert_eq!(set.0.len(), 1);
    assert_eq!(set.0[0].name, "肩宽");
    assert_eq!(set.0[0].value, "42.5");
}

#[test]
fn empty_text_is_rejected() {
    assert_eq!(SizeDetails::parse(String::new()), Err(Error::EmptySizeText));
    assert_eq!(SizeDetail::parse(String::new()), Err(Error::EmptySizeText));
}

#[test]
fn whitespace_only_text_is_rejected() {
    assert_eq!(SizeDetails::parse(String::from("   ")), Err(Error::EmptySizeText));
    assert_eq!(SizeDetails::parse(String::from(" \t　")), Err(Error::EmptySizeText));
}

#[test]
fn token_without_colon_is_rejected() {
    assert_eq!(
        SizeDetails::parse(String::from("ヒップ104")),
        Err(Error::InvalidSizeText { error_line: String::from("ヒップ104") })
    );
}

#[test]
fn token_with_two_colons_is_rejected() {
    assert_eq!(
        SizeDetails::parse(String::from("ヒップ:104:cm")),
        Err(Error::InvalidSizeText { error_line: String::from("ヒップ:104:cm") })
    );
}

#[test]
fn token_with_empty_name_or_value_is_rejected() {
    assert!(matches!(
        SizeDetails::parse(String::from(":104")),
        Err(Error::InvalidSizeText { .. })
    ));
    assert!(matches!(
        SizeDetails::parse(String::from("ヒップ:")),
        Err(Error::InvalidSizeText { .. })
    ));
}

#[test]
fn first_bad_token_is_reported() {
    assert_eq!(
        SizeDetails::parse(String::from("肩宽:42.5 bad 胸围")),
        Err(Error::InvalidSizeText { error_line: String::from("bad") })
    );
}

#[test]
fn normalization_rewrites_fullwidth_and_colon_space() {
    assert_eq!(escape_colon_whitespace("ヒップ：104"), "ヒップ:104");
    assert_eq!(escape_colon_whitespace("a: 1"), "a:1");
    assert_eq!(escape_colon_whitespace("a:1　b:2"), "a:1 b:2");
    assert_eq!(escape_colon_whitespace(""), "");
}

#[test]
fn normalized_fullwidth_colon_parses() {
    let sd = SizeDetail::parse(String::from("ヒップ： 104")).unwrap();
    assert_eq!(sd.name, "ヒップ");
    assert_eq!(sd.value, "104");
}

#[test]
fn multiple_tokens_keep_order_and_duplicates() {
    let set = SizeDetails::parse(String::from("肩宽:42.5 胸围:104 肩宽:43")).unwrap();
    assert_eq!(set.names(), vec!["肩宽", "胸围", "肩宽"]);
    assert_eq!(set.values(), vec!["42.5", "104", "43"]);
}

#[test]
fn rebuilt_tokens_reparse_to_the_same_set() {
    let set = SizeDetails::parse(String::from("ウエスト(ゴム)：62~72　もも周り: 70")).unwrap();
    let rebuilt = set
        .0
        .iter()
        .map(|d| format!("{}:{}", d.name, d.value))
        .collect::<Vec<_>>()
        .join(" ");
    let again = SizeDetails::parse(rebuilt).unwrap();
    assert_eq!(again, set);
}

#[test]
fn is_match_follows_parse() {
    assert!(<SizeDetails as MySpecification<String>>::is_match(String::from("股上:37 股下:66")));
    assert!(!<SizeDetails as MySpecification<String>>::is_match(String::from("股上37")));
    assert!(<SizeDetail as MySpecification<String>>::is_match(String::from("高さ:23.5")));
    assert!(!<SizeDetail as MySpecification<String>>::is_match(String::new()));
}

#[test]
fn colon_space_removal_is_a_single_left_to_right_pass() {
    // the second space is not re-examined after the first ": " collapses
    assert_eq!(escape_colon_whitespace(":  "), ": ");
    assert_eq!(escape_colon_whitespace("a:  1"), "a: 1");
    assert_eq!(escape_colon_whitespace("a: : 1"), "a::1");
}

#[test]
fn fullwidth_colon_becomes_a_second_colon() {
    // after normalization the token holds two colons and is rejected
    assert!(matches!(
        SizeDetails::parse(String::from("a：b:1")),
        Err(Error::InvalidSizeText { .. })
    ));
}

#[test]
fn error_messages_name_the_failure() {
    assert_eq!(Error::EmptySizeText.message(), "[採寸]列不能是空栏");
    assert_eq!(Error::EmptyFile.message(), "文件是空文件");
    assert_eq!(Error::InvalidSheetFormat.message(), "请确认Excel文件有[品番][採寸]和[SZ]列");
    assert_eq!(
        Error::InvalidSizeText { error_line: String::from("x") }.message(),
        "採寸格式错误:x"
    );
    assert_eq!(Error::TranslateResponse(String::from("quota")).message(), "翻译失败:quota");
    assert_eq!(Error::ExcelRead.message(), "请选择需要打开的Excel文件");
    assert_eq!(Error::InvalidItemCode.message(), "品番格式错误");
    assert_eq!(Error::InvalidSizeCode.message(), "SZ格式错误");
    assert_eq!(
        Error::MismatchedSizeNames { error_line: String::from("y") }.message(),
        "採寸列名不一致:y"
    );
    assert_eq!(Error::TranslateUnavailable.message(), "翻译失败:无法连接翻译服务");
    assert_eq!(Error::SystemIO(String::from("z")).message(), "设定文件读取错误");
}
