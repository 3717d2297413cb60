use size_table_generator::errors::Error;
use size_table_generator::grammar::SizeDetails;
use size_table_generator::resolve::{
    resolve_remote_outcome, Glossary, TranslateClient, TranslateOutcome,
};

fn glossary(pairs: &[(&str, &str)]) -> Glossary {
    Glossary::from_pairs(
        pairs.iter().map(|(k, v)| (String::from(*k), String::from(*v))).collect(),
    )
}

#[test]
fn known_name_is_resolved() {
    let client = TranslateClient::new(glossary(&[("ヒップ", "臀围")]));
    let out = client.translate_local(&vec![String::from("ヒップ")]).unwrap();
    assert_eq!(out, vec![String::from("臀围")]);
}

#[test]
fn unknown_name_passes_through() {
    let client = TranslateClient::new(glossary(&[("ヒップ", "臀围")]));
    let out = client.translate_local(&vec![String::from("未知")]).unwrap();
    assert_eq!(out, vec![String::from("未知")]);
}

#[test]
fn empty_glossary_passes_everything_through() {
    let client = TranslateClient::new(Glossary::new());
    let inputs = vec![String::from("裾周り"), String::from("重量(g)")];
    assert_eq!(client.translate_local(&inputs).unwrap(), inputs);
}

#[test]
fn later_glossary_entry_overrides_earlier() {
    let g = glossary(&[("肩宽", "old"), ("肩宽", "new")]);
    assert_eq!(g.resolve_name(&String::from("肩宽")), "new");
}

#[test]
fn translate_to_zh_resolves_names_and_keeps_values() {
    let client = TranslateClient::new(glossary(&[("肩宽", "shoulder")]));
    let set = SizeDetails::parse(String::from("肩宽:42.5 胸围:104")).unwrap();
    let out = set.translate_to_zh(&client).unwrap();
    assert_eq!(out.names(), vec!["shoulder", "胸围"]);
    assert_eq!(out.values(), vec!["42.5", "104"]);
}

#[test]
fn remote_success_yields_the_translations() {
    let out = resolve_remote_outcome(TranslateOutcome::Success(vec![String::from("臀围")]));
    assert_eq!(out, Ok(vec![String::from("臀围")]));
}

#[test]
fn remote_error_response_carries_the_upstream_message() {
    let out = resolve_remote_outcome(TranslateOutcome::Rejected(String::from("quota exceeded")));
    assert_eq!(out, Err(Error::TranslateResponse(String::from("quota exceeded"))));
}

#[test]
fn remote_transport_failure_is_unavailable() {
    let out = resolve_remote_outcome(TranslateOutcome::Unavailable);
    assert_eq!(out, Err(Error::TranslateUnavailable));
}
