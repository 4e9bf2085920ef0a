use rust_tokenizers::vocab::{CtrlVocab, LookupError, VocabError};

fn entries(list: &[(&str, i64)]) -> Vec<(String, i64)> {
    list.iter().map(|(t, id)| (t.to_string(), *id)).collect()
}

#[test]
fn reads_a_json_object() {
    let vocab = CtrlVocab::from_json(br#"{"<unk>": 0, "hello": 7, "world": 9}"#).unwrap();
    assert_eq!(vocab.token_to_id("hello"), 7);
    assert_eq!(vocab.token_to_id("world"), 9);
    assert_eq!(vocab.token_to_id("<unk>"), 0);
    assert_eq!(vocab.values().len(), 3);
}

#[test]
fn unknown_tokens_fall_back() {
    let vocab = CtrlVocab::from_json(br#"{"a": 1, "<unk>": 42}"#).unwrap();
    assert_eq!(vocab.token_to_id("missing"), 42);
    assert_eq!(vocab.token_to_id(""), 42);
    assert_eq!(vocab.token_to_id("A"), 42);
}

#[test]
fn the_unknown_token_is_reserved() {
    let vocab = CtrlVocab::from_json(br#"{"a": 1, "<unk>": 42}"#).unwrap();
    assert_eq!(CtrlVocab::unknown_value(), "<unk>");
    assert_eq!(vocab.special_values().len(), 1);
    assert_eq!(vocab.special_values().get("<unk>"), Some(&42));
    assert_eq!(vocab.special_values().get("a"), None);
}

#[test]
fn rejects_what_is_not_an_object_of_integers() {
    assert_eq!(CtrlVocab::from_json(b"").err(), Some(VocabError::Unparseable));
    assert_eq!(CtrlVocab::from_json(b"[1, 2]").err(), Some(VocabError::Unparseable));
    assert_eq!(CtrlVocab::from_json(br#"{"<unk>": 1.5}"#).err(), Some(VocabError::Unparseable));
    assert_eq!(CtrlVocab::from_json(br#"{"<unk>": "x"}"#).err(), Some(VocabError::Unparseable));
    assert_eq!(CtrlVocab::from_json(br#"{"<unk>": 1} trailing"#).err(), Some(VocabError::Unparseable));
    assert_eq!(CtrlVocab::from_json(b"{\"<unk>\": 1, \"\xff\": 2}").err(), Some(VocabError::Unparseable));
}

#[test]
fn rejects_a_vocabulary_without_the_unknown_token() {
    assert_eq!(CtrlVocab::from_json(br#"{"a": 1}"#).err(), Some(VocabError::MissingUnknownToken));
    assert_eq!(CtrlVocab::from_json(b"{}").err(), Some(VocabError::MissingUnknownToken));
    assert_eq!(
        CtrlVocab::from_entries(entries(&[("a", 1)])).err(),
        Some(VocabError::MissingUnknownToken)
    );
}

#[test]
fn a_repeated_key_keeps_its_last_id() {
    let vocab = CtrlVocab::from_json(br#"{"<unk>": 0, "a": 1, "a": 2}"#).unwrap();
    assert_eq!(vocab.token_to_id("a"), 2);
    assert_eq!(vocab.id_to_token(2), Ok("a".to_string()));
    assert_eq!(vocab.id_to_token(1), Err(LookupError { id: 1 }));
    let vocab = CtrlVocab::from_entries(entries(&[("a", 1), ("<unk>", 0), ("a", 5)])).unwrap();
    assert_eq!(vocab.token_to_id("a"), 5);
    assert_eq!(vocab.id_to_token(1), Err(LookupError { id: 1 }));
}

#[test]
fn ids_lead_back_to_tokens() {
    let vocab = CtrlVocab::from_entries(entries(&[("<unk>", 0), ("x", 3), ("y", -4)])).unwrap();
    assert_eq!(vocab.id_to_token(3), Ok("x".to_string()));
    assert_eq!(vocab.id_to_token(-4), Ok("y".to_string()));
    assert_eq!(vocab.id_to_token(0), Ok("<unk>".to_string()));
    assert_eq!(vocab.id_to_token(9), Err(LookupError { id: 9 }));
}

#[test]
fn of_two_tokens_with_one_id_the_later_entry_is_found() {
    let vocab = CtrlVocab::from_entries(entries(&[("<unk>", 0), ("x", 3), ("y", 3)])).unwrap();
    assert_eq!(vocab.id_to_token(3), Ok("y".to_string()));
    assert_eq!(vocab.token_to_id("x"), 3);
}

#[test]
fn errors_have_messages() {
    assert_eq!(VocabError::Unparseable.message(), "could not parse vocabulary");
    assert_eq!(
        VocabError::MissingUnknownToken.message(),
        "the unknown token is not in the vocabulary"
    );
}

#[test]
fn a_reserved_token_outside_the_values_resolves_to_its_own_id() {
    let vocab = CtrlVocab::with_reserved(
        entries(&[("<unk>", 0), ("a", 1)]),
        entries(&[("[SEP]", 102), ("[CLS]", 101)]),
    )
    .unwrap();
    assert_eq!(vocab.token_to_id("[SEP]"), 102);
    assert_eq!(vocab.token_to_id("[CLS]"), 101);
    assert_eq!(vocab.token_to_id("a"), 1);
    assert_eq!(vocab.token_to_id("[MASK]"), 0);
    assert_eq!(vocab.values().get("[SEP]"), None);
    assert_eq!(vocab.special_values().get("[SEP]"), Some(&102));
    assert_eq!(vocab.special_values().len(), 2);
    assert_eq!(vocab.id_to_token(102), Ok("[SEP]".to_string()));
    assert_eq!(vocab.id_to_token(1), Ok("a".to_string()));
    assert_eq!(vocab.id_to_token(5), Err(LookupError { id: 5 }));
}

#[test]
fn the_values_come_before_the_reserved_tokens() {
    let vocab = CtrlVocab::with_reserved(
        entries(&[("<unk>", 0), ("a", 1)]),
        entries(&[("a", 9), ("b", 9)]),
    )
    .unwrap();
    assert_eq!(vocab.token_to_id("a"), 1);
    assert_eq!(vocab.token_to_id("b"), 9);
    assert_eq!(vocab.id_to_token(1), Ok("a".to_string()));
    assert_eq!(vocab.id_to_token(9), Ok("b".to_string()));
}

#[test]
fn the_unknown_token_may_be_reserved_only() {
    let vocab =
        CtrlVocab::with_reserved(entries(&[("a", 1)]), entries(&[("<unk>", 77)])).unwrap();
    assert_eq!(vocab.token_to_id("missing"), 77);
    assert_eq!(vocab.token_to_id("<unk>"), 77);
    assert_eq!(vocab.unknown_id(), 77);
    assert_eq!(vocab.id_to_token(77), Ok("<unk>".to_string()));
    let vocab =
        CtrlVocab::with_reserved(entries(&[("<unk>", 3)]), entries(&[("<unk>", 77)])).unwrap();
    assert_eq!(vocab.token_to_id("missing"), 3);
    assert_eq!(vocab.unknown_id(), 3);
    assert_eq!(
        CtrlVocab::with_reserved(entries(&[("a", 1)]), entries(&[("b", 2)])).err(),
        Some(VocabError::MissingUnknownToken)
    );
}

#[test]
fn a_reserved_token_is_found_before_another_token_of_its_id() {
    let vocab = CtrlVocab::from_entries(entries(&[("<unk>", 0), ("z", 0)])).unwrap();
    assert_eq!(vocab.id_to_token(0), Ok("<unk>".to_string()));
    assert_eq!(vocab.token_to_id("z"), 0);
    let vocab = CtrlVocab::with_reserved(
        entries(&[("<unk>", 0), ("x", 4)]),
        entries(&[("r", 4), ("s", 4)]),
    )
    .unwrap();
    assert_eq!(vocab.id_to_token(4), Ok("s".to_string()));
}
