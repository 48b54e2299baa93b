use pain_tournament::store::{LoadError, decode_item, decode_items};

#[test]
fn valid_record_decodes() {
    let item = decode_item("{\"name\": \"Rust\", \"description\": \"a language\"}").unwrap();
    assert_eq!(item.name, "Rust");
    assert_eq!(item.description, "a language");
}

#[test]
fn missing_description_is_a_load_error() {
    let r = decode_item("{\"name\": \"Rust\"}");
    assert_eq!(r.unwrap_err(), LoadError::MissingDescription);
}

#[test]
fn missing_name_is_a_load_error() {
    let r = decode_item("{\"description\": \"a language\"}");
    assert_eq!(r.unwrap_err(), LoadError::MissingName);
}

#[test]
fn unparseable_text_is_a_load_error() {
    assert_eq!(decode_item("not json at all").unwrap_err(), LoadError::Syntax);
    assert_eq!(decode_item("{\"name\": ").unwrap_err(), LoadError::Syntax);
}

#[test]
fn non_string_field_counts_as_missing() {
    let r = decode_item("{\"name\": 3, \"description\": \"x\"}");
    assert_eq!(r.unwrap_err(), LoadError::MissingName);
}

#[test]
fn extra_fields_are_ignored() {
    let item =
        decode_item("{\"name\": \"A\", \"description\": \"b\", \"rank\": 1}").unwrap();
    assert_eq!(item.name, "A");
    assert_eq!(item.description, "b");
}

#[test]
fn batch_decodes_in_order() {
    let texts = vec![
        String::from("{\"name\": \"A\", \"description\": \"a\"}"),
        String::from("{\"name\": \"B\", \"description\": \"b\"}"),
    ];
    let items = decode_items(&texts).unwrap();
    assert_eq!(items.len(), 2);
    assert_eq!(items[0].name, "A");
    assert_eq!(items[1].name, "B");
}

#[test]
fn batch_reports_first_failure() {
    let texts = vec![
        String::from("{\"name\": \"A\", \"description\": \"a\"}"),
        String::from("{\"name\": \"B\"}"),
        String::from("not json"),
    ];
    assert_eq!(decode_items(&texts).unwrap_err(), LoadError::MissingDescription);
}

#[test]
fn loading_twice_yields_the_same_items() {
    let texts = vec![
        String::from("{\"name\": \"A\", \"description\": \"a\"}"),
        String::from("{\"name\": \"B\", \"description\": \"b\"}"),
    ];
    let once = decode_items(&texts).unwrap();
    let twice = decode_items(&texts).unwrap();
    assert_eq!(once.len(), twice.len());
    for (x, y) in once.iter().zip(twice.iter()) {
        assert_eq!(x.name, y.name);
        assert_eq!(x.description, y.description);
    }
}
