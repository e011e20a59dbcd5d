use lsp_framing::Id;

#[test]
fn numbers_are_shown_in_decimal() {
    assert_eq!(Id::Number(0).to_string(), "0");
    assert_eq!(Id::Number(7).to_string(), "7");
    assert_eq!(Id::Number(10).to_string(), "10");
    assert_eq!(Id::Number(1234567890).to_string(), "1234567890");
    assert_eq!(Id::Number(u64::MAX).to_string(), "18446744073709551615");
}

#[test]
fn texts_are_shown_quoted() {
    assert_eq!(Id::Text("abc".to_string()).to_string(), "\"abc\"");
    assert_eq!(Id::Text(String::new()).to_string(), "\"\"");
    assert_eq!(Id::Text("a\"b\\c\n".to_string()).to_string(), "\"a\\\"b\\\\c\\n\"");
    assert_eq!(Id::Text("1".to_string()).to_string(), "\"1\"");
}

#[test]
fn identifiers_are_equal_when_variant_and_content_are() {
    assert_eq!(Id::Number(1), Id::Number(1));
    assert_ne!(Id::Number(1), Id::Number(2));
    assert_eq!(Id::Text("1".to_string()), Id::Text("1".to_string()));
    assert_ne!(Id::Text("1".to_string()), Id::Text("2".to_string()));
    assert_ne!(Id::Number(1), Id::Text("1".to_string()));
    let id = Id::Text("kept".to_string());
    assert_eq!(id.clone(), id);
}
