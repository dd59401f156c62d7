use noyalib_lsp::json::json_escape;
use serde_json::Value as JsonValue;

#[test]
fn json_escape_escapes_quotes_backslashes_and_controls() {
    assert_eq!(json_escape("plain"), "plain");
    assert_eq!(json_escape("a\"b\\c"), "a\\\"b\\\\c");
    assert_eq!(json_escape("\n\r\t"), "\\n\\r\\t");
    assert_eq!(json_escape("\u{0}\u{8}\u{c}\u{1f}"), "\\u0000\\u0008\\u000c\\u001f");
    assert_eq!(json_escape("é😀\u{7f}"), "é😀\u{7f}");
    assert_eq!(json_escape(""), "");
}

#[test]
fn json_escape_round_trips_through_a_json_parser() {
    for s in ["", "a: [\n", "tab\there", "\u{0}\u{1b}x", "quote \" and \\ slash /", "é😀"] {
        let literal = format!("\"{}\"", json_escape(s));
        let back: JsonValue = serde_json::from_str(&literal).unwrap();
        assert_eq!(back.as_str(), Some(s));
    }
}
