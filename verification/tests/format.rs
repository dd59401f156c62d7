use noyalib_lsp::format::{edits_for, end_position, full_document_edits, TextEdit};
use serde_json::Value as JsonValue;

fn values(edits: &[TextEdit]) -> Vec<JsonValue> {
    edits
        .iter()
        .map(|e| serde_json::from_str(&e.to_json()).unwrap())
        .collect()
}

#[test]
fn already_canonical_input_returns_empty_edits() {
    let edits = full_document_edits("a: 1\nb: 2\n").unwrap();
    assert!(edits.is_empty());
}

#[test]
fn unparseable_input_propagates_error() {
    let res = full_document_edits("a: [\n");
    assert!(res.is_err());
}

#[test]
fn identity_input_produces_no_edits() {
    let edits = full_document_edits("simple: yaml\n").unwrap();
    assert!(edits.is_empty());
}

#[test]
fn non_canonical_input_produces_one_full_range_edit() {
    let edits = values(&full_document_edits("a:    1\nb:    2\n").unwrap());
    assert_eq!(edits.len(), 1, "expected a single whole-document edit");
    let e = &edits[0];
    assert_eq!(e["range"]["start"]["line"], 0);
    assert_eq!(e["range"]["start"]["character"], 0);
    assert!(e["range"]["end"]["line"].is_u64());
    assert!(e["range"]["end"]["character"].is_u64());
    assert_eq!(e["newText"], "a: 1\nb: 2\n");
}

#[test]
fn end_position_for_trailing_newline_input() {
    let edits = values(&full_document_edits("a:    1\nb:    2\n").unwrap());
    assert_eq!(edits[0]["range"]["end"]["line"], 1);
}

#[test]
fn end_position_for_input_without_trailing_newline() {
    let edits = values(&full_document_edits("a:    1").unwrap());
    assert_eq!(edits.len(), 1);
    assert_eq!(edits[0]["range"]["end"]["line"], 1);
    assert_eq!(edits[0]["range"]["end"]["character"], "a:    1".len());
}

#[test]
fn multi_line_nested_input_produces_edit() {
    let edits = values(&full_document_edits("a:\n  - 1\n  -   2\n").unwrap());
    assert_eq!(edits.len(), 1);
    assert_eq!(edits[0]["newText"], "a:\n  - 1\n  - 2\n");
}

#[test]
fn end_position_follows_str_lines() {
    assert_eq!(end_position(""), (1, 0));
    assert_eq!(end_position("abc"), (1, 3));
    assert_eq!(end_position("abc\n"), (0, 3));
    assert_eq!(end_position("a\nbc\r\n"), (1, 2));
    assert_eq!(end_position("a\nbc\r"), (1, 3));
    assert_eq!(end_position("a\n\n"), (1, 0));
    assert_eq!(end_position("\n"), (0, 0));
    assert_eq!(end_position("x\né"), (1, 2));
    for text in ["", "abc", "abc\n", "a\nbc\r\n", "a\nbc\r", "a\n\n", "\r\n", "x\né😀"] {
        let expected_char = text.lines().last().unwrap_or("").len();
        let expected_line = text
            .bytes()
            .filter(|&b| b == b'\n')
            .count()
            .max(1)
            .saturating_sub(if text.ends_with('\n') { 1 } else { 0 });
        assert_eq!(end_position(text), (expected_line, expected_char), "{text:?}");
    }
}

#[test]
fn edits_for_compares_with_the_formatted_text() {
    assert!(edits_for("a: 1\n", "a: 1\n".to_string()).is_empty());
    let edits = edits_for("a:  1", "a: 1\n".to_string());
    assert_eq!(edits.len(), 1);
    assert_eq!(edits[0].range, ((0, 0), (1, 5)));
    assert_eq!(edits[0].new_text, "a: 1\n");
    assert_eq!(
        edits[0].to_json(),
        "{\"newText\":\"a: 1\\n\",\"range\":{\"end\":{\"character\":5,\"line\":1},\"start\":{\"character\":0,\"line\":0}}}"
    );
}

#[test]
fn blank_input_formats_to_nothing() {
    let edits = full_document_edits(" \n\t\r\n").unwrap();
    assert_eq!(edits.len(), 1);
    assert_eq!(edits[0].new_text, "");
    assert!(full_document_edits("").unwrap().is_empty());
}

#[test]
fn edit_range_reaches_the_end_of_a_document_without_trailing_newline() {
    for text in ["a:    1", "x\né😀", "a\r\nb", "only"] {
        let (line, character) = end_position(text);
        let last_line = text.split('\n').count() - 1;
        let last_units = text.rsplit('\n').next().unwrap().encode_utf16().count();
        assert!((line, character) >= (last_line, last_units), "{text:?}");
    }
}

/// The byte offset of an LSP position in `text`, clamped as the protocol
/// clamps: a column past its line's end is that end, a line past the last
/// one is the end of the document.
fn offset_of(text: &str, (line, character): (usize, usize)) -> usize {
    let mut l = 0;
    let mut c = 0;
    for (i, ch) in text.char_indices() {
        if l == line && (c >= character || ch == '\n') {
            return i;
        }
        if ch == '\n' {
            l += 1;
            c = 0;
        } else {
            c += ch.len_utf16();
        }
    }
    text.len()
}

fn apply(text: &str, edits: &[TextEdit]) -> String {
    let mut out = text.to_string();
    for e in edits.iter().rev() {
        let start = offset_of(text, e.range.0);
        let end = offset_of(text, e.range.1);
        out.replace_range(start..end, &e.new_text);
    }
    out
}

#[test]
fn applying_the_edits_gives_the_formatted_document() {
    for text in ["a:    1", "a:    1\nb:    2", "k:   [1,  2]", "a: 1\nb: 2", "x:  é😀"] {
        let edits = full_document_edits(text).unwrap();
        let formatted = if edits.is_empty() { text.to_string() } else { edits[0].new_text.clone() };
        assert_eq!(apply(text, &edits), formatted, "{text:?}");
    }
}

#[test]
fn applying_the_edit_keeps_a_final_newline() {
    let edits = full_document_edits("a:  1\n").unwrap();
    assert_eq!(edits.len(), 1);
    assert_eq!(edits[0].new_text, "a: 1\n");
    assert_eq!(edits[0].range, ((0, 0), (0, 5)));
    assert_eq!(apply("a:  1\n", &edits), "a: 1\n\n");
}
