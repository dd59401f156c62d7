use noyalib_lsp::diagnostics::{
    collect, default_range, diagnostic_from_report, diagnostics_for, floor_char_boundary,
    lsp_position, lsp_range, notification_json, publish_diagnostics, severity_number, Diagnostic,
    ParseReport, Severity, SourceSpan,
};
use serde_json::Value as JsonValue;

fn as_json(d: &Diagnostic) -> JsonValue {
    serde_json::from_str(&d.to_json()).unwrap()
}

#[test]
fn collect_accepts_a_multi_document_stream() {
    // A `---`-separated stream is valid YAML and must not raise a false
    // parse error.
    assert!(collect("--- a\n--- b\n...\n").is_empty());
    assert!(collect("%YAML 1.2\n---\nk: v\n---\n- 1\n").is_empty());
}

#[test]
fn collect_reports_an_error_in_any_document_of_a_stream() {
    let d = collect("k: v\n---\nk: [\n");
    assert_eq!(d.len(), 1);
    assert_eq!(as_json(&d[0])["severity"].as_i64(), Some(1));
}

#[test]
fn collect_returns_empty_on_valid_yaml() {
    assert!(collect("a: 1\nb: 2\n").is_empty());
}

#[test]
fn collect_returns_one_diagnostic_per_parse_error() {
    let d = collect("a: [\n");
    assert_eq!(d.len(), 1);
    let v = as_json(&d[0]);
    assert_eq!(v["severity"].as_i64(), Some(1));
    assert_eq!(v["source"].as_str(), Some("noyalib"));
    assert_eq!(v["code"].as_str(), Some("noyalib::parse"));
    assert!(!v["message"].as_str().unwrap().is_empty());
}

#[test]
fn publish_diagnostics_wraps_in_jsonrpc_envelope() {
    let s = publish_diagnostics("file:///tmp/a.yaml", "a: 1\n").unwrap();
    let v: JsonValue = serde_json::from_str(&s).unwrap();
    assert_eq!(v["jsonrpc"].as_str(), Some("2.0"));
    assert_eq!(
        v["method"].as_str(),
        Some("textDocument/publishDiagnostics"),
    );
    assert_eq!(v["params"]["uri"].as_str(), Some("file:///tmp/a.yaml"));
    let diags = v["params"]["diagnostics"].as_array().unwrap();
    assert!(diags.is_empty());
}

#[test]
fn publish_diagnostics_includes_errors_for_invalid_yaml() {
    let s = publish_diagnostics("file:///tmp/a.yaml", "k: [\n").unwrap();
    let v: JsonValue = serde_json::from_str(&s).unwrap();
    let diags = v["params"]["diagnostics"].as_array().unwrap();
    assert_eq!(diags.len(), 1);
}

#[test]
fn diagnostic_range_is_well_formed() {
    let d = collect("a: [\n");
    let v = as_json(&d[0]);
    let range = &v["range"];
    assert!(range["start"]["line"].is_u64());
    assert!(range["end"]["line"].is_u64());
}

#[test]
fn diagnostic_uses_the_parser_source_location() {
    let d = collect("valid: true\ninvalid: [\n");
    let v = as_json(&d[0]);
    let range = &v["range"];
    assert_ne!(range["start"]["line"].as_u64(), Some(0));
}

#[test]
fn byte_spans_are_converted_to_utf16_positions() {
    let text = "a😀b\nvalue";
    let start = text.find('b').unwrap();
    let (from, to) = lsp_range(text, SourceSpan::new(start, 1));
    assert_eq!(from, (0, 3));
    assert_eq!(to, (0, 4));

    let second_line = text.find("value").unwrap();
    assert_eq!(lsp_range(text, SourceSpan::new(second_line, 1)).0, (1, 0));
}

#[test]
fn byte_spans_never_split_utf8_scalars() {
    let text = "😀";
    let (from, to) = lsp_range(text, SourceSpan::new(1, 1));
    assert_eq!(from, (0, 0));
    assert_eq!(to, (0, 2));
}

#[test]
fn published_notification_matches_serde_json_output() {
    let s = publish_diagnostics("file:///tmp/a.yaml", "a: 1\n").unwrap();
    assert_eq!(
        s,
        "{\"jsonrpc\":\"2.0\",\"method\":\"textDocument/publishDiagnostics\",\"params\":{\"diagnostics\":[],\"uri\":\"file:///tmp/a.yaml\"}}"
    );
    let v: JsonValue = serde_json::from_str(&s).unwrap();
    assert_eq!(v.to_string(), s);
}

#[test]
fn published_error_notification_round_trips_through_serde_json() {
    let s = publish_diagnostics("file:///tmp/quote\"d.yaml", "k: v\n---\nk: [\n").unwrap();
    let v: JsonValue = serde_json::from_str(&s).unwrap();
    assert_eq!(v.to_string(), s);
    assert_eq!(v["params"]["uri"].as_str(), Some("file:///tmp/quote\"d.yaml"));
}

#[test]
fn diagnostic_json_is_what_serde_json_writes() {
    let report = ParseReport {
        span: Some(SourceSpan::new(2, 1)),
        severity: Severity::Warning,
        code: "noyalib::parse".to_string(),
        message: "tab\there \"quoted\" \u{1} \u{8}".to_string(),
    };
    let d = diagnostic_from_report("a\nbc", &report);
    assert_eq!(d.range, ((1, 0), (1, 1)));
    assert_eq!(d.severity, 2);
    assert_eq!(d.source, "noyalib");
    let v = as_json(&d);
    assert_eq!(v.to_string(), d.to_json());
    assert_eq!(v["message"].as_str(), Some("tab\there \"quoted\" \u{1} \u{8}"));
}

#[test]
fn report_without_span_uses_the_default_range() {
    let report = ParseReport {
        span: None,
        severity: Severity::Other,
        code: "noyalib::error".to_string(),
        message: "m".to_string(),
    };
    let d = diagnostic_from_report("abc", &report);
    assert_eq!(d.range, ((0, 0), (0, 1)));
    assert_eq!(d.severity, 1);
    assert_eq!(default_range(), ((0, 0), (0, 1)));
}

#[test]
fn severity_numbers_follow_the_protocol() {
    assert_eq!(severity_number(Severity::Error), 1);
    assert_eq!(severity_number(Severity::Warning), 2);
    assert_eq!(severity_number(Severity::Information), 3);
    assert_eq!(severity_number(Severity::Hint), 4);
    assert_eq!(severity_number(Severity::Other), 1);
}

#[test]
fn no_report_gives_no_diagnostics() {
    assert!(diagnostics_for("a: 1\n", None).is_empty());
    let report = ParseReport {
        span: Some(SourceSpan::new(0, 1)),
        severity: Severity::Hint,
        code: "c".to_string(),
        message: "m".to_string(),
    };
    let d = diagnostics_for("x", Some(report));
    assert_eq!(d.len(), 1);
    assert_eq!(d[0].severity, 4);
    assert_eq!(
        notification_json("u", &d),
        "{\"jsonrpc\":\"2.0\",\"method\":\"textDocument/publishDiagnostics\",\"params\":{\"diagnostics\":[{\"code\":\"c\",\"message\":\"m\",\"range\":{\"end\":{\"character\":1,\"line\":0},\"start\":{\"character\":0,\"line\":0}},\"severity\":4,\"source\":\"noyalib\"}],\"uri\":\"u\"}}"
    );
}

#[test]
fn floor_char_boundary_moves_back_to_a_scalar_start() {
    let text = "a😀b";
    assert_eq!(floor_char_boundary(text, 0), 0);
    assert_eq!(floor_char_boundary(text, 1), 1);
    assert_eq!(floor_char_boundary(text, 2), 1);
    assert_eq!(floor_char_boundary(text, 4), 1);
    assert_eq!(floor_char_boundary(text, 5), 5);
    assert_eq!(floor_char_boundary(text, 6), 6);
    assert_eq!(floor_char_boundary(text, 100), 6);
    assert_eq!(floor_char_boundary("", 3), 0);
}

#[test]
fn lsp_position_counts_lines_and_utf16_units() {
    let text = "é\n😀x\r\ny";
    assert_eq!(lsp_position(text, 0), (0, 0));
    assert_eq!(lsp_position(text, 2), (0, 1));
    assert_eq!(lsp_position(text, 3), (1, 0));
    assert_eq!(lsp_position(text, 7), (1, 2));
    assert_eq!(lsp_position(text, 8), (1, 3));
    assert_eq!(lsp_position(text, 9), (1, 4));
    assert_eq!(lsp_position(text, 10), (2, 0));
    assert_eq!(lsp_position(text, text.len()), (2, 1));
}

#[test]
fn spans_past_the_end_are_clamped() {
    let text = "ab\ncd";
    assert_eq!(lsp_range(text, SourceSpan::new(100, 5)), ((1, 2), (1, 2)));
    assert_eq!(lsp_range(text, SourceSpan::new(1, usize::MAX)), ((0, 1), (1, 2)));
    assert_eq!(lsp_range(text, SourceSpan::new(4, 0)), ((1, 1), (1, 2)));
    assert_eq!(lsp_range("", SourceSpan::new(0, 0)), ((0, 0), (0, 0)));
}

#[test]
fn source_span_accessors() {
    let span = SourceSpan::new(3, 4);
    assert_eq!(span.offset(), 3);
    assert_eq!(span.length(), 4);
    assert_eq!(span.end(), 7);
    assert_eq!(SourceSpan::new(usize::MAX, 2).end(), usize::MAX);
}

#[test]
fn floor_char_boundary_is_idempotent_and_lands_on_boundaries() {
    let text = "a😀é\nz";
    for offset in 0..12 {
        let b = floor_char_boundary(text, offset);
        assert!(b <= offset);
        assert!(text.is_char_boundary(b));
        assert_eq!(floor_char_boundary(text, b), b);
        for j in b + 1..=offset.min(text.len()) {
            assert!(!text.is_char_boundary(j));
        }
    }
}

#[test]
fn ranges_are_well_formed_for_every_span() {
    let text = "a😀\né\r\nb";
    for offset in 0..14 {
        for length in 0..6 {
            let (start, end) = lsp_range(text, SourceSpan::new(offset, length));
            assert!(start <= end, "{offset} {length}");
            if offset < text.len() {
                assert!(start < end, "{offset} {length}");
            }
        }
    }
}
