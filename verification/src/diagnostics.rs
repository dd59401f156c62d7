//! `textDocument/publishDiagnostics`: YAML parse errors as LSP diagnostic
//! objects, and the JSON-RPC notification that carries them.
pub use crate::position::{floor_char_boundary, lsp_position, lsp_range, SourceSpan};
use crate::json::{json_int, json_string, push_i32, push_json_string, push_key, push_range, push_text, range_value};
use crate::json_value::{
    json_read, lemma_json_read_write, lemma_write_five_members, lemma_write_items_push,
    lemma_write_three_members, lemma_write_two_members, member_text, write_items, write_value,
    JsonValue,
};
use crate::position::{
    ceil_boundary, floor_boundary, range_end, range_start, range_view, span_end, span_range,
};
use crate::text::{is_boundary, position_at, utf8_len};
use vstd::prelude::*;
use vstd::string::StringExecFns;

verus! {

/// LSP severity level for errors.
pub const SEVERITY_ERROR: i32 = 1;

/// LSP severity level for warnings.
pub const SEVERITY_WARNING: i32 = 2;

/// LSP severity level for information.
pub const SEVERITY_INFORMATION: i32 = 3;

/// LSP severity level for hints.
pub const SEVERITY_HINT: i32 = 4;

/// How serious a parser report is; `Other` stands for any level the parser
/// may add later.
#[derive(Clone, Copy, Debug, PartialEq, Eq)]
pub enum Severity {
    Error,
    Warning,
    Information,
    Hint,
    Other,
}

/// The LSP number for a severity; levels the protocol does not know are
/// reported as errors.
pub open spec fn severity_code(severity: Severity) -> i32 {
    match severity {
        Severity::Error => SEVERITY_ERROR,
        Severity::Warning => SEVERITY_WARNING,
        Severity::Information => SEVERITY_INFORMATION,
        Severity::Hint => SEVERITY_HINT,
        Severity::Other => SEVERITY_ERROR,
    }
}

/// The LSP number for a severity.
pub fn severity_number(severity: Severity) -> (n: i32)
    ensures
        n == severity_code(severity),
{
    match severity {
        Severity::Error => SEVERITY_ERROR,
        Severity::Warning => SEVERITY_WARNING,
        Severity::Information => SEVERITY_INFORMATION,
        Severity::Hint => SEVERITY_HINT,
        Severity::Other => SEVERITY_ERROR,
    }
}

/// What the YAML parser reports about a document it rejects: where (the
/// primary label's byte span, when there is one), how serious, a stable
/// code, and a message.
#[derive(Debug)]
pub struct ParseReport {
    pub span: Option<SourceSpan>,
    pub severity: Severity,
    pub code: String,
    pub message: String,
}

/// A parser report with its texts as character sequences.
pub struct ReportSpec {
    pub span: Option<SourceSpan>,
    pub severity: Severity,
    pub code: Seq<char>,
    pub message: Seq<char>,
}

impl View for ParseReport {
    type V = ReportSpec;

    open spec fn view(&self) -> ReportSpec {
        ReportSpec {
            span: self.span,
            severity: self.severity,
            code: self.code@,
            message: self.message@,
        }
    }
}

/// One LSP diagnostic: a range, a severity number, a code, the tool that
/// produced it, and a message.
#[derive(Debug)]
pub struct Diagnostic {
    pub range: ((usize, usize), (usize, usize)),
    pub severity: i32,
    pub code: String,
    pub source: String,
    pub message: String,
}

/// A diagnostic with its positions as integers and its texts as character
/// sequences.
pub struct DiagnosticSpec {
    pub range: ((nat, nat), (nat, nat)),
    pub severity: int,
    pub code: Seq<char>,
    pub source: Seq<char>,
    pub message: Seq<char>,
}

impl View for Diagnostic {
    type V = DiagnosticSpec;

    open spec fn view(&self) -> DiagnosticSpec {
        DiagnosticSpec {
            range: range_view(self.range),
            severity: self.severity as int,
            code: self.code@,
            source: self.source@,
            message: self.message@,
        }
    }
}

/// The range used when the parser gives no location: the first character
/// of the first line.
pub open spec fn fallback_range() -> ((nat, nat), (nat, nat)) {
    ((0, 0), (0, 1))
}

/// The diagnostic that describes `report` for the document `text`.
pub open spec fn report_diagnostic(text: Seq<char>, report: ReportSpec) -> DiagnosticSpec {
    DiagnosticSpec {
        range: match report.span {
            Some(span) => span_range(text, span),
            None => fallback_range(),
        },
        severity: severity_code(report.severity) as int,
        code: report.code,
        source: "noyalib"@,
        message: report.message,
    }
}

/// A diagnostic as a JSON object, its keys in lexicographic order.
pub open spec fn diagnostic_value(d: DiagnosticSpec) -> JsonValue {
    JsonValue::Object(
        seq![
            ("code"@, JsonValue::Text(d.code)),
            ("message"@, JsonValue::Text(d.message)),
            ("range"@, range_value(d.range)),
            ("severity"@, JsonValue::Number(d.severity)),
            ("source"@, JsonValue::Text(d.source)),
        ],
    )
}

/// The compact JSON text of a diagnostic.
pub open spec fn json_diagnostic(d: DiagnosticSpec) -> Seq<char> {
    write_value(diagnostic_value(d))
}

/// The JSON-RPC `textDocument/publishDiagnostics` notification for `uri`
/// carrying `diagnostics`: no `id`, the `uri` carried verbatim.
pub open spec fn notification_value(uri: Seq<char>, diagnostics: Seq<DiagnosticSpec>) -> JsonValue {
    JsonValue::Object(
        seq![
            ("jsonrpc"@, JsonValue::Text("2.0"@)),
            ("method"@, JsonValue::Text("textDocument/publishDiagnostics"@)),
            (
                "params"@,
                JsonValue::Object(
                    seq![
                        (
                            "diagnostics"@,
                            JsonValue::Array(
                                diagnostics.map_values(|d: DiagnosticSpec| diagnostic_value(d)),
                            ),
                        ),
                        ("uri"@, JsonValue::Text(uri)),
                    ],
                ),
            ),
        ],
    )
}

/// The compact JSON text of the notification for `uri` and `diagnostics`.
pub open spec fn json_notification(uri: Seq<char>, diagnostics: Seq<DiagnosticSpec>) -> Seq<char> {
    write_value(notification_value(uri, diagnostics))
}

/// The text of a notification object, one piece after another as it is
/// written.
proof fn lemma_notification_text(uri: Seq<char>, ds: Seq<DiagnosticSpec>)
    ensures
        json_notification(uri, ds) == (((((Seq::<char>::empty().push('{') + member_text(
            ("jsonrpc"@, JsonValue::Text("2.0"@)),
        )).push(',') + member_text(
            ("method"@, JsonValue::Text("textDocument/publishDiagnostics"@)),
        )).push(',') + json_string("params"@) + seq![':']).push('{') + json_string(
            "diagnostics"@,
        ) + seq![':'] + seq!['['] + write_items(
            ds.map_values(|d: DiagnosticSpec| diagnostic_value(d)),
        )).push(']').push(',') + member_text(("uri"@, JsonValue::Text(uri)))).push('}').push(
            '}',
        ),
{
    let m = (notification_value(uri, ds))->Object_0;
    let p = (m[2].1)->Object_0;
    assert(p =~= seq![p[0], p[1]]);
    lemma_write_two_members(p[0], p[1]);
    assert(m =~= seq![m[0], m[1], m[2]]);
    lemma_write_three_members(m[0], m[1], m[2]);
    lemma_flatten_notification(
        member_text(m[0]),
        member_text(m[1]),
        json_string("params"@),
        json_string("diagnostics"@),
        write_items(ds.map_values(|d: DiagnosticSpec| diagnostic_value(d))),
        member_text(p[1]),
    );
}

/// Regrouping the pieces of a notification object.
proof fn lemma_flatten_notification(
    a: Seq<char>,
    b: Seq<char>,
    params: Seq<char>,
    diagnostics: Seq<char>,
    items: Seq<char>,
    u: Seq<char>,
)
    ensures
        seq!['{'] + (a + seq![','] + (b + seq![','] + (params + seq![':'] + (seq!['{'] + ((
        diagnostics + seq![':'] + (seq!['['] + items + seq![']'])) + seq![','] + u)
            + seq!['}'])))) + seq!['}'] == (((((Seq::<char>::empty().push('{') + a).push(',')
            + b).push(',') + params + seq![':']).push('{') + diagnostics + seq![':'] + seq!['[']
            + items).push(']').push(',') + u).push('}').push('}'),
{
    assert(seq!['{'] + (a + seq![','] + (b + seq![','] + (params + seq![':'] + (seq!['{'] + ((
    diagnostics + seq![':'] + (seq!['['] + items + seq![']'])) + seq![','] + u) + seq!['}']))))
        + seq!['}'] =~= (((((Seq::<char>::empty().push('{') + a).push(',') + b).push(',')
        + params + seq![':']).push('{') + diagnostics + seq![':'] + seq!['['] + items).push(']').push(
        ',',
    ) + u).push('}').push('}'));
}

impl Diagnostic {
    /// The diagnostic as a compact JSON object.
    pub fn to_json(&self) -> (json: String)
        ensures
            json@ == json_diagnostic(self@),
            json_read(json@) == Some(diagnostic_value(self@)),
    {
        let ghost m = diagnostic_value(self@)->Object_0;
        let mut out = String::new();
        out.push('{');
        let ghost before = out@;
        push_key(&mut out, "code");
        push_json_string(&mut out, self.code.as_str());
        assert(out@ =~= before + member_text(m[0]));
        out.push(',');
        let ghost before = out@;
        push_key(&mut out, "message");
        push_json_string(&mut out, self.message.as_str());
        assert(out@ =~= before + member_text(m[1]));
        out.push(',');
        let ghost before = out@;
        push_key(&mut out, "range");
        push_range(&mut out, self.range);
        assert(out@ =~= before + member_text(m[2]));
        out.push(',');
        let ghost before = out@;
        push_key(&mut out, "severity");
        push_i32(&mut out, self.severity);
        assert(out@ =~= before + member_text(m[3]));
        out.push(',');
        let ghost before = out@;
        push_key(&mut out, "source");
        push_json_string(&mut out, self.source.as_str());
        assert(out@ =~= before + member_text(m[4]));
        out.push('}');
        proof {
            assert(m =~= seq![m[0], m[1], m[2], m[3], m[4]]);
            lemma_write_five_members(m[0], m[1], m[2], m[3], m[4]);
            lemma_json_read_write(diagnostic_value(self@));
        }
        out
    }
}

/// The range used when the parser gives no location: the first character
/// of the first line.
pub fn default_range() -> (r: ((usize, usize), (usize, usize)))
    ensures
        range_view(r) == fallback_range(),
{
    ((0, 0), (0, 1))
}

/// The diagnostic that describes `report` for the document `text`: the
/// report's span converted to an LSP range (or the fallback range), its
/// severity number, its code and message, and `noyalib` as the source.
pub fn diagnostic_from_report(text: &str, report: &ParseReport) -> (d: Diagnostic)
    ensures
        d@ == report_diagnostic(text@, report@),
{
    let range = match report.span {
        Some(span) => lsp_range(text, span),
        None => default_range(),
    };
    Diagnostic {
        range,
        severity: severity_number(report.severity),
        code: report.code.clone(),
        source: String::from_str("noyalib"),
        message: report.message.clone(),
    }
}

/// A parser outcome with its texts as character sequences.
pub open spec fn outcome_view(report: Option<ParseReport>) -> Option<ReportSpec> {
    match report {
        Some(r) => Some(r@),
        None => None,
    }
}

/// What parsing `text` as a stream of YAML documents reports: `None` when
/// every document parses, else the parser's report about the failure.
pub uninterp spec fn yaml_stream_error(text: Seq<char>) -> Option<ReportSpec>;

/// Calls `noyalib::load_all_as::<noyalib::Value>` on `text`, which parses
/// it as a stream of `---`-separated YAML documents. On failure it reads the
/// error's `diagnostic()`: the span of its primary label, its severity, its
/// code (`DiagnosticCode::as_str`) and its message.
/// The contract claims that the outcome depends on `text` alone (named
/// `yaml_stream_error`) and that the severity is always `Error`, as
/// `Error::diagnostic` builds it; which texts parse, and what the report
/// holds, is left unsaid.
#[verifier::external_body]
fn load_yaml_stream(text: &str) -> (report: Option<ParseReport>)
    ensures
        outcome_view(report) == yaml_stream_error(text@),
        report matches Some(r) ==> r.severity == Severity::Error,
{
    let err = noyalib::load_all_as::<noyalib::Value>(text).err()?;
    let d = err.diagnostic();
    let span = d.primary_label().map(|l| SourceSpan::new(l.span().offset(), l.span().length()));
    let severity = match d.severity() {
        noyalib::DiagnosticSeverity::Error => Severity::Error,
        noyalib::DiagnosticSeverity::Warning => Severity::Warning,
        noyalib::DiagnosticSeverity::Information => Severity::Information,
        noyalib::DiagnosticSeverity::Hint => Severity::Hint,
        _ => Severity::Other,
    };
    Some(ParseReport { span, severity, code: d.code().as_str().to_string(), message: d.message().to_string() })
}

/// The diagnostics for `text` given what the parser reported: none when it
/// reported nothing, else the one diagnostic that describes the report.
pub open spec fn report_diagnostics(text: Seq<char>, report: Option<ReportSpec>) -> Seq<
    DiagnosticSpec,
> {
    match report {
        Some(r) => seq![report_diagnostic(text, r)],
        None => Seq::empty(),
    }
}

/// A parser report becomes exactly one diagnostic, located at the report's
/// own span: its range is the LSP range of that span (`lsp_range`), and
/// when the span is a non-empty run of whole characters inside the document
/// (and its end fits in a `usize`)
/// the range runs from the position of the span's first byte to the
/// position of the byte just after it. A report without a span is placed
/// on the first character. The code and message are the report's, the
/// source is `noyalib`.
pub proof fn lemma_diagnostic_locates_span(text: Seq<char>, r: ReportSpec)
    ensures
        report_diagnostics(text, Some(r)).len() == 1,
        r.span matches Some(s) ==> report_diagnostics(text, Some(r))[0].range == span_range(
            text,
            s,
        ),
        r.span matches Some(s) ==> (is_boundary(text, s.offset as int) && is_boundary(
            text,
            s.offset + s.length,
        ) && 0 < s.length && s.offset + s.length <= utf8_len(text) && s.offset + s.length
            <= usize::MAX ==> report_diagnostics(
            text,
            Some(r),
        )[0].range == (position_at(text, s.offset as int), position_at(text, s.offset + s.length))),
        r.span is None ==> report_diagnostics(text, Some(r))[0].range == fallback_range(),
        report_diagnostics(text, Some(r))[0].code == r.code,
        report_diagnostics(text, Some(r))[0].message == r.message,
        report_diagnostics(text, Some(r))[0].source == "noyalib"@,
        report_diagnostics(text, None) == Seq::<DiagnosticSpec>::empty(),
{
    if let Some(s) = r.span {
        let n = utf8_len(text) as int;
        if is_boundary(text, s.offset as int) && is_boundary(text, s.offset + s.length) && 0
            < s.length && s.offset + s.length <= n && s.offset + s.length <= usize::MAX {
            assert(span_end(s) == s.offset + s.length);
            assert(floor_boundary(text, s.offset as int) == s.offset);
            assert(range_start(text, s) == s.offset);
            assert(ceil_boundary(text, s.offset + s.length) == s.offset + s.length);
            assert(range_end(text, s) == s.offset + s.length);
        }
    }
}

/// The diagnostics for `text` once the parser's outcome `report` is known.
pub fn diagnostics_for(text: &str, report: Option<ParseReport>) -> (diagnostics: Vec<
    Diagnostic,
>)
    ensures
        diagnostics@.map_values(|d: Diagnostic| d@) == report_diagnostics(
            text@,
            outcome_view(report),
        ),
        diagnostics@.len() == 0 <==> report is None,
        report matches Some(r) ==> (r.span matches Some(s) ==> diagnostics@[0]@.range
            == span_range(text@, s)),
{
    let ghost outcome = outcome_view(report);
    let mut diagnostics = Vec::new();
    if let Some(r) = report {
        diagnostics.push(diagnostic_from_report(text, &r));
    }
    assert(diagnostics@.map_values(|d: Diagnostic| d@) =~= report_diagnostics(
        text@,
        outcome_view(report),
    ));
    proof {
        if let Some(r) = outcome {
            lemma_diagnostic_locates_span(text@, r);
            assert(diagnostics@.map_values(|d: Diagnostic| d@)[0] == diagnostics@[0]@);
        }
    }
    diagnostics
}

/// The diagnostics for a YAML document (or stream of documents): empty when
/// it parses, else one diagnostic located where the parser stopped.
pub fn collect(text: &str) -> (diagnostics: Vec<Diagnostic>)
    ensures
        diagnostics@.map_values(|d: Diagnostic| d@) == report_diagnostics(
            text@,
            yaml_stream_error(text@),
        ),
        diagnostics@.len() == 0 <==> yaml_stream_error(text@) is None,
        yaml_stream_error(text@) matches Some(r) ==> (r.span matches Some(s) ==> diagnostics@[0]@.range
            == span_range(text@, s)),
        forall|i: int|
            0 <= i < diagnostics@.len() ==> #[trigger] diagnostics@[i].severity == SEVERITY_ERROR
                && diagnostics@[i].source@ == "noyalib"@,
{
    let report = load_yaml_stream(text);
    let diagnostics = diagnostics_for(text, report);
    proof {
        let m = diagnostics@.map_values(|d: Diagnostic| d@);
        assert(m.len() == diagnostics@.len());
        if diagnostics@.len() > 0 {
            assert(m[0] == diagnostics@[0]@);
            assert(diagnostics@.len() == 1);
        }
    }
    diagnostics
}

/// The `textDocument/publishDiagnostics` notification for `uri` carrying
/// `diagnostics`, as compact JSON; `json_read` reads it back as that
/// notification.
#[verifier::rlimit(60)]
pub fn notification_json(uri: &str, diagnostics: &Vec<Diagnostic>) -> (json: String)
    ensures
        json@ == json_notification(uri@, diagnostics@.map_values(|d: Diagnostic| d@)),
        json_read(json@) == Some(
            notification_value(uri@, diagnostics@.map_values(|d: Diagnostic| d@)),
        ),
{
    let ghost ds = diagnostics@.map_values(|d: Diagnostic| d@);
    let ghost items = ds.map_values(|d: DiagnosticSpec| diagnostic_value(d));
    let ghost m = notification_value(uri@, ds)->Object_0;
    let mut out = String::new();
    out.push('{');
    let ghost before = out@;
    push_key(&mut out, "jsonrpc");
    push_json_string(&mut out, "2.0");
    assert(out@ =~= before + member_text(m[0]));
    out.push(',');
    let ghost before = out@;
    push_key(&mut out, "method");
    push_json_string(&mut out, "textDocument/publishDiagnostics");
    assert(out@ =~= before + member_text(m[1]));
    out.push(',');
    push_key(&mut out, "params");
    out.push('{');
    push_key(&mut out, "diagnostics");
    let ghost head = out@;
    out.push('[');
    let mut i: usize = 0;
    while i < diagnostics.len()
        invariant
            i <= diagnostics@.len(),
            ds == diagnostics@.map_values(|d: Diagnostic| d@),
            items == ds.map_values(|d: DiagnosticSpec| diagnostic_value(d)),
            out@ == head + seq!['['] + write_items(items.take(i as int)),
        decreases diagnostics@.len() - i,
    {
        let ghost before = out@;
        if i > 0 {
            out.push(',');
        }
        let item = diagnostics[i].to_json();
        push_text(&mut out, item.as_str());
        proof {
            assert(items.take(i + 1) =~= items.take(i as int).push(items[i as int]));
            lemma_write_items_push(items.take(i as int), items[i as int]);
            assert(items[i as int] == diagnostic_value(diagnostics@[i as int]@));
            assert(out@ =~= head + seq!['['] + write_items(items.take(i + 1)));
        }
        i = i + 1;
    }
    proof {
        assert(items.take(diagnostics@.len() as int) =~= items);
    }
    out.push(']');
    out.push(',');
    let ghost before = out@;
    push_key(&mut out, "uri");
    push_json_string(&mut out, uri);
    assert(out@ =~= before + member_text(("uri"@, JsonValue::Text(uri@))));
    out.push('}');
    out.push('}');
    proof {
        lemma_notification_text(uri@, ds);
        lemma_json_read_write(notification_value(uri@, ds));
    }
    out
}

/// The JSON-RPC `textDocument/publishDiagnostics` notification for `uri`
/// with the diagnostics of `text`. It is always produced, with an empty
/// list for a valid document, so that the client clears stale diagnostics;
/// `json_read` reads it back as that notification.
pub fn publish_diagnostics(uri: &str, text: &str) -> (note: Option<String>)
    ensures
        note is Some,
        note matches Some(s) ==> s@ == json_notification(
            uri@,
            report_diagnostics(text@, yaml_stream_error(text@)),
        ),
        note matches Some(s) ==> json_read(s@) == Some(
            notification_value(uri@, report_diagnostics(text@, yaml_stream_error(text@))),
        ),
{
    let diagnostics = collect(text);
    Some(notification_json(uri, &diagnostics))
}

} // verus!
