//! `textDocument/formatting`: re-emit a YAML document through noyalib's CST
//! formatter and answer with LSP `TextEdit`s, a single edit that replaces
//! the whole document (or none when it is already canonical).
use crate::json::{push_json_string, push_key, push_range, range_value};
use crate::json_value::{json_read, lemma_json_read_write, lemma_write_two_members, write_value, JsonValue};
use crate::position::{
    lemma_position_after_extend, position_le, position_lt, range_view,
};
use crate::text::{
    chars_of, current_line, lemma_encode_push, lemma_line_bounds, lemma_utf8_len_take,
    lemma_width_bounds, newline_count, position_after, utf16_len, utf8_len, utf8_width_of,
};
use vstd::prelude::*;
use vstd::string::StringExecFns;

verus! {

/// What noyalib's CST formatter (`noyalib::cst::format`) makes of `text`:
/// the canonical text, or `None` when it refuses the input.
pub uninterp spec fn yaml_formatted(text: Seq<char>) -> Option<Seq<char>>;

/// The error type of noyalib.
#[verifier::external_type_specification]
#[verifier::external_body]
pub struct ExYamlError(noyalib::Error);

/// True when `s` holds only spaces, tabs, newlines and carriage returns.
pub open spec fn is_yaml_blank(s: Seq<char>) -> bool {
    forall|i: int|
        0 <= i < s.len() ==> {
            let c = #[trigger] s[i];
            c == ' ' || c == '\t' || c == '\n' || c == '\r'
        }
}

/// Calls `noyalib::cst::format`, which re-lays out a YAML stream in
/// canonical style (two-space indentation, comments kept) or fails with
/// noyalib's error. The contract claims that the outcome depends on `text`
/// alone (named `yaml_formatted`) and, as the source's early return for
/// blank input shows, that a text of only spaces, tabs, newlines and
/// carriage returns formats to the empty text; what the canonical text of
/// any other input is, and which inputs fail, is left unsaid.
#[verifier::external_body]
fn cst_format(text: &str) -> (res: Result<String, noyalib::Error>)
    ensures
        res is Ok <==> yaml_formatted(text@) is Some,
        res matches Ok(s) ==> yaml_formatted(text@) == Some(s@),
        is_yaml_blank(text@) ==> res is Ok,
        res is Ok && is_yaml_blank(text@) ==> res->Ok_0@.len() == 0,
{
    noyalib::cst::format(text)
}

/// Why a document could not be formatted.
#[derive(Debug)]
pub enum FormatError {
    /// The formatter refused the input (it does not parse, exceeds a
    /// parser budget, or cannot be re-laid out without changing meaning).
    Yaml(noyalib::Error),
}

/// One LSP `TextEdit`: replace `range` with `new_text`.
#[derive(Debug)]
pub struct TextEdit {
    pub range: ((usize, usize), (usize, usize)),
    pub new_text: String,
}

/// A text edit with its positions as integers and its text as characters.
pub struct EditSpec {
    pub range: ((nat, nat), (nat, nat)),
    pub new_text: Seq<char>,
}

impl View for TextEdit {
    type V = EditSpec;

    open spec fn view(&self) -> EditSpec {
        EditSpec { range: range_view(self.range), new_text: self.new_text@ }
    }
}

/// `l` without one trailing carriage return.
pub open spec fn strip_cr(l: Seq<char>) -> Seq<char> {
    if l.len() > 0 && l.last() == '\r' {
        l.drop_last()
    } else {
        l
    }
}

/// True when `s` ends with a newline.
pub open spec fn ends_with_newline(s: Seq<char>) -> bool {
    s.len() > 0 && s.last() == '\n'
}

/// The last line of `s` as `str::lines` yields it: the final line ending
/// (a newline, or a carriage return and a newline) is not part of it, and
/// there is no empty line after a trailing newline; empty for empty `s`.
pub open spec fn last_line(s: Seq<char>) -> Seq<char> {
    if ends_with_newline(s) {
        strip_cr(current_line(s.drop_last()))
    } else {
        current_line(s)
    }
}

/// The end line of the whole-document range: the number of newlines, at
/// least one, less one when the text ends with a newline. A text without a
/// trailing newline thus ends one line past its last line, a range the LSP
/// lets the client clamp to the document's end.
pub open spec fn end_line(s: Seq<char>) -> nat {
    let n = if newline_count(s) >= 1 {
        newline_count(s)
    } else {
        1
    };
    if ends_with_newline(s) {
        (n - 1) as nat
    } else {
        n
    }
}

/// The end character of the whole-document range: the length in bytes of
/// the last line.
pub open spec fn end_character(s: Seq<char>) -> nat {
    utf8_len(last_line(s))
}

/// The edits that turn `text` into `formatted`: none when they are equal,
/// else one edit replacing everything from the start of the document to the
/// end position with `formatted`.
pub open spec fn document_edits(text: Seq<char>, formatted: Seq<char>) -> Seq<EditSpec> {
    if formatted == text {
        Seq::empty()
    } else {
        seq![EditSpec { range: ((0, 0), (end_line(text), end_character(text))), new_text: formatted }]
    }
}

/// A text edit as a JSON object, its keys in lexicographic order.
pub open spec fn edit_value(e: EditSpec) -> JsonValue {
    JsonValue::Object(
        seq![("newText"@, JsonValue::Text(e.new_text)), ("range"@, range_value(e.range))],
    )
}

/// The compact JSON text of a text edit.
pub open spec fn json_edit(e: EditSpec) -> Seq<char> {
    write_value(edit_value(e))
}

impl TextEdit {
    /// The edit as a compact JSON object.
    pub fn to_json(&self) -> (json: String)
        ensures
            json@ == json_edit(self@),
            json_read(json@) == Some(edit_value(self@)),
    {
        let mut out = String::new();
        out.push('{');
        push_key(&mut out, "newText");
        push_json_string(&mut out, self.new_text.as_str());
        out.push(',');
        push_key(&mut out, "range");
        push_range(&mut out, self.range);
        out.push('}');
        proof {
            let m = (edit_value(self@))->Object_0;
            lemma_write_two_members(m[0], m[1]);
            assert(m =~= seq![m[0], m[1]]);
            lemma_json_read_write(edit_value(self@));
        }
        assert(out@ =~= json_edit(self@));
        out
    }
}

/// For a document that does not end with a newline, the end of the
/// whole-document range lies at or past the document's end, so the edit
/// replaces everything: its line is the last line (or one past it for a
/// document without newlines) and its column, counted in bytes, is at least
/// the last line's length in UTF-16 code units.
pub proof fn lemma_edit_range_covers_document(text: Seq<char>)
    requires
        !ends_with_newline(text),
    ensures
        position_le(position_after(text), (end_line(text), end_character(text))),
{
    lemma_line_bounds(current_line(text));
}

/// How many characters of `s` lie before LSP position `p` (line, then
/// column), clamped as LSP clamps: a column past its line's end stands for
/// the end of that line, and a line past the last one for the end of the
/// document. It is the greatest `k` whose prefix `s.take(k)` does not end
/// after `p`.
pub open spec fn position_index(s: Seq<char>, p: (nat, nat)) -> nat
    decreases s.len(),
{
    if position_le(position_after(s), p) {
        s.len()
    } else {
        position_index(s.drop_last(), p)
    }
}

/// `s` with one LSP text edit applied: the characters between its start
/// and end positions are replaced by its new text.
pub open spec fn apply_edit(s: Seq<char>, e: EditSpec) -> Seq<char> {
    s.take(position_index(s, e.range.0) as int) + e.new_text + s.skip(
        position_index(s, e.range.1) as int,
    )
}

/// `s` with a list of LSP text edits applied, the last one first; for
/// edits listed in document order that do not overlap this is what the
/// protocol means by applying them all to the original text.
pub open spec fn apply_edits(s: Seq<char>, edits: Seq<EditSpec>) -> Seq<char>
    decreases edits.len(),
{
    if edits.len() == 0 {
        s
    } else {
        apply_edits(apply_edit(s, edits.last()), edits.drop_last())
    }
}

/// No character lies before the first position of a document.
proof fn lemma_position_index_origin(s: Seq<char>)
    ensures
        position_index(s, (0, 0)) == 0,
    decreases s.len(),
{
    if s.len() > 0 {
        let e = Seq::<char>::empty();
        assert(current_line(e) =~= e);
        lemma_position_after_extend(e, s);
        assert(e + s =~= s);
        assert(position_lt((0, 0), position_after(s)));
        lemma_position_index_origin(s.drop_last());
    }
}

/// Applying the edits that `full_document_edits` computes turns a document
/// that does not end with a newline into the formatted document (and an
/// empty list leaves it unchanged, as it already is the formatted text).
/// A document that ends with a newline keeps that newline after the edited
/// range: for `"a:  1\n"` formatted to `"a: 1\n"`, the edit ends at line
/// 0, column 5, and applying it gives `"a: 1\n\n"`.
pub proof fn lemma_edits_apply_to_formatted(text: Seq<char>, formatted: Seq<char>)
    requires
        !ends_with_newline(text),
    ensures
        apply_edits(text, document_edits(text, formatted)) == formatted,
{
    if formatted != text {
        let edits = document_edits(text, formatted);
        let e = edits.last();
        assert(edits.drop_last() =~= Seq::<EditSpec>::empty());
        lemma_position_index_origin(text);
        lemma_edit_range_covers_document(text);
        assert(position_index(text, e.range.1) == text.len());
        assert(e.range.0 == (0nat, 0nat));
        assert(position_index(text, e.range.0) == 0);
        assert(text.take(0) + formatted + text.skip(text.len() as int) =~= formatted);
        assert(apply_edit(text, e) == formatted);
        assert(apply_edits(text, edits) == apply_edits(apply_edit(text, e), edits.drop_last()));
    }
}

/// The formatting edits are empty exactly when the formatter's output is
/// the text itself; otherwise there is exactly one edit, starting at the
/// beginning of the document, whose new text is the formatter's output.
pub proof fn lemma_no_edits_iff_canonical(text: Seq<char>, formatted: Seq<char>)
    ensures
        document_edits(text, formatted).len() == 0 <==> formatted == text,
        document_edits(text, formatted).len() <= 1,
        document_edits(text, formatted).len() == 1 ==> document_edits(text, formatted)[0].range.0
            == (0nat, 0nat) && document_edits(text, formatted)[0].new_text == formatted,
{
}

/// For a document that ends with a newline, the formatting edit ends on
/// the last line that holds content (its line is the number of newlines
/// less one), and applying the edits gives the formatted document followed
/// by the document's final line ending and nothing else of the old text:
/// `"\n"`, or `"\r\n"` when the document ends with one and the end column
/// (counted in bytes) does not reach past the carriage return.
pub proof fn lemma_edits_keep_final_line_ending(text: Seq<char>, formatted: Seq<char>)
    requires
        ends_with_newline(text),
        formatted != text,
    ensures
        document_edits(text, formatted)[0].range.1.0 + 1 == newline_count(text),
        apply_edits(text, document_edits(text, formatted)) == formatted + seq!['\n']
            || apply_edits(text, document_edits(text, formatted)) == formatted + seq!['\r', '\n'],
        !(text.len() >= 2 && text[text.len() - 2] == '\r') ==> apply_edits(
            text,
            document_edits(text, formatted),
        ) == formatted + seq!['\n'],
        apply_edits(text, document_edits(text, formatted)) == formatted + seq!['\r', '\n'] ==> text.len()
            >= 2 && text[text.len() - 2] == '\r',
{
    let edits = document_edits(text, formatted);
    let e = edits.last();
    let p = e.range.1;
    let body = text.drop_last();
    assert(text =~= body.push('\n'));
    assert(newline_count(text) == newline_count(body) + 1);
    assert(p == (newline_count(body), utf8_len(strip_cr(current_line(body)))));
    assert(current_line(text) =~= Seq::<char>::empty());
    assert(!position_le(position_after(text), p));
    assert(position_index(text, p) == position_index(body, p));
    let c = current_line(body);
    let l = strip_cr(c);
    lemma_line_bounds(c);
    lemma_line_bounds(l);
    lemma_current_line_last(body);
    let k: int;
    if utf16_len(c) <= utf8_len(l) {
        assert(position_le(position_after(body), p));
        assert(position_index(body, p) == body.len());
        k = body.len() as int;
        assert(text.skip(k) =~= seq!['\n']);
    } else {
        assert(c.len() > 0 && c.last() == '\r');
        let b2 = body.drop_last();
        assert(body =~= b2.push('\r'));
        assert(c =~= current_line(b2).push('\r'));
        assert(l =~= current_line(b2));
        assert(newline_count(body) == newline_count(b2));
        assert(position_le(position_after(b2), p));
        assert(!position_le(position_after(body), p));
        assert(position_index(body, p) == position_index(b2, p));
        assert(position_index(b2, p) == b2.len());
        k = b2.len() as int;
        assert(text.skip(k) =~= seq!['\r', '\n']);
        assert(text[text.len() - 2] == '\r');
    }
    lemma_position_index_origin(text);
    assert(edits.drop_last() =~= Seq::<EditSpec>::empty());
    assert(apply_edit(text, e) =~= formatted + text.skip(k));
    assert(apply_edits(text, edits) == apply_edits(apply_edit(text, e), edits.drop_last()));
    assert(seq!['\n'] != seq!['\r', '\n']);
}

/// The last character of the current line is the last character of the
/// text, when the current line is not empty.
proof fn lemma_current_line_last(s: Seq<char>)
    ensures
        current_line(s).len() > 0 ==> current_line(s).last() == s.last(),
        current_line(s).len() <= s.len(),
    decreases s.len(),
{
    if s.len() > 0 {
        lemma_current_line_last(s.drop_last());
    }
}

/// The end position of the range that covers the whole of `text`, as the
/// formatting edit uses it.
pub fn end_position(text: &str) -> (pos: (usize, usize))
    ensures
        pos.0 == end_line(text@),
        pos.1 == end_character(text@),
        ends_with_newline(text@) ==> pos.0 + 1 == newline_count(text@),
{
    let chars = chars_of(text);
    let bytes = text.as_bytes();
    let total = bytes.len();
    let mut newlines: usize = 0;
    let mut line_bytes: usize = 0;
    let mut last_bytes: usize = 0;
    let mut prev_cr = false;
    let mut i: usize = 0;
    while i < chars.len()
        invariant
            i <= chars@.len(),
            chars@ == text@,
            total == utf8_len(text@),
            newlines == newline_count(chars@.take(i as int)),
            line_bytes == utf8_len(current_line(chars@.take(i as int))),
            last_bytes == utf8_len(last_line(chars@.take(i as int))),
            line_bytes <= utf8_len(chars@.take(i as int)),
            prev_cr == (i > 0 && chars@[i - 1] == '\r'),
        decreases chars@.len() - i,
    {
        let c = chars[i];
        let ghost p = chars@.take(i as int);
        let ghost q = chars@.take(i + 1);
        proof {
            assert(q =~= p.push(c));
            assert(q.drop_last() =~= p);
            lemma_utf8_len_take(chars@, i as int);
            lemma_utf8_len_take(chars@, i + 1);
            lemma_line_bounds(p);
            lemma_width_bounds(c);
            lemma_current_line_last(p);
        }
        if c == '\n' {
            proof {
                let l = current_line(p);
                if prev_cr {
                    assert(p.last() == '\r');
                    assert(l =~= current_line(p.drop_last()).push('\r'));
                    assert(l.drop_last().push('\r') =~= l);
                    lemma_encode_push(l.drop_last(), '\r');
                    assert(utf8_len(l.drop_last()) + 1 == utf8_len(l));
                } else if l.len() > 0 {
                    assert(l.last() == p.last());
                }
            }
            last_bytes = if prev_cr {
                line_bytes - 1
            } else {
                line_bytes
            };
            line_bytes = 0;
            newlines = newlines + 1;
        } else {
            proof {
                let l = current_line(p);
                assert(current_line(q) =~= l.push(c));
                lemma_encode_push(l, c);
            }
            line_bytes = line_bytes + utf8_width_of(c);
            last_bytes = line_bytes;
        }
        prev_cr = c == '\r';
        i = i + 1;
    }
    proof {
        assert(chars@.take(chars@.len() as int) =~= chars@);
    }
    let ends_with_nl = chars.len() > 0 && chars[chars.len() - 1] == '\n';
    let at_least_one = if newlines >= 1 {
        newlines
    } else {
        1
    };
    let line = if ends_with_nl {
        at_least_one - 1
    } else {
        at_least_one
    };
    (line, last_bytes)
}

/// The edits for `text` given `formatted`, the formatter's output for it:
/// none when nothing changes, else one edit from the start of the document
/// to `end_position(text)` with `formatted` as its new text. That range
/// covers the whole of a document that does not end with a newline; for one
/// that does, it stops before the final line ending.
pub fn edits_for(text: &str, formatted: String) -> (edits: Vec<TextEdit>)
    ensures
        edits@.map_values(|e: TextEdit| e@) == document_edits(text@, formatted@),
        edits@.len() == 0 <==> formatted@ == text@,
        edits@.len() <= 1,
{
    let original = String::from_str(text);
    let mut edits = Vec::new();
    if formatted == original {
    } else {
        let end = end_position(text);
        edits.push(TextEdit { range: ((0, 0), end), new_text: formatted });
    }
    assert(edits@.map_values(|e: TextEdit| e@) =~= document_edits(text@, formatted@));
    proof {
        lemma_no_edits_iff_canonical(text@, formatted@);
    }
    edits
}

/// The `TextEdit`s for formatting `text` canonically: empty when `text` is
/// already canonical (so the editor can skip a no-op edit), else one edit
/// whose new text is the formatted document and whose range runs from the
/// start of the document to `end_position(text)`. Applied to a document
/// that does not end with a newline, the edits give the formatted document;
/// for one that does, the range stops before the final line ending, which
/// then stays after the formatted text.
///
/// Fails when the formatter refuses the input, for example when it does
/// not parse as YAML.
pub fn full_document_edits(text: &str) -> (res: Result<Vec<TextEdit>, FormatError>)
    ensures
        res is Err <==> yaml_formatted(text@) is None,
        res matches Ok(edits) ==> edits@.map_values(|e: TextEdit| e@) == document_edits(
            text@,
            yaml_formatted(text@)->0,
        ),
        is_yaml_blank(text@) ==> res is Ok,
        text@.len() == 0 ==> res is Ok && res->Ok_0@.len() == 0,
        !ends_with_newline(text@) ==> (res matches Ok(edits) ==> apply_edits(
            text@,
            edits@.map_values(|e: TextEdit| e@),
        ) == yaml_formatted(text@)->0),
        res matches Ok(edits) ==> (edits@.len() == 0 <==> yaml_formatted(text@) == Some(text@)),
        ends_with_newline(text@) ==> (res matches Ok(edits) ==> (edits@.len() > 0 ==> (apply_edits(
            text@,
            edits@.map_values(|e: TextEdit| e@),
        ) == yaml_formatted(text@)->0 + seq!['\n'] || apply_edits(
            text@,
            edits@.map_values(|e: TextEdit| e@),
        ) == yaml_formatted(text@)->0 + seq!['\r', '\n']))),
{
    match cst_format(text) {
        Ok(formatted) => {
            proof {
                if text@.len() == 0 {
                    assert(formatted@ =~= text@);
                }
            }
            let edits = edits_for(text, formatted);
            proof {
                assert(edits@.map_values(|e: TextEdit| e@).len() == edits@.len());
                if !ends_with_newline(text@) {
                    lemma_edits_apply_to_formatted(text@, formatted@);
                } else if formatted@ != text@ {
                    lemma_edits_keep_final_line_ending(text@, formatted@);
                }
                lemma_no_edits_iff_canonical(text@, formatted@);
            }
            Ok(edits)
        },
        Err(e) => Err(FormatError::Yaml(e)),
    }
}

} // verus!
