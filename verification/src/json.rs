//! JSON text written by hand: string escaping (with the matching decoder
//! that proves it lossless) and decimal numbers, appended to a `String`.
use crate::json_value::{lemma_write_two_members, write_value, JsonValue};
use crate::position::range_view;
use vstd::prelude::*;
use vstd::string::StringExecFns;

verus! {

broadcast use vstd::utf8::char_u32_cast;

/// `String::push` (std) appends one character to the end of the string.
pub assume_specification[ String::push ](s: &mut String, ch: char)
    ensures
        final(s)@ == old(s)@.push(ch),
;

/// The lower-case hexadecimal digit for `n` (for `0 <= n < 16`).
pub open spec fn hex_digit(n: int) -> char {
    if n == 0 {
        '0'
    } else if n == 1 {
        '1'
    } else if n == 2 {
        '2'
    } else if n == 3 {
        '3'
    } else if n == 4 {
        '4'
    } else if n == 5 {
        '5'
    } else if n == 6 {
        '6'
    } else if n == 7 {
        '7'
    } else if n == 8 {
        '8'
    } else if n == 9 {
        '9'
    } else if n == 10 {
        'a'
    } else if n == 11 {
        'b'
    } else if n == 12 {
        'c'
    } else if n == 13 {
        'd'
    } else if n == 14 {
        'e'
    } else {
        'f'
    }
}

/// The value of a hexadecimal digit of either case.
pub open spec fn hex_value(c: char) -> Option<int> {
    if '0' <= c && c <= '9' {
        Some(c as int - '0' as int)
    } else if 'a' <= c && c <= 'f' {
        Some(c as int - 'a' as int + 10)
    } else if 'A' <= c && c <= 'F' {
        Some(c as int - 'A' as int + 10)
    } else {
        None
    }
}

/// How `c` is written inside a JSON string literal: quote and backslash
/// are escaped, newline, carriage return and tab use their short escapes,
/// backspace and form feed too when `short_controls` holds, and any other
/// control character becomes `\u00XX` in lower-case hex.
pub open spec fn escape_char(c: char, short_controls: bool) -> Seq<char> {
    if c == '"' {
        seq!['\\', '"']
    } else if c == '\\' {
        seq!['\\', '\\']
    } else if c == '\n' {
        seq!['\\', 'n']
    } else if c == '\r' {
        seq!['\\', 'r']
    } else if c == '\t' {
        seq!['\\', 't']
    } else if short_controls && c == '\x08' {
        seq!['\\', 'b']
    } else if short_controls && c == '\x0c' {
        seq!['\\', 'f']
    } else if (c as u32) < 0x20 {
        seq!['\\', 'u', '0', '0', hex_digit((c as u32) as int / 16), hex_digit((c as u32) as int % 16)]
    } else {
        seq![c]
    }
}

/// The body of a JSON string literal holding `s`.
pub open spec fn escape_str(s: Seq<char>, short_controls: bool) -> Seq<char>
    decreases s.len(),
{
    if s.len() == 0 {
        Seq::empty()
    } else {
        escape_char(s[0], short_controls) + escape_str(s.drop_first(), short_controls)
    }
}

/// A JSON string literal holding `s`: `"` and `\` escaped, the control
/// characters with a short escape written so, the others as `\u00XX`.
pub open spec fn json_string(s: Seq<char>) -> Seq<char> {
    seq!['"'] + escape_str(s, true) + seq!['"']
}

/// The character that a one-letter escape `\e` stands for in JSON.
pub open spec fn short_escape(e: char) -> Option<char> {
    if e == '"' {
        Some('"')
    } else if e == '\\' {
        Some('\\')
    } else if e == '/' {
        Some('/')
    } else if e == 'b' {
        Some('\x08')
    } else if e == 'f' {
        Some('\x0c')
    } else if e == 'n' {
        Some('\n')
    } else if e == 'r' {
        Some('\r')
    } else if e == 't' {
        Some('\t')
    } else {
        None
    }
}

/// The value of the four hex digits `t[2..6]` of a `\uXXXX` escape.
pub open spec fn unicode_escape_value(t: Seq<char>) -> Option<int> {
    match (hex_value(t[2]), hex_value(t[3]), hex_value(t[4]), hex_value(t[5])) {
        (Some(a), Some(b), Some(c), Some(d)) => Some(a * 4096 + b * 256 + c * 16 + d),
        _ => None,
    }
}

/// Prepend `c` to a decoded remainder.
pub open spec fn cons_decoded(c: char, rest: Option<Seq<char>>) -> Option<Seq<char>> {
    match rest {
        Some(r) => Some(seq![c] + r),
        None => None,
    }
}

/// Decodes the body of a JSON string literal (RFC 8259, section 7): `None`
/// when it holds an unescaped quote or control character, a dangling or
/// unknown escape, or a `\u` escape of a surrogate code unit (surrogate
/// pairs are not decoded).
pub open spec fn json_unescape(t: Seq<char>) -> Option<Seq<char>>
    decreases t.len(),
{
    if t.len() == 0 {
        Some(Seq::empty())
    } else if t[0] == '\\' {
        if t.len() < 2 {
            None
        } else if short_escape(t[1]) is Some {
            cons_decoded(short_escape(t[1])->0, json_unescape(t.skip(2)))
        } else if t[1] == 'u' && t.len() >= 6 && unicode_escape_value(t) is Some {
            let v = unicode_escape_value(t)->0;
            if 0xD800 <= v <= 0xDFFF {
                None
            } else {
                cons_decoded((v as u32) as char, json_unescape(t.skip(6)))
            }
        } else {
            None
        }
    } else if t[0] == '"' || (t[0] as u32) < 0x20 {
        None
    } else {
        cons_decoded(t[0], json_unescape(t.skip(1)))
    }
}

/// Decimal digits of `n`, most significant first, without leading zeros.
pub open spec fn decimal(n: nat) -> Seq<char>
    decreases n,
{
    if n < 10 {
        seq![hex_digit(n as int)]
    } else {
        decimal(n / 10).push(hex_digit((n % 10) as int))
    }
}

/// A JSON integer: an optional minus sign followed by decimal digits.
pub open spec fn json_int(i: int) -> Seq<char> {
    if i < 0 {
        seq!['-'] + decimal((-i) as nat)
    } else {
        decimal(i as nat)
    }
}

/// Escaping one more character appends its escape.
pub proof fn lemma_escape_push(s: Seq<char>, c: char, short_controls: bool)
    ensures
        escape_str(s.push(c), short_controls) == escape_str(s, short_controls) + escape_char(
            c,
            short_controls,
        ),
    decreases s.len(),
{
    if s.len() == 0 {
        assert(s.push(c).drop_first() =~= Seq::<char>::empty());
        assert(escape_str(Seq::<char>::empty(), short_controls) =~= Seq::<char>::empty());
        assert(s.push(c)[0] == c);
        assert(escape_str(s.push(c), short_controls) =~= escape_str(s, short_controls)
            + escape_char(c, short_controls));
    } else {
        assert(s.push(c).drop_first() =~= s.drop_first().push(c));
        lemma_escape_push(s.drop_first(), c, short_controls);
        assert(escape_str(s.push(c), short_controls) =~= escape_str(s, short_controls)
            + escape_char(c, short_controls));
    }
}

/// Decoding the escape of one character followed by more text gives that
/// character followed by the decoding of the rest.
proof fn lemma_unescape_char(c: char, short_controls: bool, t: Seq<char>)
    ensures
        json_unescape(escape_char(c, short_controls) + t) == cons_decoded(c, json_unescape(t)),
{
    let e = escape_char(c, short_controls);
    let u = e + t;
    if e.len() == 2 {
        assert(u.skip(2) =~= t);
    } else if e.len() == 6 {
        let v = c as u32;
        assert(u.skip(6) =~= t);
        assert(v / 16 < 2);
        assert(unicode_escape_value(u) == Some(v as int));
    } else {
        assert(u.skip(1) =~= t);
    }
}

/// Escaping loses nothing: decoding the body that `escape_str` writes gives
/// back exactly the original characters, whichever escape style is chosen.
pub proof fn lemma_escape_roundtrip(s: Seq<char>, short_controls: bool)
    ensures
        json_unescape(escape_str(s, short_controls)) == Some(s),
    decreases s.len(),
{
    if s.len() == 0 {
    } else {
        lemma_escape_roundtrip(s.drop_first(), short_controls);
        lemma_unescape_char(s[0], short_controls, escape_str(s.drop_first(), short_controls));
        assert(seq![s[0]] + s.drop_first() =~= s);
    }
}

/// The hexadecimal digit for `n`.
fn hex_digit_of(n: u32) -> (c: char)
    requires
        n < 16,
    ensures
        c == hex_digit(n as int),
{
    match n {
        0 => '0',
        1 => '1',
        2 => '2',
        3 => '3',
        4 => '4',
        5 => '5',
        6 => '6',
        7 => '7',
        8 => '8',
        9 => '9',
        10 => 'a',
        11 => 'b',
        12 => 'c',
        13 => 'd',
        14 => 'e',
        _ => 'f',
    }
}

/// Appends the escape of `c` to `out`.
fn push_escaped(out: &mut String, c: char, short_controls: bool)
    ensures
        final(out)@ == old(out)@ + escape_char(c, short_controls),
{
    let ghost start = out@;
    if c == '"' {
        out.push('\\');
        out.push('"');
    } else if c == '\\' {
        out.push('\\');
        out.push('\\');
    } else if c == '\n' {
        out.push('\\');
        out.push('n');
    } else if c == '\r' {
        out.push('\\');
        out.push('r');
    } else if c == '\t' {
        out.push('\\');
        out.push('t');
    } else if short_controls && c == '\x08' {
        out.push('\\');
        out.push('b');
    } else if short_controls && c == '\x0c' {
        out.push('\\');
        out.push('f');
    } else if (c as u32) < 0x20 {
        let v = c as u32;
        out.push('\\');
        out.push('u');
        out.push('0');
        out.push('0');
        out.push(hex_digit_of(v / 16));
        out.push(hex_digit_of(v % 16));
    } else {
        out.push(c);
    }
    assert(out@ =~= start + escape_char(c, short_controls));
}

/// Appends the escaped characters of `s` to `out`.
fn push_escaped_str(out: &mut String, s: &str, short_controls: bool)
    ensures
        final(out)@ == old(out)@ + escape_str(s@, short_controls),
{
    let ghost start = out@;
    let chars = crate::text::chars_of(s);
    let mut i: usize = 0;
    while i < chars.len()
        invariant
            i <= chars@.len(),
            chars@ == s@,
            out@ == start + escape_str(chars@.take(i as int), short_controls),
        decreases chars@.len() - i,
    {
        let c = chars[i];
        proof {
            assert(chars@.take(i + 1) =~= chars@.take(i as int).push(c));
            lemma_escape_push(chars@.take(i as int), c, short_controls);
        }
        push_escaped(out, c, short_controls);
        assert(out@ =~= start + escape_str(chars@.take(i + 1), short_controls));
        i = i + 1;
    }
    assert(chars@.take(chars@.len() as int) =~= s@);
}

/// Escapes `s` for use inside a JSON string literal: `"` and `\` are
/// backslash-escaped, newline, carriage return and tab become `\n`, `\r`,
/// `\t`, and every other control character becomes `\u00XX`. Decoding the
/// result as a JSON string body gives back `s` exactly.
pub fn json_escape(s: &str) -> (escaped: String)
    ensures
        escaped@ == escape_str(s@, false),
        json_unescape(escaped@) == Some(s@),
{
    let mut out = String::new();
    push_escaped_str(&mut out, s, false);
    proof {
        lemma_escape_roundtrip(s@, false);
        assert(out@ =~= escape_str(s@, false));
    }
    out
}

/// Appends `s` as a JSON string literal, quotes included.
pub fn push_json_string(out: &mut String, s: &str)
    ensures
        final(out)@ == old(out)@ + json_string(s@),
{
    let ghost start = out@;
    out.push('"');
    push_escaped_str(out, s, true);
    out.push('"');
    assert(out@ =~= start + json_string(s@));
}

/// Appends the decimal digits of `n`.
pub fn push_decimal(out: &mut String, n: u64)
    ensures
        final(out)@ == old(out)@ + decimal(n as nat),
    decreases n,
{
    let ghost start = out@;
    if n >= 10 {
        push_decimal(out, n / 10);
    }
    out.push(hex_digit_of((n % 10) as u32));
    assert(out@ =~= start + decimal(n as nat));
}

/// Appends `n` as a JSON number.
pub fn push_usize(out: &mut String, n: usize)
    ensures
        final(out)@ == old(out)@ + json_int(n as int),
{
    push_decimal(out, n as u64);
}

/// Appends `n` as a JSON number.
pub fn push_i32(out: &mut String, n: i32)
    ensures
        final(out)@ == old(out)@ + json_int(n as int),
{
    let ghost start = out@;
    if n < 0 {
        out.push('-');
        let magnitude: i64 = -(n as i64);
        push_decimal(out, magnitude as u64);
        assert(out@ =~= start + json_int(n as int));
    } else {
        push_decimal(out, n as u64);
    }
}

/// An LSP position `(line, character)` as a JSON object.
pub open spec fn position_value(p: (nat, nat)) -> JsonValue {
    JsonValue::Object(
        seq![
            ("character"@, JsonValue::Number(p.1 as int)),
            ("line"@, JsonValue::Number(p.0 as int)),
        ],
    )
}

/// An LSP range as a JSON object.
pub open spec fn range_value(r: ((nat, nat), (nat, nat))) -> JsonValue {
    JsonValue::Object(
        seq![("end"@, position_value(r.1)), ("start"@, position_value(r.0))],
    )
}

/// Appends `"key":` to `out`.
pub fn push_key(out: &mut String, key: &str)
    ensures
        final(out)@ == old(out)@ + json_string(key@) + seq![':'],
{
    push_json_string(out, key);
    out.push(':');
}

/// Appends an LSP position `(line, character)` as a JSON object.
pub fn push_position(out: &mut String, p: (usize, usize))
    ensures
        final(out)@ == old(out)@ + write_value(position_value((p.0 as nat, p.1 as nat))),
{
    let ghost start = out@;
    out.push('{');
    push_key(out, "character");
    push_usize(out, p.1);
    out.push(',');
    push_key(out, "line");
    push_usize(out, p.0);
    out.push('}');
    proof {
        let m = seq![
            ("character"@, JsonValue::Number(p.1 as int)),
            ("line"@, JsonValue::Number(p.0 as int)),
        ];
        lemma_write_two_members(m[0], m[1]);
        assert(m =~= seq![m[0], m[1]]);
    }
    assert(out@ =~= start + write_value(position_value((p.0 as nat, p.1 as nat))));
}

/// Appends an LSP range as a JSON object.
pub fn push_range(out: &mut String, r: ((usize, usize), (usize, usize)))
    ensures
        final(out)@ == old(out)@ + write_value(range_value(range_view(r))),
{
    let ghost start = out@;
    out.push('{');
    push_key(out, "end");
    push_position(out, r.1);
    out.push(',');
    push_key(out, "start");
    push_position(out, r.0);
    out.push('}');
    proof {
        let v = range_view(r);
        let m = seq![("end"@, position_value(v.1)), ("start"@, position_value(v.0))];
        lemma_write_two_members(m[0], m[1]);
        assert(m =~= seq![m[0], m[1]]);
    }
    assert(out@ =~= start + write_value(range_value(range_view(r))));
}

/// Appends the literal text `s`.
pub fn push_text(out: &mut String, s: &str)
    ensures
        final(out)@ == old(out)@ + s@,
{
    out.append(s);
}

} // verus!
