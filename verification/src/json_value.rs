//! A model of JSON values, their compact text, and a parser for that text,
//! with the proof that the parser reads every written value back.
use crate::json::{
    decimal, escape_char, escape_str, hex_digit, json_int, json_string, short_escape,
    unicode_escape_value,
};
use vstd::prelude::*;

verus! {

broadcast use vstd::utf8::char_u32_cast;

/// A JSON value: an integer, a string, an array, or an object whose members
/// keep their order.
pub enum JsonValue {
    Number(int),
    Text(Seq<char>),
    Array(Seq<JsonValue>),
    Object(Seq<(Seq<char>, JsonValue)>),
}

/// The compact text of a JSON value: no whitespace, members in their order.
pub open spec fn write_value(v: JsonValue) -> Seq<char>
    decreases v,
{
    match v {
        JsonValue::Number(i) => json_int(i),
        JsonValue::Text(s) => json_string(s),
        JsonValue::Array(items) => seq!['['] + write_items(items) + seq![']'],
        JsonValue::Object(members) => seq!['{'] + write_members(members) + seq!['}'],
    }
}

/// The elements of an array, separated by commas.
pub open spec fn write_items(items: Seq<JsonValue>) -> Seq<char>
    decreases items,
{
    if items.len() == 0 {
        Seq::empty()
    } else if items.len() == 1 {
        write_value(items[0])
    } else {
        write_value(items[0]) + seq![','] + write_items(items.skip(1))
    }
}

/// The members of an object, `"key":value`, separated by commas.
pub open spec fn write_members(members: Seq<(Seq<char>, JsonValue)>) -> Seq<char>
    decreases members,
{
    if members.len() == 0 {
        Seq::empty()
    } else if members.len() == 1 {
        json_string(members[0].0) + seq![':'] + write_value(members[0].1)
    } else {
        json_string(members[0].0) + seq![':'] + write_value(members[0].1) + seq![',']
            + write_members(members.skip(1))
    }
}

/// The text of one object member, `"key":value`.
pub open spec fn member_text(m: (Seq<char>, JsonValue)) -> Seq<char> {
    json_string(m.0) + seq![':'] + write_value(m.1)
}

/// The members of an object whose first member is `m`.
pub proof fn lemma_write_members_cons(
    m: (Seq<char>, JsonValue),
    rest: Seq<(Seq<char>, JsonValue)>,
)
    ensures
        write_members(seq![m] + rest) == if rest.len() == 0 {
            member_text(m)
        } else {
            member_text(m) + seq![','] + write_members(rest)
        },
{
    let ms = seq![m] + rest;
    assert(ms[0] == m);
    assert(ms.skip(1) =~= rest);
}

/// The members of a two-member object.
pub proof fn lemma_write_two_members(m1: (Seq<char>, JsonValue), m2: (Seq<char>, JsonValue))
    ensures
        write_members(seq![m1, m2]) == member_text(m1) + seq![','] + member_text(m2),
{
    lemma_write_members_cons(m2, Seq::empty());
    assert(seq![m2] + Seq::<(Seq<char>, JsonValue)>::empty() =~= seq![m2]);
    lemma_write_members_cons(m1, seq![m2]);
    assert(seq![m1] + seq![m2] =~= seq![m1, m2]);
}

/// The members of a three-member object.
pub proof fn lemma_write_three_members(
    m1: (Seq<char>, JsonValue),
    m2: (Seq<char>, JsonValue),
    m3: (Seq<char>, JsonValue),
)
    ensures
        write_members(seq![m1, m2, m3]) == member_text(m1) + seq![','] + (member_text(m2)
            + seq![','] + member_text(m3)),
{
    lemma_write_two_members(m2, m3);
    lemma_write_members_cons(m1, seq![m2, m3]);
    assert(seq![m1] + seq![m2, m3] =~= seq![m1, m2, m3]);
}

/// A five-member object, written one piece after another.
pub proof fn lemma_write_five_members(
    m1: (Seq<char>, JsonValue),
    m2: (Seq<char>, JsonValue),
    m3: (Seq<char>, JsonValue),
    m4: (Seq<char>, JsonValue),
    m5: (Seq<char>, JsonValue),
)
    ensures
        write_value(JsonValue::Object(seq![m1, m2, m3, m4, m5])) == (((((Seq::<char>::empty().push(
            '{',
        ) + member_text(m1)).push(',') + member_text(m2)).push(',') + member_text(m3)).push(',')
            + member_text(m4)).push(',') + member_text(m5)).push('}'),
{
    let (a, b, c, d, e) = (
        member_text(m1),
        member_text(m2),
        member_text(m3),
        member_text(m4),
        member_text(m5),
    );
    lemma_write_three_members(m3, m4, m5);
    lemma_write_members_cons(m2, seq![m3, m4, m5]);
    assert(seq![m2] + seq![m3, m4, m5] =~= seq![m2, m3, m4, m5]);
    lemma_write_members_cons(m1, seq![m2, m3, m4, m5]);
    assert(seq![m1] + seq![m2, m3, m4, m5] =~= seq![m1, m2, m3, m4, m5]);
    lemma_flatten_five(a, b, c, d, e);
}

/// Regrouping the pieces of a five-member object.
proof fn lemma_flatten_five(a: Seq<char>, b: Seq<char>, c: Seq<char>, d: Seq<char>, e: Seq<char>)
    ensures
        seq!['{'] + (a + seq![','] + (b + seq![','] + (c + seq![','] + (d + seq![','] + e))))
            + seq!['}'] == (((((Seq::<char>::empty().push('{') + a).push(',') + b).push(',') + c).push(
            ',',
        ) + d).push(',') + e).push('}'),
{
    assert(seq!['{'] + (a + seq![','] + (b + seq![','] + (c + seq![','] + (d + seq![','] + e))))
        + seq!['}'] =~= (((((Seq::<char>::empty().push('{') + a).push(',') + b).push(',') + c).push(
        ',',
    ) + d).push(',') + e).push('}'));
}

/// The elements of an array with one more element at the end.
pub proof fn lemma_write_items_push(items: Seq<JsonValue>, v: JsonValue)
    ensures
        write_items(items.push(v)) == if items.len() == 0 {
            write_value(v)
        } else {
            write_items(items) + seq![','] + write_value(v)
        },
    decreases items.len(),
{
    let p = items.push(v);
    if items.len() == 0 {
        assert(p.len() == 1 && p[0] == v);
    } else if items.len() == 1 {
        assert(p.skip(1) =~= seq![v]);
        assert(p[0] == items[0]);
        assert(seq![v].len() == 1 && seq![v][0] == v);
        assert(write_items(seq![v]) == write_value(v));
        assert(write_items(p) == write_value(items[0]) + seq![','] + write_value(v));
    } else {
        assert(p.skip(1) =~= items.skip(1).push(v));
        lemma_write_items_push(items.skip(1), v);
        assert(p[0] == items[0]);
        assert(write_items(p) =~= write_items(items) + seq![','] + write_value(v));
    }
}

/// True for the ASCII digits `0` to `9`.
pub open spec fn is_digit(c: char) -> bool {
    '0' <= c && c <= '9'
}

/// True when `rest` cannot continue a number that stands before it.
pub open spec fn ends_number(rest: Seq<char>) -> bool {
    rest.len() == 0 || !is_digit(rest[0])
}

/// How many digits `t` starts with.
pub open spec fn digit_run(t: Seq<char>) -> nat
    decreases t.len(),
{
    if t.len() > 0 && is_digit(t[0]) {
        1 + digit_run(t.skip(1))
    } else {
        0
    }
}

/// The value of a run of decimal digits.
pub open spec fn digits_value(d: Seq<char>) -> int
    decreases d.len(),
{
    if d.len() == 0 {
        0
    } else {
        digits_value(d.drop_last()) * 10 + (d.last() as int - '0' as int)
    }
}

/// Reads a JSON integer (an optional minus sign and one or more digits)
/// from the front of `t`, giving its value and the text after it.
pub open spec fn parse_number(t: Seq<char>) -> Option<(int, Seq<char>)> {
    let negative = t.len() > 0 && t[0] == '-';
    let d = if negative {
        t.skip(1)
    } else {
        t
    };
    let n = digit_run(d);
    if n == 0 {
        None
    } else {
        let magnitude = digits_value(d.take(n as int));
        Some((if negative { -magnitude } else { magnitude }, d.skip(n as int)))
    }
}

/// Prepends `c` to the characters of a partly read string.
pub open spec fn cons_read(c: char, r: Option<(Seq<char>, Seq<char>)>) -> Option<(Seq<char>, Seq<char>)> {
    match r {
        Some((s, rest)) => Some((seq![c] + s, rest)),
        None => None,
    }
}

/// Reads the rest of a JSON string literal whose opening quote has been
/// read: its characters up to the closing quote, decoded, and the text
/// after that quote. Unescaped control characters, unknown escapes and
/// `\u` escapes of surrogate code units are refused.
pub open spec fn parse_string(t: Seq<char>) -> Option<(Seq<char>, Seq<char>)>
    decreases t.len(),
{
    if t.len() == 0 {
        None
    } else if t[0] == '"' {
        Some((Seq::empty(), t.skip(1)))
    } else if t[0] == '\\' {
        if t.len() < 2 {
            None
        } else if short_escape(t[1]) is Some {
            cons_read(short_escape(t[1])->0, parse_string(t.skip(2)))
        } else if t[1] == 'u' && t.len() >= 6 && unicode_escape_value(t) is Some {
            let v = unicode_escape_value(t)->0;
            if 0xD800 <= v <= 0xDFFF {
                None
            } else {
                cons_read((v as u32) as char, parse_string(t.skip(6)))
            }
        } else {
            None
        }
    } else if (t[0] as u32) < 0x20 {
        None
    } else {
        cons_read(t[0], parse_string(t.skip(1)))
    }
}

/// Reads one JSON value (no whitespace between tokens) from the front of
/// `t`, giving the value and the text after it. `fuel` bounds the nesting
/// and the number of elements read, so that the reading always ends.
pub open spec fn parse_value(t: Seq<char>, fuel: nat) -> Option<(JsonValue, Seq<char>)>
    decreases fuel, 0nat,
{
    if fuel == 0 || t.len() == 0 {
        None
    } else if t[0] == '"' {
        match parse_string(t.skip(1)) {
            Some((s, r)) => Some((JsonValue::Text(s), r)),
            None => None,
        }
    } else if t[0] == '[' {
        let u = t.skip(1);
        if u.len() > 0 && u[0] == ']' {
            Some((JsonValue::Array(Seq::empty()), u.skip(1)))
        } else {
            match parse_items(u, (fuel - 1) as nat) {
                Some((items, r)) => Some((JsonValue::Array(items), r)),
                None => None,
            }
        }
    } else if t[0] == '{' {
        let u = t.skip(1);
        if u.len() > 0 && u[0] == '}' {
            Some((JsonValue::Object(Seq::empty()), u.skip(1)))
        } else {
            match parse_members(u, (fuel - 1) as nat) {
                Some((members, r)) => Some((JsonValue::Object(members), r)),
                None => None,
            }
        }
    } else {
        match parse_number(t) {
            Some((i, r)) => Some((JsonValue::Number(i), r)),
            None => None,
        }
    }
}

/// Reads the elements of an array and its closing bracket.
pub open spec fn parse_items(t: Seq<char>, fuel: nat) -> Option<(Seq<JsonValue>, Seq<char>)>
    decreases fuel, 1nat,
{
    if fuel == 0 {
        None
    } else {
        match parse_value(t, (fuel - 1) as nat) {
            Some((v, r)) => if r.len() > 0 && r[0] == ',' {
                match parse_items(r.skip(1), (fuel - 1) as nat) {
                    Some((vs, r2)) => Some((seq![v] + vs, r2)),
                    None => None,
                }
            } else if r.len() > 0 && r[0] == ']' {
                Some((seq![v], r.skip(1)))
            } else {
                None
            },
            None => None,
        }
    }
}

/// Reads the members of an object and its closing brace.
pub open spec fn parse_members(t: Seq<char>, fuel: nat) -> Option<
    (Seq<(Seq<char>, JsonValue)>, Seq<char>),
>
    decreases fuel, 1nat,
{
    if fuel == 0 || t.len() == 0 || t[0] != '"' {
        None
    } else {
        match parse_string(t.skip(1)) {
            Some((key, r)) => if r.len() > 0 && r[0] == ':' {
                match parse_value(r.skip(1), (fuel - 1) as nat) {
                    Some((v, r2)) => if r2.len() > 0 && r2[0] == ',' {
                        match parse_members(r2.skip(1), (fuel - 1) as nat) {
                            Some((ms, r3)) => Some((seq![(key, v)] + ms, r3)),
                            None => None,
                        }
                    } else if r2.len() > 0 && r2[0] == '}' {
                        Some((seq![(key, v)], r2.skip(1)))
                    } else {
                        None
                    },
                    None => None,
                }
            } else {
                None
            },
            None => None,
        }
    }
}

/// The JSON value that the whole of `t` holds, if it holds exactly one.
pub open spec fn json_read(t: Seq<char>) -> Option<JsonValue> {
    match parse_value(t, t.len()) {
        Some((v, r)) => if r.len() == 0 {
            Some(v)
        } else {
            None
        },
        None => None,
    }
}

/// Reading the escape of one character gives that character followed by
/// what the rest reads as.
proof fn lemma_read_char(c: char, u: Seq<char>)
    ensures
        parse_string(escape_char(c, true) + u) == cons_read(c, parse_string(u)),
{
    let e = escape_char(c, true);
    let t = e + u;
    if e.len() == 2 {
        assert(t.skip(2) =~= u);
    } else if e.len() == 6 {
        let v = c as u32;
        assert(t.skip(6) =~= u);
        assert(v / 16 < 2);
        assert(unicode_escape_value(t) == Some(v as int));
    } else {
        assert(t.skip(1) =~= u);
    }
}

/// A written string literal, after its opening quote, reads back as its
/// characters, leaving the text after the closing quote.
pub proof fn lemma_read_string(s: Seq<char>, rest: Seq<char>)
    ensures
        parse_string(escape_str(s, true) + seq!['"'] + rest) == Some((s, rest)),
    decreases s.len(),
{
    if s.len() == 0 {
        let t = escape_str(s, true) + seq!['"'] + rest;
        assert(t =~= seq!['"'] + rest);
        assert(t.skip(1) =~= rest);
    } else {
        let tail = escape_str(s.drop_first(), true) + seq!['"'] + rest;
        lemma_read_string(s.drop_first(), rest);
        lemma_read_char(s[0], tail);
        assert(escape_str(s, true) + seq!['"'] + rest =~= escape_char(s[0], true) + tail);
        assert(seq![s[0]] + s.drop_first() =~= s);
    }
}

/// Every character of a decimal numeral is a digit, and it has at least one.
proof fn lemma_decimal_digits(n: nat)
    ensures
        decimal(n).len() >= 1,
        forall|i: int| 0 <= i < decimal(n).len() ==> is_digit(#[trigger] decimal(n)[i]),
        digits_value(decimal(n)) == n,
    decreases n,
{
    if n >= 10 {
        lemma_decimal_digits(n / 10);
        let d = decimal(n / 10);
        assert(decimal(n).drop_last() =~= d);
        assert(decimal(n).last() == hex_digit((n % 10) as int));
        let k = (n % 10) as int;
        assert(hex_digit(k) as int - '0' as int == k);
        assert(digits_value(decimal(n)) == digits_value(d) * 10 + k);
        assert((n / 10) * 10 + n % 10 == n);
    } else {
        let d = decimal(n);
        assert(d.drop_last() =~= Seq::<char>::empty());
        assert(digits_value(Seq::<char>::empty()) == 0);
        assert(d.last() == hex_digit(n as int));
        assert(hex_digit(n as int) as int - '0' as int == n);
        assert(digits_value(d) == digits_value(d.drop_last()) * 10 + (d.last() as int - '0' as int));
    }
}

/// A run of digits followed by a non-digit is read in full.
proof fn lemma_digit_run(d: Seq<char>, rest: Seq<char>)
    requires
        forall|i: int| 0 <= i < d.len() ==> is_digit(#[trigger] d[i]),
        ends_number(rest),
    ensures
        digit_run(d + rest) == d.len(),
    decreases d.len(),
{
    if d.len() == 0 {
        assert(d + rest =~= rest);
    } else {
        assert((d + rest).skip(1) =~= d.skip(1) + rest);
        assert forall|i: int| 0 <= i < d.skip(1).len() implies is_digit(#[trigger] d.skip(1)[i]) by {
            assert(d.skip(1)[i] == d[i + 1]);
        }
        lemma_digit_run(d.skip(1), rest);
    }
}

/// A written integer reads back as itself when no digit follows it.
pub proof fn lemma_read_number(i: int, rest: Seq<char>)
    requires
        ends_number(rest),
    ensures
        parse_number(json_int(i) + rest) == Some((i, rest)),
        json_int(i).len() >= 1,
        json_int(i)[0] == '-' || is_digit(json_int(i)[0]),
{
    let m: nat = if i < 0 {
        (-i) as nat
    } else {
        i as nat
    };
    let d = decimal(m);
    lemma_decimal_digits(m);
    lemma_digit_run(d, rest);
    let t = json_int(i) + rest;
    if i < 0 {
        assert(t.skip(1) =~= d + rest);
    } else {
        assert(is_digit(d[0]));
        assert(t =~= d + rest);
    }
    assert((d + rest).take(d.len() as int) =~= d);
    assert((d + rest).skip(d.len() as int) =~= rest);
}

/// The text of a value is not empty and starts with a character that
/// tells which kind of value it is.
pub proof fn lemma_write_first(v: JsonValue)
    ensures
        write_value(v).len() >= 1,
        write_value(v)[0] != ']' && write_value(v)[0] != '}' && write_value(v)[0] != ',',
        v is Number ==> write_value(v)[0] != '"' && write_value(v)[0] != '['
            && write_value(v)[0] != '{',
{
    if let JsonValue::Number(i) = v {
        lemma_read_number(i, Seq::empty());
    }
}

/// A written value reads back as itself, leaving what follows it, when
/// enough fuel is given (its length is enough) and no digit follows.
pub proof fn lemma_read_value(v: JsonValue, rest: Seq<char>, fuel: nat)
    requires
        fuel >= write_value(v).len(),
        ends_number(rest),
    ensures
        parse_value(write_value(v) + rest, fuel) == Some((v, rest)),
    decreases v,
{
    lemma_write_first(v);
    let t = write_value(v) + rest;
    match v {
        JsonValue::Number(i) => {
            lemma_read_number(i, rest);
        },
        JsonValue::Text(s) => {
            lemma_read_string(s, rest);
            assert(t.skip(1) =~= escape_str(s, true) + seq!['"'] + rest);
        },
        JsonValue::Array(items) => {
            let u = t.skip(1);
            if items.len() == 0 {
                assert(u =~= seq![']'] + rest);
                assert(u.skip(1) =~= rest);
                assert(items =~= Seq::<JsonValue>::empty());
            } else {
                assert(u =~= write_items(items) + seq![']'] + rest);
                lemma_items_first(items);
                lemma_read_items(items, rest, (fuel - 1) as nat);
            }
        },
        JsonValue::Object(members) => {
            let u = t.skip(1);
            if members.len() == 0 {
                assert(u =~= seq!['}'] + rest);
                assert(u.skip(1) =~= rest);
                assert(members =~= Seq::<(Seq<char>, JsonValue)>::empty());
            } else {
                assert(u =~= write_members(members) + seq!['}'] + rest);
                lemma_members_first(members);
                lemma_read_members(members, rest, (fuel - 1) as nat);
            }
        },
    }
}

/// The elements of a non-empty array start with the first element.
proof fn lemma_items_first(items: Seq<JsonValue>)
    requires
        items.len() > 0,
    ensures
        write_items(items).len() >= write_value(items[0]).len() + 0,
        write_items(items)[0] == write_value(items[0])[0],
        write_items(items)[0] != ']',
{
    lemma_write_first(items[0]);
}

/// The members of a non-empty object start with a quote.
proof fn lemma_members_first(members: Seq<(Seq<char>, JsonValue)>)
    requires
        members.len() > 0,
    ensures
        write_members(members)[0] == '"',
{
}

/// The written elements of a non-empty array, followed by its closing
/// bracket, read back as those elements.
pub proof fn lemma_read_items(items: Seq<JsonValue>, rest: Seq<char>, fuel: nat)
    requires
        items.len() > 0,
        fuel >= write_items(items).len() + 1,
    ensures
        parse_items(write_items(items) + seq![']'] + rest, fuel) == Some((items, rest)),
    decreases items,
{
    let v = items[0];
    lemma_write_first(v);
    if items.len() == 1 {
        let r = seq![']'] + rest;
        lemma_read_value(v, r, (fuel - 1) as nat);
        assert(write_items(items) + seq![']'] + rest =~= write_value(v) + r);
        assert(r.skip(1) =~= rest);
        assert(seq![v] =~= items);
    } else {
        let tail = items.skip(1);
        let r = seq![','] + write_items(tail) + seq![']'] + rest;
        lemma_read_value(v, r, (fuel - 1) as nat);
        assert(write_items(items) + seq![']'] + rest =~= write_value(v) + r);
        assert(r.skip(1) =~= write_items(tail) + seq![']'] + rest);
        lemma_read_items(tail, rest, (fuel - 1) as nat);
        assert(seq![v] + tail =~= items);
    }
}

/// The written members of a non-empty object, followed by its closing
/// brace, read back as those members.
#[verifier::rlimit(40)]
pub proof fn lemma_read_members(members: Seq<(Seq<char>, JsonValue)>, rest: Seq<char>, fuel: nat)
    requires
        members.len() > 0,
        fuel >= write_members(members).len() + 1,
    ensures
        parse_members(write_members(members) + seq!['}'] + rest, fuel) == Some((members, rest)),
    decreases members,
{
    let key = members[0].0;
    let v = members[0].1;
    lemma_write_first(v);
    let t = write_members(members) + seq!['}'] + rest;
    let after = if members.len() == 1 {
        seq!['}'] + rest
    } else {
        seq![','] + write_members(members.skip(1)) + seq!['}'] + rest
    };
    let r = seq![':'] + write_value(v) + after;
    assert(t =~= json_string(key) + r);
    assert(t.skip(1) =~= escape_str(key, true) + seq!['"'] + r);
    lemma_read_string(key, r);
    assert(r.skip(1) =~= write_value(v) + after);
    lemma_read_value(v, after, (fuel - 1) as nat);
    if members.len() == 1 {
        assert(after.skip(1) =~= rest);
        assert(seq![(key, v)] =~= members);
    } else {
        let tail = members.skip(1);
        assert(after.skip(1) =~= write_members(tail) + seq!['}'] + rest);
        lemma_read_members(tail, rest, (fuel - 1) as nat);
        assert(seq![(key, v)] + tail =~= members);
    }
}

/// Every JSON value that this library writes is read back as itself: the
/// text is exactly one JSON value, and it is the one written.
pub proof fn lemma_json_read_write(v: JsonValue)
    ensures
        json_read(write_value(v)) == Some(v),
{
    lemma_read_value(v, Seq::empty(), write_value(v).len());
    assert(write_value(v) + Seq::<char>::empty() =~= write_value(v));
}

} // verus!
