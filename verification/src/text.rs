//! Character-level views of a document: UTF-8 and UTF-16 widths, line
//! structure, byte offsets, and the conversion of a `&str` into its
//! characters.
use vstd::prelude::*;
use vstd::utf8::*;

verus! {

broadcast use vstd::utf8::encode_utf8_valid_utf8, vstd::utf8::encode_utf8_decode_utf8;

/// Number of bytes in the UTF-8 encoding of `c`.
pub open spec fn utf8_width(c: char) -> nat {
    encode_scalar(c as u32).len()
}

/// Number of UTF-16 code units that encode `c`: characters outside the
/// Basic Multilingual Plane take a surrogate pair.
pub open spec fn utf16_width(c: char) -> nat {
    if (c as u32) < 0x10000 {
        1
    } else {
        2
    }
}

/// Number of bytes in the UTF-8 encoding of `s`.
pub open spec fn utf8_len(s: Seq<char>) -> nat {
    encode_utf8(s).len()
}

/// Number of UTF-16 code units in the encoding of `s`.
pub open spec fn utf16_len(s: Seq<char>) -> nat
    decreases s.len(),
{
    if s.len() == 0 {
        0
    } else {
        utf16_len(s.drop_last()) + utf16_width(s.last())
    }
}

/// Number of `'\n'` characters in `s`.
pub open spec fn newline_count(s: Seq<char>) -> nat
    decreases s.len(),
{
    if s.len() == 0 {
        0
    } else {
        newline_count(s.drop_last()) + if s.last() == '\n' {
            1nat
        } else {
            0nat
        }
    }
}

/// The characters of `s` after its last `'\n'` (all of `s` when it holds
/// no newline).
pub open spec fn current_line(s: Seq<char>) -> Seq<char>
    decreases s.len(),
{
    if s.len() == 0 {
        Seq::empty()
    } else if s.last() == '\n' {
        Seq::empty()
    } else {
        current_line(s.drop_last()).push(s.last())
    }
}

/// True when byte offset `offset` starts a character of `s` or is its end.
pub open spec fn is_boundary(s: Seq<char>, offset: int) -> bool {
    is_char_boundary(encode_utf8(s), offset)
}

/// The characters of `s` whose encoding lies before byte offset `offset`.
pub open spec fn prefix_at(s: Seq<char>, offset: int) -> Seq<char> {
    decode_utf8(encode_utf8(s).subrange(0, offset))
}

/// The characters of `s` whose encoding lies at or after byte offset
/// `offset`.
pub open spec fn suffix_at(s: Seq<char>, offset: int) -> Seq<char> {
    decode_utf8(encode_utf8(s).subrange(offset, encode_utf8(s).len() as int))
}

/// Zero-based line and UTF-16 column of the point that follows `prefix`.
pub open spec fn position_after(prefix: Seq<char>) -> (nat, nat) {
    (newline_count(prefix), utf16_len(current_line(prefix)))
}

/// Zero-based line and UTF-16 column of byte offset `offset` in `s`.
pub open spec fn position_at(s: Seq<char>, offset: int) -> (nat, nat) {
    position_after(prefix_at(s, offset))
}

/// Encoding a sequence followed by one more character appends that
/// character's encoding.
pub proof fn lemma_encode_push(s: Seq<char>, c: char)
    ensures
        encode_utf8(s.push(c)) == encode_utf8(s) + encode_scalar(c as u32),
    decreases s.len(),
{
    if s.len() == 0 {
        assert(s.push(c).drop_first() =~= Seq::<char>::empty());
        assert(encode_utf8(Seq::<char>::empty()) =~= Seq::<u8>::empty());
        assert(s.push(c)[0] == c);
        assert(encode_utf8(s.push(c)) =~= encode_utf8(s) + encode_scalar(c as u32));
    } else {
        assert(s.push(c).drop_first() =~= s.drop_first().push(c));
        lemma_encode_push(s.drop_first(), c);
        assert(encode_utf8(s.push(c)) =~= encode_utf8(s) + encode_scalar(c as u32));
    }
}

/// Encoding distributes over concatenation.
pub proof fn lemma_encode_append(a: Seq<char>, b: Seq<char>)
    ensures
        encode_utf8(a + b) == encode_utf8(a) + encode_utf8(b),
    decreases a.len(),
{
    if a.len() == 0 {
        assert(a + b =~= b);
        assert(encode_utf8(a + b) =~= encode_utf8(a) + encode_utf8(b));
    } else {
        assert((a + b).drop_first() =~= a.drop_first() + b);
        lemma_encode_append(a.drop_first(), b);
        assert(encode_utf8(a + b) =~= encode_utf8(a) + encode_utf8(b));
    }
}

/// A character takes between one and four bytes, and at least as many
/// bytes as UTF-16 code units.
pub proof fn lemma_width_bounds(c: char)
    ensures
        1 <= utf8_width(c) <= 4,
        utf16_width(c) <= utf8_width(c),
{
    broadcast use vstd::utf8::char_is_scalar;

}

/// The UTF-8 length of a prefix never exceeds that of the whole.
pub proof fn lemma_utf8_len_take(s: Seq<char>, k: int)
    requires
        0 <= k <= s.len(),
    ensures
        utf8_len(s.take(k)) <= utf8_len(s),
        k < s.len() ==> utf8_len(s.take(k + 1)) == utf8_len(s.take(k)) + utf8_width(s[k]),
{
    assert(s =~= s.take(k) + s.skip(k));
    lemma_encode_append(s.take(k), s.skip(k));
    if k < s.len() {
        assert(s.take(k + 1) =~= s.take(k).push(s[k]));
        lemma_encode_push(s.take(k), s[k]);
    }
}

/// A sequence takes at least as many UTF-8 bytes as UTF-16 code units, and
/// its current line no more of either than the whole.
pub proof fn lemma_line_bounds(s: Seq<char>)
    ensures
        utf16_len(s) <= utf8_len(s),
        utf16_len(current_line(s)) <= utf16_len(s),
        newline_count(s) <= s.len(),
    decreases s.len(),
{
    if s.len() > 0 {
        lemma_line_bounds(s.drop_last());
        assert(s =~= s.drop_last().push(s.last()));
        lemma_encode_push(s.drop_last(), s.last());
        lemma_width_bounds(s.last());
        if s.last() != '\n' {
            let l = current_line(s.drop_last());
            assert(l.push(s.last()).drop_last() =~= l);
        }
    }
}

/// Every character boundary of `s` is the encoded length of some prefix of
/// `s`, and the bytes before it are exactly that prefix's encoding.
pub proof fn lemma_boundary_prefix(s: Seq<char>, offset: int)
    requires
        is_boundary(s, offset),
    ensures
        exists|k: int|
            0 <= k <= s.len() && #[trigger] utf8_len(s.take(k)) == offset && prefix_at(s, offset)
                == s.take(k) && suffix_at(s, offset) == s.skip(k),
    decreases s.len(),
{
    let e = encode_utf8(s);
    if offset == 0 {
        assert(s.take(0) =~= Seq::<char>::empty());
        assert(e.subrange(0, 0) =~= encode_utf8(s.take(0)));
        assert(utf8_len(s.take(0)) == 0);
        assert(s.skip(0) =~= s);
        assert(e.subrange(0, e.len() as int) =~= e);
    } else {
        assert(s.len() > 0);
        let rest = s.drop_first();
        encode_utf8_first_scalar(s);
        let w = encode_scalar(s[0] as u32).len() as int;
        assert(pop_first_scalar(e) =~= encode_utf8(rest));
        assert(is_boundary(rest, offset - w));
        lemma_boundary_prefix(rest, offset - w);
        let k1 = choose|k: int|
            0 <= k <= rest.len() && #[trigger] utf8_len(rest.take(k)) == offset - w && prefix_at(
                rest,
                offset - w,
            ) == rest.take(k) && suffix_at(rest, offset - w) == rest.skip(k);
        let k = k1 + 1;
        assert(s.take(k).drop_first() =~= rest.take(k1));
        assert(s.take(k)[0] == s[0]);
        assert(utf8_len(s.take(k)) == offset);
        assert(s =~= s.take(k) + s.skip(k));
        lemma_encode_append(s.take(k), s.skip(k));
        assert(e.subrange(0, offset) =~= encode_utf8(s.take(k)));
        assert(e.subrange(offset, e.len() as int) =~= encode_utf8(s.skip(k)));
    }
}

/// The encoded length of every prefix of `s` is a character boundary.
pub proof fn lemma_prefix_is_boundary(s: Seq<char>, k: int)
    requires
        0 <= k <= s.len(),
    ensures
        is_boundary(s, utf8_len(s.take(k)) as int),
    decreases s.len(),
{
    let e = encode_utf8(s);
    if k == 0 {
        assert(s.take(0) =~= Seq::<char>::empty());
        assert(utf8_len(s.take(0)) == 0);
    } else {
        let rest = s.drop_first();
        encode_utf8_first_scalar(s);
        assert(pop_first_scalar(e) =~= encode_utf8(rest));
        assert(s.take(k).drop_first() =~= rest.take(k - 1));
        assert(s.take(k)[0] == s[0]);
        lemma_prefix_is_boundary(rest, k - 1);
        lemma_utf8_len_take(s, k);
        reveal_with_fuel(is_char_boundary, 2);
    }
}

/// The characters of `s`, in order.
pub fn chars_of(s: &str) -> (v: Vec<char>)
    ensures
        v@ == s@,
{
    let mut v: Vec<char> = Vec::new();
    for c in it: s.chars()
        invariant
            it.seq() == s@,
            v@ == it.seq().take(it.index()),
    {
        v.push(c);
    }
    v
}

/// Number of bytes in the UTF-8 encoding of `c`.
pub fn utf8_width_of(c: char) -> (w: usize)
    ensures
        w == utf8_width(c),
{
    broadcast use vstd::utf8::char_is_scalar;

    let v = c as u32;
    if v <= 0x7F {
        1
    } else if v <= 0x7FF {
        2
    } else if v <= 0xFFFF {
        3
    } else {
        4
    }
}

/// Number of UTF-16 code units that encode `c`.
pub fn utf16_width_of(c: char) -> (w: usize)
    ensures
        w == utf16_width(c),
{
    if (c as u32) < 0x10000 {
        1
    } else {
        2
    }
}

} // verus!
