//! Byte offsets into a document and their LSP coordinates: clamping offsets
//! to character boundaries, and converting them to zero-based lines and
//! UTF-16 columns.
use crate::text::{
    chars_of, current_line, is_boundary, lemma_boundary_prefix, lemma_line_bounds,
    lemma_prefix_is_boundary, lemma_utf8_len_take, lemma_width_bounds, newline_count,
    position_after, position_at, prefix_at, suffix_at, utf16_len, utf16_width_of, utf8_len,
    utf8_width, utf8_width_of,
};
use vstd::math::min;
use vstd::prelude::*;
use vstd::utf8::*;

verus! {

broadcast use vstd::utf8::encode_utf8_valid_utf8, vstd::utf8::encode_utf8_decode_utf8;

/// A half-open range of bytes in a UTF-8 document: `length` bytes starting
/// at `offset`.
#[derive(Clone, Copy, Debug, PartialEq, Eq)]
pub struct SourceSpan {
    pub offset: usize,
    pub length: usize,
}

/// The exclusive end of `span`, saturating at `usize::MAX`.
pub open spec fn span_end(span: SourceSpan) -> int {
    if span.offset + span.length <= usize::MAX {
        span.offset + span.length
    } else {
        usize::MAX as int
    }
}

impl SourceSpan {
    /// A span of `length` bytes starting at byte `offset`.
    pub fn new(offset: usize, length: usize) -> (span: SourceSpan)
        ensures
            span.offset == offset,
            span.length == length,
    {
        SourceSpan { offset, length }
    }

    /// The zero-based byte offset where the span starts.
    pub fn offset(&self) -> (o: usize)
        ensures
            o == self.offset,
    {
        self.offset
    }

    /// The number of bytes the span covers.
    pub fn length(&self) -> (l: usize)
        ensures
            l == self.length,
    {
        self.length
    }

    /// The exclusive end offset, saturating on overflow.
    pub fn end(&self) -> (e: usize)
        ensures
            e == span_end(*self),
    {
        self.offset.saturating_add(self.length)
    }
}

/// The greatest character boundary of `s` at or below `offset` (0 when
/// `offset` is not positive).
pub open spec fn floor_boundary(s: Seq<char>, offset: int) -> int
    decreases offset,
{
    if offset <= 0 {
        0
    } else if is_boundary(s, offset) {
        offset
    } else {
        floor_boundary(s, offset - 1)
    }
}

/// The least character boundary of `s` at or above `offset` (the end of
/// `s` when `offset` lies past it).
pub open spec fn ceil_boundary(s: Seq<char>, offset: int) -> int
    decreases utf8_len(s) - offset,
{
    if offset >= utf8_len(s) {
        utf8_len(s) as int
    } else if is_boundary(s, offset) {
        offset
    } else {
        ceil_boundary(s, offset + 1)
    }
}

/// Byte offset where the LSP range of `span` starts in `s`.
pub open spec fn range_start(s: Seq<char>, span: SourceSpan) -> int {
    floor_boundary(s, min(span.offset as int, utf8_len(s) as int))
}

/// Byte offset where the LSP range of `span` ends in `s`: the span's end
/// moved forward to a boundary, widened to one whole character when the
/// range would otherwise be empty inside the document.
pub open spec fn range_end(s: Seq<char>, span: SourceSpan) -> int {
    let start = range_start(s, span);
    let end = ceil_boundary(s, min(span_end(span), utf8_len(s) as int));
    if end <= start && start < utf8_len(s) {
        ceil_boundary(s, start + 1)
    } else {
        end
    }
}

/// A range of zero-based positions, viewed as mathematical integers.
pub open spec fn range_view(r: ((usize, usize), (usize, usize))) -> ((nat, nat), (nat, nat)) {
    ((r.0.0 as nat, r.0.1 as nat), (r.1.0 as nat, r.1.1 as nat))
}

/// The LSP range of `span` in `s`: the positions of its start and end
/// offsets.
pub open spec fn span_range(s: Seq<char>, span: SourceSpan) -> ((nat, nat), (nat, nat)) {
    (position_at(s, range_start(s, span)), position_at(s, range_end(s, span)))
}

/// The start and end of the document are character boundaries.
pub proof fn lemma_ends_are_boundaries(s: Seq<char>)
    ensures
        is_boundary(s, 0),
        is_boundary(s, utf8_len(s) as int),
{
    is_char_boundary_start_end_of_seq(encode_utf8(s));
}

/// No offset past the end of the document is a boundary.
pub proof fn lemma_no_boundary_past_end(s: Seq<char>, offset: int)
    requires
        offset > utf8_len(s),
    ensures
        !is_boundary(s, offset),
{
    reveal_with_fuel(is_char_boundary, 1);
}

/// `floor_boundary` is the greatest boundary at or below its argument: it is
/// a boundary, it does not exceed the argument, no boundary lies strictly
/// between the two, and applying it again changes nothing.
pub proof fn lemma_floor_boundary(s: Seq<char>, offset: int)
    requires
        offset >= 0,
    ensures
        is_boundary(s, floor_boundary(s, offset)),
        0 <= floor_boundary(s, offset) <= offset,
        forall|j: int| floor_boundary(s, offset) < j <= offset ==> !is_boundary(s, j),
        floor_boundary(s, floor_boundary(s, offset)) == floor_boundary(s, offset),
    decreases offset,
{
    lemma_ends_are_boundaries(s);
    if offset > 0 && !is_boundary(s, offset) {
        lemma_floor_boundary(s, offset - 1);
    }
}

/// `ceil_boundary` is the least boundary at or above its argument (for an
/// argument inside the document): it is a boundary, it lies between the
/// argument and the end, and no boundary lies in between.
pub proof fn lemma_ceil_boundary(s: Seq<char>, offset: int)
    requires
        0 <= offset,
    ensures
        is_boundary(s, ceil_boundary(s, offset)),
        ceil_boundary(s, offset) <= utf8_len(s),
        offset <= utf8_len(s) ==> offset <= ceil_boundary(s, offset),
        forall|j: int| offset <= j < ceil_boundary(s, offset) ==> !is_boundary(s, j),
    decreases utf8_len(s) - offset,
{
    lemma_ends_are_boundaries(s);
    if offset < utf8_len(s) && !is_boundary(s, offset) {
        lemma_ceil_boundary(s, offset + 1);
    }
}

/// Stepping down across non-boundaries does not change `floor_boundary`.
proof fn lemma_floor_skip(s: Seq<char>, low: int, high: int)
    requires
        0 <= low <= high,
        forall|j: int| low < j <= high ==> !is_boundary(s, j),
    ensures
        floor_boundary(s, high) == floor_boundary(s, low),
    decreases high - low,
{
    if low < high {
        lemma_floor_skip(s, low, high - 1);
    }
}

/// True when position `p` comes no later than position `q` (line first,
/// then column).
pub open spec fn position_le(p: (nat, nat), q: (nat, nat)) -> bool {
    p.0 < q.0 || (p.0 == q.0 && p.1 <= q.1)
}

/// True when position `p` comes strictly before position `q`.
pub open spec fn position_lt(p: (nat, nat), q: (nat, nat)) -> bool {
    p.0 < q.0 || (p.0 == q.0 && p.1 < q.1)
}

/// One more character moves the position after a text strictly forward.
pub proof fn lemma_position_after_push(p: Seq<char>, c: char)
    ensures
        position_lt(position_after(p), position_after(p.push(c))),
{
    assert(p.push(c).drop_last() =~= p);
    if c != '\n' {
        let l = current_line(p);
        assert(l.push(c).drop_last() =~= l);
    }
}

/// Longer prefixes take strictly more bytes.
proof fn lemma_utf8_len_strict(s: Seq<char>, k1: int, k2: int)
    requires
        0 <= k1 < k2 <= s.len(),
    ensures
        utf8_len(s.take(k1)) < utf8_len(s.take(k2)),
    decreases k2 - k1,
{
    lemma_utf8_len_take(s, k2 - 1);
    lemma_width_bounds(s[k2 - 1]);
    if k1 < k2 - 1 {
        lemma_utf8_len_strict(s, k1, k2 - 1);
    }
}

/// Extending a text never moves the position after it backwards, and
/// extending it by at least one character moves it strictly forward.
pub proof fn lemma_position_after_extend(p: Seq<char>, r: Seq<char>)
    ensures
        position_le(position_after(p), position_after(p + r)),
        r.len() > 0 ==> position_lt(position_after(p), position_after(p + r)),
    decreases r.len(),
{
    if r.len() == 0 {
        assert(p + r =~= p);
    } else {
        let q = p + r.drop_last();
        let c = r.last();
        lemma_position_after_extend(p, r.drop_last());
        assert(p + r =~= q.push(c));
        lemma_position_after_push(q, c);
    }
}

/// Positions follow the order of the byte offsets they come from: a later
/// boundary never has an earlier position, and a strictly later boundary
/// has a strictly later position.
pub proof fn lemma_position_monotone(s: Seq<char>, a: int, b: int)
    requires
        is_boundary(s, a),
        is_boundary(s, b),
        a <= b,
    ensures
        position_le(position_at(s, a), position_at(s, b)),
        a < b ==> position_lt(position_at(s, a), position_at(s, b)),
{
    lemma_boundary_prefix(s, a);
    lemma_boundary_prefix(s, b);
    let ka = choose|k: int|
        0 <= k <= s.len() && #[trigger] utf8_len(s.take(k)) == a && prefix_at(s, a) == s.take(k);
    let kb = choose|k: int|
        0 <= k <= s.len() && #[trigger] utf8_len(s.take(k)) == b && prefix_at(s, b) == s.take(k);
    if kb < ka {
        lemma_utf8_len_strict(s, kb, ka);
    }
    if ka == kb {
        assert(a == b);
    }
    assert(s.take(kb) =~= s.take(ka) + s.subrange(ka, kb));
    lemma_position_after_extend(s.take(ka), s.subrange(ka, kb));
}

/// After a character boundary inside the document, the next boundary is
/// one character further on: `ceil_boundary(s, start + 1)` is `start` plus
/// the UTF-8 width of the character that starts at `start`.
pub proof fn lemma_next_boundary(s: Seq<char>, start: int)
    requires
        is_boundary(s, start),
        start < utf8_len(s),
    ensures
        suffix_at(s, start).len() > 0,
        ceil_boundary(s, start + 1) == start + utf8_width(suffix_at(s, start)[0]),
{
    lemma_boundary_prefix(s, start);
    let k = choose|k: int|
        0 <= k <= s.len() && #[trigger] utf8_len(s.take(k)) == start && prefix_at(s, start)
            == s.take(k) && suffix_at(s, start) == s.skip(k);
    if k == s.len() {
        assert(s.take(k) =~= s);
    }
    lemma_utf8_len_take(s, k);
    let next = utf8_len(s.take(k + 1)) as int;
    lemma_prefix_is_boundary(s, k + 1);
    assert forall|b: int| start < b < next implies !is_boundary(s, b) by {
        if is_boundary(s, b) {
            lemma_boundary_prefix(s, b);
            let j = choose|j: int|
                0 <= j <= s.len() && #[trigger] utf8_len(s.take(j)) == b && prefix_at(s, b)
                    == s.take(j) && suffix_at(s, b) == s.skip(j);
            if j <= k {
                if j < k {
                    lemma_utf8_len_strict(s, j, k);
                }
            } else if j > k + 1 {
                lemma_utf8_len_strict(s, k + 1, j);
            }
        }
    }
    lemma_ceil_boundary(s, start + 1);
    let c = ceil_boundary(s, start + 1);
    if c < next {
        assert(!is_boundary(s, c));
    }
    if c > next {
        assert(!is_boundary(s, next));
    }
}

/// The range that `lsp_range` gives for any span is well formed: both ends
/// are character boundaries inside the document, the start does not come
/// after the end, the range covers at least one character whenever it
/// starts inside the document, and its start position does not come after
/// its end position (and comes strictly before it when the range is not
/// empty).
pub proof fn lemma_range_well_formed(s: Seq<char>, span: SourceSpan)
    ensures
        is_boundary(s, range_start(s, span)),
        is_boundary(s, range_end(s, span)),
        0 <= range_start(s, span) <= range_end(s, span) <= utf8_len(s),
        range_start(s, span) <= span.offset,
        range_start(s, span) < utf8_len(s) ==> range_start(s, span) < range_end(s, span),
        position_le(
            position_at(s, range_start(s, span)),
            position_at(s, range_end(s, span)),
        ),
        range_start(s, span) < range_end(s, span) ==> position_lt(
            position_at(s, range_start(s, span)),
            position_at(s, range_end(s, span)),
        ),
        range_start(s, span) < utf8_len(s) ==> position_lt(
            position_at(s, range_start(s, span)),
            position_at(s, range_end(s, span)),
        ),
{
    let len = utf8_len(s) as int;
    let start = range_start(s, span);
    let e = min(span_end(span), len);
    lemma_floor_boundary(s, min(span.offset as int, len));
    lemma_ceil_boundary(s, e);
    if start < len {
        lemma_ceil_boundary(s, start + 1);
    }
    lemma_position_monotone(s, start, range_end(s, span));
}

/// The byte length of a document fits in `usize`.
fn byte_len(text: &str) -> (n: usize)
    ensures
        n == utf8_len(text@),
{
    text.as_bytes().len()
}

/// The greatest character boundary of `text` at or below `offset`, so that a
/// stale offset can never split a multi-byte character.
pub fn floor_char_boundary(text: &str, offset: usize) -> (b: usize)
    ensures
        b == floor_boundary(text@, offset as int),
        is_boundary(text@, b as int),
        b <= offset,
        forall|j: int| b < j <= offset ==> !is_boundary(text@, j),
{
    let len = byte_len(text);
    let mut o = offset;
    if o > len {
        assert forall|j: int| len < j <= offset implies !is_boundary(text@, j) by {
            lemma_no_boundary_past_end(text@, j);
        }
        proof {
            lemma_floor_skip(text@, len as int, offset as int);
        }
        o = len;
    }
    while o > 0 && !text.is_char_boundary(o)
        invariant
            o <= offset,
            floor_boundary(text@, o as int) == floor_boundary(text@, offset as int),
            forall|j: int| o < j <= offset ==> !is_boundary(text@, j),
        decreases o,
    {
        o = o - 1;
    }
    proof {
        lemma_ends_are_boundaries(text@);
        lemma_floor_boundary(text@, offset as int);
    }
    o
}

/// The least character boundary of `text` at or above `offset`.
fn ceil_char_boundary(text: &str, offset: usize) -> (b: usize)
    requires
        offset <= utf8_len(text@),
    ensures
        b == ceil_boundary(text@, offset as int),
{
    let len = byte_len(text);
    let mut e = offset;
    while e < len && !text.is_char_boundary(e)
        invariant
            offset <= e <= len,
            len == utf8_len(text@),
            ceil_boundary(text@, e as int) == ceil_boundary(text@, offset as int),
        decreases len - e,
    {
        e = e + 1;
    }
    e
}

/// The zero-based line and UTF-16 column of byte `offset` in `text`, as LSP
/// positions count them.
pub fn lsp_position(text: &str, offset: usize) -> (pos: (usize, usize))
    requires
        is_boundary(text@, offset as int),
    ensures
        pos.0 == position_at(text@, offset as int).0,
        pos.1 == position_at(text@, offset as int).1,
{
    let (prefix, _) = text.split_at(offset);
    let chars = chars_of(prefix);
    proof {
        assert(encode_utf8(prefix@) == encode_utf8(text@).subrange(0, offset as int));
        assert(prefix@ == prefix_at(text@, offset as int));
    }
    let mut line: usize = 0;
    let mut column: usize = 0;
    let mut i: usize = 0;
    while i < chars.len()
        invariant
            i <= chars@.len(),
            utf8_len(chars@) == offset,
            line == newline_count(chars@.take(i as int)),
            column == utf16_len(current_line(chars@.take(i as int))),
            column <= utf8_len(chars@.take(i as int)),
        decreases chars@.len() - i,
    {
        let c = chars[i];
        let ghost p = chars@.take(i as int);
        proof {
            assert(chars@.take(i + 1) =~= p.push(c));
            assert(p.push(c).drop_last() =~= p);
            lemma_utf8_len_take(chars@, i as int);
            lemma_utf8_len_take(chars@, i + 1);
            lemma_line_bounds(p);
            lemma_width_bounds(c);
        }
        if c == '\n' {
            line = line + 1;
            column = 0;
        } else {
            column = column + utf16_width_of(c);
            proof {
                let l = current_line(p);
                assert(l.push(c).drop_last() =~= l);
            }
        }
        i = i + 1;
    }
    proof {
        assert(chars@.take(chars@.len() as int) =~= chars@);
    }
    (line, column)
}

/// The UTF-8 width of the character that starts at byte `offset`.
fn first_char_width(text: &str, offset: usize) -> (w: usize)
    requires
        is_boundary(text@, offset as int),
        offset < utf8_len(text@),
    ensures
        offset + w == ceil_boundary(text@, offset + 1),
{
    broadcast use vstd::string::axiom_spec_iter, vstd::string::next_postcondition;

    proof {
        lemma_next_boundary(text@, offset as int);
        lemma_ceil_boundary(text@, offset + 1);
    }
    let (_, rest) = text.split_at(offset);
    assert(rest@ == suffix_at(text@, offset as int));
    let mut chars = rest.chars();
    match chars.next() {
        Some(c) => utf8_width_of(c),
        None => 1,
    }
}

/// The LSP range of `span` in `text`: the start is moved back and the end
/// forward to character boundaries (both clamped to the document), an empty
/// range inside the document is widened to the character at its start, and
/// both ends are converted to line and UTF-16 column.
pub fn lsp_range(text: &str, span: SourceSpan) -> (r: ((usize, usize), (usize, usize)))
    ensures
        range_view(r) == span_range(text@, span),
{
    proof {
        lemma_range_well_formed(text@, span);
    }
    let len = byte_len(text);
    let clamped_start = if span.offset() < len {
        span.offset()
    } else {
        len
    };
    let start_offset = floor_char_boundary(text, clamped_start);
    let span_end = span.end();
    let clamped_end = if span_end < len {
        span_end
    } else {
        len
    };
    let mut end_offset = ceil_char_boundary(text, clamped_end);
    if end_offset <= start_offset && start_offset < len {
        end_offset = start_offset + first_char_width(text, start_offset);
    }
    (lsp_position(text, start_offset), lsp_position(text, end_offset))
}

} // verus!
