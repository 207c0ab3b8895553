//! Size-based chunking of text at natural break points.
//!
//! Byte offsets throughout index the UTF-8 encoding of the text, `encode_utf8(text@)`.

use vstd::prelude::*;
use vstd::utf8::*;

use crate::text::{
    all_whitespace, ascii_whitespace, byte_offset, is_ascii_ws, is_blank, lemma_ascii_step,
    lemma_boundary_add, lemma_boundary_iff, lemma_encode_push, lemma_encode_split,
    lemma_offset_full, lemma_offset_is_boundary, lemma_offset_monotone, lemma_width_range,
};

verus! {

broadcast use vstd::seq::group_seq_axioms;

/// The largest chunk, in bytes, that is handed to the synthesizer at once.
pub const MAX_CHUNK: usize = 2000;

/// The largest index `i` with `lo <= i < hi` for which `p(i)` holds.
pub open spec fn last_where(lo: int, hi: int, p: spec_fn(int) -> bool) -> Option<int>
    decreases hi - lo,
{
    if hi <= lo {
        None
    } else if p(hi - 1) {
        Some(hi - 1)
    } else {
        last_where(lo, hi - 1, p)
    }
}

/// The largest character boundary of `bytes` that is at most `l` (0 when there is none above it).
pub open spec fn boundary_floor(bytes: Seq<u8>, l: int) -> int
    decreases l,
{
    if l <= 0 {
        0
    } else if is_char_boundary(bytes, l) {
        l
    } else {
        boundary_floor(bytes, l - 1)
    }
}

/// The search limit: `max` capped at the text's length, lowered to a character boundary.
pub open spec fn snap_limit(bytes: Seq<u8>, max: int) -> int {
    boundary_floor(bytes, if max < bytes.len() { max } else { bytes.len() as int })
}

/// A paragraph break: two line feeds in a row starting at `i`.
pub open spec fn paragraph_at(bytes: Seq<u8>) -> spec_fn(int) -> bool {
    |i: int| bytes[i] == 0x0a && bytes[i + 1] == 0x0a
}

/// A line feed at `i`.
pub open spec fn line_at(bytes: Seq<u8>) -> spec_fn(int) -> bool {
    |i: int| bytes[i] == 0x0a
}

/// A sentence end: `.`, `!` or `?` at `i` followed by a space.
pub open spec fn sentence_at(bytes: Seq<u8>) -> spec_fn(int) -> bool {
    |i: int| (bytes[i] == 0x2e || bytes[i] == 0x21 || bytes[i] == 0x3f) && bytes[i + 1] == 0x20
}

/// A space at `i`.
pub open spec fn space_at(bytes: Seq<u8>) -> spec_fn(int) -> bool {
    |i: int| bytes[i] == 0x20
}

/// Where a chunk of at most `max` bytes taken from the front of `bytes` should end.
///
/// Within the last three quarters of the allowed range, the latest paragraph
/// break wins, then the latest line feed, then the end of the latest
/// sentence, then the latest space; failing all of them the cut falls at
/// the limit itself.
pub open spec fn break_point(bytes: Seq<u8>, max: int) -> int {
    let limit = snap_limit(bytes, max);
    let floor = limit / 4;
    match last_where(floor, limit - 1, paragraph_at(bytes)) {
        Some(i) => i,
        None => match last_where(floor, limit, line_at(bytes)) {
            Some(i) => i,
            None => match last_where(floor, limit - 1, sentence_at(bytes)) {
                Some(i) => i + 1,
                None => match last_where(floor, limit, space_at(bytes)) {
                    Some(i) => i,
                    None => limit,
                },
            },
        },
    }
}

proof fn lemma_last_where_range(lo: int, hi: int, p: spec_fn(int) -> bool)
    ensures
        last_where(lo, hi, p) matches Some(i) ==> lo <= i < hi && p(i),
    decreases hi - lo,
{
    if hi > lo && !p(hi - 1) {
        lemma_last_where_range(lo, hi - 1, p);
    }
}

proof fn lemma_last_where_max(lo: int, hi: int, p: spec_fn(int) -> bool)
    ensures
        last_where(lo, hi, p) matches Some(i) ==> lo <= i < hi && p(i) && forall|j: int|
            i < j < hi ==> !#[trigger] p(j),
        last_where(lo, hi, p) is None ==> forall|j: int| lo <= j < hi ==> !#[trigger] p(j),
    decreases hi - lo,
{
    if hi > lo && !p(hi - 1) {
        lemma_last_where_max(lo, hi - 1, p);
    }
}

proof fn lemma_boundary_floor(bytes: Seq<u8>, l: int)
    requires
        valid_utf8(bytes),
    ensures
        0 <= boundary_floor(bytes, l),
        l >= 0 ==> boundary_floor(bytes, l) <= l,
        is_char_boundary(bytes, boundary_floor(bytes, l)),
    decreases l,
{
    if l > 0 && !is_char_boundary(bytes, l) {
        lemma_boundary_floor(bytes, l - 1);
    }
}


/// A byte below 0x80 inside valid UTF-8 starts a character.
proof fn lemma_ascii_boundary(bytes: Seq<u8>, i: int)
    requires
        valid_utf8(bytes),
        0 <= i < bytes.len(),
        bytes[i] < 0x80,
    ensures
        is_char_boundary(bytes, i),
{
    is_char_boundary_iff_not_is_continuation_byte(bytes, i);
}

/// The break point lies within the limit and on a character boundary.
pub proof fn lemma_break_point(bytes: Seq<u8>, max: int)
    requires
        valid_utf8(bytes),
        max >= 0,
    ensures
        0 <= break_point(bytes, max) <= snap_limit(bytes, max),
        snap_limit(bytes, max) <= max,
        snap_limit(bytes, max) <= bytes.len(),
        is_char_boundary(bytes, break_point(bytes, max)),
        snap_limit(bytes, max) / 4 <= break_point(bytes, max),
{
    let cap = if max < bytes.len() {
        max
    } else {
        bytes.len() as int
    };
    lemma_boundary_floor(bytes, cap);
    let limit = snap_limit(bytes, max);
    let floor = limit / 4;
    lemma_last_where_range(floor, limit - 1, paragraph_at(bytes));
    lemma_last_where_range(floor, limit, line_at(bytes));
    lemma_last_where_range(floor, limit - 1, sentence_at(bytes));
    lemma_last_where_range(floor, limit, space_at(bytes));
    match last_where(floor, limit - 1, paragraph_at(bytes)) {
        Some(i) => {
            lemma_ascii_boundary(bytes, i);
        },
        None => match last_where(floor, limit, line_at(bytes)) {
            Some(i) => {
                lemma_ascii_boundary(bytes, i);
            },
            None => match last_where(floor, limit - 1, sentence_at(bytes)) {
                Some(i) => {
                    lemma_ascii_boundary(bytes, i + 1);
                },
                None => match last_where(floor, limit, space_at(bytes)) {
                    Some(i) => {
                        lemma_ascii_boundary(bytes, i);
                    },
                    None => {},
                },
            },
        },
    }
}

/// The cut, stated byte by byte. The limit is the largest character boundary
/// at most `max` and the text's length; the search covers the last three
/// quarters below it. Within it the cut is made at the latest paragraph
/// break (two line feeds) if there is one; else at the latest line feed;
/// else just after the latest `.`, `!` or `?` that a space follows (the
/// space is where the next chunk starts); else at the latest space; else at
/// the limit.
pub proof fn lemma_break_point_rules(bytes: Seq<u8>, max: int)
    requires
        valid_utf8(bytes),
        max >= 0,
    ensures
        ({
            let cap = if max < bytes.len() {
                max
            } else {
                bytes.len() as int
            };
            let limit = snap_limit(bytes, max);
            let floor = limit / 4;
            let bp = break_point(bytes, max);
            let para = |i: int| floor <= i < limit - 1 && bytes[i] == 0x0a && bytes[i + 1] == 0x0a;
            let line = |i: int| floor <= i < limit && bytes[i] == 0x0a;
            let sentence = |i: int|
                floor <= i < limit - 1 && (bytes[i] == 0x2e || bytes[i] == 0x21 || bytes[i] == 0x3f)
                    && bytes[i + 1] == 0x20;
            let space = |i: int| floor <= i < limit && bytes[i] == 0x20;
            &&& 0 <= limit <= cap
            &&& is_char_boundary(bytes, limit)
            &&& forall|j: int| limit < j <= cap ==> !is_char_boundary(bytes, j)
            &&& (exists|i: int| #[trigger] para(i)) ==> {
                &&& para(bp)
                &&& forall|j: int| #[trigger] para(j) ==> j <= bp
            }
            &&& (!(exists|i: int| #[trigger] para(i)) && exists|i: int| #[trigger] line(i)) ==> {
                &&& line(bp)
                &&& forall|j: int| #[trigger] line(j) ==> j <= bp
            }
            &&& (!(exists|i: int| #[trigger] para(i)) && !(exists|i: int| #[trigger] line(i))
                && exists|i: int| #[trigger] sentence(i)) ==> {
                &&& sentence(bp - 1)
                &&& forall|j: int| #[trigger] sentence(j) ==> j <= bp - 1
            }
            &&& (!(exists|i: int| #[trigger] para(i)) && !(exists|i: int| #[trigger] line(i))
                && !(exists|i: int| #[trigger] sentence(i)) && exists|i: int| #[trigger] space(i))
                ==> {
                &&& space(bp)
                &&& forall|j: int| #[trigger] space(j) ==> j <= bp
            }
            &&& (!(exists|i: int| #[trigger] para(i)) && !(exists|i: int| #[trigger] line(i))
                && !(exists|i: int| #[trigger] sentence(i)) && !(exists|i: int| #[trigger] space(i)))
                ==> bp == limit
        }),
{
    let cap = if max < bytes.len() {
        max
    } else {
        bytes.len() as int
    };
    lemma_boundary_floor(bytes, cap);
    assert forall|j: int| snap_limit(bytes, max) < j <= cap implies !is_char_boundary(bytes, j) by {
        if is_char_boundary(bytes, j) {
            lemma_boundary_floor_max(bytes, cap, j);
        }
    }
    let limit = snap_limit(bytes, max);
    let floor = limit / 4;
    let bp = break_point(bytes, max);
    let para = |i: int| floor <= i < limit - 1 && bytes[i] == 0x0a && bytes[i + 1] == 0x0a;
    let line = |i: int| floor <= i < limit && bytes[i] == 0x0a;
    let sentence = |i: int|
        floor <= i < limit - 1 && (bytes[i] == 0x2e || bytes[i] == 0x21 || bytes[i] == 0x3f)
            && bytes[i + 1] == 0x20;
    let space = |i: int| floor <= i < limit && bytes[i] == 0x20;
    lemma_last_where_max(floor, limit - 1, paragraph_at(bytes));
    lemma_last_where_max(floor, limit, line_at(bytes));
    lemma_last_where_max(floor, limit - 1, sentence_at(bytes));
    lemma_last_where_max(floor, limit, space_at(bytes));
    assert forall|j: int| #[trigger] para(j) <==> floor <= j < limit - 1 && paragraph_at(bytes)(j) by {}
    assert forall|j: int| #[trigger] line(j) <==> floor <= j < limit && line_at(bytes)(j) by {}
    assert forall|j: int| #[trigger] sentence(j) <==> floor <= j < limit - 1 && sentence_at(bytes)(j) by {}
    assert forall|j: int| #[trigger] space(j) <==> floor <= j < limit && space_at(bytes)(j) by {}
    match last_where(floor, limit - 1, paragraph_at(bytes)) {
        Some(i) => {
            assert(para(i));
        },
        None => {
            assert(!exists|i: int| #[trigger] para(i));
            match last_where(floor, limit, line_at(bytes)) {
                Some(i) => {
                    assert(line(i));
                },
                None => {
                    assert(!exists|i: int| #[trigger] line(i));
                    match last_where(floor, limit - 1, sentence_at(bytes)) {
                        Some(i) => {
                            assert(bp == i + 1);
                            assert(sentence(i));
                        },
                        None => {
                            assert(!exists|i: int| #[trigger] sentence(i));
                            match last_where(floor, limit, space_at(bytes)) {
                                Some(i) => {
                                    assert(space(i));
                                },
                                None => {
                                    assert(!exists|i: int| #[trigger] space(i));
                                },
                            }
                        },
                    }
                },
            }
        },
    }
}

/// Finds where to cut `text` so that the first piece holds at most `max` bytes,
/// preferring a paragraph break, then a line break, then a sentence end, then a space.
#[verifier::loop_isolation(false)]
pub fn snap_to_break(text: &str, max: usize) -> (bp: usize)
    ensures
        bp == break_point(encode_utf8(text@), max as int),
        bp <= max,
        bp <= encode_utf8(text@).len(),
        is_char_boundary(encode_utf8(text@), bp as int),
{
    let ghost b = encode_utf8(text@);
    proof {
        encode_utf8_valid_utf8(text@);
        lemma_break_point(b, max as int);
    }
    let bytes = text.as_bytes();
    let n = bytes.len();
    let mut limit = if max < n {
        max
    } else {
        n
    };
    let ghost cap = limit as int;
    while limit > 0 && !text.is_char_boundary(limit)
        invariant
            limit <= cap,
            boundary_floor(b, limit as int) == boundary_floor(b, cap),
            b == encode_utf8(text@),
        decreases limit,
    {
        limit = limit - 1;
    }
    assert(boundary_floor(b, limit as int) == limit as int);
    assert(limit == snap_limit(b, max as int));
    let floor = limit / 4;

    // A paragraph break.
    let end = if limit > 0 {
        limit - 1
    } else {
        0
    };
    assert(last_where(floor as int, end as int, paragraph_at(b)) == last_where(
        floor as int,
        limit - 1,
        paragraph_at(b),
    ));
    let mut i = end;
    while i > floor
        invariant
            i <= end,
            limit > 0 ==> end == limit - 1,
            limit == 0 ==> end == 0,
            limit <= b.len(),
            limit <= max,
            bytes@ == b,
            b == encode_utf8(text@),
            last_where(floor as int, end as int, paragraph_at(b)) == last_where(
                floor as int,
                i as int,
                paragraph_at(b),
            ),
        decreases i,
    {
        i = i - 1;
        if bytes[i] == 0x0a && bytes[i + 1] == 0x0a {
            return i;
        }
    }

    // A line feed.
    let mut i = limit;
    while i > floor
        invariant
            i <= limit,
            limit <= b.len(),
            limit <= max,
            bytes@ == b,
            b == encode_utf8(text@),
            last_where(floor as int, limit as int, line_at(b)) == last_where(
                floor as int,
                i as int,
                line_at(b),
            ),
        decreases i,
    {
        i = i - 1;
        if bytes[i] == 0x0a {
            return i;
        }
    }

    // The end of a sentence.
    let mut i = end;
    while i > floor
        invariant
            i <= end,
            limit > 0 ==> end == limit - 1,
            limit == 0 ==> end == 0,
            limit <= b.len(),
            limit <= max,
            bytes@ == b,
            b == encode_utf8(text@),
            last_where(floor as int, end as int, sentence_at(b)) == last_where(
                floor as int,
                i as int,
                sentence_at(b),
            ),
        decreases i,
    {
        i = i - 1;
        let c = bytes[i];
        if (c == 0x2e || c == 0x21 || c == 0x3f) && bytes[i + 1] == 0x20 {
            return i + 1;
        }
    }

    // A space.
    let mut i = limit;
    while i > floor
        invariant
            i <= limit,
            limit <= b.len(),
            limit <= max,
            bytes@ == b,
            b == encode_utf8(text@),
            last_where(floor as int, limit as int, space_at(b)) == last_where(
                floor as int,
                i as int,
                space_at(b),
            ),
        decreases i,
    {
        i = i - 1;
        if bytes[i] == 0x20 {
            return i;
        }
    }
    limit
}

/// The first index at or after `i` whose byte is not ASCII whitespace.
pub open spec fn skip_ascii_ws(bytes: Seq<u8>, i: int) -> int
    decreases bytes.len() - i,
{
    if 0 <= i < bytes.len() && is_ascii_ws(bytes[i]) {
        skip_ascii_ws(bytes, i + 1)
    } else {
        i
    }
}

/// The byte spans `(start, end)` into which the text from `start` on is cut:
/// leading ASCII whitespace is skipped, a remainder of at most [`MAX_CHUNK`]
/// bytes becomes the last span, and a longer remainder is cut at its
/// [`break_point`].
pub open spec fn spans_from(bytes: Seq<u8>, start: int) -> Seq<(int, int)>
    decreases bytes.len() - start,
{
    let s = skip_ascii_ws(bytes, start);
    if s >= bytes.len() {
        seq![]
    } else if bytes.len() - s <= MAX_CHUNK {
        seq![(s, bytes.len() as int)]
    } else {
        let bp = break_point(bytes.subrange(s, bytes.len() as int), MAX_CHUNK as int);
        if bp > 0 && s >= start && s + bp <= bytes.len() {
            seq![(s, s + bp)] + spans_from(bytes, s + bp)
        } else {
            seq![]
        }
    }
}

/// The byte spans of the chunks of `cs`: none when the text is only
/// whitespace, the whole text when it fits in one chunk, and
/// [`spans_from`] the start otherwise.
pub open spec fn chunk_spans(cs: Seq<char>) -> Seq<(int, int)> {
    let b = encode_utf8(cs);
    if all_whitespace(cs) {
        seq![]
    } else if b.len() <= MAX_CHUNK {
        seq![(0, b.len() as int)]
    } else {
        spans_from(b, 0)
    }
}

/// Some span of `spans` contains byte index `i`.
pub open spec fn covered(spans: Seq<(int, int)>, i: int) -> bool {
    exists|k: int| 0 <= k < spans.len() && #[trigger] spans[k].0 <= i < spans[k].1
}

/// The spans are nonempty, at most [`MAX_CHUNK`] bytes long, lie within `[lo, bytes.len()]`
/// on character boundaries, come in increasing order without overlap, and every byte
/// from `lo` on that no span covers is ASCII whitespace.
pub open spec fn spans_well_formed(bytes: Seq<u8>, spans: Seq<(int, int)>, lo: int) -> bool {
    &&& forall|k: int|
        0 <= k < spans.len() ==> {
            &&& lo <= #[trigger] spans[k].0 < spans[k].1 <= bytes.len()
            &&& spans[k].1 - spans[k].0 <= MAX_CHUNK
            &&& is_char_boundary(bytes, spans[k].0)
            &&& is_char_boundary(bytes, spans[k].1)
        }
    &&& forall|k: int, j: int| 0 <= k < j < spans.len() ==> #[trigger] spans[k].1 <= #[trigger] spans[j].0
    &&& forall|i: int| lo <= i < bytes.len() && !covered(spans, i) ==> is_ascii_ws(#[trigger] bytes[i])
}

proof fn lemma_skip(cs: Seq<char>, i: int)
    requires
        0 <= i <= encode_utf8(cs).len(),
        is_char_boundary(encode_utf8(cs), i),
    ensures
        i <= skip_ascii_ws(encode_utf8(cs), i) <= encode_utf8(cs).len(),
        is_char_boundary(encode_utf8(cs), skip_ascii_ws(encode_utf8(cs), i)),
        forall|j: int|
            i <= j < skip_ascii_ws(encode_utf8(cs), i) ==> is_ascii_ws(
                #[trigger] encode_utf8(cs)[j],
            ),
        skip_ascii_ws(encode_utf8(cs), i) < encode_utf8(cs).len() ==> !is_ascii_ws(
            encode_utf8(cs)[skip_ascii_ws(encode_utf8(cs), i)],
        ),
    decreases encode_utf8(cs).len() - i,
{
    let b = encode_utf8(cs);
    if i < b.len() && is_ascii_ws(b[i]) {
        lemma_ascii_step(cs, i);
        lemma_skip(cs, i + 1);
    }
}

/// Some character boundary lies at most three bytes below any in-range index.
proof fn lemma_boundary_near(cs: Seq<char>, l: int, k: int)
    requires
        0 <= k <= cs.len(),
        byte_offset(cs, k) <= l <= encode_utf8(cs).len(),
    ensures
        exists|j: int| l - 3 <= j <= l && is_char_boundary(encode_utf8(cs), j),
    decreases cs.len() - k,
{
    lemma_offset_full(cs);
    if k == cs.len() {
        lemma_offset_is_boundary(cs, k);
        assert(is_char_boundary(encode_utf8(cs), l));
    } else {
        lemma_encode_push(cs, k);
        lemma_width_range(cs[k]);
        if byte_offset(cs, k + 1) > l {
            lemma_offset_is_boundary(cs, k);
            let j = byte_offset(cs, k);
            assert(l - 3 <= j <= l && is_char_boundary(encode_utf8(cs), j));
        } else {
            lemma_boundary_near(cs, l, k + 1);
        }
    }
}

proof fn lemma_boundary_floor_max(bytes: Seq<u8>, l: int, j: int)
    requires
        0 <= j <= l,
        is_char_boundary(bytes, j),
    ensures
        boundary_floor(bytes, l) >= j,
    decreases l,
{
    if l > 0 && !is_char_boundary(bytes, l) {
        lemma_boundary_floor_max(bytes, l - 1, j);
    }
}

/// A remainder longer than one chunk is always cut at a positive break point.
proof fn lemma_break_positive(cs: Seq<char>)
    requires
        encode_utf8(cs).len() > MAX_CHUNK,
    ensures
        break_point(encode_utf8(cs), MAX_CHUNK as int) > 0,
{
    let b = encode_utf8(cs);
    encode_utf8_valid_utf8(cs);
    lemma_offset_full(cs);
    lemma_boundary_near(cs, MAX_CHUNK as int, 0);
    let j = choose|j: int| MAX_CHUNK - 3 <= j <= MAX_CHUNK && is_char_boundary(b, j);
    lemma_boundary_floor_max(b, MAX_CHUNK as int, j);
    lemma_break_point(b, MAX_CHUNK as int);
}

/// The spans from a character boundary on are well formed.
proof fn lemma_spans_from(cs: Seq<char>, start: int)
    requires
        0 <= start <= encode_utf8(cs).len(),
        is_char_boundary(encode_utf8(cs), start),
    ensures
        spans_well_formed(encode_utf8(cs), spans_from(encode_utf8(cs), start), start),
    decreases encode_utf8(cs).len() - start,
{
    let b = encode_utf8(cs);
    let n = b.len() as int;
    encode_utf8_valid_utf8(cs);
    lemma_skip(cs, start);
    let s = skip_ascii_ws(b, start);
    let spans = spans_from(b, start);
    if s >= n {
        assert(spans_well_formed(b, spans, start));
    } else if n - s <= MAX_CHUNK {
        is_char_boundary_start_end_of_seq(b);
        assert forall|i: int| start <= i < n && !covered(spans, i) implies is_ascii_ws(
            #[trigger] b[i],
        ) by {
            if i >= s {
                assert(spans[0].0 <= i < spans[0].1);
            }
        }
    } else {
        let sub = b.subrange(s, n);
        lemma_boundary_iff(cs, s);
        let k = choose|k: int| 0 <= k <= cs.len() && #[trigger] byte_offset(cs, k) == s;
        lemma_encode_split(cs, k);
        lemma_break_positive(cs.skip(k));
        encode_utf8_valid_utf8(cs.skip(k));
        lemma_break_point(sub, MAX_CHUNK as int);
        let bp = break_point(sub, MAX_CHUNK as int);
        lemma_boundary_add(cs, s, bp);
        lemma_spans_from(cs, s + bp);
        let tail = spans_from(b, s + bp);
        assert(spans == seq![(s, s + bp)] + tail);
        assert forall|kk: int| 0 <= kk < spans.len() implies {
            &&& start <= #[trigger] spans[kk].0 < spans[kk].1 <= b.len()
            &&& spans[kk].1 - spans[kk].0 <= MAX_CHUNK
            &&& is_char_boundary(b, spans[kk].0)
            &&& is_char_boundary(b, spans[kk].1)
        } by {
            if kk > 0 {
                assert(spans[kk] == tail[kk - 1]);
            }
        }
        assert forall|kk: int, j: int| 0 <= kk < j < spans.len() implies #[trigger] spans[kk].1
            <= #[trigger] spans[j].0 by {
            assert(spans[j] == tail[j - 1]);
            if kk > 0 {
                assert(spans[kk] == tail[kk - 1]);
            }
        }
        assert forall|i: int| start <= i < n && !covered(spans, i) implies is_ascii_ws(
            #[trigger] b[i],
        ) by {
            if i >= s + bp {
                if covered(tail, i) {
                    let kk = choose|kk: int| 0 <= kk < tail.len() && #[trigger] tail[kk].0 <= i
                        < tail[kk].1;
                    assert(spans[kk + 1] == tail[kk]);
                }
            } else if i >= s {
                assert(spans[0].0 <= i < spans[0].1);
            }
        }
    }
}

/// The chunks of any text are well formed: each is a nonempty run of at most
/// [`MAX_CHUNK`] bytes between character boundaries, they come in order
/// without overlapping, and every byte they leave out is ASCII whitespace,
/// unless the text is whitespace only, in which case there are no chunks.
pub proof fn lemma_chunks_well_formed(cs: Seq<char>)
    ensures
        spans_well_formed(encode_utf8(cs), chunk_spans(cs), 0) || (all_whitespace(cs)
            && chunk_spans(cs).len() == 0),
{
    let b = encode_utf8(cs);
    encode_utf8_valid_utf8(cs);
    is_char_boundary_start_end_of_seq(b);
    if all_whitespace(cs) {
    } else if b.len() <= MAX_CHUNK {
        let spans = chunk_spans(cs);
        if b.len() == 0 {
            assert(cs.len() == 0) by {
                if cs.len() > 0 {
                    lemma_offset_full(cs);
                    lemma_offset_monotone(cs, 0, cs.len() as int);
                }
            }
            assert(all_whitespace(cs));
        }
        assert forall|i: int| 0 <= i < b.len() && !covered(spans, i) implies is_ascii_ws(
            #[trigger] b[i],
        ) by {
            assert(spans[0].0 <= i < spans[0].1);
        }
    } else {
        lemma_spans_from(cs, 0);
    }
}

/// The chunk `c` is the span `span` of the text whose bytes are `b`.
pub open spec fn chunk_matches(c: (usize, &str), span: (int, int), b: Seq<u8>) -> bool {
    &&& c.0 == span.0
    &&& encode_utf8(c.1@) == b.subrange(span.0, span.1)
}

/// Cuts `text` into chunks of at most [`MAX_CHUNK`] bytes at natural break
/// points, each paired with its byte offset in `text`.
#[verifier::rlimit(30)]
pub fn split_chunks(text: &str) -> (chunks: Vec<(usize, &str)>)
    ensures
        chunks@.len() == chunk_spans(text@).len(),
        forall|k: int|
            0 <= k < chunks@.len() ==> chunk_matches(
                #[trigger] chunks@[k],
                chunk_spans(text@)[k],
                encode_utf8(text@),
            ),
        spans_well_formed(encode_utf8(text@), chunk_spans(text@), 0) || (all_whitespace(text@)
            && chunks@.len() == 0),
{
    proof {
        lemma_chunks_well_formed(text@);
    }
    let ghost b = encode_utf8(text@);
    if is_blank(text) {
        return Vec::new();
    }
    let bytes = text.as_bytes();
    let n = bytes.len();
    if n <= MAX_CHUNK {
        let mut one: Vec<(usize, &str)> = Vec::new();
        one.push((0, text));
        assert(b.subrange(0, b.len() as int) =~= b);
        assert(chunk_matches(one@[0], chunk_spans(text@)[0], b));
        return one;
    }
    let mut chunks: Vec<(usize, &str)> = Vec::new();
    let mut start: usize = 0;
    let ghost mut done: Seq<(int, int)> = seq![];
    proof {
        encode_utf8_valid_utf8(text@);
        is_char_boundary_start_end_of_seq(b);
    }
    while start < n
        invariant
            b == encode_utf8(text@),
            bytes@ == b,
            n == b.len(),
            n > MAX_CHUNK,
            !all_whitespace(text@),
            start <= n,
            is_char_boundary(b, start as int),
            is_char_boundary(b, n as int),
            spans_from(b, 0) == done + spans_from(b, start as int),
            chunks@.len() == done.len(),
            forall|k: int|
                0 <= k < chunks@.len() ==> chunk_matches(#[trigger] chunks@[k], done[k], b),
        decreases n - start,
    {
        let ghost start0 = start as int;
        proof {
            lemma_skip(text@, start0);
        }
        while start < n && ascii_whitespace(bytes[start])
            invariant
                b == encode_utf8(text@),
                bytes@ == b,
                n == b.len(),
                start0 <= start <= n,
                is_char_boundary(b, start as int),
                skip_ascii_ws(b, start as int) == skip_ascii_ws(b, start0),
            decreases n - start,
        {
            proof {
                lemma_ascii_step(text@, start as int);
            }
            start = start + 1;
        }
        assert(start == skip_ascii_ws(b, start0));
        if start < n {
            let (_, rest) = text.split_at(start);
            if n - start <= MAX_CHUNK {
                assert(encode_utf8(rest@) == b.subrange(start as int, n as int));
                let ghost before = chunks@;
                let ghost done0 = done;
                chunks.push((start, rest));
                proof {
                    done = done + seq![(start as int, n as int)];
                    assert forall|k: int| 0 <= k < chunks@.len() implies chunk_matches(
                        #[trigger] chunks@[k],
                        done[k],
                        b,
                    ) by {
                        if k < before.len() {
                            assert(chunks@[k] == before[k]);
                            assert(done[k] == done0[k]);
                        }
                    }
                }
                start = n;
            } else {
                let bp = snap_to_break(rest, MAX_CHUNK);
                proof {
                    lemma_boundary_iff(text@, start as int);
                    let k = choose|k: int| 0 <= k <= text@.len() && #[trigger] byte_offset(text@, k) == start as int;
                    lemma_encode_split(text@, k);
                    lemma_break_positive(text@.skip(k));
                    lemma_boundary_add(text@, start as int, bp as int);
                }
                let (piece, _) = rest.split_at(bp);
                let ghost before = chunks@;
                let ghost done0 = done;
                chunks.push((start, piece));
                proof {
                    done = done + seq![(start as int, (start + bp) as int)];
                    assert(b.subrange(start as int, n as int).subrange(0, bp as int) =~= b.subrange(
                        start as int,
                        start + bp,
                    ));
                    assert forall|k: int| 0 <= k < chunks@.len() implies chunk_matches(
                        #[trigger] chunks@[k],
                        done[k],
                        b,
                    ) by {
                        if k < before.len() {
                            assert(chunks@[k] == before[k]);
                            assert(done[k] == done0[k]);
                        }
                    }
                }
                start = start + bp;
            }
        }
    }
    assert(done =~= spans_from(b, 0));
    assert(chunk_spans(text@) == spans_from(b, 0));
    chunks
}

} // verus!
