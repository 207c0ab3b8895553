//! Mapping from UTF-16 code-unit positions, which the speech engine reports,
//! to byte offsets into the UTF-8 text.

use vstd::prelude::*;
use vstd::utf8::*;

use crate::text::{
    byte_offset, chars_of, lemma_encode_push, lemma_offset_full, lemma_offset_is_boundary,
    lemma_offset_monotone, lemma_width_range, utf8_width,
};

verus! {

broadcast use vstd::seq::group_seq_axioms;

/// The number of UTF-16 code units that encode `c`: two for characters
/// outside the Basic Multilingual Plane, one otherwise.
pub open spec fn utf16_width(c: char) -> int {
    if (c as u32) >= 0x10000 {
        2
    } else {
        1
    }
}

/// One entry per UTF-16 code unit of the first `k` characters of `cs`: the
/// byte offset of the character that the unit belongs to.
pub open spec fn unit_entries(cs: Seq<char>, k: int) -> Seq<int>
    decreases k,
{
    if k <= 0 {
        seq![]
    } else {
        unit_entries(cs, k - 1) + Seq::new(
            utf16_width(cs[k - 1]) as nat,
            |_u: int| byte_offset(cs, k - 1),
        )
    }
}

/// The number of UTF-16 code units that encode the first `k` characters of `cs`.
pub open spec fn utf16_units(cs: Seq<char>, k: int) -> int {
    unit_entries(cs, k).len() as int
}

/// The full table for `cs`: the entry of every UTF-16 code unit, then the
/// length of the text in bytes for the position just past the end.
pub open spec fn utf16_table(cs: Seq<char>) -> Seq<int> {
    unit_entries(cs, cs.len() as int).push(encode_utf8(cs).len() as int)
}

/// What a table lookup gives: the entry at `pos`, or the last entry
/// (the text's byte length) for a position past the end.
pub open spec fn lookup(table: Seq<int>, pos: int) -> int {
    if 0 <= pos < table.len() {
        table[pos]
    } else {
        table.last()
    }
}

/// Converts UTF-16 code-unit positions into byte offsets of one text.
pub struct Utf16Map {
    utf16_to_byte: Vec<usize>,
}

impl Utf16Map {
    #[verifier::type_invariant]
    spec fn nonempty(self) -> bool {
        self.utf16_to_byte@.len() > 0
    }

    /// The table this map holds.
    pub closed spec fn table(&self) -> Seq<int> {
        self.utf16_to_byte@.map_values(|x: usize| x as int)
    }

    /// Builds the map for `text`.
    pub fn new(text: &str) -> (m: Self)
        ensures
            m.table() == utf16_table(text@),
    {
        let cs = chars_of(text);
        let bytes = text.as_bytes();
        let n = bytes.len();
        let mut map: Vec<usize> = Vec::new();
        let mut byte_idx: usize = 0;
        let mut i: usize = 0;
        proof {
            lemma_offset_full(text@);
        }
        while i < cs.len()
            invariant
                cs@ == text@,
                bytes@ == encode_utf8(text@),
                n == bytes@.len(),
                i <= cs@.len(),
                byte_idx == byte_offset(text@, i as int),
                map@.map_values(|x: usize| x as int) == unit_entries(text@, i as int),
            decreases cs.len() - i,
        {
            let c = cs[i];
            proof {
                lemma_encode_push(text@, i as int);
                lemma_offset_monotone(text@, i as int + 1, text@.len() as int);
                lemma_offset_full(text@);
                lemma_width_range(c);
            }
            map.push(byte_idx);
            if (c as u32) >= 0x10000 {
                map.push(byte_idx);
            }
            assert(map@.map_values(|x: usize| x as int) =~= unit_entries(text@, i as int + 1));
            byte_idx = byte_idx + utf8_len(c);
            i = i + 1;
        }
        map.push(n);
        proof {
            lemma_offset_full(text@);
        }
        let m = Utf16Map { utf16_to_byte: map };
        assert(m.table() =~= utf16_table(text@));
        m
    }

    /// The byte offset of the character that holds UTF-16 position `utf16_pos`;
    /// the text's byte length for a position at or past the end.
    pub fn to_byte(&self, utf16_pos: usize) -> (b: usize)
        ensures
            b == lookup(self.table(), utf16_pos as int),
    {
        proof {
            use_type_invariant(self);
        }
        if utf16_pos < self.utf16_to_byte.len() {
            self.utf16_to_byte[utf16_pos]
        } else {
            self.utf16_to_byte[self.utf16_to_byte.len() - 1]
        }
    }

    /// The byte range that the UTF-16 range starting at `utf16_pos` with
    /// `utf16_len` units covers, each end looked up as [`Self::to_byte`] does.
    pub fn to_byte_range(&self, utf16_pos: usize, utf16_len: usize) -> (r: (usize, usize))
        requires
            utf16_pos + utf16_len <= usize::MAX,
        ensures
            r.0 == lookup(self.table(), utf16_pos as int),
            r.1 == lookup(self.table(), utf16_pos + utf16_len),
    {
        let start = self.to_byte(utf16_pos);
        let end = self.to_byte(utf16_pos + utf16_len);
        (start, end)
    }

    /// The number of UTF-16 code units in the text.
    pub fn unit_count(&self) -> (n: usize)
        ensures
            n == self.table().len() - 1,
    {
        proof {
            use_type_invariant(self);
        }
        self.utf16_to_byte.len() - 1
    }
}

/// The number of UTF-16 code units in the bytes of `text` before byte `offset`.
pub open spec fn units_before(text: Seq<char>, offset: int) -> int {
    let pre = decode_utf8(encode_utf8(text).subrange(0, offset));
    utf16_units(pre, pre.len() as int)
}

/// Places a word that the engine reports within a chunk of `text` starting at
/// byte `offset` (`pos` and `len` in UTF-16 units from the chunk's start) in
/// the whole text: its start counted from the text's start, saturating at
/// `usize::MAX`, and its length cut so that the end stays within `usize`.
pub fn text_word(text: &str, offset: usize, pos: usize, len: usize) -> (r: (usize, usize))
    requires
        is_char_boundary(encode_utf8(text@), offset as int),
    ensures
        r.0 == (if units_before(text@, offset as int) + pos <= usize::MAX {
            units_before(text@, offset as int) + pos
        } else {
            usize::MAX as int
        }),
        r.1 == (if len <= usize::MAX - r.0 {
            len as int
        } else {
            usize::MAX - r.0
        }),
{
    let (before, _) = text.split_at(offset);
    proof {
        encode_utf8_decode_utf8(before@);
    }
    let units = Utf16Map::new(before).unit_count();
    let start: usize = match units.checked_add(pos) {
        Some(v) => v,
        None => usize::MAX,
    };
    let count: usize = if len <= usize::MAX - start {
        len
    } else {
        usize::MAX - start
    };
    (start, count)
}

/// The number of bytes in the UTF-8 encoding of `c`.
pub fn utf8_len(c: char) -> (n: usize)
    ensures
        n == utf8_width(c),
{
    proof {
        lemma_width_range(c);
    }
    let v = c as u32;
    if v < 0x80 {
        1
    } else if v < 0x800 {
        2
    } else if v < 0x10000 {
        3
    } else {
        4
    }
}

proof fn lemma_entries_len(cs: Seq<char>, k: int)
    requires
        0 <= k <= cs.len(),
    ensures
        utf16_units(cs, k) >= k,
        k < cs.len() ==> utf16_units(cs, k + 1) == utf16_units(cs, k) + utf16_width(cs[k]),
    decreases k,
{
    if k > 0 {
        lemma_entries_len(cs, k - 1);
    }
}

/// Entries stay the same as more characters are added.
proof fn lemma_entries_prefix(cs: Seq<char>, k: int, m: int, t: int)
    requires
        0 <= k <= m <= cs.len(),
        0 <= t < utf16_units(cs, k),
    ensures
        unit_entries(cs, m)[t] == unit_entries(cs, k)[t],
    decreases m - k,
{
    if k < m {
        lemma_entries_prefix(cs, k, m - 1, t);
        lemma_entries_len(cs, m - 1);
        lemma_entries_len(cs, k);
        let a = unit_entries(cs, m - 1);
        assert(t < a.len()) by {
            lemma_units_monotone(cs, k, m - 1);
        }
    }
}

proof fn lemma_units_monotone(cs: Seq<char>, k: int, m: int)
    requires
        0 <= k <= m <= cs.len(),
    ensures
        utf16_units(cs, k) + (m - k) <= utf16_units(cs, m),
    decreases m - k,
{
    if k < m {
        lemma_units_monotone(cs, k, m - 1);
        lemma_entries_len(cs, m - 1);
    }
}

/// Looking up the UTF-16 length of any prefix of the text gives the byte
/// length of that same prefix: positions the engine reports at character
/// edges land on the matching byte offsets, surrogate pairs included.
pub proof fn lemma_prefix_lookup(cs: Seq<char>, k: int)
    requires
        0 <= k <= cs.len(),
    ensures
        lookup(utf16_table(cs), utf16_units(cs, k)) == byte_offset(cs, k),
        utf16_units(cs, k) < utf16_table(cs).len(),
{
    let n = cs.len() as int;
    lemma_offset_full(cs);
    lemma_units_monotone(cs, k, n);
    if k == n {
    } else {
        lemma_entries_len(cs, k);
        assert(unit_entries(cs, k + 1)[utf16_units(cs, k)] == byte_offset(cs, k));
        lemma_entries_prefix(cs, k + 1, n, utf16_units(cs, k));
    }
}

/// Every entry is the byte offset of some character index.
proof fn lemma_entries_are_offsets(cs: Seq<char>, k: int, t: int)
    requires
        0 <= k <= cs.len(),
        0 <= t < utf16_units(cs, k),
    ensures
        exists|j: int| 0 <= j < k && #[trigger] byte_offset(cs, j) == unit_entries(cs, k)[t],
    decreases k,
{
    lemma_entries_len(cs, k - 1);
    if t < utf16_units(cs, k - 1) {
        lemma_entries_are_offsets(cs, k - 1, t);
        let j = choose|j: int| 0 <= j < k - 1 && #[trigger] byte_offset(cs, j) == unit_entries(
            cs,
            k - 1,
        )[t];
        assert(byte_offset(cs, j) == unit_entries(cs, k)[t]);
    } else {
        assert(byte_offset(cs, k - 1) == unit_entries(cs, k)[t]);
    }
}

/// Entries never decrease along the table.
proof fn lemma_entries_sorted(cs: Seq<char>, k: int, t1: int, t2: int)
    requires
        0 <= k <= cs.len(),
        0 <= t1 <= t2 < utf16_units(cs, k),
    ensures
        unit_entries(cs, k)[t1] <= unit_entries(cs, k)[t2],
        unit_entries(cs, k)[t2] <= byte_offset(cs, k - 1),
    decreases k,
{
    lemma_entries_len(cs, k - 1);
    if t2 < utf16_units(cs, k - 1) {
        lemma_entries_sorted(cs, k - 1, t1, t2);
        lemma_offset_monotone(cs, k - 2, k - 1);
    } else if t1 < utf16_units(cs, k - 1) {
        lemma_entries_sorted(cs, k - 1, t1, utf16_units(cs, k - 1) - 1);
        lemma_offset_monotone(cs, k - 2, k - 1);
    }
}

/// Every table entry is a character boundary of the text no larger than its
/// byte length, and entries never decrease: the range between two looked-up
/// positions is always a well-formed slice of the text.
pub proof fn lemma_table_entries(cs: Seq<char>, t1: int, t2: int)
    requires
        0 <= t1 <= t2 < utf16_table(cs).len(),
    ensures
        utf16_table(cs)[t1] <= utf16_table(cs)[t2] <= encode_utf8(cs).len(),
        is_char_boundary(encode_utf8(cs), utf16_table(cs)[t1]),
        is_char_boundary(encode_utf8(cs), utf16_table(cs)[t2]),
        utf16_table(cs).last() == encode_utf8(cs).len(),
{
    let n = cs.len() as int;
    let e = unit_entries(cs, n);
    lemma_offset_full(cs);
    lemma_offset_is_boundary(cs, n);
    assert forall|t: int| 0 <= t < e.len() implies is_char_boundary(
        encode_utf8(cs),
        #[trigger] e[t],
    ) && e[t] <= encode_utf8(cs).len() by {
        lemma_entries_are_offsets(cs, n, t);
        let j = choose|j: int| 0 <= j < n && #[trigger] byte_offset(cs, j) == e[t];
        lemma_offset_is_boundary(cs, j);
        lemma_offset_monotone(cs, j, n);
    }
    if t2 < e.len() {
        lemma_entries_sorted(cs, n, t1, t2);
    }
}

} // verus!
