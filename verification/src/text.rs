//! Facts about UTF-8 encoded text shared by the other modules.

use vstd::prelude::*;
use vstd::utf8::*;

verus! {

broadcast use vstd::seq::group_seq_axioms;

/// Byte length of the UTF-8 encoding of the first `k` characters of `cs`.
pub open spec fn byte_offset(cs: Seq<char>, k: int) -> int {
    encode_utf8(cs.take(k)).len() as int
}

/// The number of bytes in the UTF-8 encoding of `c`.
pub open spec fn utf8_width(c: char) -> int {
    encode_scalar(c as u32).len() as int
}

/// Encoding a concatenation encodes each part in turn.
pub proof fn lemma_encode_concat(a: Seq<char>, b: Seq<char>)
    ensures
        encode_utf8(a + b) == encode_utf8(a) + encode_utf8(b),
    decreases a.len(),
{
    if a.len() == 0 {
        assert(a + b =~= b);
        assert(encode_utf8(a) =~= Seq::<u8>::empty());
        assert(encode_utf8(a) + encode_utf8(b) =~= encode_utf8(b));
    } else {
        lemma_encode_concat(a.drop_first(), b);
        assert((a + b).drop_first() =~= a.drop_first() + b);
        assert((a + b)[0] == a[0]);
        assert(encode_utf8(a + b) =~= encode_scalar(a[0] as u32) + encode_utf8((a + b).drop_first()));
        assert(encode_utf8(a) =~= encode_scalar(a[0] as u32) + encode_utf8(a.drop_first()));
    }
}

/// Every character takes between one and four bytes.
pub proof fn lemma_width_range(c: char)
    ensures
        1 <= utf8_width(c) <= 4,
        utf8_width(c) == 1 <==> (c as u32) < 0x80,
        utf8_width(c) == (if (c as u32) < 0x80 {
            1int
        } else if (c as u32) < 0x800 {
            2int
        } else if (c as u32) < 0x10000 {
            3int
        } else {
            4int
        }),
{
    char_is_scalar(c);
}

/// Encoding one more character appends its scalar encoding.
pub proof fn lemma_encode_push(cs: Seq<char>, k: int)
    requires
        0 <= k < cs.len(),
    ensures
        encode_utf8(cs.take(k + 1)) == encode_utf8(cs.take(k)) + encode_scalar(cs[k] as u32),
        byte_offset(cs, k + 1) == byte_offset(cs, k) + utf8_width(cs[k]),
{
    let s = seq![cs[k]];
    assert(cs.take(k + 1) =~= cs.take(k) + s);
    lemma_encode_concat(cs.take(k), s);
    assert(s.drop_first() =~= Seq::<char>::empty());
    assert(encode_utf8(s) =~= encode_scalar(cs[k] as u32) + encode_utf8(s.drop_first()));
    assert(encode_utf8(s.drop_first()) =~= Seq::<u8>::empty());
    assert(encode_utf8(s) =~= encode_scalar(cs[k] as u32));
}

/// Byte offsets grow with the character index.
pub proof fn lemma_offset_monotone(cs: Seq<char>, j: int, k: int)
    requires
        0 <= j <= k <= cs.len(),
    ensures
        byte_offset(cs, j) + (k - j) <= byte_offset(cs, k),
    decreases k - j,
{
    if j < k {
        lemma_offset_monotone(cs, j, k - 1);
        lemma_encode_push(cs, k - 1);
        lemma_width_range(cs[k - 1]);
    }
}

/// The whole encoding has the length of the full prefix.
pub proof fn lemma_offset_full(cs: Seq<char>)
    ensures
        byte_offset(cs, cs.len() as int) == encode_utf8(cs).len(),
        byte_offset(cs, 0) == 0,
{
    assert(cs.take(cs.len() as int) =~= cs);
    assert(cs.take(0) =~= Seq::<char>::empty());
}

/// The bytes after the first `k` characters encode the remaining characters.
pub proof fn lemma_encode_split(cs: Seq<char>, k: int)
    requires
        0 <= k <= cs.len(),
    ensures
        encode_utf8(cs) == encode_utf8(cs.take(k)) + encode_utf8(cs.skip(k)),
        encode_utf8(cs).subrange(0, byte_offset(cs, k)) == encode_utf8(cs.take(k)),
        encode_utf8(cs).subrange(byte_offset(cs, k), encode_utf8(cs).len() as int) == encode_utf8(
            cs.skip(k),
        ),
{
    assert(cs =~= cs.take(k) + cs.skip(k));
    lemma_encode_concat(cs.take(k), cs.skip(k));
    let a = encode_utf8(cs.take(k));
    let b = encode_utf8(cs.skip(k));
    assert((a + b).subrange(0, a.len() as int) =~= a);
    assert((a + b).subrange(a.len() as int, (a + b).len() as int) =~= b);
}

/// A byte index is a character boundary exactly when it is the byte offset
/// of some character index.
pub proof fn lemma_boundary_iff(cs: Seq<char>, i: int)
    ensures
        is_char_boundary(encode_utf8(cs), i) <==> exists|k: int|
            0 <= k <= cs.len() && #[trigger] byte_offset(cs, k) == i,
    decreases cs.len(),
{
    encode_utf8_valid_utf8(cs);
    let bytes = encode_utf8(cs);
    if cs.len() == 0 {
        assert(bytes =~= Seq::<u8>::empty());
        assert(cs.take(0) =~= cs);
        if i == 0 {
            assert(byte_offset(cs, 0) == 0);
        }
        if exists|k: int| 0 <= k <= cs.len() && #[trigger] byte_offset(cs, k) == i {
            let k = choose|k: int| 0 <= k <= cs.len() && #[trigger] byte_offset(cs, k) == i;
            assert(k == 0);
        }
    } else {
        let rest = cs.drop_first();
        encode_utf8_first_scalar(cs);
        let w = utf8_width(cs[0]);
        assert(pop_first_scalar(bytes) =~= encode_utf8(rest));
        lemma_boundary_iff(rest, i - w);
        lemma_width_range(cs[0]);
        lemma_offset_full(cs);
        // offsets of cs are w plus offsets of rest
        assert forall|k: int| 1 <= k <= cs.len() implies #[trigger] byte_offset(cs, k)
            == w + byte_offset(rest, k - 1) by {
            assert(cs.take(k) =~= seq![cs[0]] + rest.take(k - 1));
            lemma_encode_concat(seq![cs[0]], rest.take(k - 1));
            assert(seq![cs[0]].drop_first() =~= Seq::<char>::empty());
            assert(encode_utf8(seq![cs[0]]) =~= encode_scalar(cs[0] as u32) + encode_utf8(
                Seq::<char>::empty(),
            ));
        }
        if i == 0 {
            assert(byte_offset(cs, 0) == 0);
        } else if i < 0 || bytes.len() < i {
            if exists|k: int| 0 <= k <= cs.len() && #[trigger] byte_offset(cs, k) == i {
                let k = choose|k: int| 0 <= k <= cs.len() && #[trigger] byte_offset(cs, k) == i;
                lemma_offset_monotone(cs, k, cs.len() as int);
                lemma_offset_monotone(cs, 0, k);
            }
        } else {
            assert(is_char_boundary(bytes, i) == is_char_boundary(encode_utf8(rest), i - w));
            if is_char_boundary(bytes, i) {
                let k = choose|k: int| 0 <= k <= rest.len() && #[trigger] byte_offset(rest, k) == i
                    - w;
                assert(byte_offset(cs, k + 1) == i);
            }
            if exists|k: int| 0 <= k <= cs.len() && #[trigger] byte_offset(cs, k) == i {
                let k = choose|k: int| 0 <= k <= cs.len() && #[trigger] byte_offset(cs, k) == i;
                assert(k >= 1);
                assert(byte_offset(rest, k - 1) == i - w);
            }
        }
    }
}

/// The byte offset of any character index is a character boundary.
pub proof fn lemma_offset_is_boundary(cs: Seq<char>, k: int)
    requires
        0 <= k <= cs.len(),
    ensures
        is_char_boundary(encode_utf8(cs), byte_offset(cs, k)),
{
    lemma_boundary_iff(cs, byte_offset(cs, k));
}

/// The first byte of a character's encoding is below 0x80 only for a one-byte character.
pub proof fn lemma_first_byte(c: char)
    ensures
        encode_scalar(c as u32).len() >= 1,
        (encode_scalar(c as u32)[0] < 0x80) <==> utf8_width(c) == 1,
        encode_scalar(c as u32)[0] < 0x80 ==> encode_scalar(c as u32)[0] == c as u32,
{
    char_is_scalar(c);
    let v = c as u32;
    assert(((0xC0u8 | ((v >> 6) & 0x1F) as u8) >= 0x80)) by (bit_vector);
    assert(((0xE0u8 | ((v >> 12) & 0x0F) as u8) >= 0x80)) by (bit_vector);
    assert(((0xF0u8 | ((v >> 18) & 0x7) as u8) >= 0x80)) by (bit_vector);
    assert(v <= 0x7F ==> (v & 0x7F) as u8 == v) by (bit_vector);
}

/// In a valid encoding, a boundary followed by a one-byte character is
/// followed by another boundary, and the byte at a boundary is the
/// first byte of the character that starts there.
pub proof fn lemma_ascii_step(cs: Seq<char>, i: int)
    requires
        is_char_boundary(encode_utf8(cs), i),
        0 <= i < encode_utf8(cs).len(),
        encode_utf8(cs)[i] < 0x80,
    ensures
        is_char_boundary(encode_utf8(cs), i + 1),
{
    lemma_boundary_iff(cs, i);
    let k = choose|k: int| 0 <= k <= cs.len() && #[trigger] byte_offset(cs, k) == i;
    lemma_offset_full(cs);
    if k == cs.len() {
        assert(false);
    }
    lemma_encode_push(cs, k);
    lemma_encode_split(cs, k + 1);
    let e = encode_utf8(cs.take(k + 1));
    assert(encode_utf8(cs)[i] == e[i]);
    assert(e[i] == encode_scalar(cs[k] as u32)[0]);
    lemma_first_byte(cs[k]);
    assert(byte_offset(cs, k + 1) == i + 1);
    lemma_offset_is_boundary(cs, k + 1);
}

/// A boundary within the bytes that follow a boundary is a boundary of the whole.
pub proof fn lemma_boundary_add(cs: Seq<char>, a: int, b: int)
    requires
        is_char_boundary(encode_utf8(cs), a),
        is_char_boundary(encode_utf8(cs).subrange(a, encode_utf8(cs).len() as int), b),
    ensures
        is_char_boundary(encode_utf8(cs), a + b),
{
    lemma_boundary_iff(cs, a);
    let k1 = choose|k: int| 0 <= k <= cs.len() && #[trigger] byte_offset(cs, k) == a;
    lemma_encode_split(cs, k1);
    let rest = cs.skip(k1);
    lemma_boundary_iff(rest, b);
    let k2 = choose|k: int| 0 <= k <= rest.len() && #[trigger] byte_offset(rest, k) == b;
    assert(cs.take(k1 + k2) =~= cs.take(k1) + rest.take(k2));
    lemma_encode_concat(cs.take(k1), rest.take(k2));
    assert(byte_offset(cs, k1 + k2) == a + b);
    lemma_offset_is_boundary(cs, k1 + k2);
}


/// Unicode `White_Space`, the set that `char::is_whitespace` and `str::trim` use.
pub open spec fn is_unicode_whitespace(c: char) -> bool {
    let v = c as u32;
    ||| 0x09 <= v <= 0x0d
    ||| v == 0x20
    ||| v == 0x85
    ||| v == 0xa0
    ||| v == 0x1680
    ||| 0x2000 <= v <= 0x200a
    ||| v == 0x2028
    ||| v == 0x2029
    ||| v == 0x202f
    ||| v == 0x205f
    ||| v == 0x3000
}

/// True when every character of `cs` is Unicode whitespace (so trimming leaves nothing).
pub open spec fn all_whitespace(cs: Seq<char>) -> bool {
    forall|i: int| 0 <= i < cs.len() ==> #[trigger] is_unicode_whitespace(cs[i])
}

/// ASCII whitespace as `u8::is_ascii_whitespace` defines it: space, tab,
/// line feed, form feed and carriage return.
pub open spec fn is_ascii_ws(b: u8) -> bool {
    b == 0x20 || b == 0x09 || b == 0x0a || b == 0x0c || b == 0x0d
}

/// Executable form of [`is_unicode_whitespace`].
pub fn unicode_whitespace(c: char) -> (r: bool)
    ensures
        r == is_unicode_whitespace(c),
{
    let v = c as u32;
    (0x09 <= v && v <= 0x0d) || v == 0x20 || v == 0x85 || v == 0xa0 || v == 0x1680 || (0x2000
        <= v && v <= 0x200a) || v == 0x2028 || v == 0x2029 || v == 0x202f || v == 0x205f || v
        == 0x3000
}

/// Executable form of [`is_ascii_ws`].
pub fn ascii_whitespace(b: u8) -> (r: bool)
    ensures
        r == is_ascii_ws(b),
{
    b == 0x20 || b == 0x09 || b == 0x0a || b == 0x0c || b == 0x0d
}

/// The characters of `s`, in order.
pub fn chars_of(s: &str) -> (v: Vec<char>)
    ensures
        v@ == s@,
{
    broadcast use vstd::string::group_string_axioms;

    let mut v: Vec<char> = Vec::new();
    let mut it = s.chars();
    let ghost total = s@;
    loop
        invariant
            vstd::std_specs::iter::IteratorSpec::obeys_prophetic_iter_laws(&it),
            v@ + vstd::std_specs::iter::IteratorSpec::remaining(&it) == total,
            total == s@,
            vstd::std_specs::iter::IteratorSpec::decrease(&it) is Some,
        decreases vstd::std_specs::iter::IteratorSpec::decrease(&it)->0,
    {
        match it.next() {
            Some(c) => {
                assert(v@.push(c) + vstd::std_specs::iter::IteratorSpec::remaining(&it) =~= total);
                v.push(c);
            },
            None => {
                assert(v@ =~= total);
                return v;
            },
        }
    }
}

/// True when every character of `text` is Unicode whitespace.
pub fn is_blank(text: &str) -> (r: bool)
    ensures
        r == all_whitespace(text@),
{
    let cs = chars_of(text);
    let mut i: usize = 0;
    while i < cs.len()
        invariant
            i <= cs@.len(),
            cs@ == text@,
            forall|j: int| 0 <= j < i ==> #[trigger] is_unicode_whitespace(cs@[j]),
        decreases cs.len() - i,
    {
        if !unicode_whitespace(cs[i]) {
            return false;
        }
        i = i + 1;
    }
    true
}

/// Name for what `String::from_utf8_lossy` makes of a byte sequence: the
/// characters it encodes, with U+FFFD in place of each invalid sequence.
pub uninterp spec fn lossy_utf8(bytes: Seq<u8>) -> Seq<char>;

/// Calls `String::from_utf8_lossy` and takes ownership of the result.
/// The contract claims that the characters are [`lossy_utf8`] of the bytes,
/// and, as the documentation states, that valid UTF-8 decodes unchanged.
#[verifier::external_body]
pub fn utf8_lossy(bytes: &[u8]) -> (s: String)
    ensures
        s@ == lossy_utf8(bytes@),
        valid_utf8(bytes@) ==> s@ == decode_utf8(bytes@),
{
    String::from_utf8_lossy(bytes).into_owned()
}

/// Calls `String::from_iter` over the characters: the string holds
/// exactly these characters, in order.
#[verifier::external_body]
pub fn string_from_chars(cs: &Vec<char>) -> (s: String)
    ensures
        s@ == cs@,
{
    cs.iter().collect::<String>()
}

/// The decimal digit character for `d < 10`.
pub open spec fn digit_char(d: int) -> char {
    (d + 0x30) as char
}

/// The decimal representation of `n`, without leading zeros.
pub open spec fn decimal(n: nat) -> Seq<char>
    decreases n,
{
    if n < 10 {
        seq![digit_char(n as int)]
    } else {
        decimal(n / 10).push(digit_char((n % 10) as int))
    }
}

/// Appends the decimal representation of `n` to `out`.
pub fn push_decimal(out: &mut Vec<char>, n: usize)
    ensures
        final(out)@ == old(out)@ + decimal(n as nat),
    decreases n,
{
    if n >= 10 {
        push_decimal(out, n / 10);
    }
    let d = (n % 10) as u8;
    out.push((d + 0x30) as char);
    assert(final(out)@ =~= old(out)@ + decimal(n as nat));
}

/// Appends the characters of `s` to `out`.
pub fn push_str(out: &mut Vec<char>, s: &str)
    ensures
        final(out)@ == old(out)@ + s@,
{
    let cs = chars_of(s);
    let mut i: usize = 0;
    let ghost start = out@;
    while i < cs.len()
        invariant
            i <= cs@.len(),
            cs@ == s@,
            out@ == start + cs@.take(i as int),
        decreases cs.len() - i,
    {
        out.push(cs[i]);
        i = i + 1;
        assert(out@ =~= start + cs@.take(i as int));
    }
    assert(cs@.take(cs@.len() as int) =~= cs@);
}

/// A boundary at or after another boundary is a boundary of the bytes that follow the first.
pub proof fn lemma_boundary_sub(cs: Seq<char>, a: int, b: int)
    requires
        is_char_boundary(encode_utf8(cs), a),
        is_char_boundary(encode_utf8(cs), b),
        a <= b,
    ensures
        is_char_boundary(encode_utf8(cs).subrange(a, encode_utf8(cs).len() as int), b - a),
{
    lemma_boundary_iff(cs, a);
    lemma_boundary_iff(cs, b);
    let k1 = choose|k: int| 0 <= k <= cs.len() && #[trigger] byte_offset(cs, k) == a;
    let k2 = choose|k: int| 0 <= k <= cs.len() && #[trigger] byte_offset(cs, k) == b;
    if k2 < k1 {
        lemma_offset_monotone(cs, k2 + 1, k1);
        lemma_encode_push(cs, k2);
        lemma_width_range(cs[k2]);
    }
    lemma_encode_split(cs, k1);
    let rest = cs.skip(k1);
    assert(cs.take(k2) =~= cs.take(k1) + rest.take(k2 - k1));
    lemma_encode_concat(cs.take(k1), rest.take(k2 - k1));
    assert(byte_offset(rest, k2 - k1) == b - a);
    lemma_offset_is_boundary(rest, k2 - k1);
}

} // verus!
