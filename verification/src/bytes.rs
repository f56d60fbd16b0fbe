//! Byte offsets into UTF-8 text: the editor and the selection address text by
//! byte, the way `str` indexing does, while contracts speak of characters.
use vstd::prelude::*;
use vstd::utf8::{
    decode_utf8, encode_utf8, encode_utf8_decode_utf8, encode_utf8_valid_utf8,
    is_char_boundary, is_char_boundary_iff_not_is_continuation_byte,
    is_char_boundary_start_end_of_seq, is_continuation_byte, valid_utf8,
};

verus! {

/// Length of `t` in UTF-8 bytes.
pub open spec fn blen(t: Seq<char>) -> nat {
    encode_utf8(t).len()
}

/// Whether byte offset `i` of `t` starts a character (or is the end).
pub open spec fn at_boundary(t: Seq<char>, i: int) -> bool {
    0 <= i <= blen(t) && (i == 0 || i == blen(t) || !is_continuation_byte(encode_utf8(t)[i]))
}

/// The characters between byte offsets `a` and `b` of `t`.
pub open spec fn bslice(t: Seq<char>, a: int, b: int) -> Seq<char> {
    decode_utf8(encode_utf8(t).subrange(a, b))
}

/// The UTF-8 bytes of a concatenation are the concatenated bytes.
pub proof fn lemma_encode_concat(a: Seq<char>, b: Seq<char>)
    ensures
        encode_utf8(a + b) == encode_utf8(a) + encode_utf8(b),
    decreases a.len(),
{
    if a.len() == 0 {
        assert(a + b =~= b);
        assert(encode_utf8(a) + encode_utf8(b) =~= encode_utf8(b));
    } else {
        lemma_encode_concat(a.drop_first(), b);
        assert((a + b).drop_first() =~= a.drop_first() + b);
        assert((a + b)[0] == a[0]);
        assert(encode_utf8(a + b) =~= encode_utf8(a) + encode_utf8(b));
    }
}

/// `at_boundary` is the standard library's notion of a character boundary.
pub proof fn lemma_boundary(t: Seq<char>, i: int)
    requires
        0 <= i <= blen(t),
    ensures
        at_boundary(t, i) == is_char_boundary(encode_utf8(t), i),
{
    let b = encode_utf8(t);
    encode_utf8_valid_utf8(t);
    is_char_boundary_start_end_of_seq(b);
    if 0 < i < b.len() {
        is_char_boundary_iff_not_is_continuation_byte(b, i);
    }
}

/// Slicing at boundaries and reading the characters back.
pub proof fn lemma_bslice(t: Seq<char>, a: int, b: int, r: Seq<char>)
    requires
        0 <= a <= b <= blen(t),
        encode_utf8(r) == encode_utf8(t).subrange(a, b),
    ensures
        r == bslice(t, a, b),
        blen(r) == b - a,
{
    encode_utf8_decode_utf8(r);
}

/// The whole text, read between its ends.
pub proof fn lemma_bslice_all(t: Seq<char>)
    ensures
        bslice(t, 0, blen(t) as int) == t,
{
    assert(encode_utf8(t).subrange(0, blen(t) as int) =~= encode_utf8(t));
    encode_utf8_decode_utf8(t);
}

/// `&s[a..b]` for byte offsets that are character boundaries.
pub fn slice<'a>(s: &'a str, a: usize, b: usize) -> (r: &'a str)
    requires
        a <= b <= blen(s@),
        at_boundary(s@, a as int),
        at_boundary(s@, b as int),
    ensures
        encode_utf8(r@) == encode_utf8(s@).subrange(a as int, b as int),
        r@ == bslice(s@, a as int, b as int),
        blen(r@) == b - a,
{
    let ghost bs = encode_utf8(s@);
    proof {
        lemma_boundary(s@, a as int);
    }
    let (_, rest) = s.split_at(a);
    let ghost rs = encode_utf8(rest@);
    proof {
        assert(rs =~= bs.subrange(a as int, bs.len() as int));
        let k = (b - a) as int;
        assert(0 <= k <= rs.len());
        lemma_boundary(rest@, k);
        if 0 < k < rs.len() {
            assert(rs[k] == bs[b as int]);
        }
        assert(at_boundary(rest@, k));
    }
    let (mid, _) = rest.split_at(b - a);
    proof {
        assert(encode_utf8(mid@) =~= bs.subrange(a as int, b as int));
        lemma_bslice(s@, a as int, b as int, mid@);
    }
    mid
}

/// Byte length (`str::len`).
pub fn byte_len(s: &str) -> (r: usize)
    ensures
        r == blen(s@),
{
    s.as_bytes().len()
}

/// The byte at offset `i`.
pub fn byte_at(s: &str, i: usize) -> (r: u8)
    requires
        i < blen(s@),
    ensures
        r == encode_utf8(s@)[i as int],
{
    s.as_bytes()[i]
}

/// Whether byte offset `i` starts a character.
pub fn is_boundary(s: &str, i: usize) -> (r: bool)
    requires
        i <= blen(s@),
    ensures
        r == at_boundary(s@, i as int),
{
    let b = s.as_bytes();
    if i == 0 || i == b.len() {
        true
    } else {
        let x = b[i];
        !(0x80u8 <= x && x <= 0xBFu8)
    }
}

} // verus!
