//! Correlation tokens: UUIDv8 text built from a SHA-256 digest of
//! process-local entropy. These are correlation tokens on a trusted socket,
//! not credentials.
use sha2::Digest;
use std::hash::{BuildHasher, Hasher};
use vstd::prelude::*;

verus! {

/// The SHA-256 digest of `data`, as computed by the `sha2` crate.
pub uninterp spec fn sha256_of(data: Seq<u8>) -> Seq<u8>;

/// `sha2::Sha256::digest`: the 32-byte SHA-256 digest of `data`.
#[verifier::external_body]
pub(crate) fn sha256(data: &[u8]) -> (r: Vec<u8>)
    ensures
        r@ == sha256_of(data@),
        r@.len() == 32,
{
    sha2::Sha256::digest(data).to_vec()
}

/// A fresh 64-bit value from std's randomly seeded hasher keys
/// (`RandomState::new().build_hasher().finish()`); nothing is promised of it.
#[verifier::external_body]
pub(crate) fn hasher_entropy() -> u64 {
    std::collections::hash_map::RandomState::new().build_hasher().finish()
}

/// Nanoseconds since the Unix epoch from the system clock, truncated to 64 bits
/// (`SystemTime::now`); nothing is promised of it.
#[verifier::external_body]
pub(crate) fn clock_entropy() -> u64 {
    std::time::SystemTime::now().duration_since(std::time::UNIX_EPOCH).map(|d| d.as_nanos() as u64).unwrap_or(0)
}

pub open spec fn hex_digit(n: u8) -> char
    recommends
        n < 16,
{
    if n < 10 {
        (48 + n) as char
    } else {
        (87 + n) as char
    }
}

pub open spec fn is_lower_hex(c: char) -> bool {
    ('0' <= c <= '9') || ('a' <= c <= 'f')
}

/// Byte `i` of the 16-byte UUID value taken from a digest, with the version
/// bits `v` (`0x40` for version 4, `0x80` for version 8) and the RFC 4122
/// variant bits set.
pub open spec fn uuid_byte(d: Seq<u8>, v: u8, i: int) -> u8 {
    if i == 6 {
        (d[6] & 0x0f) | v
    } else if i == 8 {
        (d[8] & 0x3f) | 0x80
    } else {
        d[i]
    }
}

/// The lowercase hex text of bytes `from..to` of the UUID value.
pub open spec fn uuid_hex(d: Seq<u8>, v: u8, from: int, to: int) -> Seq<char>
    decreases to - from,
{
    if to <= from {
        Seq::empty()
    } else {
        uuid_hex(d, v, from, to - 1) + seq![hex_digit(uuid_byte(d, v, to - 1) >> 4), hex_digit(uuid_byte(d, v, to - 1) & 0x0f)]
    }
}

/// `8-4-4-4-12` grouped hex text of the first 16 digest bytes.
pub open spec fn uuid_text(d: Seq<u8>, v: u8) -> Seq<char> {
    uuid_hex(d, v, 0, 4) + seq!['-'] + uuid_hex(d, v, 4, 6) + seq!['-'] + uuid_hex(d, v, 6, 8) + seq!['-']
        + uuid_hex(d, v, 8, 10) + seq!['-'] + uuid_hex(d, v, 10, 16)
}

/// Shape of a generated token: 36 characters, dashes at 8, 13, 18 and 23,
/// lowercase hex elsewhere.
pub open spec fn uuid_shaped(s: Seq<char>) -> bool {
    &&& s.len() == 36
    &&& forall|i: int|
        0 <= i < 36 ==> if i == 8 || i == 13 || i == 18 || i == 23 {
            #[trigger] s[i] == '-'
        } else {
            is_lower_hex(s[i])
        }
}

pub(crate) fn hex_char(n: u8) -> (r: char)
    requires
        n < 16,
    ensures
        r == hex_digit(n),
        is_lower_hex(r),
{
    if n < 10 {
        ((48u8 + n) as char)
    } else {
        ((87u8 + n) as char)
    }
}

proof fn lemma_uuid_hex_len(d: Seq<u8>, v: u8, from: int, to: int)
    requires
        from <= to,
    ensures
        uuid_hex(d, v, from, to).len() == 2 * (to - from),
        forall|k: int| 0 <= k < 2 * (to - from) ==> is_lower_hex(#[trigger] uuid_hex(d, v, from, to)[k]),
    decreases to - from,
{
    if from < to {
        lemma_uuid_hex_len(d, v, from, to - 1);
        let b = uuid_byte(d, v, to - 1);
        assert(b >> 4 < 16) by (bit_vector);
        assert(b & 0x0f < 16) by (bit_vector);
        let p = uuid_hex(d, v, from, to - 1);
        let full = uuid_hex(d, v, from, to);
        assert forall|k: int| 0 <= k < 2 * (to - from) implies is_lower_hex(#[trigger] full[k]) by {
            if k < p.len() {
                assert(full[k] == p[k]);
            }
        }
    }
}

/// Formats the UUID text of a digest with version bits `version`.
pub fn uuid_from_digest(d: &Vec<u8>, version: u8) -> (r: String)
    requires
        d@.len() >= 16,
    ensures
        r@ == uuid_text(d@, version),
        uuid_shaped(r@),
{
    let mut out = String::new();
    let mut i: usize = 0;
    while i < 16
        invariant
            d@.len() >= 16,
            i <= 16,
            out@ == uuid_hex(d@, version, 0, 4).take(if i <= 4 { 2 * i as int } else { 8 }) + (if i > 4 {
                seq!['-'] + uuid_hex(d@, version, 4, 6).take(if i <= 6 { 2 * (i - 4) as int } else { 4 })
            } else {
                Seq::empty()
            }) + (if i > 6 {
                seq!['-'] + uuid_hex(d@, version, 6, 8).take(if i <= 8 { 2 * (i - 6) as int } else { 4 })
            } else {
                Seq::empty()
            }) + (if i > 8 {
                seq!['-'] + uuid_hex(d@, version, 8, 10).take(if i <= 10 { 2 * (i - 8) as int } else { 4 })
            } else {
                Seq::empty()
            }) + (if i > 10 {
                seq!['-'] + uuid_hex(d@, version, 10, 16).take(2 * (i - 10) as int)
            } else {
                Seq::empty()
            }),
        decreases 16 - i,
    {
        if i == 4 || i == 6 || i == 8 || i == 10 {
            crate::text::push_char(&mut out, '-');
        }
        let b: u8 = if i == 6 {
            (d[6] & 0x0f) | version
        } else if i == 8 {
            (d[8] & 0x3f) | 0x80
        } else {
            d[i]
        };
        assert(b >> 4 < 16) by (bit_vector);
        assert(b & 0x0f < 16) by (bit_vector);
        crate::text::push_char(&mut out, hex_char(b >> 4));
        crate::text::push_char(&mut out, hex_char(b & 0x0f));
        proof {
            lemma_uuid_hex_prefix(d@, version, i as int);
        }
        i += 1;
        proof {
            assert(out@ =~= uuid_hex(d@, version, 0, 4).take(if i <= 4 { 2 * i as int } else { 8 }) + (if i
                > 4 {
                seq!['-'] + uuid_hex(d@, version, 4, 6).take(if i <= 6 { 2 * (i - 4) as int } else { 4 })
            } else {
                Seq::empty()
            }) + (if i > 6 {
                seq!['-'] + uuid_hex(d@, version, 6, 8).take(if i <= 8 { 2 * (i - 6) as int } else { 4 })
            } else {
                Seq::empty()
            }) + (if i > 8 {
                seq!['-'] + uuid_hex(d@, version, 8, 10).take(if i <= 10 { 2 * (i - 8) as int } else { 4 })
            } else {
                Seq::empty()
            }) + (if i > 10 {
                seq!['-'] + uuid_hex(d@, version, 10, 16).take(2 * (i - 10) as int)
            } else {
                Seq::empty()
            }));
        }
    }
    proof {
        lemma_uuid_hex_len(d@, version, 0, 4);
        lemma_uuid_hex_len(d@, version, 4, 6);
        lemma_uuid_hex_len(d@, version, 6, 8);
        lemma_uuid_hex_len(d@, version, 8, 10);
        lemma_uuid_hex_len(d@, version, 10, 16);
        assert(uuid_hex(d@, version, 0, 4).take(8) =~= uuid_hex(d@, version, 0, 4));
        assert(uuid_hex(d@, version, 4, 6).take(4) =~= uuid_hex(d@, version, 4, 6));
        assert(uuid_hex(d@, version, 6, 8).take(4) =~= uuid_hex(d@, version, 6, 8));
        assert(uuid_hex(d@, version, 8, 10).take(4) =~= uuid_hex(d@, version, 8, 10));
        assert(uuid_hex(d@, version, 10, 16).take(12) =~= uuid_hex(d@, version, 10, 16));
        assert(out@ =~= uuid_text(d@, version));
        let t = uuid_text(d@, version);
        assert forall|k: int| 0 <= k < 36 implies if k == 8 || k == 13 || k == 18 || k == 23 {
            #[trigger] t[k] == '-'
        } else {
            is_lower_hex(t[k])
        } by {
            if k < 8 {
                assert(t[k] == uuid_hex(d@, version, 0, 4)[k]);
            } else if 8 < k < 13 {
                assert(t[k] == uuid_hex(d@, version, 4, 6)[k - 9]);
            } else if 13 < k < 18 {
                assert(t[k] == uuid_hex(d@, version, 6, 8)[k - 14]);
            } else if 18 < k < 23 {
                assert(t[k] == uuid_hex(d@, version, 8, 10)[k - 19]);
            } else if 23 < k {
                assert(t[k] == uuid_hex(d@, version, 10, 16)[k - 24]);
            }
        }
    }
    out
}

/// The hex text of a group grows by the two digits of its next byte.
proof fn lemma_uuid_hex_prefix(d: Seq<u8>, v: u8, i: int)
    requires
        0 <= i < 16,
    ensures
        0 <= i < 4 ==> uuid_hex(d, v, 0, 4).take(2 * i + 2) == uuid_hex(d, v, 0, 4).take(2 * i) + seq![hex_digit(uuid_byte(d, v, i) >> 4), hex_digit(uuid_byte(d, v, i) & 0x0f)],
        4 <= i < 6 ==> uuid_hex(d, v, 4, 6).take(2 * (i - 4) + 2) == uuid_hex(d, v, 4, 6).take(2 * (i - 4)) + seq![hex_digit(uuid_byte(d, v, i) >> 4), hex_digit(uuid_byte(d, v, i) & 0x0f)],
        6 <= i < 8 ==> uuid_hex(d, v, 6, 8).take(2 * (i - 6) + 2) == uuid_hex(d, v, 6, 8).take(2 * (i - 6)) + seq![hex_digit(uuid_byte(d, v, i) >> 4), hex_digit(uuid_byte(d, v, i) & 0x0f)],
        8 <= i < 10 ==> uuid_hex(d, v, 8, 10).take(2 * (i - 8) + 2) == uuid_hex(d, v, 8, 10).take(2 * (i - 8)) + seq![hex_digit(uuid_byte(d, v, i) >> 4), hex_digit(uuid_byte(d, v, i) & 0x0f)],
        10 <= i < 16 ==> uuid_hex(d, v, 10, 16).take(2 * (i - 10) + 2) == uuid_hex(d, v, 10, 16).take(2 * (i - 10)) + seq![hex_digit(uuid_byte(d, v, i) >> 4), hex_digit(uuid_byte(d, v, i) & 0x0f)],
{
    let (from, to) = if i < 4 {
        (0int, 4int)
    } else if i < 6 {
        (4int, 6int)
    } else if i < 8 {
        (6int, 8int)
    } else if i < 10 {
        (8int, 10int)
    } else {
        (10int, 16int)
    };
    lemma_uuid_hex_split(d, v, from, i + 1, to);
    lemma_uuid_hex_len(d, v, from, i);
    lemma_uuid_hex_len(d, v, from, i + 1);
    let whole = uuid_hex(d, v, from, to);
    let upto = uuid_hex(d, v, from, i + 1);
    assert(whole.take(2 * (i - from) + 2) =~= upto);
    assert(whole.take(2 * (i - from)) =~= uuid_hex(d, v, from, i));
}

proof fn lemma_uuid_hex_split(d: Seq<u8>, v: u8, from: int, mid: int, to: int)
    requires
        from <= mid <= to,
    ensures
        uuid_hex(d, v, from, to) == uuid_hex(d, v, from, mid) + uuid_hex(d, v, mid, to),
    decreases to - mid,
{
    if mid < to {
        lemma_uuid_hex_split(d, v, from, mid, to - 1);
        assert(uuid_hex(d, v, from, to) =~= uuid_hex(d, v, from, mid) + uuid_hex(d, v, mid, to));
    } else {
        assert(uuid_hex(d, v, from, to) =~= uuid_hex(d, v, from, mid) + uuid_hex(d, v, mid, to));
    }
}

/// The eight little-endian bytes of `n`.
pub(crate) fn le_bytes(n: u64, out: &mut Vec<u8>)
    ensures
        final(out)@.len() == old(out)@.len() + 8,
{
    let mut k: u64 = 0;
    while k < 8
        invariant
            k <= 8,
            out@.len() == old(out)@.len() + k,
        decreases 8 - k,
    {
        out.push(((n >> (8 * k)) & 0xff) as u8);
        k += 1;
    }
}

/// A fresh token: the UUIDv8 text of the SHA-256 digest of this process's
/// hasher entropy, the clock and a per-owner `counter`. Any two results can
/// only coincide through a digest collision of distinct inputs or a repeat
/// of all three inputs.
pub fn fresh_token(counter: u64) -> (r: String)
    ensures
        uuid_shaped(r@),
{
    let mut data: Vec<u8> = Vec::new();
    le_bytes(hasher_entropy(), &mut data);
    le_bytes(clock_entropy(), &mut data);
    le_bytes(counter, &mut data);
    let digest = sha256(data.as_slice());
    uuid_from_digest(&digest, 0x80)
}

} // verus!
