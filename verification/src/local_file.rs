//! Detecting and validating local file paths for Ctrl-click opening.
//!
//! Only `file:///path` with empty or `localhost` authority is accepted; remote
//! authority and UNC paths are rejected; control characters are rejected in
//! encoded and decoded form; malformed percent escapes and encoded NUL are
//! rejected. Whether a path exists and what kind of entry it is comes from the
//! caller's filesystem probe; only regular files and directories pass, both
//! before and after canonicalization.
use crate::text::{char_is_control, chars_of, is_cc, push_char, push_str};
use vstd::prelude::*;
use vstd::utf8::{decode_utf8, encode_utf8, valid_utf8};

verus! {

/// What the filesystem reports for a path after following symlinks.
#[derive(Debug, Clone, Copy, PartialEq, Eq, Structural)]
pub enum EntryKind {
    File,
    Directory,
    Other,
    Missing,
}

/// The filesystem facts about one path: its kind, its canonical form if it
/// can be canonicalized, and the kind of that canonical path.
pub struct PathFacts {
    pub kind: EntryKind,
    pub canonical: Option<String>,
    pub canonical_kind: EntryKind,
}

pub struct PathFactsView {
    pub kind: EntryKind,
    pub canonical: Option<Seq<char>>,
    pub canonical_kind: EntryKind,
}

impl View for PathFacts {
    type V = PathFactsView;

    open spec fn view(&self) -> PathFactsView {
        PathFactsView {
            kind: self.kind,
            canonical: self.canonical.deep_view(),
            canonical_kind: self.canonical_kind,
        }
    }
}

pub open spec fn openable(k: EntryKind) -> bool {
    k == EntryKind::File || k == EntryKind::Directory
}

pub open spec fn has_cc(s: Seq<char>) -> bool {
    exists|i: int| 0 <= i < s.len() && is_cc(#[trigger] s[i])
}

pub open spec fn starts_with_two_slashes(s: Seq<char>) -> bool {
    s.len() >= 2 && s[0] == '/' && s[1] == '/'
}

// ---------------------------------------------------------------------------
// Percent encoding
// ---------------------------------------------------------------------------

/// Bytes that can appear unencoded in a `file://` URI path: unreserved
/// characters, the pchar additions `!$&'()*+,;=:@`, and `/`.
pub open spec fn path_safe(b: u8) -> bool {
    ||| (48 <= b <= 57)
    ||| (65 <= b <= 90)
    ||| (97 <= b <= 122)
    ||| b == 45 || b == 46 || b == 95 || b == 126
    ||| b == 33 || b == 36 || b == 38 || b == 39 || b == 40 || b == 41
    ||| b == 42 || b == 43 || b == 44 || b == 59 || b == 61 || b == 58
    ||| b == 64 || b == 47
}

pub open spec fn upper_hex(n: u8) -> char {
    if n < 10 {
        (48 + n) as char
    } else {
        (55 + n) as char
    }
}

/// The URI text of one path byte: itself when safe, else `%XX` in uppercase hex.
pub open spec fn encoded_byte(b: u8) -> Seq<char> {
    if path_safe(b) {
        seq![b as char]
    } else {
        seq!['%', upper_hex(b / 16), upper_hex(b % 16)]
    }
}

pub open spec fn percent_encoded(bytes: Seq<u8>) -> Seq<char>
    decreases bytes.len(),
{
    if bytes.len() == 0 {
        Seq::empty()
    } else {
        percent_encoded(bytes.drop_last()) + encoded_byte(bytes.last())
    }
}

pub fn is_path_safe_byte(b: u8) -> (r: bool)
    ensures
        r == path_safe(b),
{
    (48 <= b && b <= 57) || (65 <= b && b <= 90) || (97 <= b && b <= 122) || b == 45 || b == 46
        || b == 95 || b == 126 || b == 33 || b == 36 || b == 38 || b == 39 || b == 40 || b == 41
        || b == 42 || b == 43 || b == 44 || b == 59 || b == 61 || b == 58 || b == 64 || b == 47
}

fn upper_hex_char(n: u8) -> (r: char)
    requires
        n < 16,
    ensures
        r == upper_hex(n),
{
    if n < 10 {
        (48u8 + n) as char
    } else {
        (55u8 + n) as char
    }
}

/// Appends `%XX` for one byte.
pub fn write_percent_encoded(out: &mut String, byte: u8)
    ensures
        final(out)@ == old(out)@ + seq!['%', upper_hex(byte / 16), upper_hex(byte % 16)],
{
    push_char(out, '%');
    push_char(out, upper_hex_char(byte / 16));
    push_char(out, upper_hex_char(byte % 16));
}

/// Percent-encodes a Unix file path for use in a `file://` URI path component.
pub fn percent_encode_path(path: &str) -> (r: String)
    ensures
        r@ == percent_encoded(encode_utf8(path@)),
{
    let bytes = path.as_bytes();
    let ghost b = bytes@;
    let mut out = String::new();
    let mut i: usize = 0;
    while i < bytes.len()
        invariant
            b == bytes@,
            i <= bytes.len(),
            out@ == percent_encoded(b.take(i as int)),
        decreases bytes.len() - i,
    {
        let byte = bytes[i];
        proof {
            assert(b.take(i + 1).drop_last() =~= b.take(i as int));
            assert(b.take(i + 1).last() == byte);
        }
        if is_path_safe_byte(byte) {
            push_char(&mut out, byte as char);
        } else {
            write_percent_encoded(&mut out, byte);
        }
        proof {
            assert(out@ =~= percent_encoded(b.take(i + 1)));
        }
        i += 1;
    }
    proof {
        assert(b.take(bytes.len() as int) =~= b);
    }
    out
}

// ---------------------------------------------------------------------------
// Percent decoding
// ---------------------------------------------------------------------------

pub open spec fn nibble(b: u8) -> Option<u8> {
    if 48 <= b <= 57 {
        Some((b - 48) as u8)
    } else if 97 <= b <= 102 {
        Some((b - 87) as u8)
    } else if 65 <= b <= 70 {
        Some((b - 55) as u8)
    } else {
        None
    }
}

pub fn hex_nibble(b: u8) -> (r: Option<u8>)
    ensures
        r == nibble(b),
{
    if 48 <= b && b <= 57 {
        Some(b - 48)
    } else if 97 <= b && b <= 102 {
        Some(b - 87)
    } else if 65 <= b && b <= 70 {
        Some(b - 55)
    } else {
        None
    }
}

/// The byte an escape `%hl` at the start of `s` encodes, if well formed.
pub open spec fn escape_at(s: Seq<u8>) -> Option<u8> {
    if s.len() >= 3 && s[0] == 37 && nibble(s[1]).is_some() && nibble(s[2]).is_some() {
        Some((nibble(s[1]).unwrap() * 16 + nibble(s[2]).unwrap()) as u8)
    } else {
        None
    }
}

/// The bytes a percent-encoded path decodes to; `None` for a truncated or
/// malformed escape or an encoded NUL.
pub open spec fn percent_decoded(s: Seq<u8>) -> Option<Seq<u8>>
    decreases s.len(),
{
    if s.len() == 0 {
        Some(Seq::empty())
    } else if s[0] == 37 {
        match escape_at(s) {
            Some(v) => if v == 0 {
                None
            } else {
                match percent_decoded(s.skip(3)) {
                    Some(rest) => Some(seq![v] + rest),
                    None => None,
                }
            },
            None => None,
        }
    } else {
        match percent_decoded(s.skip(1)) {
            Some(rest) => Some(seq![s[0]] + rest),
            None => None,
        }
    }
}

/// Validates percent-encoding without decoding: every escape is `%` and two
/// hex digits, and none encodes NUL.
pub fn validate_percent_encoding(input: &[u8]) -> (r: Option<()>)
    ensures
        r.is_some() == percent_decoded(input@).is_some(),
{
    let mut i: usize = 0;
    proof {
        assert(input@.skip(0) =~= input@);
    }
    while i < input.len()
        invariant
            i <= input@.len(),
            percent_decoded(input@).is_some() == percent_decoded(input@.skip(i as int)).is_some(),
        decreases input.len() - i,
    {
        let ghost rest = input@.skip(i as int);
        proof {
            assert(rest[0] == input@[i as int]);
        }
        if input[i] == 37 {
            if input.len() - i <= 2 {
                return None;
            }
            proof {
                assert(rest[1] == input@[i + 1]);
                assert(rest[2] == input@[i + 2]);
            }
            let hi = match hex_nibble(input[i + 1]) {
                Some(h) => h,
                None => return None,
            };
            let lo = match hex_nibble(input[i + 2]) {
                Some(l) => l,
                None => return None,
            };
            if hi * 16 + lo == 0 {
                return None;
            }
            proof {
                assert(rest.skip(3) =~= input@.skip(i + 3));
            }
            i += 3;
        } else {
            proof {
                assert(rest.skip(1) =~= input@.skip(i + 1));
            }
            i += 1;
        }
    }
    Some(())
}

/// `String::from_utf8`: the text the bytes encode, or `None` when they are not
/// valid UTF-8.
#[verifier::external_body]
fn string_from_utf8(bytes: Vec<u8>) -> (r: Option<String>)
    ensures
        r.is_some() == valid_utf8(bytes@),
        r matches Some(s) ==> s@ == decode_utf8(bytes@),
{
    String::from_utf8(bytes).ok()
}

/// Decodes percent escapes in raw bytes; `None` for a truncated or malformed
/// escape or an encoded NUL.
fn percent_decode_bytes(bytes: &[u8]) -> (r: Option<Vec<u8>>)
    ensures
        match percent_decoded(bytes@) {
            Some(d) => r matches Some(v) && v@ == d,
            None => r.is_none(),
        },
{
    let ghost b = bytes@;
    let mut out: Vec<u8> = Vec::new();
    let mut i: usize = 0;
    proof {
        assert(b.skip(0) =~= b);
        assert(out@ =~= Seq::<u8>::empty());
        if let Some(d) = percent_decoded(b) {
            assert(d =~= out@ + d);
        }
    }
    while i < bytes.len()
        invariant
            b == bytes@,
            i <= b.len(),
            match percent_decoded(b) {
                Some(d) => percent_decoded(b.skip(i as int)) matches Some(rest) && d == out@ + rest,
                None => percent_decoded(b.skip(i as int)).is_none(),
            },
        decreases bytes.len() - i,
    {
        let ghost rest = b.skip(i as int);
        proof {
            assert(rest[0] == b[i as int]);
        }
        if bytes[i] == 37 {
            if bytes.len() - i <= 2 {
                proof {
                    assert(escape_at(rest).is_none());
                }
                return None;
            }
            proof {
                assert(rest[1] == b[i + 1]);
                assert(rest[2] == b[i + 2]);
            }
            let hi = match hex_nibble(bytes[i + 1]) {
                Some(h) => h,
                None => return None,
            };
            let lo = match hex_nibble(bytes[i + 2]) {
                Some(l) => l,
                None => return None,
            };
            let val = hi * 16 + lo;
            if val == 0 {
                proof {
                    assert(escape_at(rest) == Some(0u8));
                }
                return None;
            }
            proof {
                assert(rest.skip(3) =~= b.skip(i + 3));
                assert(escape_at(rest) == Some(val));
            }
            out.push(val);
            proof {
                if let Some(d) = percent_decoded(b) {
                    let tail = percent_decoded(b.skip(i + 3)).unwrap();
                    assert(d =~= out@ + tail);
                }
            }
            i += 3;
        } else {
            proof {
                assert(rest.skip(1) =~= b.skip(i + 1));
            }
            out.push(bytes[i]);
            proof {
                if let Some(d) = percent_decoded(b) {
                    let tail = percent_decoded(b.skip(i + 1)).unwrap();
                    assert(d =~= out@ + tail);
                }
            }
            i += 1;
        }
    }
    proof {
        assert(b.skip(i as int) =~= Seq::<u8>::empty());
        assert(percent_decoded(b.skip(i as int)) == Some(Seq::<u8>::empty()));
        assert(percent_decoded(b).unwrap() =~= out@);
    }
    Some(out)
}

/// The text a percent-encoded path decodes to: `None` if the encoding is
/// malformed, or the decoded bytes contain NUL or are not valid UTF-8.
pub open spec fn decoded_text(p: Seq<u8>) -> Option<Seq<char>> {
    match percent_decoded(p) {
        Some(d) => if d.contains(0u8) || !valid_utf8(d) {
            None
        } else {
            Some(decode_utf8(d))
        },
        None => None,
    }
}

fn decode_text_bytes(bytes: &[u8]) -> (r: Option<String>)
    ensures
        r.deep_view() == decoded_text(bytes@),
{
    let out = match percent_decode_bytes(bytes) {
        Some(v) => v,
        None => return None,
    };
    // Reject any NUL bytes that slipped through.
    let mut k: usize = 0;
    while k < out.len()
        invariant
            k <= out.len(),
            percent_decoded(bytes@) == Some(out@),
            forall|j: int| 0 <= j < k ==> out@[j] != 0u8,
        decreases out.len() - k,
    {
        if out[k] == 0 {
            proof {
                assert(out@.contains(0u8));
            }
            return None;
        }
        k += 1;
    }
    string_from_utf8(out)
}

/// Decodes a percent-encoded path; `None` if encoding is malformed, or if the
/// decoded bytes contain a NUL or are not valid UTF-8.
pub fn percent_decode_path(s: &str) -> (r: Option<String>)
    ensures
        r.deep_view() == decoded_text(encode_utf8(s@)),
{
    decode_text_bytes(s.as_bytes())
}


// ---------------------------------------------------------------------------
// URI and token parsing
// ---------------------------------------------------------------------------

/// The bytes of `file://`.
pub open spec fn file_scheme() -> Seq<u8> {
    seq![102u8, 105u8, 108u8, 101u8, 58u8, 47u8, 47u8]
}

/// The bytes of `localhost`.
pub open spec fn localhost() -> Seq<u8> {
    seq![108u8, 111u8, 99u8, 97u8, 108u8, 104u8, 111u8, 115u8, 116u8]
}

pub open spec fn ascii_lower(b: u8) -> u8 {
    if 65 <= b <= 90 {
        (b + 32) as u8
    } else {
        b
    }
}

/// An authority equal to `localhost` ignoring ASCII case.
pub open spec fn is_localhost(a: Seq<u8>) -> bool {
    a.len() == 9 && forall|k: int| 0 <= k < 9 ==> ascii_lower(#[trigger] a[k]) == localhost()[k]
}

/// The index of the first byte at or after `i` satisfying `p`, else the length.
pub open spec fn first_byte(s: Seq<u8>, p: spec_fn(u8) -> bool, i: nat) -> nat
    decreases s.len() - i,
{
    if i >= s.len() {
        s.len()
    } else if p(s[i as int]) {
        i
    } else {
        first_byte(s, p, i + 1)
    }
}

pub open spec fn is_slash(b: u8) -> bool {
    b == 47
}

pub open spec fn is_query_or_fragment(b: u8) -> bool {
    b == 63 || b == 35
}

pub open spec fn has_ctl_byte(p: Seq<u8>) -> bool {
    exists|k: int| 0 <= k < p.len() && ((#[trigger] p[k]) < 0x20 || p[k] == 0x7f)
}

/// The authority and the path (from its leading `/`) after `file://`.
pub open spec fn split_authority(rest: Seq<u8>) -> Option<(Seq<u8>, Seq<u8>)> {
    if rest.len() > 0 && rest[0] == 47 {
        Some((Seq::empty(), rest))
    } else {
        let slash = first_byte(rest, |b: u8| is_slash(b), 0);
        if slash >= rest.len() {
            None
        } else {
            Some((rest.take(slash as int), rest.skip(slash as int)))
        }
    }
}

/// The local filesystem path named by a `file://` URI, decoded; `None` for
/// other schemes, remote authority, malformed or NUL escapes, control
/// characters, and UNC-style results.
pub open spec fn uri_path(uri: Seq<char>) -> Option<Seq<char>> {
    let b = encode_utf8(uri);
    if has_cc(uri) || b.len() < 7 || b.take(7) != file_scheme() {
        None
    } else {
        match split_authority(b.skip(7)) {
            None => None,
            Some((authority, path)) => {
                let p = path.take(first_byte(path, |b: u8| is_query_or_fragment(b), 0) as int);
                if authority.len() > 0 && !is_localhost(authority) {
                    None
                } else if !(p.len() > 0 && p[0] == 47) || has_ctl_byte(p) {
                    None
                } else {
                    match decoded_text(p) {
                        None => None,
                        Some(t) => if starts_with_two_slashes(t) || has_cc(t) {
                            None
                        } else {
                            Some(t)
                        },
                    }
                }
            },
        }
    }
}

fn has_control_char(s: &str) -> (r: bool)
    ensures
        r == has_cc(s@),
{
    let cs = chars_of(s);
    let mut i: usize = 0;
    while i < cs.len()
        invariant
            cs@ == s@,
            i <= cs.len(),
            forall|j: int| 0 <= j < i ==> !is_cc(#[trigger] s@[j]),
        decreases cs.len() - i,
    {
        if char_is_control(cs[i]) {
            proof {
                assert(is_cc(s@[i as int]));
            }
            return true;
        }
        i += 1;
    }
    false
}

fn find_byte_from(b: &[u8], from: usize, query: bool) -> (r: usize)
    requires
        from <= b@.len(),
    ensures
        r as nat == (if query {
            from + first_byte(b@.skip(from as int), |x: u8| is_query_or_fragment(x), 0)
        } else {
            from + first_byte(b@.skip(from as int), |x: u8| is_slash(x), 0)
        }),
        from <= r <= b@.len(),
{
    let ghost s = b@.skip(from as int);
    let ghost p = if query { |x: u8| is_query_or_fragment(x) } else { |x: u8| is_slash(x) };
    let mut i: usize = from;
    while i < b.len()
        invariant
            s == b@.skip(from as int),
            p == (if query { |x: u8| is_query_or_fragment(x) } else { |x: u8| is_slash(x) }),
            from <= i <= b@.len(),
            first_byte(s, p, 0) == first_byte(s, p, (i - from) as nat),
        decreases b.len() - i,
    {
        proof {
            assert(s[i - from] == b@[i as int]);
        }
        let hit = if query {
            b[i] == 63 || b[i] == 35
        } else {
            b[i] == 47
        };
        if hit {
            return i;
        }
        i += 1;
    }
    i
}

fn lower_byte(b: u8) -> (r: u8)
    ensures
        r == ascii_lower(b),
{
    if 65 <= b && b <= 90 {
        b + 32
    } else {
        b
    }
}

fn is_localhost_range(b: &[u8], from: usize, to: usize) -> (r: bool)
    requires
        from <= to <= b@.len(),
    ensures
        r == is_localhost(b@.subrange(from as int, to as int)),
{
    if to - from != 9 {
        return false;
    }
    let expected: [u8; 9] = [108, 111, 99, 97, 108, 104, 111, 115, 116];
    proof {
        assert(expected@ =~= localhost());
    }
    let mut k: usize = 0;
    while k < 9
        invariant
            to - from == 9,
            from <= to <= b@.len(),
            expected@ == localhost(),
            k <= 9,
            forall|j: int| 0 <= j < k ==> ascii_lower(#[trigger] b@.subrange(from as int, to as int)[j]) == localhost()[j],
        decreases 9 - k,
    {
        proof {
            assert(b@.subrange(from as int, to as int)[k as int] == b@[from + k]);
            assert(expected@[k as int] == localhost()[k as int]);
        }
        if lower_byte(b[from + k]) != expected[k] {
            return false;
        }
        k += 1;
    }
    true
}

fn has_ctl_byte_range(b: &[u8], from: usize, to: usize) -> (r: bool)
    requires
        from <= to <= b@.len(),
    ensures
        r == has_ctl_byte(b@.subrange(from as int, to as int)),
{
    let ghost p = b@.subrange(from as int, to as int);
    let mut k: usize = from;
    while k < to
        invariant
            p == b@.subrange(from as int, to as int),
            from <= k <= to <= b@.len(),
            forall|j: int| 0 <= j < k - from ==> !((#[trigger] p[j]) < 0x20 || p[j] == 0x7f),
        decreases to - k,
    {
        if b[k] < 0x20 || b[k] == 0x7f {
            proof {
                assert(p[k - from] == b@[k as int]);
            }
            return true;
        }
        k += 1;
    }
    false
}

/// The decoded local path of a `file://` URI; `None` when it is not a local,
/// well-formed, control-free file URI.
pub fn file_uri_path(uri: &str) -> (r: Option<String>)
    ensures
        r.deep_view() == uri_path(uri@),
{
    if has_control_char(uri) {
        return None;
    }
    let b = uri.as_bytes();
    let ghost bs = b@;
    if b.len() < 7 || !(b[0] == 102 && b[1] == 105 && b[2] == 108 && b[3] == 101 && b[4] == 58 && b[5] == 47 && b[6] == 47) {
        proof {
            if bs.len() >= 7 {
                assert(bs.take(7)[0] == bs[0] && bs.take(7)[1] == bs[1] && bs.take(7)[2] == bs[2] && bs.take(7)[3] == bs[3]);
                assert(bs.take(7)[4] == bs[4] && bs.take(7)[5] == bs[5] && bs.take(7)[6] == bs[6]);
            }
        }
        return None;
    }
    proof {
        assert(bs.take(7) =~= file_scheme());
    }
    let ghost rest = bs.skip(7);
    // Split authority from path.
    let (auth_end, path_start) = if b.len() > 7 && b[7] == 47 {
        proof {
            assert(rest[0] == bs[7]);
        }
        (7usize, 7usize)
    } else {
        let slash = find_byte_from(b, 7, false);
        proof {
            if rest.len() > 0 {
                assert(rest[0] == bs[7]);
            }
        }
        if slash >= b.len() {
            return None;
        }
        (slash, slash)
    };
    // Only empty authority or explicit "localhost" are local.
    if auth_end > 7 && !is_localhost_range(b, 7, auth_end) {
        proof {
            assert(rest.take(auth_end - 7) =~= bs.subrange(7, auth_end as int));
        }
        return None;
    }
    // Strip fragment and query (both uncommon in file URIs, but be defensive).
    let end = find_byte_from(b, path_start, true);
    let ghost path = bs.skip(path_start as int);
    let ghost p = bs.subrange(path_start as int, end as int);
    proof {
        assert(rest.skip(path_start - 7) =~= path);
        assert(rest.take(auth_end - 7) =~= bs.subrange(7, auth_end as int));
        assert(path.take((end - path_start) as int) =~= p);
    }
    if end == path_start || b[path_start] != 47 {
        return None;
    }
    proof {
        assert(p[0] == bs[path_start as int]);
    }
    // Reject control characters in the encoded form.
    if has_ctl_byte_range(b, path_start, end) {
        return None;
    }
    // Validate percent-encoding and reject encoded NUL, then decode.
    let slice = &b[path_start..end];
    if validate_percent_encoding(slice).is_none() {
        return None;
    }
    let decoded = match decode_text_bytes(slice) {
        Some(d) => d,
        None => return None,
    };
    if starts_with_double_slash(decoded.as_str()) || has_control_char(decoded.as_str()) {
        return None;
    }
    Some(decoded)
}

fn starts_with_double_slash(s: &str) -> (r: bool)
    ensures
        r == starts_with_two_slashes(s@),
{
    let cs = chars_of(s);
    cs.len() >= 2 && cs[0] == '/' && cs[1] == '/'
}


// ---------------------------------------------------------------------------
// Safe file URIs
// ---------------------------------------------------------------------------

/// The `file://` URI that may be handed to the platform opener for `path`,
/// given what the filesystem reports about it: only absolute, control-free,
/// non-UNC paths that are regular files or directories before and after
/// canonicalization; the URI names the canonical path, percent-encoded.
pub open spec fn safe_uri(path: Seq<char>, facts: PathFactsView) -> Option<Seq<char>> {
    if !(path.len() > 0 && path[0] == '/') || starts_with_two_slashes(path) || has_cc(path) {
        None
    } else if !openable(facts.kind) {
        None
    } else {
        match facts.canonical {
            None => None,
            Some(c) => if starts_with_two_slashes(c) || has_cc(c) || !openable(facts.canonical_kind) {
                None
            } else {
                Some("file://"@ + percent_encoded(encode_utf8(c)))
            },
        }
    }
}

fn openable_kind(k: EntryKind) -> (r: bool)
    ensures
        r == openable(k),
{
    k == EntryKind::File || k == EntryKind::Directory
}

/// Checks that `path` is safe to open given the filesystem's report about it,
/// and returns the percent-encoded `file:///path` URI of its canonical form.
pub fn path_to_safe_file_uri(path: &str, facts: &PathFacts) -> (r: Option<String>)
    ensures
        r.deep_view() == safe_uri(path@, facts@),
{
    let cs = chars_of(path);
    if !(cs.len() > 0 && cs[0] == '/') || starts_with_double_slash(path) || has_control_char(path) {
        return None;
    }
    // Follow symlinks and check the target type.
    if !openable_kind(facts.kind) {
        return None;
    }
    // Canonicalize to resolve any remaining symlinks and normalize the path.
    let canonical = match &facts.canonical {
        Some(c) => c,
        None => return None,
    };
    if starts_with_double_slash(canonical.as_str()) || has_control_char(canonical.as_str()) {
        return None;
    }
    // Re-verify after canonicalization.
    if !openable_kind(facts.canonical_kind) {
        return None;
    }
    let mut out = crate::text::owned("file://");
    let encoded = percent_encode_path(canonical.as_str());
    push_str(&mut out, encoded.as_str());
    Some(out)
}

/// Validates a `file://` URI from e.g. an OSC 8 hyperlink: a normalized
/// `file:///path` URI (authority stripped, path percent-encoded), or `None`.
/// `probe` reports what the filesystem holds at the decoded path.
pub fn validate_file_uri<F: Fn(&str) -> PathFacts>(uri: &str, probe: &F) -> (r: Option<String>)
    requires
        forall|p: &str| probe.requires((p,)),
    ensures
        match uri_path(uri@) {
            None => r.is_none(),
            Some(p) => exists|q: &str, f: PathFacts|
                q@ == p && probe.ensures((q,), f) && r.deep_view() == safe_uri(p, f@),
        },
{
    let path = match file_uri_path(uri) {
        Some(p) => p,
        None => return None,
    };
    let facts = probe(path.as_str());
    path_to_safe_file_uri(path.as_str(), &facts)
}

pub open spec fn starts_with_file_scheme(t: Seq<char>) -> bool {
    t.len() >= 7 && t.take(7) == seq!['f', 'i', 'l', 'e', ':', '/', '/']
}

/// `home` joined with a relative remainder, as `Path::join` does on Unix: an
/// absolute remainder replaces the base; otherwise one separator is inserted
/// unless the base is empty or already ends with one.
pub open spec fn joined(home: Seq<char>, rest: Seq<char>) -> Seq<char> {
    if rest.len() > 0 && rest[0] == '/' {
        rest
    } else if home.len() == 0 || home.last() == '/' {
        home + rest
    } else {
        home + seq!['/'] + rest
    }
}

/// The filesystem path a terminal token names, with `home` as the home directory.
pub open spec fn resolved_token(token: Seq<char>, home: Option<Seq<char>>) -> Option<Seq<char>> {
    if starts_with_file_scheme(token) {
        uri_path(token)
    } else if token == seq!['~'] {
        home
    } else if token.len() >= 2 && token[0] == '~' && token[1] == '/' {
        match home {
            None => None,
            Some(h) => Some(joined(h, token.skip(2))),
        }
    } else if token.len() > 0 && token[0] == '/' {
        // Reject UNC-style `//host/share`.
        if starts_with_two_slashes(token) {
            None
        } else {
            Some(token)
        }
    } else {
        // Relative paths are not supported; callers document this limitation.
        None
    }
}

fn join_path(home: &str, rest: &Vec<char>) -> (r: String)
    ensures
        r@ == joined(home@, rest@),
{
    if rest.len() > 0 && rest[0] == '/' {
        return crate::text::string_of(rest);
    }
    let hs = chars_of(home);
    let mut out = crate::text::owned(home);
    if !(hs.len() == 0 || hs[hs.len() - 1] == '/') {
        push_char(&mut out, '/');
    }
    let tail = crate::text::string_of(rest);
    push_str(&mut out, tail.as_str());
    out
}

/// Resolves a path token from terminal text: `file://` URIs, `~`, `~/path`
/// (under `home`, the home directory the caller determined) and absolute
/// paths; relative and UNC-style tokens resolve to nothing.
pub fn resolve_path_token(token: &str, home: Option<&str>) -> (r: Option<String>)
    ensures
        r.deep_view() == resolved_token(token@, match home { Some(h) => Some(h@), None => None }),
{
    let cs = chars_of(token);
    if cs.len() >= 7 && cs[0] == 'f' && cs[1] == 'i' && cs[2] == 'l' && cs[3] == 'e' && cs[4] == ':' && cs[5] == '/' && cs[6] == '/' {
        proof {
            assert(token@.take(7) =~= seq!['f', 'i', 'l', 'e', ':', '/', '/']);
        }
        return file_uri_path(token);
    }
    proof {
        if token@.len() >= 7 {
            assert(token@.take(7)[0] == token@[0] && token@.take(7)[1] == token@[1] && token@.take(7)[2] == token@[2]);
            assert(token@.take(7)[3] == token@[3] && token@.take(7)[4] == token@[4] && token@.take(7)[5] == token@[5]);
            assert(token@.take(7)[6] == token@[6]);
        }
    }
    if cs.len() == 1 && cs[0] == '~' {
        proof {
            assert(token@ =~= seq!['~']);
        }
        return match home {
            Some(h) => Some(crate::text::owned(h)),
            None => None,
        };
    }
    proof {
        if token@ == seq!['~'] {
            assert(token@.len() == 1);
        }
    }
    if cs.len() >= 2 && cs[0] == '~' && cs[1] == '/' {
        let h = match home {
            Some(h) => h,
            None => return None,
        };
        let mut rest: Vec<char> = Vec::new();
        let mut i: usize = 2;
        while i < cs.len()
            invariant
                cs@ == token@,
                2 <= i <= cs.len(),
                rest@ == token@.subrange(2, i as int),
            decreases cs.len() - i,
        {
            rest.push(cs[i]);
            i += 1;
            proof {
                assert(rest@ =~= token@.subrange(2, i as int));
            }
        }
        proof {
            assert(token@.skip(2) =~= rest@);
        }
        return Some(join_path(h, &rest));
    }
    if cs.len() > 0 && cs[0] == '/' {
        if starts_with_double_slash(token) {
            return None;
        }
        return Some(crate::text::owned(token));
    }
    None
}

/// Converts a path token from terminal text to a validated `file://` URI.
/// `home` is the home directory the caller determined; `probe` reports what
/// the filesystem holds at the resolved path.
pub fn local_path_token_to_file_uri<F: Fn(&str) -> PathFacts>(token: &str, home: Option<&str>, probe: &F) -> (r: Option<String>)
    requires
        forall|p: &str| probe.requires((p,)),
    ensures
        match resolved_token(token@, match home { Some(h) => Some(h@), None => None }) {
            None => r.is_none(),
            Some(p) => exists|q: &str, f: PathFacts|
                q@ == p && probe.ensures((q,), f) && r.deep_view() == safe_uri(p, f@),
        },
{
    let path = match resolve_path_token(token, home) {
        Some(p) => p,
        None => return None,
    };
    let facts = probe(path.as_str());
    path_to_safe_file_uri(path.as_str(), &facts)
}

// ---------------------------------------------------------------------------
// The percent-encoding round trip
// ---------------------------------------------------------------------------

pub open spec fn hex_byte(n: u8) -> u8 {
    if n < 10 {
        (48 + n) as u8
    } else {
        (55 + n) as u8
    }
}

/// The URI bytes of one path byte.
pub open spec fn byte_enc(b: u8) -> Seq<u8> {
    if path_safe(b) {
        seq![b]
    } else {
        seq![37u8, hex_byte(b / 16), hex_byte(b % 16)]
    }
}

/// The URI bytes of a path's bytes, front to back.
pub open spec fn enc_front(b: Seq<u8>) -> Seq<u8>
    decreases b.len(),
{
    if b.len() == 0 {
        Seq::empty()
    } else {
        byte_enc(b[0]) + enc_front(b.drop_first())
    }
}

proof fn lemma_enc_front_push(b: Seq<u8>, x: u8)
    ensures
        enc_front(b.push(x)) == enc_front(b) + byte_enc(x),
    decreases b.len(),
{
    if b.len() == 0 {
        assert(b.push(x).drop_first() =~= Seq::<u8>::empty());
        assert(enc_front(Seq::<u8>::empty()) == Seq::<u8>::empty());
        assert(b.push(x)[0] == x);
        assert(enc_front(b) == Seq::<u8>::empty());
        assert(enc_front(b.push(x)) =~= enc_front(b) + byte_enc(x));
    } else {
        lemma_enc_front_push(b.drop_first(), x);
        assert(b.push(x).drop_first() =~= b.drop_first().push(x));
        assert(b.push(x)[0] == b[0]);
        assert(enc_front(b.push(x)) == byte_enc(b[0]) + enc_front(b.drop_first().push(x)));
        assert(enc_front(b.push(x)) =~= enc_front(b) + byte_enc(x));
    }
}

proof fn lemma_encoded_byte(b: u8)
    ensures
        encode_utf8(encoded_byte(b)) == byte_enc(b),
{
    let cs = encoded_byte(b);
    if path_safe(b) {
        assert(b < 128);
    } else {
        assert(b / 16 < 16 && b % 16 < 16);
    }
    assert(vstd::utf8::is_ascii_chars(cs));
    vstd::utf8::is_ascii_chars_encode_utf8(cs);
    assert(encode_utf8(cs) =~= byte_enc(b));
}

/// The URI bytes of a path are its UTF-8 bytes encoded front to back.
proof fn lemma_encoded_bytes(b: Seq<u8>)
    ensures
        encode_utf8(percent_encoded(b)) == enc_front(b),
    decreases b.len(),
{
    if b.len() == 0 {
        assert(encode_utf8(Seq::<char>::empty()) =~= Seq::<u8>::empty());
    } else {
        lemma_encoded_bytes(b.drop_last());
        crate::bytes::lemma_encode_concat(percent_encoded(b.drop_last()), encoded_byte(b.last()));
        lemma_encoded_byte(b.last());
        lemma_enc_front_push(b.drop_last(), b.last());
        assert(b.drop_last().push(b.last()) =~= b);
    }
}

/// Decoding the encoding of bytes without a NUL gives the bytes back.
proof fn lemma_decode_enc(b: Seq<u8>)
    requires
        !b.contains(0u8),
    ensures
        percent_decoded(enc_front(b)) == Some(b),
    decreases b.len(),
{
    if b.len() == 0 {
        assert(enc_front(b) =~= Seq::<u8>::empty());
    } else {
        let x = b[0];
        let rest = b.drop_first();
        assert(!rest.contains(0u8)) by {
            if rest.contains(0u8) {
                let i = choose|i: int| 0 <= i < rest.len() && rest[i] == 0u8;
                assert(b[i + 1] == 0u8);
            }
        }
        lemma_decode_enc(rest);
        let s = enc_front(b);
        assert(x != 0u8) by {
            assert(b[0] == x);
        }
        if path_safe(x) {
            assert(s.skip(1) =~= enc_front(rest));
            assert(s[0] == x);
            assert(seq![x] + rest =~= b);
        } else {
            assert(s.skip(3) =~= enc_front(rest));
            let hi = x / 16;
            let lo = x % 16;
            assert(s[0] == 37u8);
            assert(nibble(hex_byte(hi)) == Some(hi));
            assert(nibble(hex_byte(lo)) == Some(lo));
            assert(escape_at(s) == Some(x));
            assert(seq![x] + rest =~= b);
        }
    }
}

/// The UTF-8 bytes of a text hold a zero byte only where it holds NUL.
proof fn lemma_no_zero_byte(p: Seq<char>)
    requires
        !p.contains('\0'),
    ensures
        !encode_utf8(p).contains(0u8),
    decreases p.len(),
{
    if p.len() > 0 {
        let rest = p.drop_first();
        assert(!rest.contains('\0')) by {
            if rest.contains('\0') {
                let i = choose|i: int| 0 <= i < rest.len() && rest[i] == '\0';
                assert(p[i + 1] == '\0');
            }
        }
        lemma_no_zero_byte(rest);
        let c = p[0] as u32;
        assert(p[0] != '\0');
        assert(c != 0) by {
            if c == 0 {
                vstd::utf8::char_u32_cast(p[0], c);
                assert((0u32 as char) == '\0');
            }
        }
        vstd::utf8::char_is_scalar(p[0]);
        let e = vstd::utf8::encode_scalar(c);
        assert(!e.contains(0u8)) by {
            if vstd::utf8::has_width_1_encoding(c) {
                assert((c & 0x7F) as u8 != 0) by (bit_vector)
                    requires
                        c != 0,
                        c <= 0x7F,
                ;
            } else {
                assert(forall|y: u32| (0xC0u8 | ((y >> 6) & 0x1F) as u8) != 0u8) by (bit_vector);
                assert(forall|y: u32| (0xE0u8 | ((y >> 12) & 0x0F) as u8) != 0u8) by (bit_vector);
                assert(forall|y: u32| (0xF0u8 | ((y >> 18) & 0x7) as u8) != 0u8) by (bit_vector);
                assert(forall|y: u32| (0x80u8 | (y & 0x3F) as u8) != 0u8) by (bit_vector);
                assert(forall|y: u32| (0x80u8 | ((y >> 6) & 0x3F) as u8) != 0u8) by (bit_vector);
                assert(forall|y: u32| (0x80u8 | ((y >> 12) & 0x3F) as u8) != 0u8) by (bit_vector);
            }
        }
        let whole = encode_utf8(p);
        assert(whole == e + encode_utf8(rest));
        if whole.contains(0u8) {
            let i = choose|i: int| 0 <= i < whole.len() && whole[i] == 0u8;
            if i < e.len() {
                assert(e[i] == 0u8);
            } else {
                assert(encode_utf8(rest)[i - e.len()] == 0u8);
            }
        }
    }
}

/// Encoding a path without NUL and decoding the result gives the path back.
pub proof fn law_percent_round_trip(p: Seq<char>)
    requires
        !p.contains('\0'),
    ensures
        decoded_text(encode_utf8(percent_encoded(encode_utf8(p)))) == Some(p),
{
    let b = encode_utf8(p);
    lemma_no_zero_byte(p);
    lemma_encoded_bytes(b);
    lemma_decode_enc(b);
    vstd::utf8::encode_utf8_valid_utf8(p);
    vstd::utf8::encode_utf8_decode_utf8(p);
}

proof fn lemma_enc_safe(b: Seq<u8>)
    ensures
        forall|i: int| 0 <= i < enc_front(b).len() ==> {
            let y = #[trigger] enc_front(b)[i];
            path_safe(y) || y == 37u8 || (48 <= y <= 57) || (65 <= y <= 70)
        },
    decreases b.len(),
{
    if b.len() > 0 {
        lemma_enc_safe(b.drop_first());
        let head = byte_enc(b[0]);
        let rest = enc_front(b.drop_first());
        assert forall|i: int| 0 <= i < enc_front(b).len() implies {
            let y = #[trigger] enc_front(b)[i];
            path_safe(y) || y == 37u8 || (48 <= y <= 57) || (65 <= y <= 70)
        } by {
            if i >= head.len() {
                assert(enc_front(b)[i] == rest[i - head.len()]);
            } else if !path_safe(b[0]) {
                assert(b[0] / 16 < 16 && b[0] % 16 < 16);
            }
        }
    }
}

/// The encoding holds only path-safe bytes and `%XX` escapes in upper-case
/// hex: every byte of it is path-safe, `%`, or an upper-case hex digit.
pub proof fn law_encoding_is_uri_safe(b: Seq<u8>)
    ensures
        forall|i: int| 0 <= i < encode_utf8(percent_encoded(b)).len() ==> {
            let y = #[trigger] encode_utf8(percent_encoded(b))[i];
            path_safe(y) || y == 37u8 || (48 <= y <= 57) || (65 <= y <= 70)
        },
{
    lemma_encoded_bytes(b);
    lemma_enc_safe(b);
}

} // verus!
