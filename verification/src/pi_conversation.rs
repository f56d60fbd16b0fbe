//! Read-only Pi v3 transcript reader. Terminal rows are never message
//! identities: a message is named by its session, its entry ID and a hash of
//! the entry with its whole ancestry.
//!
//! A session file is JSON lines: a `session` header, then entries that each
//! name an earlier entry as parent (or none). A partial final line is
//! ignored; a malformed complete line fails the whole read.
use crate::bytes::{blen, byte_len};
use crate::schema::{MessageRef, MessageRefView};
use crate::json::{as_str, at, get, lemma_array_items, values_of, is_text, json_bytes, json_parse, parse_json, str_at, write_json, Json, JsonView};
use crate::search_pane::{find_bytes, lowercase, lowercased, occ_from, upto};
use crate::text::{blank, chars_of, char_is_control, char_is_whitespace, is_cc, is_ws, owned, push_str, str_eq, string_of};
use crate::token::{hex_char, hex_digit, sha256, sha256_of};
use vstd::prelude::*;
use vstd::utf8::{decode_utf8, encode_utf8, valid_utf8};

verus! {

/// Sessions larger than this are not read.
pub const MAX_SESSION_BYTES: usize = 67108864;

/// Longest session or entry ID, in bytes.
pub const MAX_ID_BYTES: usize = 128;

// ---------------------------------------------------------------------------
// Lines of a session file
// ---------------------------------------------------------------------------

/// Length of the part of `b` that ends with its last newline.
pub open spec fn complete_len(b: Seq<u8>) -> nat
    decreases b.len(),
{
    if b.len() == 0 {
        0
    } else if b.last() == 10 {
        b.len()
    } else {
        complete_len(b.drop_last())
    }
}

/// The text split at every newline (one piece more than there are newlines).
pub open spec fn pieces(t: Seq<char>) -> Seq<Seq<char>>
    decreases t.len(),
{
    if t.len() == 0 {
        seq![Seq::empty()]
    } else if t.last() == '\n' {
        pieces(t.drop_last()).push(Seq::empty())
    } else {
        let p = pieces(t.drop_last());
        p.update(p.len() - 1, p.last().push(t.last()))
    }
}

/// The pieces that are not blank.
pub open spec fn solid(ps: Seq<Seq<char>>) -> Seq<Seq<char>>
    decreases ps.len(),
{
    if ps.len() == 0 {
        seq![]
    } else if blank(ps.last()) {
        solid(ps.drop_last())
    } else {
        solid(ps.drop_last()).push(ps.last())
    }
}

/// The records of a session text: its non-blank lines.
pub open spec fn record_lines(t: Seq<char>) -> Seq<Seq<char>> {
    solid(pieces(t))
}

/// What `std::str::from_utf8` reports for bytes that are not UTF-8.
pub uninterp spec fn utf8_error_text(b: Seq<u8>) -> Seq<char>;

/// `std::str::from_utf8`: the text, or the error's text.
#[verifier::external_body]
fn text_from_utf8(b: &[u8]) -> (r: Result<String, String>)
    ensures
        r is Ok == valid_utf8(b@),
        r matches Ok(s) ==> s@ == decode_utf8(b@),
        r matches Err(e) ==> e@ == utf8_error_text(b@),
{
    match std::str::from_utf8(b) {
        Ok(s) => Ok(s.to_string()),
        Err(e) => Err(e.to_string()),
    }
}

proof fn lemma_pieces_len(t: Seq<char>)
    ensures
        pieces(t).len() >= 1,
    decreases t.len(),
{
    if t.len() > 0 {
        lemma_pieces_len(t.drop_last());
    }
}

fn line_is_blank(cs: &Vec<char>) -> (r: bool)
    ensures
        r == blank(cs@),
{
    let mut i: usize = 0;
    while i < cs.len()
        invariant
            i <= cs@.len(),
            forall|j: int| 0 <= j < i ==> is_ws(#[trigger] cs@[j]),
        decreases cs@.len() - i,
    {
        if !char_is_whitespace(cs[i]) {
            return false;
        }
        i += 1;
    }
    true
}

fn lines_of(text: &str) -> (r: Vec<String>)
    ensures
        r@.map_values(|s: String| s@) == record_lines(text@),
{
    let cs = chars_of(text);
    let ghost t = text@;
    let mut out: Vec<String> = Vec::new();
    let mut cur: Vec<char> = Vec::new();
    let mut i: usize = 0;
    proof {
        assert(t.take(0) =~= Seq::<char>::empty());
        assert(out@.map_values(|s: String| s@) =~= Seq::<Seq<char>>::empty());
    }
    while i < cs.len()
        invariant
            cs@ == t,
            i <= t.len(),
            pieces(t.take(i as int)).len() >= 1,
            cur@ == pieces(t.take(i as int)).last(),
            out@.map_values(|s: String| s@) == solid(pieces(t.take(i as int)).drop_last()),
        decreases t.len() - i,
    {
        let ghost p = pieces(t.take(i as int));
        proof {
            assert(t.take(i + 1).drop_last() =~= t.take(i as int));
            lemma_pieces_len(t.take(i + 1));
        }
        if cs[i] == '\n' {
            let ghost before = out@;
            if !line_is_blank(&cur) {
                out.push(string_of(&cur));
                proof {
                    assert(out@.map_values(|s: String| s@) =~= before.map_values(|s: String| s@).push(cur@));
                }
            }
            cur = Vec::new();
            proof {
                assert(pieces(t.take(i + 1)).drop_last() =~= p);
                assert(p =~= p.drop_last().push(p.last()));
            }
        } else {
            cur.push(cs[i]);
            proof {
                assert(pieces(t.take(i + 1)).drop_last() =~= p.drop_last());
            }
        }
        i += 1;
    }
    proof {
        assert(t.take(t.len() as int) =~= t);
        let p = pieces(t);
        assert(p =~= p.drop_last().push(p.last()));
    }
    if !line_is_blank(&cur) {
        let ghost before = out@;
        out.push(string_of(&cur));
        proof {
            assert(out@.map_values(|s: String| s@) =~= before.map_values(|s: String| s@).push(cur@));
        }
    }
    out
}

// ---------------------------------------------------------------------------
// Hashes
// ---------------------------------------------------------------------------

/// Lower-case hex text of bytes, two digits per byte.
pub open spec fn hex_text(d: Seq<u8>) -> Seq<char>
    decreases d.len(),
{
    if d.len() == 0 {
        seq![]
    } else {
        hex_text(d.drop_last()) + seq![hex_digit(d.last() >> 4), hex_digit(d.last() & 0x0f)]
    }
}

fn hex_string(d: &Vec<u8>) -> (r: String)
    ensures
        r@ == hex_text(d@),
{
    let mut out: Vec<char> = Vec::new();
    let mut i: usize = 0;
    proof {
        assert(d@.take(0) =~= Seq::<u8>::empty());
    }
    while i < d.len()
        invariant
            i <= d@.len(),
            out@ == hex_text(d@.take(i as int)),
        decreases d@.len() - i,
    {
        let b = d[i];
        assert(b >> 4 < 16) by (bit_vector);
        assert(b & 0x0f < 16) by (bit_vector);
        out.push(hex_char(b >> 4));
        out.push(hex_char(b & 0x0f));
        proof {
            assert(d@.take(i + 1).drop_last() =~= d@.take(i as int));
            assert(out@ =~= hex_text(d@.take(i + 1)));
        }
        i += 1;
    }
    proof {
        assert(d@.take(d@.len() as int) =~= d@);
    }
    string_of(&out)
}

/// Hash of the header: the SHA-256 of its JSON text, in hex.
pub open spec fn header_hash(h: JsonView) -> Seq<char> {
    hex_text(sha256_of(json_bytes(h)))
}

/// Hash of an entry under a parent: the SHA-256 of the parent's hash, a
/// newline and the entry's JSON text, in hex. Chained from the header, it
/// covers the entry and its whole ancestry.
pub open spec fn entry_hash(parent: Seq<char>, v: JsonView) -> Seq<char> {
    hex_text(sha256_of(encode_utf8(parent) + seq![10u8] + json_bytes(v)))
}

// ---------------------------------------------------------------------------
// Reading the records
// ---------------------------------------------------------------------------

/// `value[key]` as a non-empty string, else "Pi entry missing `key`".
pub open spec fn field_of(v: JsonView, key: Seq<char>) -> Result<Seq<char>, Seq<char>> {
    match get(v, key) {
        Some(JsonView::Str(s)) => if s.len() > 0 {
            Ok(s)
        } else {
            Err("Pi entry missing "@ + key)
        },
        _ => Err("Pi entry missing "@ + key),
    }
}

pub fn field<'a>(v: &'a Json, key: &str) -> (r: Result<&'a str, String>)
    ensures
        match (r, field_of(v@, key@)) {
            (Ok(s), Ok(t)) => s@ == t,
            (Err(e), Err(f)) => e@ == f,
            _ => false,
        },
{
    match v.get(key) {
        Some(x) => match x {
            Json::Str(s) => if s.as_str().as_bytes().len() > 0 {
                Ok(s.as_str())
            } else {
                let mut e = owned("Pi entry missing ");
                push_str(&mut e, key);
                Err(e)
            },
            _ => {
                let mut e = owned("Pi entry missing ");
                push_str(&mut e, key);
                Err(e)
            },
        },
        None => {
            let mut e = owned("Pi entry missing ");
            push_str(&mut e, key);
            Err(e)
        },
    }
}

/// Whether a path names the file system root's descendants (Unix rules).
pub open spec fn absolute(p: Seq<char>) -> bool {
    p.len() > 0 && p[0] == '/'
}

/// The header must be a v3 `session` record with a short ID and an
/// absolute working directory.
pub open spec fn header_check(h: JsonView) -> Result<(), Seq<char>> {
    if !is_text(at(h, "type"@), "session"@) || !(at(h, "version"@) matches JsonView::Number(
        Some(n),
        _,
    ) && n == 3) {
        Err("message search requires Pi session format v3"@)
    } else {
        match field_of(h, "id"@) {
            Err(e) => Err(e),
            Ok(id) => if blen(id) > MAX_ID_BYTES {
                Err("invalid Pi session ID"@)
            } else {
                match field_of(h, "cwd"@) {
                    Err(e) => Err(e),
                    Ok(cwd) => if !absolute(cwd) {
                        Err("Pi session cwd must be absolute"@)
                    } else {
                        Ok(())
                    },
                }
            },
        }
    }
}

/// Entries read so far, with their IDs and hashes, index by index.
pub struct Records {
    pub entries: Seq<JsonView>,
    pub ids: Seq<Seq<char>>,
    pub hashes: Seq<Seq<char>>,
}

pub open spec fn index_of(ids: Seq<Seq<char>>, id: Seq<char>, i: int) -> Option<int>
    decreases ids.len() - i,
{
    if i < 0 || i >= ids.len() {
        None
    } else if ids[i] == id {
        Some(i)
    } else {
        index_of(ids, id, i + 1)
    }
}

pub open spec fn has_control(s: Seq<char>) -> bool {
    exists|i: int| 0 <= i < s.len() && is_cc(#[trigger] s[i])
}

/// Reads one more record line.
pub open spec fn read_record(st: Records, line: Seq<char>, hh: Seq<char>) -> Result<Records, Seq<char>> {
    match json_parse(line) {
        Err(e) => Err("invalid Pi record: "@ + e),
        Ok(v) => if is_text(at(v, "type"@), "session"@) {
            Err("duplicate Pi session header"@)
        } else {
            match field_of(v, "id"@) {
                Err(e) => Err(e),
                Ok(id) => if blen(id) > MAX_ID_BYTES || has_control(id) {
                    Err("invalid Pi entry ID"@)
                } else if index_of(st.ids, id, 0) is Some {
                    Err("duplicate Pi entry ID"@)
                } else {
                    match get(v, "parentId"@) {
                        Some(JsonView::Null) => Ok(
                            Records {
                                entries: st.entries.push(v),
                                ids: st.ids.push(id),
                                hashes: st.hashes.push(entry_hash(hh, v)),
                            },
                        ),
                        Some(JsonView::Str(p)) => match index_of(st.ids, p, 0) {
                            Some(k) => Ok(
                                Records {
                                    entries: st.entries.push(v),
                                    ids: st.ids.push(id),
                                    hashes: st.hashes.push(entry_hash(st.hashes[k], v)),
                                },
                            ),
                            None => Err("Pi entry has missing or forward parent"@),
                        },
                        _ => Err("Pi entry has missing or forward parent"@),
                    }
                }
            }
        },
    }
}

/// Reads the record lines `1..n` (line 0 is the header).
pub open spec fn read_records(lines: Seq<Seq<char>>, hh: Seq<char>, n: int) -> Result<Records, Seq<char>>
    decreases n,
{
    if n <= 1 {
        Ok(Records { entries: seq![], ids: seq![], hashes: seq![] })
    } else {
        match read_records(lines, hh, n - 1) {
            Err(e) => Err(e),
            Ok(st) => read_record(st, lines[n - 1], hh),
        }
    }
}

proof fn lemma_index_of(ids: Seq<Seq<char>>, id: Seq<char>, i: int)
    requires
        0 <= i,
    ensures
        index_of(ids, id, i) matches Some(k) ==> i <= k < ids.len() && ids[k] == id,
    decreases ids.len() - i,
{
    if i < ids.len() && ids[i] != id {
        lemma_index_of(ids, id, i + 1);
    }
}

/// Once a record fails, reading further lines keeps that error.
proof fn lemma_error_sticks(lines: Seq<Seq<char>>, hh: Seq<char>, a: int, b: int)
    requires
        1 <= a <= b,
        read_records(lines, hh, a) is Err,
    ensures
        read_records(lines, hh, b) == read_records(lines, hh, a),
    decreases b - a,
{
    if a < b {
        lemma_error_sticks(lines, hh, a, b - 1);
    }
}

/// A whole session file: the header and the records, or the first error.
pub open spec fn read_session(b: Seq<u8>) -> Result<(JsonView, Records), Seq<char>> {
    let pre = b.take(complete_len(b) as int);
    if !valid_utf8(pre) {
        Err(utf8_error_text(pre))
    } else {
        let lines = record_lines(decode_utf8(pre));
        if lines.len() == 0 {
            Err("empty Pi session"@)
        } else {
            match json_parse(lines[0]) {
                Err(e) => Err(e),
                Ok(h) => match header_check(h) {
                    Err(e) => Err(e),
                    Ok(_) => match read_records(lines, header_hash(h), lines.len() as int) {
                        Err(e) => Err(e),
                        Ok(st) => Ok((h, st)),
                    },
                },
            }
        }
    }
}

fn complete_prefix(bytes: &[u8]) -> (r: usize)
    ensures
        r == complete_len(bytes@),
        r <= bytes@.len(),
{
    let mut n: usize = bytes.len();
    proof {
        assert(bytes@.take(n as int) =~= bytes@);
    }
    while n > 0 && bytes[n - 1] != 10
        invariant
            n <= bytes@.len(),
            complete_len(bytes@) == complete_len(bytes@.take(n as int)),
        decreases n,
    {
        proof {
            assert(bytes@.take(n as int).drop_last() =~= bytes@.take(n - 1));
        }
        n -= 1;
    }
    proof {
        if n > 0 {
            assert(bytes@.take(n as int).last() == 10);
        } else {
            assert(bytes@.take(0) =~= Seq::<u8>::empty());
        }
    }
    n
}

// ---------------------------------------------------------------------------
// The conversation
// ---------------------------------------------------------------------------

/// A Pi session as read: entries in file order, each entry's ID and hash.
pub struct PiConversation {
    pub path: String,
    pub header: Json,
    pub entries: Vec<Json>,
    pub ids: Vec<String>,
    pub hashes: Vec<String>,
    /// The file ended with a partial line, which was left out.
    pub partial_tail: bool,
}

pub open spec fn values_view(v: Seq<Json>) -> Seq<JsonView> {
    v.map_values(|j: Json| j@)
}

pub open spec fn texts_view(v: Seq<String>) -> Seq<Seq<char>> {
    v.map_values(|s: String| s@)
}

impl PiConversation {
    pub open spec fn records(self) -> Records {
        Records {
            entries: values_view(self.entries@),
            ids: texts_view(self.ids@),
            hashes: texts_view(self.hashes@),
        }
    }
}

fn check_header(h: &Json) -> (r: Result<(), String>)
    ensures
        match (r, header_check(h@)) {
            (Ok(_), Ok(_)) => true,
            (Err(e), Err(f)) => e@ == f,
            _ => false,
        },
{
    let v3 = match h.get("version") {
        Some(Json::Number(n)) => match n.int {
            Some(k) => k == 3,
            None => false,
        },
        _ => false,
    };
    if !h.text_at("type", "session") || !v3 {
        return Err(owned("message search requires Pi session format v3"));
    }
    let id = field(h, "id")?;
    if byte_len(id) > MAX_ID_BYTES {
        return Err(owned("invalid Pi session ID"));
    }
    let cwd = field(h, "cwd")?;
    let cs = chars_of(cwd);
    if !(cs.len() > 0 && cs[0] == '/') {
        return Err(owned("Pi session cwd must be absolute"));
    }
    Ok(())
}

fn has_control_text(s: &str) -> (r: bool)
    ensures
        r == has_control(s@),
{
    let cs = chars_of(s);
    let mut i: usize = 0;
    while i < cs.len()
        invariant
            cs@ == s@,
            i <= cs@.len(),
            forall|j: int| 0 <= j < i ==> !is_cc(#[trigger] s@[j]),
        decreases cs@.len() - i,
    {
        if char_is_control(cs[i]) {
            return true;
        }
        i += 1;
    }
    false
}

/// Index of `id` among `ids`.
pub fn position(ids: &Vec<String>, id: &str) -> (r: Option<usize>)
    ensures
        match r {
            Some(k) => index_of(texts_view(ids@), id@, 0) == Some(k as int),
            None => index_of(texts_view(ids@), id@, 0) is None,
        },
        r matches Some(k) ==> k < ids@.len() && ids@[k as int]@ == id@,
{
    let mut i: usize = 0;
    while i < ids.len()
        invariant
            i <= ids@.len(),
            index_of(texts_view(ids@), id@, 0) == index_of(texts_view(ids@), id@, i as int),
        decreases ids@.len() - i,
    {
        if str_eq(ids[i].as_str(), id) {
            proof {
                assert(texts_view(ids@)[i as int] == ids@[i as int]@);
            }
            return Some(i);
        }
        proof {
            assert(texts_view(ids@)[i as int] == ids@[i as int]@);
        }
        i += 1;
    }
    None
}

fn hash_under(parent: &str, v: &Json) -> (r: String)
    ensures
        r@ == entry_hash(parent@, v@),
{
    let mut data = vstd::slice::slice_to_vec(parent.as_bytes());
    data.push(10u8);
    let mut body = write_json(v);
    data.append(&mut body);
    proof {
        assert(data@ =~= encode_utf8(parent@) + seq![10u8] + json_bytes(v@));
    }
    hex_string(&sha256(data.as_slice()))
}

fn read_one(
    entries: &mut Vec<Json>,
    ids: &mut Vec<String>,
    hashes: &mut Vec<String>,
    line: &str,
    hh: &str,
) -> (r: Result<(), String>)
    requires
        old(ids)@.len() == old(hashes)@.len(),
    ensures
        r is Ok ==> final(ids)@.len() == final(hashes)@.len(),
        match read_record(
            Records {
                entries: values_view(old(entries)@),
                ids: texts_view(old(ids)@),
                hashes: texts_view(old(hashes)@),
            },
            line@,
            hh@,
        ) {
            Ok(st) => r is Ok && values_view(final(entries)@) == st.entries && texts_view(final(ids)@)
                == st.ids && texts_view(final(hashes)@) == st.hashes,
            Err(e) => r is Err && r->Err_0@ == e,
        },
{
    let v = match parse_json(line) {
        Ok(v) => v,
        Err(e) => {
            let mut m = owned("invalid Pi record: ");
            push_str(&mut m, e.as_str());
            return Err(m);
        },
    };
    if v.text_at("type", "session") {
        return Err(owned("duplicate Pi session header"));
    }
    let id = owned(field(&v, "id")?);
    if byte_len(id.as_str()) > MAX_ID_BYTES || has_control_text(id.as_str()) {
        return Err(owned("invalid Pi entry ID"));
    }
    if position(ids, id.as_str()).is_some() {
        return Err(owned("duplicate Pi entry ID"));
    }
    let ghost st = Records {
        entries: values_view(entries@),
        ids: texts_view(ids@),
        hashes: texts_view(hashes@),
    };
    let ghost expected = match get(v@, "parentId"@) {
        Some(JsonView::Str(p)) => st.hashes[index_of(st.ids, p, 0).unwrap()],
        _ => hh@,
    };
    let parent_hash: String = match v.get("parentId") {
        Some(Json::Null) => owned(hh),
        Some(Json::Str(p)) => match position(ids, p.as_str()) {
            Some(k) => {
                proof {
                    lemma_index_of(texts_view(ids@), p@, 0);
                    assert(texts_view(hashes@)[k as int] == hashes@[k as int]@);
                    assert(get(v@, "parentId"@) == Some(JsonView::Str(p@)));
                    assert(st.ids == texts_view(ids@));
                    assert(index_of(st.ids, p@, 0) == Some(k as int));
                    assert(st.hashes[k as int] == hashes@[k as int]@);
                    assert(expected == st.hashes[k as int]);
                }
                owned(hashes[k].as_str())
            },
            None => {
                return Err(owned("Pi entry has missing or forward parent"));
            },
        },
        _ => {
            return Err(owned("Pi entry has missing or forward parent"));
        },
    };
    assert(parent_hash@ == expected);
    let h = hash_under(parent_hash.as_str(), &v);
    let ghost (e0, i0, h0) = (entries@, ids@, hashes@);
    let ghost vv = v@;
    entries.push(v);
    ids.push(id);
    hashes.push(h);
    proof {
        assert(values_view(entries@) =~= values_view(e0).push(vv));
        assert(texts_view(ids@) =~= texts_view(i0).push(id@));
        assert(texts_view(hashes@) =~= texts_view(h0).push(h@));
    }
    Ok(())
}

impl PiConversation {
    /// Reads a session file's bytes.
    pub fn parse(path: String, bytes: &[u8]) -> (r: Result<PiConversation, String>)
        ensures
            match (r, read_session(bytes@)) {
                (Ok(c), Ok(hs)) => c.header@ == hs.0 && c.records() == hs.1 && c.path == path
                    && c.partial_tail == (complete_len(bytes@) < bytes@.len()) && c.wf(),
                (Err(e), Err(f)) => e@ == f,
                _ => false,
            },
    {
        let complete = complete_prefix(bytes);
        let partial_tail = complete < bytes.len();
        let pre = vstd::slice::slice_subrange(bytes, 0, complete);
        proof {
            assert(pre@ =~= bytes@.take(complete as int));
        }
        let text = text_from_utf8(pre)?;
        let lines = lines_of(text.as_str());
        let ghost ls = lines@.map_values(|s: String| s@);
        if lines.len() == 0 {
            return Err(owned("empty Pi session"));
        }
        proof {
            assert(ls[0] == lines@[0]@);
        }
        let header = parse_json(lines[0].as_str())?;
        check_header(&header)?;
        let hh = hex_string(&sha256(write_json(&header).as_slice()));
        proof {
            assert(valid_utf8(bytes@.take(complete as int)));
            assert(text@ == decode_utf8(bytes@.take(complete as int)));
            assert(ls == record_lines(decode_utf8(bytes@.take(complete as int))));
            assert(json_parse(ls[0]) == Ok::<JsonView, Seq<char>>(header@));
        }
        let mut entries: Vec<Json> = Vec::new();
        let mut ids: Vec<String> = Vec::new();
        let mut hashes: Vec<String> = Vec::new();
        let mut i: usize = 1;
        proof {
            assert(values_view(entries@) =~= Seq::<JsonView>::empty());
            assert(texts_view(ids@) =~= Seq::<Seq<char>>::empty());
            assert(texts_view(hashes@) =~= Seq::<Seq<char>>::empty());
        }
        while i < lines.len()
            invariant
                ls == lines@.map_values(|s: String| s@),
                1 <= i <= lines@.len(),
                ids@.len() == hashes@.len(),
                hh@ == header_hash(header@),
                read_session(bytes@) == match read_records(ls, hh@, ls.len() as int) {
                    Err(e) => Err(e),
                    Ok(st) => Ok((header@, st)),
                },
                read_records(ls, hh@, i as int) == Ok::<Records, Seq<char>>(
                    Records {
                        entries: values_view(entries@),
                        ids: texts_view(ids@),
                        hashes: texts_view(hashes@),
                    },
                ),
            decreases lines@.len() - i,
        {
            proof {
                assert(ls[i as int] == lines@[i as int]@);
            }
            match read_one(&mut entries, &mut ids, &mut hashes, lines[i].as_str(), hh.as_str()) {
                Ok(_) => {},
                Err(e) => {
                    proof {
                        lemma_error_sticks(ls, hh@, i + 1, ls.len() as int);
                    }
                    return Err(e);
                },
            }
            i += 1;
        }
        let c = PiConversation { path, header, entries, ids, hashes, partial_tail };
        proof {
            lemma_parsed_wf(bytes@, c);
        }
        Ok(c)
    }

    /// A session file as read from disk: at most `MAX_SESSION_BYTES` are
    /// searched; `bytes` holds what was read, up to one byte more.
    pub fn from_file_bytes(path: String, bytes: &[u8]) -> (r: Result<PiConversation, String>)
        ensures
            bytes@.len() > MAX_SESSION_BYTES ==> r is Err && r->Err_0@ == "Pi session exceeds 64 MiB; not searched"@,
            bytes@.len() <= MAX_SESSION_BYTES ==> match (r, read_session(bytes@)) {
                (Ok(c), Ok(hs)) => c.header@ == hs.0 && c.records() == hs.1 && c.path == path && c.wf(),
                (Err(e), Err(f)) => e@ == f,
                _ => false,
            },
    {
        if bytes.len() > MAX_SESSION_BYTES {
            return Err(owned("Pi session exceeds 64 MiB; not searched"));
        }
        Self::parse(path, bytes)
    }
}

/// A session path must be absolute before anything is opened.
pub fn require_absolute(path: &str) -> (r: Result<(), String>)
    ensures
        r is Ok == absolute(path@),
        r matches Err(e) ==> e@ == "Pi session path must be absolute"@,
{
    let cs = chars_of(path);
    if cs.len() > 0 && cs[0] == '/' {
        Ok(())
    } else {
        Err(owned("Pi session path must be absolute"))
    }
}

// ---------------------------------------------------------------------------
// The entry tree
// ---------------------------------------------------------------------------

/// The index of the parent an entry names, if it names one.
pub open spec fn parent_index(r: Records, k: int) -> Option<int> {
    match str_at(r.entries[k], "parentId"@) {
        Some(p) => index_of(r.ids, p, 0),
        None => None,
    }
}

/// Entries, IDs and hashes line up; IDs are each entry's `id` and distinct;
/// a parent comes before its children.
pub open spec fn records_wf(r: Records) -> bool {
    &&& r.ids.len() == r.entries.len()
    &&& r.hashes.len() == r.entries.len()
    &&& forall|k: int| 0 <= k < r.entries.len() ==> field_of(#[trigger] r.entries[k], "id"@) == Ok::<
        Seq<char>,
        Seq<char>,
    >(r.ids[k])
    &&& forall|i: int, j: int| 0 <= i < j < r.ids.len() ==> #[trigger] r.ids[i] != #[trigger] r.ids[j]
    &&& forall|k: int|
        0 <= k < r.entries.len() ==> match #[trigger] parent_index(r, k) {
            Some(j) => 0 <= j < k,
            None => str_at(r.entries[k], "parentId"@) is None,
        }
}

proof fn lemma_index_of_push(ids: Seq<Seq<char>>, id: Seq<char>, p: Seq<char>)
    ensures
        index_of(ids, p, 0) is Some ==> index_of(ids.push(id), p, 0) == index_of(ids, p, 0),
        index_of(ids, p, 0) is None ==> index_of(ids.push(id), p, 0) == (if p == id {
            Some(ids.len() as int)
        } else {
            None
        }),
{
    lemma_index_of_push_from(ids, id, p, 0);
}

proof fn lemma_index_of_push_from(ids: Seq<Seq<char>>, id: Seq<char>, p: Seq<char>, i: int)
    requires
        0 <= i <= ids.len(),
    ensures
        index_of(ids, p, i) is Some ==> index_of(ids.push(id), p, i) == index_of(ids, p, i),
        index_of(ids, p, i) is None ==> index_of(ids.push(id), p, i) == (if p == id {
            Some(ids.len() as int)
        } else {
            None
        }),
    decreases ids.len() - i,
{
    if i < ids.len() {
        assert(ids.push(id)[i] == ids[i]);
        lemma_index_of_push_from(ids, id, p, i + 1);
    } else {
        assert(ids.push(id)[i] == id);
        assert(index_of(ids.push(id), p, i + 1) is None);
    }
}

proof fn lemma_index_of_distinct(ids: Seq<Seq<char>>, k: int)
    requires
        0 <= k < ids.len(),
        forall|i: int, j: int| 0 <= i < j < ids.len() ==> #[trigger] ids[i] != #[trigger] ids[j],
    ensures
        index_of(ids, ids[k], 0) == Some(k),
{
    lemma_index_of_distinct_from(ids, k, 0);
}

proof fn lemma_index_of_distinct_from(ids: Seq<Seq<char>>, k: int, i: int)
    requires
        0 <= i <= k < ids.len(),
        forall|a: int, b: int| 0 <= a < b < ids.len() ==> #[trigger] ids[a] != #[trigger] ids[b],
    ensures
        index_of(ids, ids[k], i) == Some(k),
    decreases k - i,
{
    if i < k {
        assert(ids[i] != ids[k]);
        lemma_index_of_distinct_from(ids, k, i + 1);
    }
}

proof fn lemma_read_record_wf(st: Records, line: Seq<char>, hh: Seq<char>)
    requires
        records_wf(st),
        read_record(st, line, hh) is Ok,
    ensures
        records_wf(read_record(st, line, hh)->Ok_0),
{
    let n = read_record(st, line, hh)->Ok_0;
    let v = json_parse(line)->Ok_0;
    let id = field_of(v, "id"@)->Ok_0;
    lemma_index_of(st.ids, id, 0);
    assert(n.entries == st.entries.push(v));
    assert(n.ids == st.ids.push(id));
    assert forall|k: int| 0 <= k < n.entries.len() implies field_of(#[trigger] n.entries[k], "id"@) == Ok::<
        Seq<char>,
        Seq<char>,
    >(n.ids[k]) by {
        if k < st.entries.len() {
            assert(n.entries[k] == st.entries[k]);
            assert(n.ids[k] == st.ids[k]);
        }
    }
    assert forall|i: int, j: int| 0 <= i < j < n.ids.len() implies #[trigger] n.ids[i] != #[trigger] n.ids[j] by {
        if j == st.ids.len() {
            if n.ids[i] == id {
                lemma_index_of_distinct(st.ids, i);
                assert(st.ids[i] == id);
            }
        } else {
            assert(n.ids[i] == st.ids[i] && n.ids[j] == st.ids[j]);
        }
    }
    assert forall|k: int| 0 <= k < n.entries.len() implies match #[trigger] parent_index(n, k) {
        Some(j) => 0 <= j < k,
        None => str_at(n.entries[k], "parentId"@) is None,
    } by {
        if k < st.entries.len() {
            assert(n.entries[k] == st.entries[k]);
            assert(parent_index(st, k) matches Some(j) ==> 0 <= j < k);
            match str_at(st.entries[k], "parentId"@) {
                Some(p) => {
                    lemma_index_of_push(st.ids, id, p);
                    assert(parent_index(n, k) == parent_index(st, k));
                },
                None => {},
            }
        } else {
            assert(n.entries[k] == v);
            match get(v, "parentId"@) {
                Some(JsonView::Str(p)) => {
                    lemma_index_of_push(st.ids, id, p);
                    lemma_index_of(st.ids, p, 0);
                },
                _ => {},
            }
        }
    }
}

proof fn lemma_read_records_wf(lines: Seq<Seq<char>>, hh: Seq<char>, n: int)
    requires
        read_records(lines, hh, n) is Ok,
    ensures
        records_wf(read_records(lines, hh, n)->Ok_0),
    decreases n,
{
    if n > 1 {
        lemma_read_records_wf(lines, hh, n - 1);
        lemma_read_record_wf(read_records(lines, hh, n - 1)->Ok_0, lines[n - 1], hh);
    }
}

/// Indices of entry `k` and its ancestors, root first.
pub open spec fn ancestry_of(r: Records, k: int) -> Seq<int>
    decreases k,
{
    if k < 0 {
        seq![]
    } else {
        match parent_index(r, k) {
            Some(j) => if 0 <= j < k {
                ancestry_of(r, j).push(k)
            } else {
                seq![k]
            },
            None => seq![k],
        }
    }
}

/// Entry `j` is `k` or one of its ancestors.
pub open spec fn on_branch(r: Records, k: int, j: int) -> bool
    decreases k,
{
    if k < 0 {
        false
    } else if j == k {
        true
    } else {
        match parent_index(r, k) {
            Some(p) => if 0 <= p < k {
                on_branch(r, p, j)
            } else {
                false
            },
            None => false,
        }
    }
}

impl PiConversation {
    /// A read conversation: its records hold together and its header has an ID.
    pub open spec fn wf(self) -> bool {
        &&& records_wf(self.records())
        &&& field_of(self.header@, "id"@) is Ok
        &&& self.entries@.len() == self.ids@.len()
        &&& self.entries@.len() == self.hashes@.len()
    }

    /// Index of the entry with ID `id`.
    pub fn entry_index(&self, id: &str) -> (r: Result<usize, String>)
        ensures
            match r {
                Ok(k) => index_of(self.records().ids, id@, 0) == Some(k as int),
                Err(e) => index_of(self.records().ids, id@, 0) is None && e@ == "that Pi message is gone"@,
            },
            r matches Ok(k) ==> k < self.ids@.len(),
    {
        match position(&self.ids, id) {
            Some(k) => {
                proof {
                    lemma_index_of(texts_view(self.ids@), id@, 0);
                }
                Ok(k)
            },
            None => Err(owned("that Pi message is gone")),
        }
    }

    /// The entry with ID `id`.
    pub fn entry(&self, id: &str) -> (r: Result<&Json, String>)
        requires
            self.wf(),
        ensures
            match index_of(self.records().ids, id@, 0) {
                Some(k) => r is Ok && r.unwrap()@ == self.records().entries[k],
                None => r is Err && r->Err_0@ == "that Pi message is gone"@,
            },
    {
        let k = self.entry_index(id)?;
        proof {
            assert(values_view(self.entries@)[k as int] == self.entries@[k as int]@);
        }
        Ok(&self.entries[k])
    }

    /// The entry with ID `id` and its ancestors, root first.
    pub fn ancestry(&self, id: &str) -> (r: Result<Vec<&Json>, String>)
        requires
            self.wf(),
        ensures
            match index_of(self.records().ids, id@, 0) {
                Some(k) => r is Ok && r.unwrap()@.len() == ancestry_of(self.records(), k).len()
                    && forall|i: int|
                    0 <= i < r.unwrap()@.len() ==> (#[trigger] r.unwrap()@[i])@ == self.records().entries[ancestry_of(
                        self.records(),
                        k,
                    )[i]],
                None => r is Err && r->Err_0@ == "that Pi message is gone"@,
            },
    {
        let k0 = self.entry_index(id)?;
        let idx = self.ancestry_indices(k0);
        let mut out: Vec<&Json> = Vec::new();
        let mut i: usize = 0;
        while i < idx.len()
            invariant
                self.wf(),
                k0 < self.entries@.len(),
                idx@.len() == ancestry_of(self.records(), k0 as int).len(),
                forall|q: int| 0 <= q < idx@.len() ==> idx@[q] as int == ancestry_of(self.records(), k0 as int)[q],
                forall|q: int| 0 <= q < idx@.len() ==> idx@[q] < self.entries@.len(),
                i <= idx@.len(),
                out@.len() == i,
                forall|q: int|
                    0 <= q < i ==> (#[trigger] out@[q])@ == self.records().entries[ancestry_of(
                        self.records(),
                        k0 as int,
                    )[q]],
            decreases idx@.len() - i,
        {
            proof {
                assert(values_view(self.entries@)[idx@[i as int] as int] == self.entries@[idx@[i as int] as int]@);
            }
            out.push(&self.entries[idx[i]]);
            i += 1;
        }
        Ok(out)
    }

    /// Indices of entry `k` and its ancestors, root first.
    pub fn ancestry_indices(&self, k: usize) -> (r: Vec<usize>)
        requires
            self.wf(),
            k < self.entries@.len(),
        ensures
            r@.len() == ancestry_of(self.records(), k as int).len(),
            forall|q: int| 0 <= q < r@.len() ==> r@[q] as int == ancestry_of(self.records(), k as int)[q],
            forall|q: int| 0 <= q < r@.len() ==> r@[q] < self.entries@.len(),
        decreases k,
    {
        let ghost rs = self.records();
        proof {
            assert(parent_index(rs, k as int) matches Some(j) ==> 0 <= j < k);
        }
        let parent = match self.entries[k].str_at("parentId") {
            Some(p) => position(&self.ids, p),
            None => None,
        };
        proof {
            assert(values_view(self.entries@)[k as int] == self.entries@[k as int]@);
        }
        match parent {
            Some(j) => {
                let mut up = self.ancestry_indices(j);
                up.push(k);
                up
            },
            None => {
                let mut v = Vec::new();
                v.push(k);
                v
            },
        }
    }

    /// The identity of the entry with ID `id`.
    pub fn reference(&self, id: &str) -> (r: Result<MessageRef, String>)
        requires
            self.wf(),
        ensures
            match index_of(self.records().ids, id@, 0) {
                Some(k) => r is Ok && r.unwrap()@ == (MessageRefView {
                    session_path: self.path@,
                    session_id: field_of(self.header@, "id"@)->Ok_0,
                    entry_id: id@,
                    ancestry_hash: self.records().hashes[k],
                }),
                None => r is Err && r->Err_0@ == "that Pi message is gone"@,
            },
    {
        let k = self.entry_index(id)?;
        let session_id = owned(field(&self.header, "id")?);
        proof {
            assert(texts_view(self.hashes@)[k as int] == self.hashes@[k as int]@);
        }
        Ok(
            MessageRef {
                session_path: owned(self.path.as_str()),
                session_id,
                entry_id: owned(id),
                ancestry_hash: owned(self.hashes[k].as_str()),
            },
        )
    }

    /// The reference still names the same message with the same ancestry.
    pub fn validate(&self, reference: &MessageRef) -> (r: Result<(), String>)
        requires
            self.wf(),
        ensures
            match index_of(self.records().ids, reference.entry_id@, 0) {
                Some(k) => if reference@ == (MessageRefView {
                    session_path: self.path@,
                    session_id: field_of(self.header@, "id"@)->Ok_0,
                    entry_id: reference.entry_id@,
                    ancestry_hash: self.records().hashes[k],
                }) {
                    r is Ok
                } else {
                    r is Err && r->Err_0@ == "Pi conversation changed; search again before branching"@
                },
                None => r is Err && r->Err_0@ == "that Pi message is gone"@,
            },
    {
        let current = self.reference(reference.entry_id.as_str())?;
        if !(str_eq(current.session_path.as_str(), reference.session_path.as_str()) && str_eq(
            current.session_id.as_str(),
            reference.session_id.as_str(),
        ) && str_eq(current.entry_id.as_str(), reference.entry_id.as_str()) && str_eq(
            current.ancestry_hash.as_str(),
            reference.ancestry_hash.as_str(),
        )) {
            return Err(owned("Pi conversation changed; search again before branching"));
        }
        Ok(())
    }
}

proof fn lemma_parsed_wf(bytes: Seq<u8>, c: PiConversation)
    requires
        read_session(bytes) matches Ok(hs) && c.header@ == hs.0 && c.records() == hs.1,
        c.entries@.len() == c.records().entries.len(),
        c.ids@.len() == c.records().ids.len(),
        c.hashes@.len() == c.records().hashes.len(),
    ensures
        c.wf(),
{
    let pre = bytes.take(complete_len(bytes) as int);
    let lines = record_lines(decode_utf8(pre));
    let h = json_parse(lines[0])->Ok_0;
    lemma_read_records_wf(lines, header_hash(h), lines.len() as int);
}

// ---------------------------------------------------------------------------
// Messages
// ---------------------------------------------------------------------------

/// A visible message of the conversation tree.
pub struct ConversationMessage {
    pub reference: MessageRef,
    pub parent_message_id: Option<String>,
    pub role: String,
    pub text: String,
    pub text_truncated: bool,
    pub timestamp: String,
    pub depth: usize,
    /// On the branch that ends at the session's last entry.
    pub active: bool,
    pub can_rewrite: bool,
    pub can_continue: bool,
}

pub struct ConversationMessageView {
    pub reference: MessageRefView,
    pub parent_message_id: Option<Seq<char>>,
    pub role: Seq<char>,
    pub text: Seq<char>,
    pub text_truncated: bool,
    pub timestamp: Seq<char>,
    pub depth: nat,
    pub active: bool,
    pub can_rewrite: bool,
    pub can_continue: bool,
}

pub open spec fn opt_text_view(o: Option<String>) -> Option<Seq<char>> {
    match o {
        Some(s) => Some(s@),
        None => None,
    }
}

impl View for ConversationMessage {
    type V = ConversationMessageView;

    open spec fn view(&self) -> ConversationMessageView {
        ConversationMessageView {
            reference: self.reference@,
            parent_message_id: opt_text_view(self.parent_message_id),
            role: self.role@,
            text: self.text@,
            text_truncated: self.text_truncated,
            timestamp: self.timestamp@,
            depth: self.depth as nat,
            active: self.active,
            can_rewrite: self.can_rewrite,
            can_continue: self.can_continue,
        }
    }
}

pub open spec fn role_of(v: JsonView) -> Seq<char> {
    match str_at(at(v, "message"@), "role"@) {
        Some(r) => r,
        None => ""@,
    }
}

/// A user or assistant message; tool results and other records are not shown.
pub open spec fn is_message(v: JsonView) -> bool {
    is_text(at(v, "type"@), "message"@) && (role_of(v) == "user"@ || role_of(v) == "assistant"@)
}

/// The texts of a message's `text` blocks.
pub open spec fn block_texts(bs: Seq<JsonView>) -> Seq<Seq<char>>
    decreases bs.len(),
{
    if bs.len() == 0 {
        seq![]
    } else if is_text(at(bs.last(), "type"@), "text"@) && str_at(bs.last(), "text"@) is Some {
        block_texts(bs.drop_last()).push(str_at(bs.last(), "text"@).unwrap())
    } else {
        block_texts(bs.drop_last())
    }
}

/// Pieces joined by newlines.
pub open spec fn joined_lines(ps: Seq<Seq<char>>) -> Seq<char>
    decreases ps.len(),
{
    if ps.len() == 0 {
        seq![]
    } else if ps.len() == 1 {
        ps[0]
    } else {
        joined_lines(ps.drop_last()) + seq!['\n'] + ps.last()
    }
}

/// The text of a message: its content string, or its text blocks joined by
/// newlines.
pub open spec fn message_text_of(m: JsonView) -> Seq<char> {
    match at(m, "content"@) {
        JsonView::Str(t) => t,
        JsonView::Array(bs) => joined_lines(block_texts(bs)),
        _ => ""@,
    }
}

/// A user message made of text only: it can be rewritten as a draft.
pub open spec fn plain_user(m: JsonView) -> bool {
    is_text(at(m, "role"@), "user"@) && match at(m, "content"@) {
        JsonView::Str(_) => true,
        JsonView::Array(bs) => forall|i: int| 0 <= i < bs.len() ==> is_text(at(#[trigger] bs[i], "type"@), "text"@),
        _ => false,
    }
}

pub open spec fn calls_tools(m: JsonView) -> bool {
    at(m, "content"@) matches JsonView::Array(bs) && exists|i: int|
        0 <= i < bs.len() && is_text(at(#[trigger] bs[i], "type"@), "toolCall"@)
}

pub open spec fn failed_stop(m: JsonView) -> bool {
    str_at(m, "stopReason"@) == Some("error"@) || str_at(m, "stopReason"@) == Some("aborted"@)
}

/// The nearest message at or above entry `k`, and that message's depth
/// among messages.
pub open spec fn visible(r: Records, k: int) -> Option<(int, nat)>
    decreases k,
{
    if k < 0 {
        None
    } else {
        let up = match parent_index(r, k) {
            Some(j) => if 0 <= j < k {
                visible(r, j)
            } else {
                None
            },
            None => None,
        };
        if is_message(r.entries[k]) {
            Some(
                (
                    k,
                    match up {
                        Some(u) => u.1 + 1,
                        None => 0,
                    },
                ),
            )
        } else {
            up
        }
    }
}

/// The visible message above entry `k`.
pub open spec fn visible_parent(r: Records, k: int) -> Option<(int, nat)> {
    match parent_index(r, k) {
        Some(j) => if 0 <= j < k {
            visible(r, j)
        } else {
            None
        },
        None => None,
    }
}

impl PiConversation {
    /// Message entry `k` as shown.
    pub open spec fn message_at(self, k: int) -> ConversationMessageView {
        let r = self.records();
        let v = r.entries[k];
        let m = at(v, "message"@);
        let up = visible_parent(r, k);
        ConversationMessageView {
            reference: MessageRefView {
                session_path: self.path@,
                session_id: field_of(self.header@, "id"@)->Ok_0,
                entry_id: r.ids[k],
                ancestry_hash: r.hashes[k],
            },
            parent_message_id: match up {
                Some(u) => Some(r.ids[u.0]),
                None => None,
            },
            role: role_of(v),
            text: message_text_of(m),
            text_truncated: false,
            timestamp: upto(
                match str_at(v, "timestamp"@) {
                    Some(t) => t,
                    None => ""@,
                },
                100,
            ),
            depth: match up {
                Some(u) => u.1 + 1,
                None => 0,
            },
            active: r.entries.len() > 0 && on_branch(r, r.entries.len() - 1, k),
            can_rewrite: role_of(v) == "user"@ && plain_user(m),
            can_continue: !calls_tools(m) && !failed_stop(m),
        }
    }

    /// The messages among the first `n` entries, in file order.
    pub open spec fn messages_upto(self, n: int) -> Seq<ConversationMessageView>
        decreases n,
    {
        if n <= 0 {
            seq![]
        } else if is_message(self.records().entries[n - 1]) {
            self.messages_upto(n - 1).push(self.message_at(n - 1))
        } else {
            self.messages_upto(n - 1)
        }
    }

    pub open spec fn all_messages(self) -> Seq<ConversationMessageView> {
        self.messages_upto(self.entries@.len() as int)
    }
}

proof fn lemma_visible(r: Records, k: int)
    requires
        0 <= k,
    ensures
        visible(r, k) matches Some(u) ==> 0 <= u.0 <= k && u.1 <= k,
    decreases k,
{
    match parent_index(r, k) {
        Some(j) => if 0 <= j < k {
            lemma_visible(r, j);
        },
        None => {},
    }
}

fn text_or_empty(s: Option<&str>) -> (r: String)
    ensures
        r@ == match s {
            Some(t) => t@,
            None => ""@,
        },
{
    match s {
        Some(t) => owned(t),
        None => owned(""),
    }
}

/// The text of a message (`message_text`).
pub fn message_text(message: &Json) -> (r: String)
    ensures
        r@ == message_text_of(message@),
{
    match message.get("content") {
        Some(Json::Str(t)) => owned(t.as_str()),
        Some(Json::Array(bs)) => {
            let mut out: Vec<char> = Vec::new();
            let mut count: usize = 0;
            let mut i: usize = 0;
            let ghost bv = values_of(bs@);
            proof {
                lemma_array_items(*bs);
                assert(bv.take(0) =~= Seq::<JsonView>::empty());
            }
            while i < bs.len()
                invariant
                    bv == values_of(bs@),
                    i <= bs@.len(),
                    count == block_texts(bv.take(i as int)).len(),
                    count <= i,
                    out@ == joined_lines(block_texts(bv.take(i as int))),
                decreases bs@.len() - i,
            {
                let b = &bs[i];
                proof {
                    assert(bv.take(i + 1).drop_last() =~= bv.take(i as int));
                    assert(bv[i as int] == b@);
                }
                if b.text_at("type", "text") {
                    match b.str_at("text") {
                        Some(t) => {
                            let ghost before = block_texts(bv.take(i as int));
                            if count > 0 {
                                out.push('\n');
                            }
                            let tc = chars_of(t);
                            let mut j: usize = 0;
                            let ghost base = out@;
                            while j < tc.len()
                                invariant
                                    tc@ == t@,
                                    j <= tc@.len(),
                                    out@ == base + t@.take(j as int),
                                decreases tc@.len() - j,
                            {
                                out.push(tc[j]);
                                j += 1;
                                proof {
                                    assert(out@ =~= base + t@.take(j as int));
                                }
                            }
                            proof {
                                assert(t@.take(t@.len() as int) =~= t@);
                                let after = before.push(t@);
                                assert(after.drop_last() =~= before);
                                assert(out@ =~= joined_lines(after));
                            }
                            count += 1;
                        },
                        None => {},
                    }
                }
                i += 1;
            }
            proof {
                assert(bv.take(bs@.len() as int) =~= bv);
            }
            string_of(&out)
        },
        _ => owned(""),
    }
}

/// A user message made of text only (`plain_user_message`).
pub fn plain_user_message(message: &Json) -> (r: bool)
    ensures
        r == plain_user(message@),
{
    if !message.text_at("role", "user") {
        return false;
    }
    match message.get("content") {
        Some(Json::Str(_)) => true,
        Some(Json::Array(bs)) => {
            proof {
                lemma_array_items(*bs);
            }
            let mut i: usize = 0;
            while i < bs.len()
                invariant
                    at(message@, "content"@) == JsonView::Array(values_of(bs@)),
                    is_text(at(message@, "role"@), "user"@),
                    i <= bs@.len(),
                    forall|j: int| 0 <= j < i ==> is_text(at(#[trigger] values_of(bs@)[j], "type"@), "text"@),
                decreases bs@.len() - i,
            {
                proof {
                    assert(values_of(bs@)[i as int] == bs@[i as int]@);
                }
                if !bs[i].text_at("type", "text") {
                    return false;
                }
                i += 1;
            }
            true
        },
        _ => false,
    }
}

/// A message that asks for tool calls.
pub fn has_tool_calls(message: &Json) -> (r: bool)
    ensures
        r == calls_tools(message@),
{
    match message.get("content") {
        Some(Json::Array(bs)) => {
            proof {
                lemma_array_items(*bs);
            }
            let mut i: usize = 0;
            while i < bs.len()
                invariant
                    at(message@, "content"@) == JsonView::Array(values_of(bs@)),
                    i <= bs@.len(),
                    forall|j: int| 0 <= j < i ==> !is_text(at(#[trigger] values_of(bs@)[j], "type"@), "toolCall"@),
                decreases bs@.len() - i,
            {
                proof {
                    assert(values_of(bs@)[i as int] == bs@[i as int]@);
                }
                if bs[i].text_at("type", "toolCall") {
                    return true;
                }
                i += 1;
            }
            false
        },
        _ => false,
    }
}

fn failed_stop_of(message: &Json) -> (r: bool)
    ensures
        r == failed_stop(message@),
{
    match message.str_at("stopReason") {
        Some(s) => str_eq(s, "error") || str_eq(s, "aborted"),
        None => false,
    }
}

pub open spec fn pair_view(o: Option<(usize, usize)>) -> Option<(int, nat)> {
    match o {
        Some(p) => Some((p.0 as int, p.1 as nat)),
        None => None,
    }
}

fn first_chars(s: &str, n: usize) -> (r: String)
    ensures
        r@ == upto(s@, n as nat),
{
    let cs = chars_of(s);
    let mut out: Vec<char> = Vec::new();
    let mut i: usize = 0;
    while i < cs.len() && i < n
        invariant
            cs@ == s@,
            i <= cs@.len(),
            i <= n,
            out@ == s@.take(i as int),
        decreases cs@.len() - i,
    {
        out.push(cs[i]);
        i += 1;
        proof {
            assert(out@ =~= s@.take(i as int));
        }
    }
    proof {
        if n >= s@.len() {
            assert(s@.take(i as int) =~= s@);
        }
    }
    string_of(&out)
}

impl PiConversation {
    /// Marks entry `k` and its ancestors.
    fn mark_branch(&self, k: usize, active: &mut Vec<bool>)
        requires
            self.wf(),
            k < self.entries@.len(),
            old(active)@.len() == self.entries@.len(),
        ensures
            final(active)@.len() == self.entries@.len(),
            forall|j: int|
                0 <= j < self.entries@.len() ==> #[trigger] final(active)@[j] == (old(active)@[j] || on_branch(
                    self.records(),
                    k as int,
                    j,
                )),
        decreases k,
    {
        let ghost rs = self.records();
        proof {
            assert(parent_index(rs, k as int) matches Some(j) ==> 0 <= j < k);
            assert(values_view(self.entries@)[k as int] == self.entries@[k as int]@);
        }
        active.set(k, true);
        let parent = match self.entries[k].str_at("parentId") {
            Some(p) => position(&self.ids, p),
            None => None,
        };
        match parent {
            Some(j) => {
                self.mark_branch(j, active);
            },
            None => {},
        }
    }

    /// Builds message entry `k` given its visible parent and whether it is active.
    fn message_at_exec(&self, k: usize, up: Option<(usize, usize)>, active: bool, session_id: &str) -> (r: ConversationMessage)
        requires
            self.wf(),
            k < self.entries@.len(),
            pair_view(up) == visible_parent(self.records(), k as int),
            up matches Some(u) ==> u.0 < self.entries@.len() && u.1 < usize::MAX,
            active == (self.records().entries.len() > 0 && on_branch(
                self.records(),
                self.records().entries.len() - 1,
                k as int,
            )),
            session_id@ == field_of(self.header@, "id"@)->Ok_0,
        ensures
            r@ == self.message_at(k as int),
    {
        let v = &self.entries[k];
        proof {
            assert(values_view(self.entries@)[k as int] == v@);
            assert(texts_view(self.ids@)[k as int] == self.ids@[k as int]@);
            assert(texts_view(self.hashes@)[k as int] == self.hashes@[k as int]@);
        }
        let null = Json::Null;
        let m: &Json = match v.get("message") {
            Some(m) => m,
            None => &null,
        };
        let role = text_or_empty(m.str_at("role"));
        let text = message_text(m);
        let timestamp = first_chars(text_or_empty(v.str_at("timestamp")).as_str(), 100);
        let can_rewrite = str_eq(role.as_str(), "user") && plain_user_message(m);
        let can_continue = !has_tool_calls(m) && !failed_stop_of(m);
        let (parent_message_id, depth) = match up {
            Some((p, d)) => {
                proof {
                    assert(texts_view(self.ids@)[p as int] == self.ids@[p as int]@);
                }
                (Some(owned(self.ids[p].as_str())), d + 1)
            },
            None => (None, 0),
        };
        ConversationMessage {
            reference: MessageRef {
                session_path: owned(self.path.as_str()),
                session_id: owned(session_id),
                entry_id: owned(self.ids[k].as_str()),
                ancestry_hash: owned(self.hashes[k].as_str()),
            },
            parent_message_id,
            role,
            text,
            text_truncated: false,
            timestamp,
            depth,
            active,
            can_rewrite,
            can_continue,
        }
    }

    /// The user and assistant messages, in file order, each with its nearest
    /// visible parent message and its depth below the root.
    pub fn messages(&self) -> (r: Result<Vec<ConversationMessage>, String>)
        requires
            self.wf(),
        ensures
            r is Ok,
            r matches Ok(ms) ==> ms@.map_values(|m: ConversationMessage| m@) == self.all_messages(),
    {
        let n = self.entries.len();
        let mut active: Vec<bool> = Vec::new();
        let mut i: usize = 0;
        while i < n
            invariant
                n == self.entries@.len(),
                i <= n,
                active@.len() == i,
                forall|j: int| 0 <= j < i ==> !#[trigger] active@[j],
            decreases n - i,
        {
            active.push(false);
            i += 1;
        }
        if n > 0 {
            self.mark_branch(n - 1, &mut active);
        }
        let session_id = owned(field(&self.header, "id")?);
        let ghost rs = self.records();
        let mut vis: Vec<Option<(usize, usize)>> = Vec::new();
        let mut out: Vec<ConversationMessage> = Vec::new();
        let mut k: usize = 0;
        proof {
            assert(out@.map_values(|m: ConversationMessage| m@) =~= Seq::<ConversationMessageView>::empty());
        }
        while k < n
            invariant
                self.wf(),
                rs == self.records(),
                n == self.entries@.len(),
                k <= n,
                active@.len() == n,
                forall|j: int| 0 <= j < n ==> #[trigger] active@[j] == (n > 0 && on_branch(rs, n - 1, j)),
                session_id@ == field_of(self.header@, "id"@)->Ok_0,
                vis@.len() == k,
                forall|j: int| 0 <= j < k ==> pair_view(#[trigger] vis@[j]) == visible(rs, j),
                forall|j: int| 0 <= j < k ==> (#[trigger] vis@[j] matches Some(u) ==> u.0 <= j && u.1 <= j),
                out@.map_values(|m: ConversationMessage| m@) == self.messages_upto(k as int),
            decreases n - k,
        {
            let v = &self.entries[k];
            proof {
                assert(values_view(self.entries@)[k as int] == v@);
                assert(parent_index(rs, k as int) matches Some(j) ==> 0 <= j < k);
                lemma_visible(rs, k as int);
            }
            let up: Option<(usize, usize)> = match v.str_at("parentId") {
                Some(p) => match position(&self.ids, p) {
                    Some(j) => vis[j],
                    None => None,
                },
                None => None,
            };
            let null = Json::Null;
            let m: &Json = match v.get("message") {
                Some(m) => m,
                None => &null,
            };
            proof {
                assert(null@ == JsonView::Null);
                assert(m@ == at(v@, "message"@));
            }
            let typed = v.text_at("type", "message");
            let sr = m.str_at("role");
            proof {
                assert(sr matches Some(r) ==> r@ == role_of(v@));
                assert(sr is None ==> role_of(v@) == ""@);
            }
            let role_ok = match sr {
                Some(r) => str_eq(r, "user") || str_eq(r, "assistant"),
                None => false,
            };
            let is_msg = typed && role_ok;
            let ghost before = out@;
            let ghost vis0 = vis@;
            proof {
                assert(pair_view(up) == visible_parent(rs, k as int));
                reveal_strlit("");
                reveal_strlit("user");
                reveal_strlit("assistant");
                assert(rs.entries[k as int] == v@);
                assert(typed == is_text(at(v@, "type"@), "message"@));
                assert(role_ok == (role_of(v@) == "user"@ || role_of(v@) == "assistant"@));
                assert(is_msg == is_message(rs.entries[k as int]));
                assert(self.messages_upto(k + 1) == if is_msg {
                    self.messages_upto(k as int).push(self.message_at(k as int))
                } else {
                    self.messages_upto(k as int)
                });
            }
            if is_msg {
                let depth = match up {
                    Some((_, d)) => d + 1,
                    None => 0,
                };
                let msg = self.message_at_exec(k, up, active[k], session_id.as_str());
                vis.push(Some((k, depth)));
                let ghost mv = msg@;
                out.push(msg);
                proof {
                    assert(out@.map_values(|m: ConversationMessage| m@) =~= before.map_values(
                        |m: ConversationMessage| m@,
                    ).push(mv));
                }
            } else {
                vis.push(up);
            }
            proof {
                assert(pair_view(vis@[k as int]) == visible(rs, k as int));
                assert forall|j: int| 0 <= j < k + 1 implies pair_view(#[trigger] vis@[j]) == visible(rs, j) by {
                    if j < k {
                        assert(vis@[j] == vis0[j]);
                    }
                }
                assert forall|j: int| 0 <= j < k + 1 implies (#[trigger] vis@[j] matches Some(u) ==> u.0 <= j
                    && u.1 <= j) by {
                    if j < k {
                        assert(vis@[j] == vis0[j]);
                    }
                }
            }
            k += 1;
        }
        Ok(out)
    }
}

// ---------------------------------------------------------------------------
// Search
// ---------------------------------------------------------------------------

/// Whether `char::is_uppercase` holds of a character (Unicode `Uppercase`).
pub uninterp spec fn uppercase(c: char) -> bool;

/// `char::is_uppercase`.
#[verifier::external_body]
fn char_is_uppercase(c: char) -> (r: bool)
    ensures
        r == uppercase(c),
{
    c.is_uppercase()
}

/// Smart case: a query with an upper-case letter matches exactly, any other
/// ignores case.
pub open spec fn case_sensitive(q: Seq<char>) -> bool {
    exists|i: int| 0 <= i < q.len() && uppercase(#[trigger] q[i])
}

pub open spec fn needle_of(q: Seq<char>) -> Seq<char> {
    if case_sensitive(q) {
        q
    } else {
        lowercased(q)
    }
}

/// `text.contains(needle)`.
pub open spec fn contains(text: Seq<char>, needle: Seq<char>) -> bool {
    occ_from(encode_utf8(text), encode_utf8(needle), 0) is Some
}

/// A message text matches a query under smart case.
pub open spec fn text_matches(text: Seq<char>, q: Seq<char>) -> bool {
    needle_of(q).len() > 0 && contains(
        if case_sensitive(q) {
            text
        } else {
            lowercased(text)
        },
        needle_of(q),
    )
}

/// `needle` occurs verbatim in `text`: its bytes are a run of `text`'s bytes.
pub open spec fn occurs_in(text: Seq<char>, needle: Seq<char>) -> bool {
    exists|i: int|
        0 <= i && i + blen(needle) <= blen(text) && #[trigger] encode_utf8(text).subrange(i, i + blen(needle))
            == encode_utf8(needle)
}

proof fn lemma_occ_from(h: Seq<u8>, n: Seq<u8>, i: int)
    requires
        0 <= i,
    ensures
        occ_from(h, n, i) is Some <==> exists|j: int|
            i <= j && j + n.len() <= h.len() && #[trigger] h.subrange(j, j + n.len()) == n,
    decreases h.len() + 1 - i,
{
    if i + n.len() <= h.len() && h.subrange(i, i + n.len()) != n {
        lemma_occ_from(h, n, i + 1);
        if exists|j: int| i <= j && j + n.len() <= h.len() && #[trigger] h.subrange(j, j + n.len()) == n {
            let j = choose|j: int| i <= j && j + n.len() <= h.len() && #[trigger] h.subrange(j, j + n.len()) == n;
            assert(j != i);
        }
    }
}

proof fn lemma_contains_occurs(text: Seq<char>, needle: Seq<char>)
    ensures
        contains(text, needle) <==> occurs_in(text, needle),
{
    let h = encode_utf8(text);
    let n = encode_utf8(needle);
    lemma_occ_from(h, n, 0);
    if contains(text, needle) {
        let j = choose|j: int| 0 <= j && j + n.len() <= h.len() && #[trigger] h.subrange(j, j + n.len()) == n;
        assert(encode_utf8(text).subrange(j, j + blen(needle)) == encode_utf8(needle));
    }
    if occurs_in(text, needle) {
        let j = choose|j: int|
            0 <= j && j + blen(needle) <= blen(text) && #[trigger] encode_utf8(text).subrange(j, j + blen(needle))
                == encode_utf8(needle);
        assert(h.subrange(j, j + n.len()) == n);
    }
}

/// Smart case: a query with an upper-case letter matches exactly the texts
/// that hold it verbatim; any other query matches exactly the texts whose
/// lower-cased form holds its lower-cased form. So a query whose needle is
/// not empty always matches its own text.
pub proof fn law_smart_case_matching(text: Seq<char>, q: Seq<char>)
    ensures
        (exists|i: int| 0 <= i < q.len() && uppercase(#[trigger] q[i])) ==> (text_matches(text, q) <==> q.len() > 0
            && occurs_in(text, q)),
        (forall|i: int| 0 <= i < q.len() ==> !uppercase(#[trigger] q[i])) ==> (text_matches(text, q) <==> lowercased(
            q,
        ).len() > 0 && occurs_in(lowercased(text), lowercased(q))),
        (exists|i: int| 0 <= i < q.len() && uppercase(#[trigger] q[i])) ==> text_matches(q, q),
        (forall|i: int| 0 <= i < q.len() ==> !uppercase(#[trigger] q[i])) && lowercased(q).len() > 0 ==> text_matches(q, q),
{
    lemma_contains_occurs(text, q);
    lemma_contains_occurs(lowercased(text), lowercased(q));
    lemma_contains_occurs(q, q);
    lemma_contains_occurs(lowercased(q), lowercased(q));
    if case_sensitive(q) {
        assert(encode_utf8(q).subrange(0, blen(q) as int) =~= encode_utf8(q));
    } else {
        assert(encode_utf8(lowercased(q)).subrange(0, blen(lowercased(q)) as int) =~= encode_utf8(lowercased(q)));
    }
}

/// Matching messages among `ms[j..]`, newest (last) first.
pub open spec fn found_from(ms: Seq<ConversationMessageView>, q: Seq<char>, j: int) -> Seq<ConversationMessageView>
    decreases ms.len() - j,
{
    if j < 0 || j >= ms.len() {
        seq![]
    } else if text_matches(ms[j].text, q) {
        found_from(ms, q, j + 1).push(ms[j])
    } else {
        found_from(ms, q, j + 1)
    }
}

/// The search result: the newest matches, at most `limit` (at least one
/// when any matches).
pub open spec fn search_result(ms: Seq<ConversationMessageView>, q: Seq<char>, limit: nat) -> Seq<ConversationMessageView> {
    upto(
        found_from(ms, q, 0),
        if limit == 0 {
            1
        } else {
            limit
        },
    )
}

proof fn lemma_found_from(ms: Seq<ConversationMessageView>, q: Seq<char>, j: int)
    requires
        0 <= j <= ms.len(),
    ensures
        forall|k: int|
            0 <= k < found_from(ms, q, j).len() ==> text_matches((#[trigger] found_from(ms, q, j)[k]).text, q)
                && ms.contains(found_from(ms, q, j)[k]),
        forall|i: int| j <= i < ms.len() && text_matches(ms[i].text, q) ==> found_from(ms, q, j).contains(#[trigger] ms[i]),
    decreases ms.len() - j,
{
    if j < ms.len() {
        lemma_found_from(ms, q, j + 1);
        let rest = found_from(ms, q, j + 1);
        let f = found_from(ms, q, j);
        assert forall|k: int| 0 <= k < f.len() implies text_matches((#[trigger] f[k]).text, q) && ms.contains(f[k]) by {
            if k < rest.len() {
                assert(f[k] == rest[k]);
            } else {
                assert(f[k] == ms[j]);
            }
        }
        assert forall|i: int| j <= i < ms.len() && text_matches(ms[i].text, q) implies f.contains(#[trigger] ms[i]) by {
            if i > j {
                let w = choose|w: int| 0 <= w < rest.len() && rest[w] == ms[i];
                assert(f[w] == rest[w]);
            } else {
                assert(f[f.len() - 1] == ms[j]);
            }
        }
    }
}

/// A search returns only messages of the conversation that match the query,
/// at most `limit` of them (one when `limit` is 0); when it returns fewer, it
/// returns every matching message.
pub proof fn law_search_returns_matching_messages(ms: Seq<ConversationMessageView>, q: Seq<char>, limit: nat)
    ensures
        search_result(ms, q, limit).len() <= if limit == 0 { 1 } else { limit },
        forall|k: int|
            0 <= k < search_result(ms, q, limit).len() ==> text_matches((#[trigger] search_result(ms, q, limit)[k]).text, q)
                && ms.contains(search_result(ms, q, limit)[k]),
        search_result(ms, q, limit).len() < (if limit == 0 { 1 } else { limit }) ==> forall|i: int|
            0 <= i < ms.len() && text_matches(ms[i].text, q) ==> search_result(ms, q, limit).contains(#[trigger] ms[i]),
{
    lemma_found_from(ms, q, 0);
    let f = found_from(ms, q, 0);
    let r = search_result(ms, q, limit);
    assert forall|k: int| 0 <= k < r.len() implies text_matches((#[trigger] r[k]).text, q) && ms.contains(r[k]) by {
        assert(r[k] == f[k]);
    }
}

proof fn lemma_found_prefix(ms: Seq<ConversationMessageView>, q: Seq<char>, b: int, a: int)
    requires
        0 <= b <= a <= ms.len(),
    ensures
        found_from(ms, q, a).len() <= found_from(ms, q, b).len(),
        found_from(ms, q, b).take(found_from(ms, q, a).len() as int) == found_from(ms, q, a),
    decreases a - b,
{
    if b < a {
        lemma_found_prefix(ms, q, b + 1, a);
        assert(found_from(ms, q, b).take(found_from(ms, q, a).len() as int) =~= found_from(ms, q, a));
    } else {
        assert(found_from(ms, q, b).take(found_from(ms, q, b).len() as int) =~= found_from(ms, q, b));
    }
}

fn is_case_sensitive(q: &str) -> (r: bool)
    ensures
        r == case_sensitive(q@),
{
    let cs = chars_of(q);
    let mut i: usize = 0;
    while i < cs.len()
        invariant
            cs@ == q@,
            i <= cs@.len(),
            forall|j: int| 0 <= j < i ==> !uppercase(#[trigger] q@[j]),
        decreases cs@.len() - i,
    {
        if char_is_uppercase(cs[i]) {
            return true;
        }
        i += 1;
    }
    false
}

fn contains_text(text: &str, needle: &str) -> (r: bool)
    ensures
        r == contains(text@, needle@),
{
    find_bytes(text.as_bytes(), needle.as_bytes()).is_some()
}

/// Whether a message text matches a query under smart case.
pub fn matches_query(text: &str, query: &str) -> (r: bool)
    ensures
        r == text_matches(text@, query@),
{
    let sensitive = is_case_sensitive(query);
    let needle = if sensitive {
        owned(query)
    } else {
        lowercase(query)
    };
    proof {
        crate::editor::lemma_blen_zero(needle@);
    }
    if byte_len(needle.as_str()) == 0 {
        return false;
    }
    let hay = if sensitive {
        owned(text)
    } else {
        lowercase(text)
    };
    contains_text(hay.as_str(), needle.as_str())
}

impl PiConversation {
    /// Messages matching `query` under smart case, newest first: searching
    /// stops once `limit` were found.
    pub fn search(&self, query: &str, limit: usize) -> (r: Result<Vec<ConversationMessage>, String>)
        requires
            self.wf(),
        ensures
            r is Ok,
            r matches Ok(hits) ==> hits@.map_values(|m: ConversationMessage| m@) == (if needle_of(
                query@,
            ).len() == 0 {
                Seq::empty()
            } else {
                search_result(self.all_messages(), query@, limit as nat)
            }),
    {
        let sensitive = is_case_sensitive(query);
        let needle = if sensitive {
            owned(query)
        } else {
            lowercase(query)
        };
        let mut hits: Vec<ConversationMessage> = Vec::new();
        proof {
            crate::editor::lemma_blen_zero(needle@);
            assert(hits@.map_values(|m: ConversationMessage| m@) =~= Seq::<ConversationMessageView>::empty());
        }
        if byte_len(needle.as_str()) == 0 {
            return Ok(hits);
        }
        let mut msgs = self.messages()?;
        let ghost ms = self.all_messages();
        let cap: usize = if limit == 0 {
            1
        } else {
            limit
        };
        while msgs.len() > 0
            invariant_except_break
                hits@.len() < cap,
            invariant
                cap == (if limit == 0 {
                    1
                } else {
                    limit
                }),
                needle@ == needle_of(query@),
                needle@.len() > 0,
                sensitive == case_sensitive(query@),
                msgs@.len() <= ms.len(),
                msgs@.map_values(|m: ConversationMessage| m@) == ms.take(msgs@.len() as int),
                hits@.map_values(|m: ConversationMessage| m@) == found_from(ms, query@, msgs@.len() as int),
            ensures
                hits@.map_values(|m: ConversationMessage| m@) == search_result(ms, query@, limit as nat),
            decreases msgs@.len(),
        {
            let ghost j = msgs@.len() - 1;
            let ghost before = hits@.map_values(|m: ConversationMessage| m@);
            let ghost mv = msgs@.map_values(|m: ConversationMessage| m@);
            let message = msgs.pop().unwrap();
            proof {
                assert(mv[j] == message@);
                assert(ms[j] == message@);
                assert(msgs@.map_values(|m: ConversationMessage| m@) =~= ms.take(j));
            }
            let text = if sensitive {
                owned(message.text.as_str())
            } else {
                lowercase(message.text.as_str())
            };
            if contains_text(text.as_str(), needle.as_str()) {
                hits.push(message);
                proof {
                    assert(hits@.map_values(|m: ConversationMessage| m@) =~= before.push(ms[j]));
                }
                if hits.len() >= cap {
                    proof {
                        lemma_found_prefix(ms, query@, 0, j);
                        assert(upto(found_from(ms, query@, 0), cap as nat) =~= found_from(ms, query@, j));
                    }
                    break;
                }
            }
        }
        Ok(hits)
    }
}

} // verus!
