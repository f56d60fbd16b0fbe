//! `@Name` addressing in the room composer.
//!
//! A human message that *starts* with one or more `@Name` tokens is delivered only
//! to those current members; anything else is the usual broadcast. Names are the
//! chosen sidebar names with icons and `{#rrggbb}` markup stripped, compared
//! case-insensitively; a pane id (`@w4:pE`) also works. Multi-word names may be
//! written plainly (`@Tuning Fork`, matched greedily against current members),
//! quoted (`@"Tuning Fork"`), or joined (`@Tuning.Fork`, `@tuning_fork`). Unknown or
//! ambiguous mentions reject the whole post so the draft can be corrected; a
//! mention never silently falls back to broadcast.
use crate::room::{members_view, Member, MemberView};
use crate::schema::{RoomRecipient, RoomRecipientView};
use crate::text::{char_is_whitespace, chars_of, is_ws, push_str, str_eq, string_of};
use vstd::prelude::*;

verus! {

// ---------------------------------------------------------------------------
// Comparison keys
// ---------------------------------------------------------------------------

/// Whether `char::is_alphanumeric` holds for `c`.
pub uninterp spec fn alphanumeric(c: char) -> bool;

/// The characters `char::to_lowercase` yields for `c`.
pub uninterp spec fn lowercase(c: char) -> Seq<char>;

/// `char::is_alphanumeric`.
#[verifier::external_body]
pub(crate) fn char_is_alphanumeric(c: char) -> (r: bool)
    ensures
        r == alphanumeric(c),
{
    c.is_alphanumeric()
}

/// `char::to_lowercase`, collected.
#[verifier::external_body]
fn char_to_lowercase(c: char) -> (r: Vec<char>)
    ensures
        r@ == lowercase(c),
{
    c.to_lowercase().collect()
}

pub open spec fn is_hex_char(c: char) -> bool {
    ('0' <= c <= '9') || ('a' <= c <= 'f') || ('A' <= c <= 'F')
}

/// Whether a `{#rrggbb}` colour tag starts at position `i`.
pub open spec fn tag_at(s: Seq<char>, i: int) -> bool {
    &&& 0 <= i
    &&& i + 9 <= s.len()
    &&& s[i] == '{'
    &&& s[i + 1] == '#'
    &&& forall|k: int| i + 2 <= k < i + 8 ==> is_hex_char(#[trigger] s[k])
    &&& s[i + 8] == '}'
}

/// The plain text of rich sidebar markup: colour tags removed.
pub open spec fn plain(s: Seq<char>) -> Seq<char>
    decreases s.len(),
{
    if s.len() == 0 {
        Seq::empty()
    } else if tag_at(s, 0) {
        plain(s.skip(9))
    } else {
        seq![s[0]] + plain(s.skip(1))
    }
}

/// Lowercased alphanumerics of `s`.
pub open spec fn folded(s: Seq<char>) -> Seq<char>
    decreases s.len(),
{
    if s.len() == 0 {
        Seq::empty()
    } else {
        (if alphanumeric(s[0]) {
            lowercase(s[0])
        } else {
            Seq::empty()
        }) + folded(s.skip(1))
    }
}

/// Normalised comparison key: markup and icons removed, alphanumerics only, lowercase.
pub open spec fn key_of(name: Seq<char>) -> Seq<char> {
    folded(plain(name))
}

fn hex_char(c: char) -> (r: bool)
    ensures
        r == is_hex_char(c),
{
    ('0' <= c && c <= '9') || ('a' <= c && c <= 'f') || ('A' <= c && c <= 'F')
}

fn tag_at_exec(s: &Vec<char>, i: usize) -> (r: bool)
    requires
        i <= s@.len(),
    ensures
        r == tag_at(s@, i as int),
{
    if s.len() - i < 9 {
        return false;
    }
    if s[i] != '{' || s[i + 1] != '#' || s[i + 8] != '}' {
        return false;
    }
    let stop = i + 8;
    let mut k = i + 2;
    while k < stop
        invariant
            stop == i + 8,
            i + 9 <= s@.len(),
            i + 2 <= k <= i + 8,
            forall|j: int| i + 2 <= j < k ==> is_hex_char(#[trigger] s@[j]),
        decreases i + 8 - k,
    {
        if !hex_char(s[k]) {
            return false;
        }
        k += 1;
    }
    true
}

/// Normalised comparison key of a name or pane id.
pub fn key(name: &str) -> (r: String)
    ensures
        r@ == key_of(name@),
{
    let cs = chars_of(name);
    let ghost s = cs@;
    let mut plain_chars: Vec<char> = Vec::new();
    let mut i: usize = 0;
    proof {
        assert(s.skip(0) =~= s);
    }
    while i < cs.len()
        invariant
            s == cs@,
            i <= s.len(),
            plain(s) == plain_chars@ + plain(s.skip(i as int)),
        decreases cs.len() - i,
    {
        if tag_at_exec(&cs, i) {
            proof {
                let t = s.skip(i as int);
                assert forall|k: int| 2 <= k < 8 implies is_hex_char(#[trigger] t[k]) by {
                    assert(t[k] == s[i + k]);
                }
                assert(t[0] == s[i as int] && t[1] == s[i + 1] && t[8] == s[i + 8]);
                assert(tag_at(s.skip(i as int), 0));
                assert(s.skip(i as int).skip(9) =~= s.skip(i + 9));
            }
            i += 9;
        } else {
            proof {
                if tag_at(s.skip(i as int), 0) {
                    let t = s.skip(i as int);
                    assert forall|k: int| i + 2 <= k < i + 8 implies is_hex_char(#[trigger] s[k]) by {
                        assert(t[k - i] == s[k]);
                        assert(is_hex_char(t[k - i]));
                    }
                    assert(t[0] == s[i as int] && t[1] == s[i + 1] && t[8] == s[i + 8]);
                    assert(tag_at(s, i as int));
                }
                assert(s.skip(i as int).skip(1) =~= s.skip(i + 1));
                assert(s.skip(i as int)[0] == s[i as int]);
            }
            let ghost before = plain_chars@;
            plain_chars.push(cs[i]);
            proof {
                assert(plain_chars@ + plain(s.skip(i + 1)) =~= before + (seq![s[i as int]] + plain(s.skip(i + 1))));
            }
            i += 1;
        }
    }
    proof {
        assert(s.skip(i as int) =~= Seq::<char>::empty());
        assert(plain_chars@ =~= plain(s));
    }
    let ghost p = plain_chars@;
    let mut out: Vec<char> = Vec::new();
    let mut j: usize = 0;
    proof {
        assert(p.skip(0) =~= p);
        assert(out@ =~= Seq::<char>::empty());
    }
    while j < plain_chars.len()
        invariant
            p == plain_chars@,
            j <= p.len(),
            folded(p) == out@ + folded(p.skip(j as int)),
        decreases plain_chars.len() - j,
    {
        let c = plain_chars[j];
        proof {
            assert(p.skip(j as int)[0] == c);
            assert(p.skip(j as int).skip(1) =~= p.skip(j + 1));
        }
        let ghost before = out@;
        if char_is_alphanumeric(c) {
            let low = char_to_lowercase(c);
            let mut k: usize = 0;
            while k < low.len()
                invariant
                    k <= low@.len(),
                    out@ == before + low@.take(k as int),
                decreases low.len() - k,
            {
                out.push(low[k]);
                k += 1;
                proof {
                    assert(out@ =~= before + low@.take(k as int));
                }
            }
            proof {
                assert(low@.take(low@.len() as int) =~= low@);
                assert(out@ + folded(p.skip(j + 1)) =~= before + (lowercase(c) + folded(p.skip(j + 1))));
            }
        } else {
            proof {
                assert(out@ + folded(p.skip(j + 1)) =~= before + (Seq::<char>::empty() + folded(p.skip(j + 1))));
            }
        }
        j += 1;
    }
    proof {
        assert(p.skip(j as int) =~= Seq::<char>::empty());
        assert(out@ =~= folded(p));
    }
    string_of(&out)
}


// ---------------------------------------------------------------------------
// Scanning leading mentions
// ---------------------------------------------------------------------------

/// First position at or after `i` that is not whitespace.
pub open spec fn skip_ws(s: Seq<char>, i: nat) -> nat
    decreases s.len() - i,
{
    if i >= s.len() {
        s.len()
    } else if is_ws(s[i as int]) {
        skip_ws(s, i + 1)
    } else {
        i
    }
}

/// First whitespace position at or after `i`, else the end.
pub open spec fn next_ws(s: Seq<char>, i: nat) -> nat
    decreases s.len() - i,
{
    if i >= s.len() {
        s.len()
    } else if is_ws(s[i as int]) {
        i
    } else {
        next_ws(s, i + 1)
    }
}

/// First `"` at or after `i`, else the end.
pub open spec fn next_quote(s: Seq<char>, i: nat) -> nat
    decreases s.len() - i,
{
    if i >= s.len() {
        s.len()
    } else if s[i as int] == '"' {
        i
    } else {
        next_quote(s, i + 1)
    }
}

pub open spec fn is_trailing_punct(c: char) -> bool {
    c == ',' || c == ':' || c == ';'
}

/// The end of `s[a..e]` once trailing `,` `:` `;` are trimmed.
pub open spec fn trim_punct(s: Seq<char>, a: nat, e: nat) -> nat
    decreases e,
{
    if e <= a {
        a
    } else if is_trailing_punct(s[e - 1]) {
        trim_punct(s, a, (e - 1) as nat)
    } else {
        e
    }
}

/// Whether `candidate` names a member whose key is listed in `known`.
pub open spec fn names_known(known: Seq<Seq<char>>, candidate: Seq<char>) -> bool {
    key_of(candidate).len() > 0 && known.contains(key_of(candidate))
}

/// Greedy extension of a bare mention word starting at `a` over up to `tries`
/// following plain words: the end of the first extension that names a member.
pub open spec fn greedy(s: Seq<char>, a: nat, ce: nat, tries: nat, known: Seq<Seq<char>>) -> Option<nat>
    decreases tries,
{
    if tries == 0 {
        None
    } else {
        let t = skip_ws(s, ce);
        if t >= s.len() || s[t as int] == '@' {
            None
        } else {
            let next = next_ws(s, t);
            if names_known(known, s.subrange(a as int, trim_punct(s, a, next) as int)) {
                Some(next)
            } else {
                greedy(s, a, next, (tries - 1) as nat, known)
            }
        }
    }
}

/// The leading mentions from position `pos` on, as `(start, end)` ranges.
pub open spec fn scan(s: Seq<char>, pos: nat, known: Seq<Seq<char>>) -> Seq<(nat, nat)>
    decreases s.len() - pos,
{
    let p = skip_ws(s, pos);
    proof {
        lemma_skip_ws_bounds(s, pos);
    }
    if p >= s.len() || s[p as int] != '@' {
        Seq::empty()
    } else {
        let a = p + 1;
        if a < s.len() && s[a as int] == '"' {
            let e = next_quote(s, a + 1);
            proof {
                lemma_next_quote_bounds(s, a + 1);
            }
            if e >= s.len() || e == a + 1 {
                Seq::empty()
            } else {
                seq![(a + 1, e)] + scan(s, e + 1, known)
            }
        } else {
            let end = next_ws(s, a);
            let word_end = trim_punct(s, a, end);
            proof {
                lemma_next_ws_bounds(s, a);
                lemma_trim_punct_bounds(s, a, end);
                lemma_greedy_bounds(s, a, end, 3, known);
            }
            if word_end == a {
                Seq::empty()
            } else if names_known(known, s.subrange(a as int, word_end as int)) {
                seq![(a, word_end)] + scan(s, end, known)
            } else {
                match greedy(s, a, end, 3, known) {
                    Some(ce) => {
                        let me = trim_punct(s, a, ce);
                        if me == a {
                            Seq::empty()
                        } else {
                            seq![(a, me)] + scan(s, ce, known)
                        }
                    },
                    None => seq![(a, word_end)] + scan(s, end, known),
                }
            }
        }
    }
}

/// The mention texts of `scan` over the whole text.
pub open spec fn mention_texts(s: Seq<char>, known: Seq<Seq<char>>) -> Seq<Seq<char>> {
    scan(s, 0, known).map_values(|r: (nat, nat)| s.subrange(r.0 as int, r.1 as int))
}

pub proof fn lemma_greedy_bounds(s: Seq<char>, a: nat, ce: nat, tries: nat, known: Seq<Seq<char>>)
    requires
        ce <= s.len(),
    ensures
        greedy(s, a, ce, tries, known) matches Some(n) ==> ce <= n <= s.len(),
    decreases tries,
{
    if tries > 0 {
        let t = skip_ws(s, ce);
        lemma_skip_ws_bounds(s, ce);
        if t < s.len() && s[t as int] != '@' {
            let next = next_ws(s, t);
            lemma_next_ws_bounds(s, t);
            lemma_greedy_bounds(s, a, next, (tries - 1) as nat, known);
        }
    }
}

/// Where the `k`-th word after position `e` ends: each step skips
/// whitespace, then runs to the next whitespace.
pub open spec fn word_end_after(s: Seq<char>, e: nat, k: nat) -> nat
    decreases k,
{
    if k == 0 {
        e
    } else {
        next_ws(s, skip_ws(s, word_end_after(s, e, (k - 1) as nat)))
    }
}

/// The `k`-th word after position `e` (counting from one) lies inside the
/// text and is not itself a mention.
pub open spec fn plain_word_follows(s: Seq<char>, e: nat, k: nat) -> bool {
    let t = skip_ws(s, word_end_after(s, e, (k - 1) as nat));
    t < s.len() && s[t as int] != '@'
}

/// The name a bare mention starting at `a` spells when it runs to `end`.
pub open spec fn spelled(s: Seq<char>, a: nat, end: nat) -> Seq<char> {
    s.subrange(a as int, trim_punct(s, a, end) as int)
}

proof fn lemma_greedy_reaches(s: Seq<char>, a: nat, e0: nat, j: nat, k: nat, tries: nat, known: Seq<Seq<char>>)
    requires
        j < k,
        k - j <= tries,
        forall|i: nat| j < i <= k ==> #[trigger] plain_word_follows(s, e0, i),
        forall|i: nat| j < i < k ==> !names_known(known, #[trigger] spelled(s, a, word_end_after(s, e0, i))),
        names_known(known, spelled(s, a, word_end_after(s, e0, k))),
    ensures
        greedy(s, a, word_end_after(s, e0, j), tries, known) == Some(word_end_after(s, e0, k)),
    decreases k - j,
{
    assert(plain_word_follows(s, e0, j + 1));
    assert(word_end_after(s, e0, j + 1) == next_ws(s, skip_ws(s, word_end_after(s, e0, j))));
    if j + 1 < k {
        assert(!names_known(known, spelled(s, a, word_end_after(s, e0, j + 1))));
        lemma_greedy_reaches(s, a, e0, j + 1, k, (tries - 1) as nat, known);
    }
}

proof fn lemma_greedy_finds_none(s: Seq<char>, a: nat, e0: nat, j: nat, tries: nat, known: Seq<Seq<char>>)
    requires
        forall|i: nat| j < i <= j + tries ==> !names_known(known, #[trigger] spelled(s, a, word_end_after(s, e0, i))),
    ensures
        greedy(s, a, word_end_after(s, e0, j), tries, known) is None,
    decreases tries,
{
    if tries > 0 {
        assert(word_end_after(s, e0, j + 1) == next_ws(s, skip_ws(s, word_end_after(s, e0, j))));
        assert(!names_known(known, spelled(s, a, word_end_after(s, e0, j + 1))));
        lemma_greedy_finds_none(s, a, e0, j + 1, (tries - 1) as nat, known);
    }
}

/// A leading bare `@word` is never extended past three following words:
/// when neither it nor any extension over its next one, two or three words
/// names a member, the word alone (trailing `,` `:` `;` trimmed) is the
/// first mention, and scanning goes on after it.
pub proof fn law_bare_mention_is_not_extended_past_three_words(s: Seq<char>, known: Seq<Seq<char>>)
    requires
        skip_ws(s, 0) < s.len(),
        s[skip_ws(s, 0) as int] == '@',
        skip_ws(s, 0) + 1 < s.len() ==> s[skip_ws(s, 0) + 1int] != '"',
        trim_punct(s, skip_ws(s, 0) + 1, next_ws(s, skip_ws(s, 0) + 1)) > skip_ws(s, 0) + 1,
        forall|i: nat|
            i <= 3 ==> !names_known(
                known,
                #[trigger] spelled(s, skip_ws(s, 0) + 1, word_end_after(s, next_ws(s, skip_ws(s, 0) + 1), i)),
            ),
    ensures
        ({
            let a = skip_ws(s, 0) + 1;
            let e0 = next_ws(s, a);
            scan(s, 0, known) == seq![(a, trim_punct(s, a, e0))] + scan(s, e0, known)
        }),
{
    let a = (skip_ws(s, 0) + 1) as nat;
    let e0 = next_ws(s, a);
    assert(word_end_after(s, e0, 0) == e0);
    assert(!names_known(known, spelled(s, a, word_end_after(s, e0, 0))));
    lemma_greedy_finds_none(s, a, e0, 0, 3, known);
}

/// A leading bare `@word` that names no member is extended greedily over up
/// to three following plain words: when the word with its next `k` words
/// (`k` at most three) names a member and no shorter extension does, that
/// extension, with trailing `,` `:` `;` trimmed, is the first mention, and
/// scanning goes on after it.
pub proof fn law_bare_mention_extends_over_up_to_three_words(s: Seq<char>, known: Seq<Seq<char>>, k: nat)
    requires
        1 <= k <= 3,
        skip_ws(s, 0) < s.len(),
        s[skip_ws(s, 0) as int] == '@',
        skip_ws(s, 0) + 1 < s.len() ==> s[skip_ws(s, 0) + 1int] != '"',
        trim_punct(s, skip_ws(s, 0) + 1, next_ws(s, skip_ws(s, 0) + 1)) > skip_ws(s, 0) + 1,
        forall|i: nat|
            i < k ==> !names_known(
                known,
                #[trigger] spelled(s, skip_ws(s, 0) + 1, word_end_after(s, next_ws(s, skip_ws(s, 0) + 1), i)),
            ),
        forall|i: nat| 1 <= i <= k ==> #[trigger] plain_word_follows(s, next_ws(s, skip_ws(s, 0) + 1), i),
        names_known(known, spelled(s, skip_ws(s, 0) + 1, word_end_after(s, next_ws(s, skip_ws(s, 0) + 1), k))),
    ensures
        ({
            let a = skip_ws(s, 0) + 1;
            let ce = word_end_after(s, next_ws(s, a), k);
            scan(s, 0, known) == seq![(a, trim_punct(s, a, ce))] + scan(s, ce, known)
        }),
{
    let a = (skip_ws(s, 0) + 1) as nat;
    let e0 = next_ws(s, a);
    let ce = word_end_after(s, e0, k);
    assert(word_end_after(s, e0, 0) == e0);
    assert(!names_known(known, spelled(s, a, word_end_after(s, e0, 0))));
    lemma_greedy_reaches(s, a, e0, 0, k, 3, known);
    assert(greedy(s, a, e0, 3, known) == Some(ce));
    // A name is never spelled by nothing.
    let me = trim_punct(s, a, ce);
    if me == a {
        assert(spelled(s, a, ce) =~= Seq::<char>::empty());
        assert(plain(Seq::<char>::empty()) =~= Seq::<char>::empty());
        assert(folded(Seq::<char>::empty()) =~= Seq::<char>::empty());
        assert(key_of(spelled(s, a, ce)).len() == 0);
    }
}

pub proof fn lemma_skip_ws_bounds(s: Seq<char>, i: nat)
    ensures
        i <= s.len() ==> i <= skip_ws(s, i) <= s.len(),
        i > s.len() ==> skip_ws(s, i) == s.len(),
    decreases s.len() - i,
{
    if i < s.len() && is_ws(s[i as int]) {
        lemma_skip_ws_bounds(s, i + 1);
    }
}

pub proof fn lemma_next_ws_bounds(s: Seq<char>, i: nat)
    ensures
        i <= s.len() ==> i <= next_ws(s, i) <= s.len(),
    decreases s.len() - i,
{
    if i < s.len() && !is_ws(s[i as int]) {
        lemma_next_ws_bounds(s, i + 1);
    }
}

pub proof fn lemma_next_quote_bounds(s: Seq<char>, i: nat)
    ensures
        i <= s.len() ==> i <= next_quote(s, i) <= s.len(),
    decreases s.len() - i,
{
    if i < s.len() && s[i as int] != '"' {
        lemma_next_quote_bounds(s, i + 1);
    }
}

pub proof fn lemma_trim_punct_bounds(s: Seq<char>, a: nat, e: nat)
    ensures
        a <= e ==> a <= trim_punct(s, a, e) <= e,
        e < a ==> trim_punct(s, a, e) == a,
    decreases e,
{
    if e > a && is_trailing_punct(s[e - 1]) {
        lemma_trim_punct_bounds(s, a, (e - 1) as nat);
    }
}

fn skip_ws_exec(s: &Vec<char>, i: usize) -> (r: usize)
    requires
        i <= s@.len(),
    ensures
        r == skip_ws(s@, i as nat),
        i <= r <= s@.len(),
{
    let mut j = i;
    while j < s.len() && char_is_whitespace(s[j])
        invariant
            i <= j <= s@.len(),
            skip_ws(s@, i as nat) == skip_ws(s@, j as nat),
        decreases s.len() - j,
    {
        j += 1;
    }
    j
}

fn next_ws_exec(s: &Vec<char>, i: usize) -> (r: usize)
    requires
        i <= s@.len(),
    ensures
        r == next_ws(s@, i as nat),
        i <= r <= s@.len(),
{
    let mut j = i;
    while j < s.len() && !char_is_whitespace(s[j])
        invariant
            i <= j <= s@.len(),
            next_ws(s@, i as nat) == next_ws(s@, j as nat),
        decreases s.len() - j,
    {
        j += 1;
    }
    j
}

fn next_quote_exec(s: &Vec<char>, i: usize) -> (r: usize)
    requires
        i <= s@.len(),
    ensures
        r == next_quote(s@, i as nat),
        i <= r <= s@.len(),
{
    let mut j = i;
    while j < s.len() && s[j] != '"'
        invariant
            i <= j <= s@.len(),
            next_quote(s@, i as nat) == next_quote(s@, j as nat),
        decreases s.len() - j,
    {
        j += 1;
    }
    j
}

fn trim_punct_exec(s: &Vec<char>, a: usize, e: usize) -> (r: usize)
    requires
        a <= e <= s@.len(),
    ensures
        r == trim_punct(s@, a as nat, e as nat),
        a <= r <= e,
{
    let mut j = e;
    while j > a && (s[j - 1] == ',' || s[j - 1] == ':' || s[j - 1] == ';')
        invariant
            a <= j <= e,
            e <= s@.len(),
            trim_punct(s@, a as nat, e as nat) == trim_punct(s@, a as nat, j as nat),
        decreases j,
    {
        j -= 1;
    }
    j
}

pub(crate) fn slice_string(s: &Vec<char>, a: usize, e: usize) -> (r: String)
    requires
        a <= e <= s@.len(),
    ensures
        r@ == s@.subrange(a as int, e as int),
{
    let mut out: Vec<char> = Vec::new();
    let mut k = a;
    while k < e
        invariant
            a <= k <= e <= s@.len(),
            out@ == s@.subrange(a as int, k as int),
        decreases e - k,
    {
        out.push(s[k]);
        k += 1;
        proof {
            assert(out@ =~= s@.subrange(a as int, k as int));
        }
    }
    string_of(&out)
}

fn names_known_exec(known: &Vec<String>, candidate: &String) -> (r: bool)
    ensures
        r == names_known(known@.map_values(|k: String| k@), candidate@),
{
    let k = key(candidate.as_str());
    let kc = chars_of(k.as_str());
    if kc.len() == 0 {
        return false;
    }
    let ghost kv = known@.map_values(|k: String| k@);
    let mut i: usize = 0;
    while i < known.len()
        invariant
            kv == known@.map_values(|k: String| k@),
            kv.len() == known@.len(),
            i <= known.len(),
            k@.len() > 0,
            k@ == key_of(candidate@),
            forall|j: int| 0 <= j < i ==> kv[j] != k@,
        decreases known.len() - i,
    {
        proof {
            assert(kv[i as int] == known@[i as int]@);
        }
        if str_eq(known[i].as_str(), k.as_str()) {
            proof {
                assert(kv[i as int] == k@);
                assert(k@ == key_of(candidate@));
                assert(kv.contains(key_of(candidate@)));
            }
            return true;
        }
        i += 1;
    }
    false
}

fn greedy_exec(s: &Vec<char>, a: usize, ce: usize, tries: usize, known: &Vec<String>) -> (r: Option<usize>)
    requires
        a <= ce <= s@.len(),
    ensures
        match greedy(s@, a as nat, ce as nat, tries as nat, known@.map_values(|k: String| k@)) {
            Some(n) => r == Some(n as usize) && a <= n <= s@.len(),
            None => r.is_none(),
        },
    decreases tries,
{
    if tries == 0 {
        return None;
    }
    let t = skip_ws_exec(s, ce);
    if t >= s.len() || s[t] == '@' {
        return None;
    }
    let next = next_ws_exec(s, t);
    let end = trim_punct_exec(s, a, next);
    let candidate = slice_string(s, a, end);
    if names_known_exec(known, &candidate) {
        Some(next)
    } else {
        greedy_exec(s, a, next, tries - 1, known)
    }
}

/// Walks the leading mentions; `known` lists the keys of current names and
/// pane ids, against which multi-word candidates are matched greedily.
fn resolve_tokens(text: &str, known: &Vec<String>) -> (r: Vec<String>)
    ensures
        r@.map_values(|m: String| m@) == mention_texts(text@, known@.map_values(|k: String| k@)),
{
    let s = chars_of(text);
    let ghost kv = known@.map_values(|k: String| k@);
    let ghost sv = s@;
    let mut out: Vec<String> = Vec::new();
    let mut pos: usize = 0;
    loop
        invariant
            sv == s@,
            sv == text@,
            kv == known@.map_values(|k: String| k@),
            pos <= sv.len(),
            scan(sv, 0, kv).map_values(|r: (nat, nat)| sv.subrange(r.0 as int, r.1 as int))
                == out@.map_values(|m: String| m@) + scan(sv, pos as nat, kv).map_values(|r: (nat, nat)| sv.subrange(r.0 as int, r.1 as int)),
        ensures
            scan(sv, 0, kv).map_values(|r: (nat, nat)| sv.subrange(r.0 as int, r.1 as int))
                == out@.map_values(|m: String| m@),
        decreases sv.len() - pos,
    {
        let ghost rest_before = scan(sv, pos as nat, kv);
        let p = skip_ws_exec(&s, pos);
        if p >= s.len() || s[p] != '@' {
            proof {
                assert(rest_before =~= Seq::<(nat, nat)>::empty());
                assert(out@.map_values(|m: String| m@) + Seq::<(nat, nat)>::empty().map_values(|r: (nat, nat)| sv.subrange(r.0 as int, r.1 as int)) =~= out@.map_values(|m: String| m@));
            }
            break;
        }
        let a = p + 1;
        let (ms, me, tail) = if a < s.len() && s[a] == '"' {
            let e = next_quote_exec(&s, a + 1);
            if e >= s.len() || e == a + 1 {
                proof {
                    assert(rest_before =~= Seq::<(nat, nat)>::empty());
                    assert(out@.map_values(|m: String| m@) + Seq::<(nat, nat)>::empty().map_values(|r: (nat, nat)| sv.subrange(r.0 as int, r.1 as int)) =~= out@.map_values(|m: String| m@));
                }
                break;
            }
            (a + 1, e, e + 1)
        } else {
            let end = next_ws_exec(&s, a);
            let word_end = trim_punct_exec(&s, a, end);
            if word_end == a {
                proof {
                    assert(rest_before =~= Seq::<(nat, nat)>::empty());
                    assert(out@.map_values(|m: String| m@) + Seq::<(nat, nat)>::empty().map_values(|r: (nat, nat)| sv.subrange(r.0 as int, r.1 as int)) =~= out@.map_values(|m: String| m@));
                }
                break;
            }
            let word = slice_string(&s, a, word_end);
            if names_known_exec(known, &word) {
                (a, word_end, end)
            } else {
                match greedy_exec(&s, a, end, 3, known) {
                    Some(ce) => {
                        let me = trim_punct_exec(&s, a, ce);
                        if me == a {
                            proof {
                                assert(rest_before =~= Seq::<(nat, nat)>::empty());
                                assert(out@.map_values(|m: String| m@) + Seq::<(nat, nat)>::empty().map_values(|r: (nat, nat)| sv.subrange(r.0 as int, r.1 as int)) =~= out@.map_values(|m: String| m@));
                            }
                            break;
                        }
                        (a, me, ce)
                    },
                    None => (a, word_end, end),
                }
            }
        };
        proof {
            assert(rest_before == seq![(ms as nat, me as nat)] + scan(sv, tail as nat, kv));
        }
        let mention = slice_string(&s, ms, me);
        let ghost before = out@.map_values(|m: String| m@);
        out.push(mention);
        proof {
            let f = |r: (nat, nat)| sv.subrange(r.0 as int, r.1 as int);
            assert(out@.map_values(|m: String| m@) =~= before.push(mention@));
            assert((seq![(ms as nat, me as nat)] + scan(sv, tail as nat, kv)).map_values(f)
                =~= seq![sv.subrange(ms as int, me as int)] + scan(sv, tail as nat, kv).map_values(f));
            assert(before + rest_before.map_values(f) =~= out@.map_values(|m: String| m@) + scan(sv, tail as nat, kv).map_values(f));
        }
        pos = tail;
    }
    out
}

/// Leading `@` mentions of `text`, in order, as raw (unresolved) strings.
/// A mention is `@word`, or `@"quoted words"`. Stops at the first non-mention word.
/// Multi-word names without quotes are handled in `resolve` by greedy matching.
pub fn leading_mentions(text: &str) -> (r: Vec<String>)
    ensures
        r@.map_values(|m: String| m@) == mention_texts(text@, Seq::empty()),
{
    let known: Vec<String> = Vec::new();
    proof {
        assert(known@.map_values(|k: String| k@) =~= Seq::<Seq<char>>::empty());
    }
    resolve_tokens(text, &known)
}

// ---------------------------------------------------------------------------
// Resolution against current members
// ---------------------------------------------------------------------------

/// Keys that make a candidate a member's name: every name key, then every pane key.
pub open spec fn known_keys(ms: Seq<MemberView>) -> Seq<Seq<char>> {
    ms.map_values(|m: MemberView| key_of(m.name)) + ms.map_values(|m: MemberView| key_of(m.pane_id))
}

/// Members whose pane id has the key `wanted`, in order.
pub open spec fn pane_hits(ms: Seq<MemberView>, wanted: Seq<char>) -> Seq<MemberView> {
    ms.filter(|m: MemberView| key_of(m.pane_id) == wanted)
}

/// Members whose name has the key `wanted`, in order.
pub open spec fn name_hits(ms: Seq<MemberView>, wanted: Seq<char>) -> Seq<MemberView> {
    ms.filter(|m: MemberView| key_of(m.name) == wanted)
}

/// A pane-id match wins over a name match.
pub open spec fn hits(ms: Seq<MemberView>, wanted: Seq<char>) -> Seq<MemberView> {
    if pane_hits(ms, wanted).len() == 0 {
        name_hits(ms, wanted)
    } else {
        pane_hits(ms, wanted)
    }
}

/// `parts` joined by `sep`.
pub open spec fn joined(parts: Seq<Seq<char>>, sep: Seq<char>) -> Seq<char>
    decreases parts.len(),
{
    if parts.len() == 0 {
        Seq::empty()
    } else if parts.len() == 1 {
        parts[0]
    } else {
        joined(parts.drop_last(), sep) + sep + parts.last()
    }
}

pub open spec fn unknown_error(mention: Seq<char>, ms: Seq<MemberView>) -> Seq<char> {
    "@"@ + mention + ": no such member here (members: "@ + joined(ms.map_values(|m: MemberView| m.name), ", "@)
        + ")"@
}

pub open spec fn ambiguous_error(mention: Seq<char>, many: Seq<MemberView>) -> Seq<char> {
    "@"@ + mention + " is ambiguous ("@ + joined(many.map_values(|m: MemberView| m.pane_id), ", "@)
        + "); use @<pane-id>"@
}

pub open spec fn sessionless_error(mention: Seq<char>) -> Seq<char> {
    "@"@ + mention + " has no live session; cannot be addressed"@
}

pub open spec fn recipient_of(m: MemberView, session: Seq<char>) -> RoomRecipientView {
    RoomRecipientView { pane_id: m.pane_id, terminal_id: m.terminal_id, session }
}

/// Whether `acc` already holds the slot `(terminal, session)`.
pub open spec fn holds_slot(acc: Seq<RoomRecipientView>, terminal: Seq<char>, session: Seq<char>) -> bool {
    exists|j: int| 0 <= j < acc.len() && acc[j].terminal_id == terminal && #[trigger] acc[j].session == session
}

/// Resolves `mentions` one by one onto `acc`; the first mention that is unknown,
/// ambiguous or sessionless refuses the whole post.
pub open spec fn resolve_from(ms: Seq<MemberView>, mentions: Seq<Seq<char>>, acc: Seq<RoomRecipientView>) -> Result<Seq<RoomRecipientView>, Seq<char>>
    decreases mentions.len(),
{
    if mentions.len() == 0 {
        Ok(acc)
    } else {
        let mention = mentions[0];
        let h = hits(ms, key_of(mention));
        if h.len() == 0 {
            Err(unknown_error(mention, ms))
        } else if h.len() > 1 {
            Err(ambiguous_error(mention, h))
        } else {
            match h[0].session {
                None => Err(sessionless_error(mention)),
                Some(session) => {
                    let next = if holds_slot(acc, h[0].terminal_id, session) {
                        acc
                    } else {
                        acc.push(recipient_of(h[0], session))
                    };
                    resolve_from(ms, mentions.skip(1), next)
                },
            }
        }
    }
}

/// What `resolve` answers: `Ok(None)` for a broadcast, the exact recipients of the
/// leading mentions, or the refusal of the first mention that cannot be addressed.
pub open spec fn resolution(text: Seq<char>, ms: Seq<MemberView>) -> Result<Option<Seq<RoomRecipientView>>, Seq<char>> {
    let mentions = mention_texts(text, known_keys(ms));
    if mentions.len() == 0 {
        Ok(None)
    } else {
        match resolve_from(ms, mentions, Seq::empty()) {
            Ok(r) => Ok(Some(r)),
            Err(e) => Err(e),
        }
    }
}

pub open spec fn resolution_view(r: Result<Option<Vec<RoomRecipient>>, String>) -> Result<Option<Seq<RoomRecipientView>>, Seq<char>> {
    match r {
        Ok(None) => Ok(None),
        Ok(Some(v)) => Ok(Some(v@.map_values(|x: RoomRecipient| x@))),
        Err(e) => Err(e@),
    }
}

fn member_keys(members: &[Member]) -> (r: (Vec<String>, Vec<String>))
    ensures
        r.0@.map_values(|k: String| k@) == members_view(members@).map_values(|m: MemberView| key_of(m.name)),
        r.1@.map_values(|k: String| k@) == members_view(members@).map_values(|m: MemberView| key_of(m.pane_id)),
{
    let ghost ms = members_view(members@);
    let mut names: Vec<String> = Vec::new();
    let mut panes: Vec<String> = Vec::new();
    let mut i: usize = 0;
    while i < members.len()
        invariant
            ms == members_view(members@),
            i <= members@.len(),
            names@.map_values(|k: String| k@) == ms.take(i as int).map_values(|m: MemberView| key_of(m.name)),
            panes@.map_values(|k: String| k@) == ms.take(i as int).map_values(|m: MemberView| key_of(m.pane_id)),
        decreases members.len() - i,
    {
        let ghost (n0, p0) = (names@.map_values(|k: String| k@), panes@.map_values(|k: String| k@));
        names.push(key(members[i].name.as_str()));
        panes.push(key(members[i].pane_id.as_str()));
        proof {
            assert(ms[i as int] == members@[i as int]@);
            assert(ms.take(i + 1) =~= ms.take(i as int).push(ms[i as int]));
            assert(names@.map_values(|k: String| k@) =~= n0.push(key_of(ms[i as int].name)));
            assert(panes@.map_values(|k: String| k@) =~= p0.push(key_of(ms[i as int].pane_id)));
        }
        i += 1;
    }
    proof {
        assert(ms.take(i as int) =~= ms);
    }
    (names, panes)
}

/// Indices of the members whose pane key (or, with `by_name`, name key) is `wanted`.
fn matching(members: &[Member], keys: &Vec<String>, wanted: &String, Ghost(by_name): Ghost<bool>) -> (r: Vec<usize>)
    requires
        by_name ==> keys@.map_values(|k: String| k@) == members_view(members@).map_values(|m: MemberView| key_of(m.name)),
        !by_name ==> keys@.map_values(|k: String| k@) == members_view(members@).map_values(|m: MemberView| key_of(m.pane_id)),
    ensures
        forall|j: int| 0 <= j < r@.len() ==> r@[j] < members@.len(),
        by_name ==> r@.map_values(|j: usize| members@[j as int]@) == name_hits(members_view(members@), wanted@),
        !by_name ==> r@.map_values(|j: usize| members@[j as int]@) == pane_hits(members_view(members@), wanted@),
{
    let ghost ms = members_view(members@);
    let ghost kv = keys@.map_values(|k: String| k@);
    let ghost f = if by_name { |m: MemberView| key_of(m.name) == wanted@ } else { |m: MemberView| key_of(m.pane_id) == wanted@ };
    proof {
        if by_name {
            assert(name_hits(ms, wanted@) == ms.filter(f));
        } else {
            assert(pane_hits(ms, wanted@) == ms.filter(f));
        }
    }
    let mut out: Vec<usize> = Vec::new();
    let mut i: usize = 0;
    proof {
        assert(ms.take(0).filter(f) =~= Seq::<MemberView>::empty());
    }
    while i < members.len()
        invariant
            ms == members_view(members@),
            kv == keys@.map_values(|k: String| k@),
            kv.len() == ms.len(),
            ms.len() == members@.len(),
            forall|j: int| 0 <= j < ms.len() ==> #[trigger] f(ms[j]) == (kv[j] == wanted@),
            i <= members@.len(),
            forall|j: int| 0 <= j < out@.len() ==> out@[j] < members@.len(),
            out@.map_values(|j: usize| members@[j as int]@) == ms.take(i as int).filter(f),
        decreases members.len() - i,
    {
        proof {
            reveal_with_fuel(Seq::filter, 1);
            assert(ms.take(i + 1).drop_last() =~= ms.take(i as int));
            assert(kv[i as int] == keys@[i as int]@);
            assert(ms[i as int] == members@[i as int]@);
        }
        let ghost before = out@.map_values(|j: usize| members@[j as int]@);
        if str_eq(keys[i].as_str(), wanted.as_str()) {
            out.push(i);
            proof {
                assert(out@.map_values(|j: usize| members@[j as int]@) =~= before.push(ms[i as int]));
            }
        } else {
            proof {
                assert(out@.map_values(|j: usize| members@[j as int]@) =~= before);
            }
        }
        i += 1;
    }
    proof {
        assert(ms.take(i as int) =~= ms);
    }
    out
}

/// Text of `parts` joined by `", "`.
fn join_comma(parts: &Vec<String>) -> (r: String)
    ensures
        r@ == joined(parts@.map_values(|p: String| p@), ", "@),
{
    let ghost pv = parts@.map_values(|p: String| p@);
    let mut out = String::new();
    let mut i: usize = 0;
    while i < parts.len()
        invariant
            pv == parts@.map_values(|p: String| p@),
            i <= parts@.len(),
            out@ == joined(pv.take(i as int), ", "@),
        decreases parts.len() - i,
    {
        proof {
            assert(pv.take(i + 1).drop_last() =~= pv.take(i as int));
            assert(pv.take(i + 1).last() == parts@[i as int]@);
        }
        if i > 0 {
            push_str(&mut out, ", ");
        } else {
            proof {
                assert(out@ =~= Seq::<char>::empty());
            }
        }
        push_str(&mut out, parts[i].as_str());
        i += 1;
    }
    proof {
        assert(pv.take(i as int) =~= pv);
    }
    out
}

/// Resolve leading mentions to exact current recipients. `Ok(None)` means broadcast.
pub fn resolve(text: &str, members: &[Member]) -> (r: Result<Option<Vec<RoomRecipient>>, String>)
    ensures
        resolution_view(r) == resolution(text@, members_view(members@)),
{
    let ghost ms = members_view(members@);
    let (names, panes) = member_keys(members);
    let mut known = names.clone();
    let mut extra = panes.clone();
    known.append(&mut extra);
    proof {
        assert(known@.map_values(|k: String| k@) =~= known_keys(ms));
    }
    let mentions = resolve_tokens(text, &known);
    let ghost mv = mentions@.map_values(|m: String| m@);
    if mentions.len() == 0 {
        return Ok(None);
    }
    let mut out: Vec<RoomRecipient> = Vec::new();
    let mut i: usize = 0;
    proof {
        assert(mv.skip(0) =~= mv);
        assert(out@.map_values(|x: RoomRecipient| x@) =~= Seq::<RoomRecipientView>::empty());
    }
    while i < mentions.len()
        invariant
            ms == members_view(members@),
            mv == mentions@.map_values(|m: String| m@),
            mv == mention_texts(text@, known_keys(ms)),
            mv.len() > 0,
            i <= mentions@.len(),
            names@.map_values(|k: String| k@) == ms.map_values(|m: MemberView| key_of(m.name)),
            panes@.map_values(|k: String| k@) == ms.map_values(|m: MemberView| key_of(m.pane_id)),
            resolve_from(ms, mv, Seq::empty()) == resolve_from(ms, mv.skip(i as int), out@.map_values(|x: RoomRecipient| x@)),
        decreases mentions.len() - i,
    {
        let ghost acc = out@.map_values(|x: RoomRecipient| x@);
        let mention = &mentions[i];
        proof {
            assert(mv.skip(i as int)[0] == mention@);
            assert(mv.skip(i as int).skip(1) =~= mv.skip(i + 1));
        }
        let wanted = key(mention.as_str());
        let by_pane = matching(members, &panes, &wanted, Ghost(false));
        let hits_idx = if by_pane.len() == 0 {
            matching(members, &names, &wanted, Ghost(true))
        } else {
            by_pane
        };
        let ghost hv = hits_idx@.map_values(|j: usize| members@[j as int]@);
        proof {
            assert(hv == hits(ms, key_of(mention@)));
        }
        if hits_idx.len() == 0 {
            let mut all: Vec<String> = Vec::new();
            let mut k: usize = 0;
            while k < members.len()
                invariant
                    ms == members_view(members@),
                    k <= members@.len(),
                    all@.map_values(|p: String| p@) == ms.take(k as int).map_values(|m: MemberView| m.name),
                decreases members.len() - k,
            {
                let ghost before = all@.map_values(|p: String| p@);
                all.push(members[k].name.clone());
                proof {
                    assert(ms[k as int] == members@[k as int]@);
                    assert(ms.take(k + 1) =~= ms.take(k as int).push(ms[k as int]));
                    assert(all@.map_values(|p: String| p@) =~= before.push(ms[k as int].name));
                }
                k += 1;
            }
            proof {
                assert(ms.take(k as int) =~= ms);
            }
            let mut e = String::new();
            push_str(&mut e, "@");
            push_str(&mut e, mention.as_str());
            push_str(&mut e, ": no such member here (members: ");
            let list = join_comma(&all);
            push_str(&mut e, list.as_str());
            push_str(&mut e, ")");
            proof {
                assert(e@ =~= unknown_error(mention@, ms));
            }
            return Err(e);
        }
        if hits_idx.len() > 1 {
            let mut ids: Vec<String> = Vec::new();
            let mut k: usize = 0;
            while k < hits_idx.len()
                invariant
                    k <= hits_idx@.len(),
                    hv == hits_idx@.map_values(|j: usize| members@[j as int]@),
                    forall|j: int| 0 <= j < hits_idx@.len() ==> hits_idx@[j] < members@.len(),
                    ids@.map_values(|p: String| p@) == hv.take(k as int).map_values(|m: MemberView| m.pane_id),
                decreases hits_idx.len() - k,
            {
                let ghost before = ids@.map_values(|p: String| p@);
                ids.push(members[hits_idx[k]].pane_id.clone());
                proof {
                    assert(hv[k as int] == members@[hits_idx@[k as int] as int]@);
                    assert(hv.take(k + 1) =~= hv.take(k as int).push(hv[k as int]));
                    assert(ids@.map_values(|p: String| p@) =~= before.push(hv[k as int].pane_id));
                }
                k += 1;
            }
            proof {
                assert(hv.take(k as int) =~= hv);
            }
            let mut e = String::new();
            push_str(&mut e, "@");
            push_str(&mut e, mention.as_str());
            push_str(&mut e, " is ambiguous (");
            let list = join_comma(&ids);
            push_str(&mut e, list.as_str());
            push_str(&mut e, "); use @<pane-id>");
            proof {
                assert(e@ =~= ambiguous_error(mention@, hv));
            }
            return Err(e);
        }
        let member = &members[hits_idx[0]];
        proof {
            assert(hv[0] == member@);
        }
        let session = match &member.session {
            Some(s) => s.clone(),
            None => {
                let mut e = String::new();
                push_str(&mut e, "@");
                push_str(&mut e, mention.as_str());
                push_str(&mut e, " has no live session; cannot be addressed");
                proof {
                    assert(e@ =~= sessionless_error(mention@));
                }
                return Err(e);
            },
        };
        let mut found = false;
        let mut k: usize = 0;
        while k < out.len()
            invariant
                acc == out@.map_values(|x: RoomRecipient| x@),
                k <= out@.len(),
                found <==> exists|j: int| 0 <= j < k && acc[j].terminal_id == member.terminal_id@ && #[trigger] acc[j].session == session@,
            decreases out.len() - k,
        {
            proof {
                assert(acc[k as int] == out@[k as int]@);
            }
            let same = str_eq(out[k].terminal_id.as_str(), member.terminal_id.as_str()) && str_eq(out[k].session.as_str(), session.as_str());
            proof {
                assert(same == (acc[k as int].terminal_id == member.terminal_id@ && acc[k as int].session == session@));
            }
            if same {
                found = true;
            }
            k += 1;
        }
        proof {
            assert(found == holds_slot(acc, member@.terminal_id, session@));
        }
        if !found {
            out.push(RoomRecipient {
                pane_id: member.pane_id.clone(),
                terminal_id: member.terminal_id.clone(),
                session,
            });
            proof {
                assert(out@.map_values(|x: RoomRecipient| x@) =~= acc.push(recipient_of(member@, session@)));
            }
        }
        i += 1;
    }
    proof {
        assert(mv.skip(i as int) =~= Seq::<Seq<char>>::empty());
    }
    Ok(Some(out))
}

// ---------------------------------------------------------------------------
// Laws
// ---------------------------------------------------------------------------

/// No two recipients share a `(terminal, session)` slot.
pub open spec fn slots_distinct(r: Seq<RoomRecipientView>) -> bool {
    forall|i: int, j: int|
        0 <= i < j < r.len() ==> !(r[i].terminal_id == r[j].terminal_id && r[i].session == r[j].session)
}

/// `r` is a current member's pane and terminal with its live session.
pub open spec fn addressable(ms: Seq<MemberView>, r: RoomRecipientView) -> bool {
    exists|k: int|
        0 <= k < ms.len() && ms[k].pane_id == r.pane_id && ms[k].terminal_id == r.terminal_id
            && #[trigger] ms[k].session == Some(r.session)
}

proof fn lemma_filter_within(s: Seq<MemberView>, pred: spec_fn(MemberView) -> bool)
    ensures
        forall|i: int| 0 <= i < s.filter(pred).len() ==> s.contains(#[trigger] s.filter(pred)[i]),
    decreases s.len(),
{
    reveal_with_fuel(Seq::filter, 1);
    if s.len() > 0 {
        lemma_filter_within(s.drop_last(), pred);
        let f = s.filter(pred);
        let g = s.drop_last().filter(pred);
        assert forall|i: int| 0 <= i < f.len() implies s.contains(#[trigger] f[i]) by {
            if i < g.len() {
                assert(f[i] == g[i]);
                let k = choose|k: int| 0 <= k < s.drop_last().len() && s.drop_last()[k] == g[i];
                assert(s[k] == f[i]);
            } else {
                assert(f[i] == s.last());
                assert(s[s.len() - 1] == f[i]);
            }
        }
    }
}

proof fn lemma_resolve_from_keeps(ms: Seq<MemberView>, mentions: Seq<Seq<char>>, acc: Seq<RoomRecipientView>)
    requires
        slots_distinct(acc),
        forall|i: int| 0 <= i < acc.len() ==> addressable(ms, #[trigger] acc[i]),
    ensures
        resolve_from(ms, mentions, acc) matches Ok(r) ==> slots_distinct(r) && (forall|i: int|
            0 <= i < r.len() ==> addressable(ms, #[trigger] r[i])),
    decreases mentions.len(),
{
    if mentions.len() > 0 {
        let mention = mentions[0];
        let w = key_of(mention);
        let h = hits(ms, w);
        if h.len() == 1 {
            if let Some(session) = h[0].session {
                lemma_filter_within(ms, |m: MemberView| key_of(m.pane_id) == w);
                lemma_filter_within(ms, |m: MemberView| key_of(m.name) == w);
                assert(ms.contains(h[0]));
                let k = choose|k: int| 0 <= k < ms.len() && ms[k] == h[0];
                let rec = recipient_of(h[0], session);
                assert(ms[k].session == Some(rec.session));
                assert(addressable(ms, rec));
                let next = if holds_slot(acc, h[0].terminal_id, session) {
                    acc
                } else {
                    acc.push(rec)
                };
                assert forall|i: int| 0 <= i < next.len() implies addressable(ms, #[trigger] next[i]) by {
                    if i < acc.len() {
                        assert(next[i] == acc[i]);
                    }
                }
                if !holds_slot(acc, h[0].terminal_id, session) {
                    assert forall|i: int, j: int|
                        0 <= i < j < next.len() implies !(next[i].terminal_id == next[j].terminal_id
                            && next[i].session == next[j].session) by {
                        if j == acc.len() {
                            assert(next[j] == rec);
                            assert(next[i] == acc[i]);
                        } else {
                            assert(next[i] == acc[i] && next[j] == acc[j]);
                        }
                    }
                }
                lemma_resolve_from_keeps(ms, mentions.skip(1), next);
            }
        }
    }
}

/// A post that starts with a mention is never treated as a broadcast: it is either
/// addressed to exact recipients or refused.
pub proof fn law_mention_never_falls_back_to_broadcast(text: Seq<char>, ms: Seq<MemberView>)
    requires
        mention_texts(text, known_keys(ms)).len() > 0,
    ensures
        resolution(text, ms) != Ok::<Option<Seq<RoomRecipientView>>, Seq<char>>(None),
{
}

/// Resolved recipients are current members with live sessions, each
/// `(terminal, session)` slot at most once.
pub proof fn law_resolved_recipients_are_live_and_distinct(text: Seq<char>, ms: Seq<MemberView>)
    ensures
        resolution(text, ms) matches Ok(Some(r)) ==> slots_distinct(r) && (forall|i: int|
            0 <= i < r.len() ==> addressable(ms, #[trigger] r[i])),
{
    lemma_resolve_from_keeps(ms, mention_texts(text, known_keys(ms)), Seq::empty());
}
} // verus!
