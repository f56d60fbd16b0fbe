//! Turning the AI search's picks into results. The model names panes by
//! their 1-based number in the prompt and quotes passages from them; each
//! quote is looked up whole, then by its first five words, then by its first
//! three (so a paraphrase still lands), and the latest match of the first
//! needle that matches becomes a hit. A pane shows one hit per row, at most
//! `MAX_HITS_PER_PANE`, newest row first.
use crate::search_pane::{
    collapse_ws, collapsed, first_words, first_words_of, hit_fits, hit_of, hit_ok, make_hit,
    plural, plural_of, tally, total_hits, AiPaneRef, SearchGroup, SearchHit, TextMatch,
    MAX_HITS_PER_PANE,
};
use crate::presentation::push_decimal;
use crate::text::{chars_of, owned, push_str};
use vstd::prelude::*;

verus! {

/// The pane a pick names: its number counts from one.
pub open spec fn pick_slot(pick: usize, panes: nat) -> Option<nat> {
    if pick >= 1 && pick - 1 < panes {
        Some((pick - 1) as nat)
    } else {
        None
    }
}

pub fn pick_index(pick: usize, panes: &Vec<AiPaneRef>) -> (r: Option<usize>)
    ensures
        match pick_slot(pick, panes@.len()) {
            Some(i) => r == Some(i as usize),
            None => r is None,
        },
{
    if pick >= 1 && pick - 1 < panes.len() {
        Some(pick - 1)
    } else {
        None
    }
}

/// The needles tried for a quote, in order: the quote on one line, its
/// first five words, its first three; needles under three characters are
/// skipped, and an empty quote has none.
pub open spec fn ai_candidates_spec(quote: Seq<char>) -> Seq<Seq<char>> {
    let q = collapsed(quote);
    if q.len() == 0 {
        Seq::empty()
    } else {
        long_enough(q) + long_enough(first_words_of(q, 5)) + long_enough(first_words_of(q, 3))
    }
}

pub open spec fn long_enough(n: Seq<char>) -> Seq<Seq<char>> {
    if n.len() >= 3 {
        seq![n]
    } else {
        Seq::empty()
    }
}

fn push_needle(out: &mut Vec<String>, n: String)
    ensures
        final(out)@.map_values(|s: String| s@) == old(out)@.map_values(|s: String| s@)
            + long_enough(n@),
{
    let ghost before = out@.map_values(|s: String| s@);
    let count = chars_of(n.as_str()).len();
    if count >= 3 {
        out.push(n);
    }
    proof {
        assert(out@.map_values(|s: String| s@) =~= before + long_enough(n@));
    }
}

/// The needles to look a quote up by.
pub fn ai_candidates(quote: &str) -> (r: Vec<String>)
    ensures
        r@.map_values(|s: String| s@) == ai_candidates_spec(quote@),
{
    let q = collapse_ws(quote);
    let mut out: Vec<String> = Vec::new();
    if chars_of(q.as_str()).len() == 0 {
        proof {
            assert(out@.map_values(|s: String| s@) =~= Seq::<Seq<char>>::empty());
        }
        return out;
    }
    let five = first_words(q.as_str(), 5);
    let three = first_words(q.as_str(), 3);
    proof {
        assert(out@.map_values(|s: String| s@) =~= Seq::<Seq<char>>::empty());
    }
    push_needle(&mut out, q);
    push_needle(&mut out, five);
    push_needle(&mut out, three);
    proof {
        assert(out@.map_values(|s: String| s@) =~= ai_candidates_spec(quote@));
    }
    out
}

// ---------------------------------------------------------------------------
// The latest match of a needle
// ---------------------------------------------------------------------------

/// `a` starts no later than `b` in the scrollback.
pub open spec fn not_after(a: TextMatch, b: TextMatch) -> bool {
    a.start.row < b.start.row || (a.start.row == b.start.row && a.start.col <= b.start.col)
}

/// Index of the latest match among the first `n`: the one starting last,
/// and of those starting together the one listed last.
pub open spec fn latest_upto(xs: Seq<(TextMatch, String)>, n: int) -> Option<int>
    decreases n,
{
    if n <= 0 {
        None
    } else {
        match latest_upto(xs, n - 1) {
            None => Some(n - 1),
            Some(j) => if not_after(xs[j].0, xs[n - 1].0) {
                Some(n - 1)
            } else {
                Some(j)
            },
        }
    }
}

proof fn lemma_latest_bound(xs: Seq<(TextMatch, String)>, n: int)
    requires
        0 <= n,
    ensures
        latest_upto(xs, n) matches Some(j) ==> 0 <= j < n,
        n > 0 ==> latest_upto(xs, n) is Some,
    decreases n,
{
    if n > 0 {
        lemma_latest_bound(xs, n - 1);
    }
}

/// The latest of a needle's matches.
pub fn latest_match(matches: &Vec<(TextMatch, String)>) -> (r: Option<usize>)
    ensures
        match latest_upto(matches@, matches@.len() as int) {
            Some(j) => r == Some(j as usize),
            None => r is None,
        },
{
    let mut best: Option<usize> = None;
    let mut i: usize = 0;
    while i < matches.len()
        invariant
            i <= matches.len(),
            match latest_upto(matches@, i as int) {
                Some(j) => best == Some(j as usize),
                None => best is None,
            },
        decreases matches.len() - i,
    {
        proof {
            lemma_latest_bound(matches@, i as int);
        }
        best = match best {
            None => Some(i),
            Some(j) => {
                let a = matches[j].0;
                let b = matches[i].0;
                if a.start.row < b.start.row || (a.start.row == b.start.row && a.start.col
                    <= b.start.col) {
                    Some(i)
                } else {
                    Some(j)
                }
            },
        };
        i += 1;
    }
    best
}

// ---------------------------------------------------------------------------
// A pane's hits
// ---------------------------------------------------------------------------

/// What was found for one quote: the match, its line and the needle.
pub type Found = Option<(TextMatch, String, String)>;

pub open spec fn found_view(f: Found) -> Option<(TextMatch, Seq<char>, Seq<char>)> {
    match f {
        Some((m, l, n)) => Some((m, l@, n@)),
        None => None,
    }
}

pub open spec fn founds_view(v: Seq<Found>) -> Seq<Option<(TextMatch, Seq<char>, Seq<char>)>> {
    v.map_values(|f: Found| found_view(f))
}

pub open spec fn has_row(acc: Seq<(TextMatch, Seq<char>, Seq<char>)>, row: u32) -> bool {
    exists|k: int| 0 <= k < acc.len() && (#[trigger] acc[k]).0.start.row == row
}

/// The hits kept from quote `i` on, given those kept so far: a hit on a row
/// already shown is dropped, and quotes stop mattering once the pane has
/// `MAX_HITS_PER_PANE` hits.
pub open spec fn collect_hits(
    found: Seq<Option<(TextMatch, Seq<char>, Seq<char>)>>,
    i: int,
    acc: Seq<(TextMatch, Seq<char>, Seq<char>)>,
) -> Seq<(TextMatch, Seq<char>, Seq<char>)>
    decreases found.len() - i,
{
    if i < 0 || i >= found.len() || acc.len() >= MAX_HITS_PER_PANE {
        acc
    } else {
        match found[i] {
            Some(h) => if has_row(acc, h.0.start.row) {
                collect_hits(found, i + 1, acc)
            } else {
                collect_hits(found, i + 1, acc.push(h))
            },
            None => collect_hits(found, i + 1, acc),
        }
    }
}

/// Every found match that is looked at can be placed in its snippet.
pub open spec fn reached_ok(
    found: Seq<Option<(TextMatch, Seq<char>, Seq<char>)>>,
    i: int,
    acc: Seq<(TextMatch, Seq<char>, Seq<char>)>,
) -> bool
    decreases found.len() - i,
{
    if i < 0 || i >= found.len() || acc.len() >= MAX_HITS_PER_PANE {
        true
    } else {
        match found[i] {
            Some(h) => hit_ok(h.1, h.2) && if has_row(acc, h.0.start.row) {
                reached_ok(found, i + 1, acc)
            } else {
                reached_ok(found, i + 1, acc.push(h))
            },
            None => reached_ok(found, i + 1, acc),
        }
    }
}

/// Where a sort by row, newest first, puts `x` among `sorted`: after every
/// hit whose row is not older.
pub open spec fn newest_position(sorted: Seq<(TextMatch, Seq<char>, Seq<char>)>, x: (TextMatch, Seq<char>, Seq<char>), j: int) -> int
    decreases sorted.len() - j,
{
    if j < 0 || j >= sorted.len() {
        sorted.len() as int
    } else if sorted[j].0.start.row < x.0.start.row {
        j
    } else {
        newest_position(sorted, x, j + 1)
    }
}

pub open spec fn newest_first(s: Seq<(TextMatch, Seq<char>, Seq<char>)>) -> Seq<(TextMatch, Seq<char>, Seq<char>)>
    decreases s.len(),
{
    if s.len() == 0 {
        Seq::empty()
    } else {
        let t = newest_first(s.drop_last());
        t.insert(newest_position(t, s.last(), 0), s.last())
    }
}

/// A pane's hits for the found quotes, newest row first.
pub open spec fn ai_hits_spec(found: Seq<Option<(TextMatch, Seq<char>, Seq<char>)>>) -> Seq<(TextMatch, Seq<char>, Seq<char>)> {
    newest_first(collect_hits(found, 0, Seq::empty()))
}

proof fn lemma_newest_position_bound(sorted: Seq<(TextMatch, Seq<char>, Seq<char>)>, x: (TextMatch, Seq<char>, Seq<char>), j: int)
    requires
        0 <= j <= sorted.len(),
    ensures
        j <= newest_position(sorted, x, j) <= sorted.len(),
    decreases sorted.len() - j,
{
    if j < sorted.len() {
        lemma_newest_position_bound(sorted, x, j + 1);
    }
}

pub open spec fn hits_match(hits: Seq<SearchHit>, want: Seq<(TextMatch, Seq<char>, Seq<char>)>) -> bool {
    &&& hits.len() == want.len()
    &&& forall|k: int| 0 <= k < hits.len() ==> hit_of(#[trigger] hits[k], want[k].0, want[k].1, want[k].2)
}

fn seen_row(hits: &Vec<SearchHit>, row: u32) -> (r: bool)
    ensures
        r == exists|k: int| 0 <= k < hits@.len() && (#[trigger] hits@[k]).text_match.start.row == row,
{
    let mut i: usize = 0;
    while i < hits.len()
        invariant
            i <= hits@.len(),
            forall|k: int| 0 <= k < i ==> (#[trigger] hits@[k]).text_match.start.row != row,
        decreases hits.len() - i,
    {
        if hits[i].text_match.start.row == row {
            return true;
        }
        i += 1;
    }
    false
}

fn insert_newest(out: &mut Vec<SearchHit>, h: SearchHit, Ghost(want): Ghost<Seq<(TextMatch, Seq<char>, Seq<char>)>>, Ghost(x): Ghost<(TextMatch, Seq<char>, Seq<char>)>)
    requires
        hits_match(old(out)@, want),
        hit_of(h, x.0, x.1, x.2),
    ensures
        hits_match(final(out)@, want.insert(newest_position(want, x, 0), x)),
{
    let mut j: usize = 0;
    while j < out.len() && !(out[j].text_match.start.row < h.text_match.start.row)
        invariant
            hits_match(out@, want),
            j <= out@.len(),
            newest_position(want, x, 0) == newest_position(want, x, j as int),
            x.0 == h.text_match,
        decreases out.len() - j,
    {
        proof {
            assert(hit_of(out@[j as int], want[j as int].0, want[j as int].1, want[j as int].2));
        }
        j += 1;
    }
    proof {
        lemma_newest_position_bound(want, x, j as int);
    }
    let ghost before = out@;
    out.insert(j, h);
    proof {
        let w2 = want.insert(j as int, x);
        assert forall|k: int| 0 <= k < out@.len() implies hit_of(#[trigger] out@[k], w2[k].0, w2[k].1, w2[k].2) by {
            if k < j {
                assert(out@[k] == before[k]);
            } else if k > j {
                assert(out@[k] == before[k - 1]);
            }
        }
    }
}

/// A pane's hits from what was found for each of its quotes, in quote
/// order. The found entries that are looked at must fit their snippets (see
/// `checked_ai_pick_hits`).
pub fn ai_pick_hits(found: &Vec<Found>) -> (r: Vec<SearchHit>)
    requires
        reached_ok(founds_view(found@), 0, Seq::empty()),
    ensures
        hits_match(r@, ai_hits_spec(founds_view(found@))),
{
    let ghost fv = founds_view(found@);
    let mut hits: Vec<SearchHit> = Vec::new();
    let ghost mut acc: Seq<(TextMatch, Seq<char>, Seq<char>)> = Seq::empty();
    let mut i: usize = 0;
    while i < found.len() && hits.len() < MAX_HITS_PER_PANE
        invariant
            fv == founds_view(found@),
            i <= found.len(),
            hits_match(hits@, acc),
            collect_hits(fv, i as int, acc) == collect_hits(fv, 0, Seq::empty()),
            reached_ok(fv, i as int, acc),
        decreases found.len() - i,
    {
        match &found[i] {
            Some(f) => {
                proof {
                    assert(fv[i as int] == Some((f.0, f.1@, f.2@)));
                }
                let row = f.0.start.row;
                if !seen_row(&hits, row) {
                    proof {
                        assert(!has_row(acc, row)) by {
                            if has_row(acc, row) {
                                let k = choose|k: int| 0 <= k < acc.len() && (#[trigger] acc[k]).0.start.row == row;
                                assert(hits@[k].text_match == acc[k].0);
                            }
                        }
                    }
                    let h = make_hit(f.0, f.1.as_str(), f.2.as_str());
                    hits.push(h);
                    proof {
                        acc = acc.push((f.0, f.1@, f.2@));
                        assert forall|k: int| 0 <= k < hits@.len() implies hit_of(#[trigger] hits@[k], acc[k].0, acc[k].1, acc[k].2) by {}
                    }
                } else {
                    proof {
                        let k = choose|k: int| 0 <= k < hits@.len() && (#[trigger] hits@[k]).text_match.start.row == row;
                        assert(acc[k].0.start.row == row);
                        assert(has_row(acc, row));
                    }
                }
            },
            None => {
                proof {
                    assert(fv[i as int] is None);
                }
            },
        }
        i += 1;
    }
    let ghost picked = acc;
    let mut out: Vec<SearchHit> = Vec::new();
    let ghost mut done: Seq<(TextMatch, Seq<char>, Seq<char>)> = Seq::empty();
    proof {
        assert(collect_hits(fv, i as int, acc) == acc);
        assert(picked.take(0) =~= Seq::<(TextMatch, Seq<char>, Seq<char>)>::empty());
    }
    let n = hits.len();
    let mut k: usize = 0;
    while hits.len() > 0
        invariant
            k + hits@.len() == n,
            n == picked.len(),
            forall|m: int| 0 <= m < hits@.len() ==> hit_of(#[trigger] hits@[m], picked[k + m].0, picked[k + m].1, picked[k + m].2),
            hits_match(out@, newest_first(picked.take(k as int))),
        decreases hits@.len(),
    {
        let ghost before = hits@;
        let h = hits.remove(0);
        proof {
            assert(h == before[0]);
            assert(hit_of(h, picked[k as int].0, picked[k as int].1, picked[k as int].2));
            assert forall|m: int| 0 <= m < hits@.len() implies hit_of(
                #[trigger] hits@[m],
                picked[k + 1 + m].0,
                picked[k + 1 + m].1,
                picked[k + 1 + m].2,
            ) by {
                assert(hits@[m] == before[m + 1]);
            }
        }
        insert_newest(&mut out, h, Ghost(newest_first(picked.take(k as int))), Ghost(picked[k as int]));
        proof {
            assert(picked.take(k + 1).drop_last() =~= picked.take(k as int));
            assert(picked.take(k + 1).last() == picked[k as int]);
        }
        k += 1;
    }
    proof {
        assert(picked.take(k as int) =~= picked);
    }
    out
}

/// Whether every found match that `ai_pick_hits` looks at fits its snippet.
pub fn all_fit(found: &Vec<Found>) -> (r: bool)
    ensures
        r == reached_ok(founds_view(found@), 0, Seq::empty()),
{
    let ghost fv = founds_view(found@);
    let mut rows: Vec<u32> = Vec::new();
    let ghost mut acc: Seq<(TextMatch, Seq<char>, Seq<char>)> = Seq::empty();
    let mut i: usize = 0;
    while i < found.len() && rows.len() < MAX_HITS_PER_PANE
        invariant
            fv == founds_view(found@),
            i <= found.len(),
            rows@.len() == acc.len(),
            forall|k: int| 0 <= k < acc.len() ==> rows@[k] == (#[trigger] acc[k]).0.start.row,
            reached_ok(fv, 0, Seq::empty()) == reached_ok(fv, i as int, acc),
        decreases found.len() - i,
    {
        match &found[i] {
            Some(f) => {
                proof {
                    assert(fv[i as int] == Some((f.0, f.1@, f.2@)));
                }
                if !hit_fits(f.1.as_str(), f.2.as_str()) {
                    return false;
                }
                let row = f.0.start.row;
                let mut seen = false;
                let mut k: usize = 0;
                while k < rows.len()
                    invariant
                        k <= rows@.len(),
                        seen == exists|m: int| 0 <= m < k && rows@[m] == row,
                    decreases rows.len() - k,
                {
                    if rows[k] == row {
                        seen = true;
                    }
                    k += 1;
                }
                proof {
                    if seen {
                        let m = choose|m: int| 0 <= m < rows@.len() && rows@[m] == row;
                        assert(acc[m].0.start.row == row);
                    } else {
                        assert(!has_row(acc, row)) by {
                            if has_row(acc, row) {
                                let m = choose|m: int| 0 <= m < acc.len() && (#[trigger] acc[m]).0.start.row == row;
                                assert(rows@[m] == row);
                            }
                        }
                    }
                }
                if !seen {
                    rows.push(row);
                    proof {
                        acc = acc.push((f.0, f.1@, f.2@));
                    }
                }
            },
            None => {
                proof {
                    assert(fv[i as int] is None);
                }
            },
        }
        i += 1;
    }
    true
}

/// `ai_pick_hits` when every match it looks at fits its snippet, else
/// `None`.
pub fn checked_ai_pick_hits(found: &Vec<Found>) -> (r: Option<Vec<SearchHit>>)
    ensures
        r is Some <==> reached_ok(founds_view(found@), 0, Seq::empty()),
        r matches Some(h) ==> hits_match(h@, ai_hits_spec(founds_view(found@))),
{
    if all_fit(found) {
        Some(ai_pick_hits(found))
    } else {
        None
    }
}

/// The result group of a picked pane; a pane without hits shows none.
pub fn ai_group(pane: AiPaneRef, hits: Vec<SearchHit>) -> (r: Option<SearchGroup>)
    ensures
        hits@.len() == 0 ==> r is None,
        hits@.len() > 0 ==> (r matches Some(g) && g.ws_idx == pane.ws_idx && g.tab_idx
            == pane.tab_idx && g.pane_id == pane.pane_id && g.title == pane.title && g.subtitle
            == pane.subtitle && g.tokens == pane.tokens && g.hits == hits),
{
    if hits.len() == 0 {
        return None;
    }
    Some(
        SearchGroup {
            ws_idx: pane.ws_idx,
            tab_idx: pane.tab_idx,
            pane_id: pane.pane_id,
            title: pane.title,
            subtitle: pane.subtitle,
            tokens: pane.tokens,
            hits,
        },
    )
}

/// The first of the needles that has a match, from `i` on.
pub open spec fn first_with_match(results: Seq<Vec<(TextMatch, String)>>, i: int) -> Option<int>
    decreases results.len() - i,
{
    if i < 0 || i >= results.len() {
        None
    } else if results[i]@.len() > 0 {
        Some(i)
    } else {
        first_with_match(results, i + 1)
    }
}

/// What a quote found, given each needle's matches (`results[i]` are those of
/// `needles[i]`): the latest match of the first needle that matched, with its
/// line and that needle; nothing when no needle matched.
pub open spec fn quote_found_view(needles: Seq<String>, results: Seq<Vec<(TextMatch, String)>>) -> Option<
    (TextMatch, Seq<char>, Seq<char>),
> {
    match first_with_match(results, 0) {
        Some(i) => {
            let j = latest_upto(results[i]@, results[i]@.len() as int)->Some_0;
            Some((results[i]@[j].0, results[i]@[j].1@, needles[i]@))
        },
        None => None,
    }
}

/// What a quote found, given each needle's matches (`results[i]` are those of
/// `needles[i]`): the latest match of the first needle that matched, with its
/// line and that needle; nothing when no needle matched.
pub fn quote_found(needles: &Vec<String>, results: &Vec<Vec<(TextMatch, String)>>) -> (r: Found)
    requires
        needles@.len() == results@.len(),
    ensures
        found_view(r) == quote_found_view(needles@, results@),
        match first_with_match(results@, 0) {
            Some(i) => {
                let j = latest_upto(results@[i]@, results@[i]@.len() as int)->Some_0;
                found_view(r) == Some((results@[i]@[j].0, results@[i]@[j].1@, needles@[i]@))
            },
            None => r is None,
        },
{
    let mut i: usize = 0;
    while i < results.len()
        invariant
            needles@.len() == results@.len(),
            i <= results@.len(),
            first_with_match(results@, 0) == first_with_match(results@, i as int),
        decreases results.len() - i,
    {
        let here = &results[i];
        let count = here.len();
        proof {
            lemma_latest_bound(here@, here@.len() as int);
            assert(here@ == results@[i as int]@);
        }
        match latest_match(here) {
            Some(j) => {
                proof {
                    let k = latest_upto(here@, here@.len() as int)->Some_0;
                    assert(0 <= k < count);
                    assert(k as usize == j);
                    assert(k == j as int);
                    assert(latest_upto(here@, here@.len() as int) == Some(j as int));
                }
                let (m, line) = &results[i][j];
                let l2 = line.clone();
                let n2 = needles[i].clone();
                proof {
                    assert(results@[i as int]@.len() > 0);
                    assert(first_with_match(results@, i as int) == Some(i as int));
                    assert(l2@ == line@);
                    assert(n2@ == needles@[i as int]@);
                    assert(results@[i as int]@[j as int] == (*m, *line));
                    assert(latest_upto(results@[i as int]@, results@[i as int]@.len() as int) == Some(j as int));
                }
                let found: Found = Some((*m, l2, n2));
                proof {
                    assert(found_view(found) == Some((*m, l2@, n2@)));
                }
                return found;
            },
            None => {
                proof {
                    lemma_latest_bound(results@[i as int]@, results@[i as int]@.len() as int);
                }
            },
        }
        i += 1;
    }
    None
}


/// What each quote of a pick found: quote `q` has the needles `needles[q]`,
/// whose matches are `results[q]`.
pub open spec fn picked_founds(needles: Seq<Vec<String>>, results: Seq<Vec<Vec<(TextMatch, String)>>>) -> Seq<
    Option<(TextMatch, Seq<char>, Seq<char>)>,
> {
    Seq::new(needles.len(), |q: int| quote_found_view(needles[q]@, results[q]@))
}

/// The result group of a picked pane from what its quotes found (quote `q`
/// has the needles `needles[q]`, whose matches are `results[q]`): `None`
/// when a match that is looked at cannot be placed in its snippet, else the
/// pane's group, which a pane without hits does not get.
pub fn pick_group(pane: AiPaneRef, needles: &Vec<Vec<String>>, results: &Vec<Vec<Vec<(TextMatch, String)>>>) -> (r:
    Option<Option<SearchGroup>>)
    requires
        needles@.len() == results@.len(),
        forall|q: int| 0 <= q < needles@.len() ==> (#[trigger] needles@[q])@.len() == results@[q]@.len(),
    ensures
        ({
            let fv = picked_founds(needles@, results@);
            &&& (r is Some <==> reached_ok(fv, 0, Seq::empty()))
            &&& (r matches Some(g) ==> (ai_hits_spec(fv).len() == 0 ==> g is None) && (ai_hits_spec(fv).len() > 0
                ==> (g matches Some(x) && x.ws_idx == pane.ws_idx && x.tab_idx == pane.tab_idx && x.pane_id
                == pane.pane_id && x.title == pane.title && x.subtitle == pane.subtitle && x.tokens
                == pane.tokens && hits_match(x.hits@, ai_hits_spec(fv)))))
        }),
{
    let ghost want = picked_founds(needles@, results@);
    let mut found: Vec<Found> = Vec::new();
    let mut q: usize = 0;
    while q < needles.len()
        invariant
            q <= needles@.len(),
            needles@.len() == results@.len(),
            forall|q: int| 0 <= q < needles@.len() ==> (#[trigger] needles@[q])@.len() == results@[q]@.len(),
            want == picked_founds(needles@, results@),
            found@.len() == q,
            founds_view(found@) =~= want.take(q as int),
        decreases needles.len() - q,
    {
        let f = quote_found(&needles[q], &results[q]);
        let ghost before = found@;
        proof {
            assert(found_view(f) == want[q as int]);
        }
        found.push(f);
        proof {
            assert(found@ == before.push(f));
            assert forall|k: int| 0 <= k < q + 1 implies #[trigger] founds_view(found@)[k] == want[k] by {
                if k < q {
                    assert(found@[k] == before[k]);
                    assert(founds_view(before)[k] == want.take(q as int)[k]);
                }
            }
            assert(founds_view(found@) =~= want.take(q + 1));
        }
        q += 1;
    }
    proof {
        assert(founds_view(found@) =~= want);
    }
    match checked_ai_pick_hits(&found) {
        Some(h) => {
            proof {
                assert(h@.len() == ai_hits_spec(want).len());
            }
            Some(ai_group(pane, h))
        },
        None => None,
    }
}

} // verus!
