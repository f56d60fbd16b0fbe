//! What the search pane shows of its query and of a hit when columns are
//! short: the tail of the query, so the caret stays visible, and a window of
//! a snippet around its match.
use crate::editor::{display_width, width_of};
use crate::mentions::slice_string;
use crate::search_pane::SearchHit;
use crate::text::{chars_of, owned, string_of};
use unicode_width::UnicodeWidthChar;
use vstd::prelude::*;

verus! {

/// Display width of one character, `None` for a control character.
pub uninterp spec fn char_columns(c: char) -> Option<usize>;

/// `UnicodeWidthChar::width`.
#[verifier::external_body]
fn char_width(c: char) -> (r: Option<usize>)
    ensures
        r == char_columns(c),
{
    c.width()
}

/// Columns a character takes in the query line; a control character takes none.
pub open spec fn cols_of(c: char) -> nat {
    match char_columns(c) {
        Some(w) => w as nat,
        None => 0,
    }
}

/// How many characters from the end of `cs` fit in `avail` columns when
/// `used` are already taken; counting stops at the first that does not fit.
pub open spec fn tail_count(cs: Seq<char>, avail: nat, used: nat) -> nat
    decreases cs.len(),
{
    if cs.len() == 0 {
        0
    } else if used + cols_of(cs.last()) > avail {
        0
    } else {
        1 + tail_count(cs.drop_last(), avail, used + cols_of(cs.last()))
    }
}

pub proof fn lemma_tail_count_bound(cs: Seq<char>, avail: nat, used: nat)
    ensures
        tail_count(cs, avail, used) <= cs.len(),
    decreases cs.len(),
{
    if cs.len() > 0 {
        lemma_tail_count_bound(cs.drop_last(), avail, used + cols_of(cs.last()));
    }
}

/// The query as shown in `avail` columns: whole when it fits, else its
/// longest tail that fits.
pub open spec fn tail_fitted(t: Seq<char>, avail: nat) -> Seq<char> {
    if display_width(t) <= avail {
        t
    } else {
        t.subrange(t.len() - tail_count(t, avail, 0), t.len() as int)
    }
}

/// The last `avail` columns of the query, so the caret stays visible.
pub fn tail_fit(text: &str, avail: usize) -> (r: String)
    ensures
        r@ == tail_fitted(text@, avail as nat),
{
    if width_of(text) <= avail {
        return owned(text);
    }
    let cs = chars_of(text);
    let n = cs.len();
    let mut k: usize = 0;
    let mut w: usize = 0;
    proof {
        assert(cs@.subrange(0, n as int) =~= cs@);
    }
    while k < n
        invariant_except_break
            k <= n,
        invariant
            cs@ == text@,
            n == cs@.len(),
            w <= avail,
            tail_count(cs@, avail as nat, 0) == k + tail_count(
                cs@.subrange(0, n - k),
                avail as nat,
                w as nat,
            ),
        ensures
            k <= n,
            tail_count(cs@.subrange(0, n - k), avail as nat, w as nat) == 0,
        decreases n - k,
    {
        let c = cs[n - 1 - k];
        let cw = match char_width(c) {
            Some(x) => x,
            None => 0,
        };
        let ghost pre = cs@.subrange(0, n - k);
        proof {
            assert(pre.last() == c);
            assert(pre.drop_last() =~= cs@.subrange(0, n - k - 1));
        }
        if cw > avail - w {
            break;
        }
        w += cw;
        k += 1;
    }
    proof {
        if k == n {
            assert(cs@.subrange(0, 0).len() == 0);
        }
        assert(cs@.subrange(0, n as int) =~= cs@);
        lemma_tail_count_bound(cs@, avail as nat, 0);
    }
    slice_string(&cs, n - k, n)
}

pub open spec fn sub0(a: int, b: int) -> int {
    if a > b {
        a - b
    } else {
        0
    }
}

pub open spec fn min_int(a: int, b: int) -> int {
    if a < b {
        a
    } else {
        b
    }
}

pub open spec fn max_int(a: int, b: int) -> int {
    if a > b {
        a
    } else {
        b
    }
}

/// First shown character of a snippet in `avail` columns: about a third of the
/// columns go to context before the match, and the window never runs past the
/// end.
pub open spec fn window_start(n: int, start: int, avail: int) -> int {
    if n > avail {
        let a = sub0(start, avail / 3);
        if a + avail > n {
            sub0(n, avail)
        } else {
            a
        }
    } else {
        0
    }
}

/// Where the window and its three parts fall in a snippet of `n` characters:
/// the window start, the end of the text before the match, the end of the
/// match, the start of the text after it, and the window end.
pub open spec fn snippet_cuts(n: int, match_char: int, start_col: int, end_col: int, avail: int) -> (
    int,
    int,
    int,
    int,
    int,
) {
    let match_len = {
        let hi = max_int(sub0(n, match_char), 1);
        let x = sub0(end_col, start_col);
        if x < 1 {
            1
        } else if x > hi {
            hi
        } else {
            x
        }
    };
    let start = min_int(match_char, n);
    let end = min_int(start + match_len, n);
    let ws = window_start(n, start, avail);
    let we = min_int(ws + avail, n);
    (
        ws,
        min_int(max_int(start, ws), we),
        max_int(min_int(end, we), ws),
        min_int(max_int(end, ws), we),
        we,
    )
}

/// Text before the match, the match, and text after it, windowed to `avail`
/// characters; an ellipsis replaces the first shown character when the window
/// cuts the start, and the last when it cuts the end.
pub open spec fn snippet_window(
    cs: Seq<char>,
    match_char: int,
    start_col: int,
    end_col: int,
    avail: int,
) -> (Seq<char>, Seq<char>, Seq<char>) {
    let n = cs.len() as int;
    let (ws, b0, m1, a0, we) = snippet_cuts(n, match_char, start_col, end_col, avail);
    let before = cs.subrange(min_int(ws, b0), b0);
    let matched = cs.subrange(min_int(b0, m1), m1);
    let after = cs.subrange(min_int(a0, we), we);
    (
        if ws > 0 && before.len() > 0 {
            before.update(0, '\u{2026}')
        } else {
            before
        },
        matched,
        if we < n && after.len() > 0 {
            after.update(after.len() - 1, '\u{2026}')
        } else {
            after
        },
    )
}

fn min_usize(a: usize, b: usize) -> (r: usize)
    ensures
        r == min_int(a as int, b as int),
{
    if a < b {
        a
    } else {
        b
    }
}

fn max_usize(a: usize, b: usize) -> (r: usize)
    ensures
        r == max_int(a as int, b as int),
{
    if a > b {
        a
    } else {
        b
    }
}

/// The piece of `cs` from `a` to `b`, ellipsis first or last when asked.
fn piece_with_mark(cs: &Vec<char>, a: usize, b: usize, mark_first: bool, mark_last: bool) -> (r:
    String)
    requires
        a <= b <= cs@.len(),
    ensures
        r@ == (if mark_first && b > a {
            cs@.subrange(a as int, b as int).update(0, '\u{2026}')
        } else if mark_last && b > a {
            cs@.subrange(a as int, b as int).update(b - a - 1, '\u{2026}')
        } else {
            cs@.subrange(a as int, b as int)
        }),
{
    let mut out: Vec<char> = Vec::new();
    let mut k = a;
    while k < b
        invariant
            a <= k <= b <= cs@.len(),
            out@ == cs@.subrange(a as int, k as int),
        decreases b - k,
    {
        out.push(cs[k]);
        k += 1;
        proof {
            assert(out@ =~= cs@.subrange(a as int, k as int));
        }
    }
    if mark_first && b > a {
        out.set(0, '\u{2026}');
    } else if mark_last && b > a {
        out.set(b - a - 1, '\u{2026}');
    }
    string_of(&out)
}

fn cuts_of(n: usize, match_char: usize, start_col: usize, end_col: usize, avail: usize) -> (r: (
    usize,
    usize,
    usize,
    usize,
    usize,
))
    ensures
        (r.0 as int, r.1 as int, r.2 as int, r.3 as int, r.4 as int) == snippet_cuts(
            n as int,
            match_char as int,
            start_col as int,
            end_col as int,
            avail as int,
        ),
        r.0 <= r.4 <= n,
        r.0 <= r.1 <= r.4,
        r.0 <= r.2 <= n,
        r.3 <= r.4,
{
    let x = if end_col > start_col {
        end_col - start_col
    } else {
        0
    };
    let room = if n > match_char {
        n - match_char
    } else {
        0
    };
    let hi = max_usize(room, 1);
    let match_len = if x < 1 {
        1
    } else if x > hi {
        hi
    } else {
        x
    };
    let start = min_usize(match_char, n);
    let end = if match_len > n - start {
        n
    } else {
        start + match_len
    };
    let mut win_start: usize = 0;
    if n > avail {
        let lead = avail / 3;
        win_start = if start > lead {
            start - lead
        } else {
            0
        };
        if avail > n - win_start {
            win_start = n - avail;
        }
    }
    let win_end = if avail > n - win_start {
        n
    } else {
        win_start + avail
    };
    proof {
        assert(win_start == window_start(n as int, start as int, avail as int));
    }
    (
        win_start,
        min_usize(max_usize(start, win_start), win_end),
        max_usize(min_usize(end, win_end), win_start),
        min_usize(max_usize(end, win_start), win_end),
        win_end,
    )
}

/// Splits a hit's snippet into the text before the match, the match and the
/// text after it, windowed so the match shows in `avail` columns. The match
/// length comes from the searched columns, at least one character and no
/// further than the snippet's end.
pub fn window_snippet(hit: &SearchHit, avail: usize) -> (r: (String, String, String))
    ensures
        (r.0@, r.1@, r.2@) == snippet_window(
            hit.snippet@,
            hit.match_char as int,
            hit.text_match.start.col as int,
            hit.text_match.end.col as int,
            avail as int,
        ),
{
    let cs = chars_of(hit.snippet.as_str());
    let n = cs.len();
    let (win_start, b0, m1, a0, win_end) = cuts_of(
        n,
        hit.match_char,
        hit.text_match.start.col as usize,
        hit.text_match.end.col as usize,
        avail,
    );
    let before = piece_with_mark(&cs, min_usize(win_start, b0), b0, win_start > 0, false);
    let matched = piece_with_mark(&cs, min_usize(b0, m1), m1, false, false);
    let after = piece_with_mark(&cs, min_usize(a0, win_end), win_end, false, win_end < n);
    (before, matched, after)
}

} // verus!
