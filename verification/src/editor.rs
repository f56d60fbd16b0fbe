//! Room-local editor. Behaviour follows the Pi editor: byte offsets
//! internally; vertical preferences use UTF-16 units, not display cells.
//!
//! Text is addressed by UTF-8 byte offsets; a contract reads the text between
//! two offsets with `bslice`. Grapheme clusters, word boundaries and display
//! widths come from `unicode-segmentation` and `unicode-width` through the
//! named results below.
use crate::bytes::{
    at_boundary, blen, bslice, byte_at, byte_len, is_boundary, lemma_bslice, lemma_bslice_all,
    lemma_encode_concat, slice,
};
use crate::room::MAX_MESSAGE_BYTES;
use crate::text::{char_is_control, char_is_whitespace, chars_of, is_cc, is_ws, push_str, string_of};
use std::ops::Range;
use unicode_segmentation::UnicodeSegmentation;
use unicode_width::UnicodeWidthStr;
use vstd::prelude::*;
use vstd::utf8::encode_utf8;

verus! {

/// Largest expanded draft, in bytes.
pub const LIMIT: usize = MAX_MESSAGE_BYTES;

/// Undo snapshots, kill-ring entries and history entries kept.
pub const RETAIN: usize = 100;

// ---------------------------------------------------------------------------
// Outside segmentation and width
// ---------------------------------------------------------------------------

/// Byte offsets at which the extended grapheme clusters of a text start.
pub uninterp spec fn grapheme_starts(s: Seq<char>) -> Seq<usize>;

/// Byte offsets at which the UAX #29 word-bound segments of a text start.
pub uninterp spec fn word_bound_starts(s: Seq<char>) -> Seq<usize>;

/// Whether a text holds a UAX #29 word (a segment with an alphanumeric).
pub uninterp spec fn has_word(s: Seq<char>) -> bool;

/// Display width of a text in terminal columns.
pub uninterp spec fn display_width(s: Seq<char>) -> usize;

/// `starts` cuts `t` into consecutive non-empty pieces: it is empty exactly
/// for the empty text, begins at 0, increases, and each offset is a character
/// boundary inside the text.
pub open spec fn cuts(starts: Seq<usize>, t: Seq<char>) -> bool {
    &&& (starts.len() == 0 <==> blen(t) == 0)
    &&& (starts.len() > 0 ==> starts[0] == 0)
    &&& forall|i: int, j: int| 0 <= i < j < starts.len() ==> starts[i] < starts[j]
    &&& forall|i: int|
        0 <= i < starts.len() ==> starts[i] < blen(t) && at_boundary(t, #[trigger] starts[i] as int)
}

/// `UnicodeSegmentation::grapheme_indices(s, true)`, offsets only. The
/// clusters are consecutive slices of `s` from its start to its end, each
/// non-empty; which offsets they are is not stated.
#[verifier::external_body]
pub(crate) fn grapheme_offsets(s: &str) -> (r: Vec<usize>)
    ensures
        r@ == grapheme_starts(s@),
        cuts(r@, s@),
{
    s.grapheme_indices(true).map(|(i, _)| i).collect()
}

/// `UnicodeSegmentation::split_word_bound_indices(s)`, offsets only. The
/// segments are consecutive slices of `s` from its start to its end, each
/// non-empty; which offsets they are is not stated.
#[verifier::external_body]
fn word_bound_offsets(s: &str) -> (r: Vec<usize>)
    ensures
        r@ == word_bound_starts(s@),
        cuts(r@, s@),
{
    s.split_word_bound_indices().map(|(i, _)| i).collect()
}

/// Whether `UnicodeSegmentation::unicode_words(s)` yields anything.
#[verifier::external_body]
fn contains_word(s: &str) -> (r: bool)
    ensures
        r == has_word(s@),
{
    s.unicode_words().next().is_some()
}

/// `UnicodeWidthStr::width(s)`.
#[verifier::external_body]
pub(crate) fn width_of(s: &str) -> (r: usize)
    ensures
        r == display_width(s@),
{
    s.width()
}

// ---------------------------------------------------------------------------
// State
// ---------------------------------------------------------------------------

/// A folded paste: the marker's byte range in the draft and what it stands for.
pub struct Paste {
    pub range: Range<usize>,
    pub payload: String,
}

pub struct PasteView {
    pub start: nat,
    pub end: nat,
    pub payload: Seq<char>,
}

impl View for Paste {
    type V = PasteView;

    open spec fn view(&self) -> PasteView {
        PasteView { start: self.range.start as nat, end: self.range.end as nat, payload: self.payload@ }
    }
}

impl Clone for Paste {
    fn clone(&self) -> (r: Self)
        ensures
            r@ == self@,
    {
        Paste { range: self.range.start..self.range.end, payload: self.payload.clone() }
    }
}

pub open spec fn pastes_view(v: Seq<Paste>) -> Seq<PasteView> {
    v.map_values(|p: Paste| p@)
}

fn clone_pastes(v: &Vec<Paste>) -> (r: Vec<Paste>)
    ensures
        pastes_view(r@) == pastes_view(v@),
{
    let mut out: Vec<Paste> = Vec::new();
    let mut i: usize = 0;
    while i < v.len()
        invariant
            i <= v.len(),
            pastes_view(out@) == pastes_view(v@).take(i as int),
        decreases v.len() - i,
    {
        let ghost before = pastes_view(out@);
        let p = v[i].clone();
        out.push(p);
        proof {
            assert(pastes_view(out@) =~= before.push(v@[i as int]@));
            assert(pastes_view(v@).take(i + 1) =~= pastes_view(v@).take(i as int).push(v@[i as int]@));
        }
        i += 1;
    }
    proof {
        assert(pastes_view(v@).take(i as int) =~= pastes_view(v@));
    }
    out
}

/// The draft as it was before an edit, for undo and the history draft.
pub struct Snapshot {
    pub text: String,
    pub cursor: usize,
    pub pastes: Vec<Paste>,
    pub counter: usize,
}

pub struct SnapshotView {
    pub text: Seq<char>,
    pub cursor: usize,
    pub pastes: Seq<PasteView>,
    pub counter: usize,
}

impl View for Snapshot {
    type V = SnapshotView;

    open spec fn view(&self) -> SnapshotView {
        SnapshotView { text: self.text@, cursor: self.cursor, pastes: pastes_view(self.pastes@), counter: self.counter }
    }
}

impl Clone for Snapshot {
    fn clone(&self) -> (r: Self)
        ensures
            r@ == self@,
    {
        Snapshot {
            text: self.text.clone(),
            cursor: self.cursor,
            pastes: clone_pastes(&self.pastes),
            counter: self.counter,
        }
    }
}

pub open spec fn snapshots_view(v: Seq<Snapshot>) -> Seq<SnapshotView> {
    v.map_values(|s: Snapshot| s@)
}

/// The last kind of edit, for undo coalescing and kill/yank runs.
#[derive(Clone, Copy, Debug, PartialEq, Eq, Structural)]
pub enum Action {
    Idle,
    Type,
    Kill,
    Yank,
}

pub struct Editor {
    pub cursor: usize,
    pub top: usize,
    pub preferred: Option<usize>,
    pub snapped: Option<usize>,
    pub history: Vec<String>,
    pub history_index: Option<usize>,
    pub draft: Option<Snapshot>,
    pub undo: Vec<Snapshot>,
    pub ring: Vec<String>,
    pub yank_range: Option<Range<usize>>,
    pub pastes: Vec<Paste>,
    pub counter: usize,
    pub action: Action,
    pub jump: Option<bool>,
}

pub struct EditorView {
    pub cursor: usize,
    pub top: usize,
    pub preferred: Option<usize>,
    pub snapped: Option<usize>,
    pub history: Seq<Seq<char>>,
    pub history_index: Option<usize>,
    pub draft: Option<SnapshotView>,
    pub undo: Seq<SnapshotView>,
    pub ring: Seq<Seq<char>>,
    pub yank_range: Option<(usize, usize)>,
    pub pastes: Seq<PasteView>,
    pub counter: usize,
    pub action: Action,
    pub jump: Option<bool>,
}

pub open spec fn strings_view(v: Seq<String>) -> Seq<Seq<char>> {
    v.map_values(|s: String| s@)
}

impl View for Editor {
    type V = EditorView;

    open spec fn view(&self) -> EditorView {
        EditorView {
            cursor: self.cursor,
            top: self.top,
            preferred: self.preferred,
            snapped: self.snapped,
            history: strings_view(self.history@),
            history_index: self.history_index,
            draft: match self.draft {
                Some(d) => Some(d@),
                None => None,
            },
            undo: snapshots_view(self.undo@),
            ring: strings_view(self.ring@),
            yank_range: match self.yank_range {
                Some(r) => Some((r.start, r.end)),
                None => None,
            },
            pastes: pastes_view(self.pastes@),
            counter: self.counter,
            action: self.action,
            jump: self.jump,
        }
    }
}

/// Folded pastes of a draft: non-empty marker ranges on character
/// boundaries, in order and disjoint.
pub open spec fn pastes_wf(ps: Seq<PasteView>, t: Seq<char>) -> bool {
    &&& forall|i: int|
        0 <= i < ps.len() ==> #[trigger] ps[i].start < ps[i].end <= blen(t) && at_boundary(t, ps[i].start as int)
            && at_boundary(t, ps[i].end as int)
    &&& forall|i: int, j: int| 0 <= i < j < ps.len() ==> #[trigger] ps[i].end <= #[trigger] ps[j].start
}

pub open spec fn snapshot_wf(s: SnapshotView) -> bool {
    pastes_wf(s.pastes, s.text)
}

pub open spec fn range_wf(t: Seq<char>, a: int, b: int) -> bool {
    0 <= a <= b <= blen(t) && at_boundary(t, a) && at_boundary(t, b)
}

impl EditorView {
    /// The editor's state fits the draft `t`.
    pub open spec fn wf(self, t: Seq<char>) -> bool {
        &&& pastes_wf(self.pastes, t)
        &&& forall|i: int| 0 <= i < self.undo.len() ==> snapshot_wf(#[trigger] self.undo[i])
        &&& (self.draft matches Some(d) ==> snapshot_wf(d))
        &&& (self.history_index matches Some(i) ==> i < self.history.len())
        &&& (self.action == Action::Yank ==> (self.yank_range matches Some(r) && range_wf(t, r.0 as int, r.1 as int)))
        &&& self.undo.len() <= RETAIN
        &&& self.ring.len() <= RETAIN
        &&& self.history.len() <= RETAIN
    }
}

impl Default for Editor {
    fn default() -> (r: Self)
        ensures
            r@ == Editor::empty_spec(),
    {
        let r = Editor {
            cursor: 0,
            top: 0,
            preferred: None,
            snapped: None,
            history: Vec::new(),
            history_index: None,
            draft: None,
            undo: Vec::new(),
            ring: Vec::new(),
            yank_range: None,
            pastes: Vec::new(),
            counter: 0,
            action: Action::Idle,
            jump: None,
        };
        proof {
            assert(r@.history =~= Seq::<Seq<char>>::empty());
            assert(r@.undo =~= Seq::<SnapshotView>::empty());
            assert(r@.ring =~= Seq::<Seq<char>>::empty());
            assert(r@.pastes =~= Seq::<PasteView>::empty());
        }
        r
    }
}

impl Editor {
    pub open spec fn empty_spec() -> EditorView {
        EditorView {
            cursor: 0,
            top: 0,
            preferred: None,
            snapped: None,
            history: Seq::empty(),
            history_index: None,
            draft: None,
            undo: Seq::empty(),
            ring: Seq::empty(),
            yank_range: None,
            pastes: Seq::empty(),
            counter: 0,
            action: Action::Idle,
            jump: None,
        }
    }
}


// ---------------------------------------------------------------------------
// Slices and boundaries
// ---------------------------------------------------------------------------

/// Byte offset `k` of a slice is a boundary exactly where `a + k` is one of the text.
pub proof fn lemma_slice_boundary(t: Seq<char>, a: int, b: int, k: int)
    requires
        range_wf(t, a, b),
        0 <= k <= b - a,
    ensures
        at_boundary(bslice(t, a, b), k) == at_boundary(t, a + k),
        blen(bslice(t, a, b)) == b - a,
        encode_utf8(bslice(t, a, b)) == encode_utf8(t).subrange(a, b),
{
    lemma_slice_bytes(t, a, b);
    let s = bslice(t, a, b);
    if 0 < k < b - a {
        assert(encode_utf8(s)[k] == encode_utf8(t)[a + k]);
    }
}

/// The bytes of a slice taken at boundaries.
pub proof fn lemma_slice_bytes(t: Seq<char>, a: int, b: int)
    requires
        range_wf(t, a, b),
    ensures
        encode_utf8(bslice(t, a, b)) == encode_utf8(t).subrange(a, b),
        blen(bslice(t, a, b)) == b - a,
{
    let bs = encode_utf8(t);
    vstd::utf8::encode_utf8_valid_utf8(t);
    crate::bytes::lemma_boundary(t, a);
    crate::bytes::lemma_boundary(t, b);
    vstd::utf8::valid_utf8_split(bs, b);
    let pre = bs.subrange(0, b);
    assert(pre.len() == b);
    // `a` is still a boundary of the prefix.
    vstd::utf8::is_char_boundary_start_end_of_seq(pre);
    if 0 < a < b {
        vstd::utf8::is_char_boundary_iff_not_is_continuation_byte(pre, a);
        vstd::utf8::is_char_boundary_iff_not_is_continuation_byte(bs, a);
        assert(pre[a] == bs[a]);
    }
    vstd::utf8::valid_utf8_split(pre, a);
    assert(pre.subrange(a, b) =~= bs.subrange(a, b));
    vstd::utf8::decode_utf8_encode_utf8(bs.subrange(a, b));
}

/// Offsets inside a slice, seen from the whole text.
pub proof fn lemma_slice_of_slice(t: Seq<char>, a: int, b: int, c: int, d: int)
    requires
        range_wf(t, a, b),
        0 <= c <= d <= b - a,
        at_boundary(t, a + c),
        at_boundary(t, a + d),
    ensures
        bslice(bslice(t, a, b), c, d) == bslice(t, a + c, a + d),
        range_wf(bslice(t, a, b), c, d),
{
    lemma_slice_bytes(t, a, b);
    lemma_slice_boundary(t, a, b, c);
    lemma_slice_boundary(t, a, b, d);
    assert(encode_utf8(t).subrange(a, b).subrange(c, d) =~= encode_utf8(t).subrange(a + c, a + d));
}

// ---------------------------------------------------------------------------
// Editing units
// ---------------------------------------------------------------------------

/// Index of the first paste whose marker starts at byte `at`, looking from `i` on.
pub open spec fn paste_index_from(ps: Seq<PasteView>, at: int, i: int) -> Option<int>
    decreases ps.len() - i,
{
    if i < 0 || i >= ps.len() {
        None
    } else if ps[i].start == at {
        Some(i)
    } else {
        paste_index_from(ps, at, i + 1)
    }
}

pub open spec fn paste_index(ps: Seq<PasteView>, at: int) -> Option<int> {
    paste_index_from(ps, at, 0)
}

proof fn lemma_paste_index_from(ps: Seq<PasteView>, at: int, i: int)
    requires
        0 <= i,
    ensures
        paste_index_from(ps, at, i) matches Some(k) ==> i <= k < ps.len() && ps[k].start == at,
    decreases ps.len() - i,
{
    if i < ps.len() && ps[i].start != at {
        lemma_paste_index_from(ps, at, i + 1);
    }
}

fn find_paste(pastes: &Vec<Paste>, at: usize) -> (r: Option<usize>)
    ensures
        match paste_index(pastes_view(pastes@), at as int) {
            Some(k) => r == Some(k as usize),
            None => r.is_none(),
        },
        r matches Some(k) ==> k < pastes@.len() && pastes@[k as int].range.start == at,
{
    let ghost ps = pastes_view(pastes@);
    let mut i: usize = 0;
    while i < pastes.len()
        invariant
            ps == pastes_view(pastes@),
            i <= pastes.len(),
            paste_index_from(ps, at as int, 0) == paste_index_from(ps, at as int, i as int),
        decreases pastes.len() - i,
    {
        if pastes[i].range.start == at {
            proof {
                assert(ps[i as int].start == at);
            }
            return Some(i);
        }
        i += 1;
    }
    None
}

/// Length of the first grapheme cluster of a text (all of it when there is one).
pub open spec fn first_cluster_len(s: Seq<char>) -> nat {
    let g = grapheme_starts(s);
    if g.len() > 1 {
        g[1] as nat
    } else {
        blen(s)
    }
}

pub open spec fn sat_sub(a: nat, b: nat) -> nat {
    if a >= b {
        (a - b) as nat
    } else {
        0
    }
}

pub open spec fn min_nat(a: nat, b: nat) -> nat {
    if a <= b {
        a
    } else {
        b
    }
}

/// End of the editing unit of `line` at `pos`; `line` starts at byte `base`
/// of the draft. A folded paste marker is one unit, otherwise one cluster.
pub open spec fn atom_end(line: Seq<char>, base: nat, ps: Seq<PasteView>, pos: nat) -> nat {
    match paste_index(ps, (base + pos) as int) {
        Some(k) => min_nat(sat_sub(ps[k].end, base), blen(line)),
        None => pos + first_cluster_len(bslice(line, pos as int, blen(line) as int)),
    }
}

/// The editing units of `line` from `pos` on, as `(start, end)` byte ranges.
pub open spec fn atoms_from(line: Seq<char>, base: nat, ps: Seq<PasteView>, pos: nat) -> Seq<(nat, nat)>
    decreases blen(line) - pos,
{
    if pos >= blen(line) {
        Seq::empty()
    } else {
        let e = atom_end(line, base, ps, pos);
        if e <= pos || e > blen(line) {
            Seq::empty()
        } else {
            seq![(pos, e)] + atoms_from(line, base, ps, e)
        }
    }
}

pub open spec fn atoms_of(line: Seq<char>, base: nat, ps: Seq<PasteView>) -> Seq<(nat, nat)> {
    atoms_from(line, base, ps, 0)
}

pub open spec fn pairs_view(v: Seq<(usize, usize)>) -> Seq<(nat, nat)> {
    v.map_values(|x: (usize, usize)| (x.0 as nat, x.1 as nat))
}

/// Every paste marker that starts inside `line` ends past it or on one of its
/// boundaries, and markers are non-empty.
pub open spec fn markers_fit(line: Seq<char>, base: nat, ps: Seq<PasteView>) -> bool {
    forall|i: int|
        0 <= i < ps.len() ==> #[trigger] ps[i].start < ps[i].end && (base <= ps[i].start < base + blen(line)
            ==> (ps[i].end >= base + blen(line) || at_boundary(line, ps[i].end - base)))
}

/// The units follow one another from byte 0 up to `len`.
pub open spec fn units_chain(units: Seq<(nat, nat)>, len: nat) -> bool {
    &&& (units.len() == 0 ==> len == 0)
    &&& (units.len() > 0 ==> units[0].0 == 0 && units.last().1 == len)
    &&& forall|i: int| 0 <= i < units.len() - 1 ==> #[trigger] units[i].1 == units[i + 1].0
}

/// The units are consecutive non-empty ranges on boundaries of `line`.
pub open spec fn units_wf(units: Seq<(nat, nat)>, line: Seq<char>) -> bool {
    forall|i: int|
        0 <= i < units.len() ==> #[trigger] units[i].0 < units[i].1 <= blen(line) && at_boundary(line, units[i].0 as int)
            && at_boundary(line, units[i].1 as int)
}

fn atoms(line: &str, base: usize, pastes: &Vec<Paste>) -> (r: Vec<(usize, usize)>)
    requires
        base + blen(line@) <= usize::MAX,
        markers_fit(line@, base as nat, pastes_view(pastes@)),
    ensures
        pairs_view(r@) == atoms_of(line@, base as nat, pastes_view(pastes@)),
        units_wf(pairs_view(r@), line@),
        units_chain(pairs_view(r@), blen(line@)),
{
    let ghost ps = pastes_view(pastes@);
    let ghost l = line@;
    let len = byte_len(line);
    let mut out: Vec<(usize, usize)> = Vec::new();
    let mut pos: usize = 0;
    proof {
        crate::bytes::lemma_boundary(l, 0);
    }
    while pos < len
        invariant
            ps == pastes_view(pastes@),
            ps.len() == pastes.len(),
            l == line@,
            len == blen(l),
            base + len <= usize::MAX,
            markers_fit(l, base as nat, ps),
            pos <= len,
            at_boundary(l, pos as int),
            atoms_of(l, base as nat, ps) == pairs_view(out@) + atoms_from(l, base as nat, ps, pos as nat),
            units_wf(pairs_view(out@), l),
            units_chain(pairs_view(out@), pos as nat),
        decreases len - pos,
    {
        let end = match find_paste(pastes, base + pos) {
            Some(k) => {
                let pe = pastes[k].range.end;
                let rel = if pe >= base { pe - base } else { 0 };
                proof {
                    lemma_paste_index_from(ps, (base + pos) as int, 0);
                    assert(ps[k as int].start < ps[k as int].end);
                }
                let e = if rel < len { rel } else { len };
                proof {
                    match paste_index(ps, (base + pos) as int) {
                        Some(j) => {
                            assert(0 <= j < ps.len());
                            assert(ps.len() == pastes@.len());
                            assert(k as int == j);
                        },
                        None => {},
                    }
                    assert(paste_index(ps, (base + pos) as int) == Some(k as int));
                    assert(ps[k as int].end == pe as nat);
                    assert(e == atom_end(l, base as nat, ps, pos as nat));
                }
                e
            },
            None => {
                let rest = slice(line, pos, len);
                let g = grapheme_offsets(rest);
                proof {
                    lemma_slice_boundary(l, pos as int, len as int, 0);
                }
                proof {
                    assert(paste_index(ps, (base + pos) as int) is None);
                    assert(rest@ == bslice(l, pos as int, len as int));
                }
                if g.len() > 1 {
                    proof {
                        assert(g@[0] < g@[1]);
                        lemma_slice_boundary(l, pos as int, len as int, g@[1] as int);
                    }
                    pos + g[1]
                } else {
                    len
                }
            },
        };
        proof {
            assert(end == atom_end(l, base as nat, ps, pos as nat));
            assert(pos < end <= len);
            assert(at_boundary(l, end as int));
        }
        let ghost before = pairs_view(out@);
        out.push((pos, end));
        proof {
            assert(pairs_view(out@) =~= before.push((pos as nat, end as nat)));
            assert(units_chain(pairs_view(out@), end as nat));
            assert(atoms_from(l, base as nat, ps, pos as nat) == seq![(pos as nat, end as nat)] + atoms_from(l, base as nat, ps, end as nat));
            assert(before + atoms_from(l, base as nat, ps, pos as nat) =~= pairs_view(out@) + atoms_from(l, base as nat, ps, end as nat));
        }
        pos = end;
    }
    proof {
        assert(atoms_from(l, base as nat, ps, pos as nat) =~= Seq::<(nat, nat)>::empty());
        assert(pairs_view(out@) + Seq::<(nat, nat)>::empty() =~= pairs_view(out@));
    }
    out
}

/// A draft's folded pastes fit every slice of it taken at boundaries.
pub proof fn lemma_markers_fit(t: Seq<char>, ps: Seq<PasteView>, a: int, b: int)
    requires
        pastes_wf(ps, t),
        range_wf(t, a, b),
    ensures
        markers_fit(bslice(t, a, b), a as nat, ps),
{
    lemma_slice_bytes(t, a, b);
    let line = bslice(t, a, b);
    assert forall|i: int| 0 <= i < ps.len() implies #[trigger] ps[i].start < ps[i].end && (a <= ps[i].start < a
        + blen(line) ==> (ps[i].end >= a + blen(line) || at_boundary(line, ps[i].end - a))) by {
        if a <= ps[i].start < a + blen(line) && ps[i].end < a + blen(line) {
            lemma_slice_boundary(t, a, b, ps[i].end - a);
        }
    }
}

// ---------------------------------------------------------------------------
// Snapping the cursor
// ---------------------------------------------------------------------------

/// Index of the first paste whose marker strictly contains byte `c`, from `i` on.
pub open spec fn containing_from(ps: Seq<PasteView>, c: int, i: int) -> Option<int>
    decreases ps.len() - i,
{
    if i < 0 || i >= ps.len() {
        None
    } else if ps[i].start < c < ps[i].end {
        Some(i)
    } else {
        containing_from(ps, c, i + 1)
    }
}

proof fn lemma_containing_from(ps: Seq<PasteView>, c: int, i: int)
    requires
        0 <= i,
    ensures
        containing_from(ps, c, i) matches Some(k) ==> i <= k < ps.len() && ps[k].start < c < ps[k].end,
        containing_from(ps, c, i) is None ==> forall|j: int| i <= j < ps.len() ==> !(#[trigger] ps[j].start < c < ps[j].end),
    decreases ps.len() - i,
{
    if i < ps.len() {
        lemma_containing_from(ps, c, i + 1);
    }
}

/// The last of the cluster starts (and then the end) that does not pass `c`,
/// scanning in order from the `k`-th; `last` is the one found so far.
pub open spec fn cluster_scan(starts: Seq<usize>, len: nat, c: nat, k: int, last: nat) -> nat
    decreases starts.len() + 1 - k,
{
    if k < 0 || k > starts.len() {
        last
    } else {
        let e = if k < starts.len() {
            starts[k] as nat
        } else {
            len
        };
        if e <= c {
            cluster_scan(starts, len, c, k + 1, e)
        } else {
            last
        }
    }
}

/// Where a cursor at byte `cursor` settles: never past the end, never inside
/// a paste marker (its start instead), otherwise on the last cluster start.
pub open spec fn snap_spec(t: Seq<char>, ps: Seq<PasteView>, cursor: nat) -> nat {
    let c = min_nat(cursor, blen(t));
    match containing_from(ps, c as int, 0) {
        Some(k) => ps[k].start,
        None => cluster_scan(grapheme_starts(t), blen(t), c, 0, 0),
    }
}

pub(crate) fn snap(pastes: &Vec<Paste>, text: &str, cursor: usize) -> (r: usize)
    requires
        pastes_wf(pastes_view(pastes@), text@),
    ensures
        r == snap_spec(text@, pastes_view(pastes@), cursor as nat),
        r <= blen(text@),
        at_boundary(text@, r as int),
{
    let ghost ps = pastes_view(pastes@);
    let len = byte_len(text);
    let c = if cursor < len { cursor } else { len };
    let mut i: usize = 0;
    while i < pastes.len()
        invariant
            ps == pastes_view(pastes@),
            pastes_wf(ps, text@),
            len == blen(text@),
            c as nat == min_nat(cursor as nat, len as nat),
            i <= pastes.len(),
            containing_from(ps, c as int, 0) == containing_from(ps, c as int, i as int),
        decreases pastes.len() - i,
    {
        if pastes[i].range.start < c && c < pastes[i].range.end {
            proof {
                assert(ps[i as int].start < ps[i as int].end);
            }
            return pastes[i].range.start;
        }
        i += 1;
    }
    let g = grapheme_offsets(text);
    let mut k: usize = 0;
    let mut last: usize = 0;
    proof {
        crate::bytes::lemma_boundary(text@, 0);
    }
    while k < g.len()
        invariant
            g@ == grapheme_starts(text@),
            cuts(g@, text@),
            len == blen(text@),
            c as nat == min_nat(cursor as nat, len as nat),
            k <= g@.len(),
            last <= c,
            at_boundary(text@, last as int),
            ps == pastes_view(pastes@),
            containing_from(ps, c as int, 0) is None,
            cluster_scan(g@, len as nat, c as nat, 0, 0) == cluster_scan(g@, len as nat, c as nat, k as int, last as nat),
        decreases g@.len() - k,
    {
        proof {
            assert(at_boundary(text@, g@[k as int] as int));
        }
        if g[k] <= c {
            last = g[k];
            k += 1;
        } else {
            return last;
        }
    }
    proof {
        crate::bytes::lemma_boundary(text@, len as int);
        reveal_with_fuel(cluster_scan, 2);
    }
    if len <= c {
        len
    } else {
        last
    }
}

impl Editor {
    /// Settles the cursor on an editing boundary of `text`.
    pub fn normalize(&mut self, text: &str)
        requires
            old(self)@.wf(text@),
        ensures
            final(self)@ == (EditorView { cursor: snap_spec(text@, old(self)@.pastes, old(self)@.cursor as nat) as usize, ..old(self)@ }),
            final(self)@.cursor <= blen(text@),
            at_boundary(text@, final(self)@.cursor as int),
    {
        self.cursor = snap(&self.pastes, text, self.cursor);
    }
}

// ---------------------------------------------------------------------------
// Expansion of folded pastes
// ---------------------------------------------------------------------------

/// The draft from byte `pos` on with the pastes from the `i`-th on unfolded.
pub open spec fn expand_from(t: Seq<char>, ps: Seq<PasteView>, i: int, pos: nat) -> Seq<char>
    decreases ps.len() - i,
{
    if i < 0 || i >= ps.len() {
        bslice(t, pos as int, blen(t) as int)
    } else if ps[i].start >= pos && ps[i].end <= blen(t) {
        bslice(t, pos as int, ps[i].start as int) + ps[i].payload + expand_from(t, ps, i + 1, ps[i].end)
    } else {
        expand_from(t, ps, i + 1, pos)
    }
}

/// The draft with every folded paste replaced by what it stands for.
pub open spec fn expanded_text(t: Seq<char>, ps: Seq<PasteView>) -> Seq<char> {
    expand_from(t, ps, 0, 0)
}

fn expand(pastes: &Vec<Paste>, text: &str) -> (r: String)
    requires
        pastes_wf(pastes_view(pastes@), text@),
    ensures
        r@ == expanded_text(text@, pastes_view(pastes@)),
{
    let ghost ps = pastes_view(pastes@);
    let ghost t = text@;
    let len = byte_len(text);
    let mut result = String::new();
    let mut pos: usize = 0;
    let mut i: usize = 0;
    proof {
        crate::bytes::lemma_boundary(t, 0);
        assert(result@ + expand_from(t, ps, 0, 0) =~= expand_from(t, ps, 0, 0));
    }
    while i < pastes.len()
        invariant
            ps == pastes_view(pastes@),
            t == text@,
            len == blen(t),
            pastes_wf(ps, t),
            i <= pastes.len(),
            pos <= len,
            at_boundary(t, pos as int),
            expanded_text(t, ps) == result@ + expand_from(t, ps, i as int, pos as nat),
        decreases pastes.len() - i,
    {
        let start = pastes[i].range.start;
        let end = pastes[i].range.end;
        if start >= pos && end <= len {
            proof {
                assert(ps[i as int].start == start && ps[i as int].end == end);
            }
            let piece = slice(text, pos, start);
            let ghost before = result@;
            push_str(&mut result, piece);
            push_str(&mut result, pastes[i].payload.as_str());
            proof {
                assert(result@ + expand_from(t, ps, i + 1, end as nat) =~= before + expand_from(t, ps, i as int, pos as nat));
            }
            pos = end;
        }
        i += 1;
    }
    let tail = slice(text, pos, len);
    let ghost before = result@;
    push_str(&mut result, tail);
    proof {
        assert(result@ =~= before + expand_from(t, ps, i as int, pos as nat));
    }
    result
}

impl Editor {
    /// The draft with folded pastes unfolded: what a send submits.
    pub fn expanded(&self, text: &str) -> (r: String)
        requires
            self@.wf(text@),
        ensures
            r@ == expanded_text(text@, self@.pastes),
    {
        expand(&self.pastes, text)
    }
}

// ---------------------------------------------------------------------------
// Rows and columns
// ---------------------------------------------------------------------------

/// One visual row of the draft: a byte range.
#[derive(Debug, Default, PartialEq, Eq)]
pub struct Row {
    pub start: usize,
    pub end: usize,
}

/// Index of the last row starting at or before `cursor`, looking at rows `..i`.
pub open spec fn row_at_spec(rows: Seq<(nat, nat)>, cursor: nat, i: int) -> nat
    decreases i,
{
    if i <= 0 {
        0
    } else if rows[i - 1].0 <= cursor {
        (i - 1) as nat
    } else {
        row_at_spec(rows, cursor, i - 1)
    }
}

pub proof fn lemma_row_at(rows: Seq<(nat, nat)>, cursor: nat, i: int)
    requires
        0 <= i <= rows.len(),
    ensures
        i > 0 ==> row_at_spec(rows, cursor, i) < i,
        i > 0 && rows[0].0 <= cursor ==> rows[row_at_spec(rows, cursor, i) as int].0 <= cursor,
    decreases i,
{
    if i > 0 {
        if rows[i - 1].0 > cursor {
            lemma_row_at(rows, cursor, i - 1);
            if i - 1 == 0 {
                assert(row_at_spec(rows, cursor, 0) == 0);
            }
        }
    }
}

/// The row holding `cursor`: the last one that starts at or before it (the first row if none).
pub fn row_at(rows: &[Row], cursor: usize) -> (r: usize)
    ensures
        r == row_at_spec(rows_view(rows@), cursor as nat, rows@.len() as int),
{
    let ghost rv = rows_view(rows@);
    let mut i = rows.len();
    while i > 0
        invariant
            rv == rows_view(rows@),
            i <= rows@.len(),
            row_at_spec(rv, cursor as nat, rows@.len() as int) == row_at_spec(rv, cursor as nat, i as int),
        decreases i,
    {
        proof {
            assert(rv[i - 1].0 == rows@[i - 1].start);
        }
        if rows[i - 1].start <= cursor {
            return i - 1;
        }
        i -= 1;
    }
    0
}

/// Byte offset where a cluster starts, or the end, for the `k`-th cut of `starts`.
pub open spec fn cut_at(starts: Seq<usize>, len: nat, k: int) -> nat {
    if 0 <= k < starts.len() {
        starts[k] as nat
    } else {
        len
    }
}

/// The first cluster from the `k`-th on whose right edge passes column
/// `column`, `x` columns being taken before it; the end if none does.
pub open spec fn column_scan(t: Seq<char>, starts: Seq<usize>, column: nat, k: int, x: nat) -> nat
    decreases starts.len() - k,
{
    if k < 0 || k >= starts.len() {
        blen(t)
    } else {
        let x2: nat = x + (display_width(bslice(t, starts[k] as int, cut_at(starts, blen(t), k + 1) as int)) as nat);
        if x2 > column {
            starts[k] as nat
        } else {
            column_scan(t, starts, column, k + 1, x2 as nat)
        }
    }
}

/// The byte offset of the cluster that covers display column `column`.
pub fn byte_at_column(text: &str, column: usize) -> (r: usize)
    ensures
        r == column_scan(text@, grapheme_starts(text@), column as nat, 0, 0),
        r <= blen(text@),
        at_boundary(text@, r as int),
{
    let g = grapheme_offsets(text);
    let len = byte_len(text);
    let mut x: usize = 0;
    let mut k: usize = 0;
    while k < g.len()
        invariant
            g@ == grapheme_starts(text@),
            cuts(g@, text@),
            len == blen(text@),
            k <= g@.len(),
            column_scan(text@, g@, column as nat, 0, 0) == column_scan(text@, g@, column as nat, k as int, x as nat),
        decreases g.len() - k,
    {
        let next = if k + 1 < g.len() { g[k + 1] } else { len };
        proof {
            assert(at_boundary(text@, g@[k as int] as int));
            if k + 1 < g.len() {
                assert(at_boundary(text@, g@[k + 1] as int));
                assert(g@[k as int] < g@[k + 1]);
            } else {
                crate::bytes::lemma_boundary(text@, len as int);
            }
        }
        let cluster = slice(text, g[k], next);
        let w = width_of(cluster);
        match x.checked_add(w) {
            None => {
                return g[k];
            },
            Some(v) => {
                x = v;
                if x > column {
                    return g[k];
                }
            },
        }
        k += 1;
    }
    proof {
        crate::bytes::lemma_boundary(text@, len as int);
    }
    len
}

// ---------------------------------------------------------------------------
// Replacing a range of the draft
// ---------------------------------------------------------------------------

/// The draft with bytes `a..b` replaced by `input`.
pub open spec fn replaced(t: Seq<char>, a: int, b: int, input: Seq<char>) -> Seq<char> {
    bslice(t, 0, a) + input + bslice(t, b, blen(t) as int)
}

/// Where a byte offset `y >= b` of the old draft lands after replacing `a..b` by `n` bytes.
pub open spec fn moved_by(y: nat, a: nat, b: nat, n: nat) -> nat {
    (y - b + a + n) as nat
}

/// Folded pastes after replacing bytes `a..b` by `n` bytes: markers before
/// the range stay, markers it touches are dropped, later ones move.
pub open spec fn shifted(ps: Seq<PasteView>, a: nat, b: nat, n: nat) -> Seq<PasteView>
    decreases ps.len(),
{
    if ps.len() == 0 {
        Seq::empty()
    } else {
        let p = ps[0];
        let rest = shifted(ps.drop_first(), a, b, n);
        if p.end <= a {
            seq![p] + rest
        } else if p.start < b {
            rest
        } else {
            seq![PasteView { start: moved_by(p.start, a, b, n), end: moved_by(p.end, a, b, n), payload: p.payload }] + rest
        }
    }
}

/// The first cluster start at or after byte `c`, or the end.
pub open spec fn first_at_least(starts: Seq<usize>, len: nat, c: nat, k: int) -> nat
    decreases starts.len() - k,
{
    if k < 0 || k >= starts.len() {
        len
    } else if starts[k] >= c {
        starts[k] as nat
    } else {
        first_at_least(starts, len, c, k + 1)
    }
}

pub open spec fn forward_cluster(t: Seq<char>, c: nat) -> nat {
    first_at_least(grapheme_starts(t), blen(t), c, 0)
}

impl EditorView {
    pub open spec fn moved_spec(self) -> EditorView {
        EditorView { action: Action::Idle, preferred: None, snapped: None, yank_range: None, ..self }
    }

    pub open spec fn exit_history_spec(self) -> EditorView {
        EditorView { history_index: None, draft: None, ..self }
    }

    pub open spec fn normalized(self, t: Seq<char>) -> EditorView {
        EditorView { cursor: snap_spec(t, self.pastes, self.cursor as nat) as usize, ..self }
    }

    pub open spec fn snapshot_spec(self, t: Seq<char>) -> SnapshotView {
        SnapshotView { text: t, cursor: self.cursor, pastes: self.pastes, counter: self.counter }
    }

    /// Records the draft for undo, dropping the oldest record at the cap.
    pub open spec fn save_spec(self, t: Seq<char>) -> EditorView {
        let kept = if self.undo.len() == RETAIN {
            self.undo.drop_first()
        } else {
            self.undo
        };
        EditorView { undo: kept.push(self.snapshot_spec(t)), ..self }
    }

    /// Replaces bytes `a..b` of the draft by `input`; the cursor lands after
    /// the input, moved forward to the next cluster start.
    pub open spec fn replace_spec(self, t: Seq<char>, a: nat, b: nat, input: Seq<char>) -> (EditorView, Seq<char>) {
        let t2 = replaced(t, a as int, b as int, input);
        (
            EditorView {
                pastes: shifted(self.pastes, a, b, blen(input)),
                cursor: forward_cluster(t2, a + blen(input)) as usize,
                preferred: None,
                snapped: None,
                ..self
            },
            t2,
        )
    }
}

/// A boundary inside the text sits on a byte that starts a character.
pub proof fn lemma_boundary_byte(t: Seq<char>, y: int)
    requires
        at_boundary(t, y),
        0 <= y < blen(t),
    ensures
        !vstd::utf8::is_continuation_byte(encode_utf8(t)[y]),
{
    if y == 0 {
        vstd::utf8::encode_utf8_valid_utf8(t);
        vstd::utf8::is_char_boundary_start_end_of_seq(encode_utf8(t));
        vstd::utf8::is_char_boundary_iff_not_is_continuation_byte(encode_utf8(t), 0);
    }
}

pub proof fn lemma_replaced(t: Seq<char>, a: int, b: int, input: Seq<char>)
    requires
        range_wf(t, a, b),
    ensures
        encode_utf8(replaced(t, a, b, input)) == encode_utf8(t).subrange(0, a) + encode_utf8(input)
            + encode_utf8(t).subrange(b, blen(t) as int),
        blen(replaced(t, a, b, input)) == a + blen(input) + (blen(t) - b),
        forall|x: int| 0 <= x <= a && at_boundary(t, x) ==> #[trigger] at_boundary(replaced(t, a, b, input), x),
        forall|y: int|
            b <= y <= blen(t) && at_boundary(t, y) ==> #[trigger] at_boundary(
                replaced(t, a, b, input),
                y - b + a + blen(input),
            ),
{
    crate::bytes::lemma_boundary(t, 0);
    crate::bytes::lemma_boundary(t, blen(t) as int);
    lemma_slice_bytes(t, 0, a);
    lemma_slice_bytes(t, b, blen(t) as int);
    let p = bslice(t, 0, a);
    let q = bslice(t, b, blen(t) as int);
    lemma_encode_concat(p, input);
    lemma_encode_concat(p + input, q);
    let bs = encode_utf8(t);
    let t2 = replaced(t, a, b, input);
    let b2 = encode_utf8(t2);
    let n = blen(input);
    assert(b2 =~= bs.subrange(0, a) + encode_utf8(input) + bs.subrange(b, blen(t) as int));
    vstd::utf8::encode_utf8_valid_utf8(input);
    if n > 0 {
        vstd::utf8::is_char_boundary_start_end_of_seq(encode_utf8(input));
        vstd::utf8::is_char_boundary_iff_not_is_continuation_byte(encode_utf8(input), 0);
    }
    assert forall|x: int| 0 <= x <= a && at_boundary(t, x) implies #[trigger] at_boundary(t2, x) by {
        if x < a {
            assert(b2[x] == bs[x]);
        } else if x < b2.len() {
            if n > 0 {
                assert(b2[x] == encode_utf8(input)[0]);
            } else {
                lemma_boundary_byte(t, b);
                assert(b2[x] == bs[b]);
            }
        }
    }
    assert(b2.len() == a + n + (blen(t) - b));
    assert forall|y: int| b <= y <= blen(t) && at_boundary(t, y) implies #[trigger] at_boundary(t2, y - b + a + n) by {
        let z = y - b + a + n;
        if y < blen(t) {
            lemma_boundary_byte(t, y);
            assert(bs.subrange(b, blen(t) as int)[y - b] == bs[y]);
            assert(b2[z] == bs[y]);
        }
    }
}

proof fn lemma_shifted(ps: Seq<PasteView>, t: Seq<char>, a: nat, b: nat, input: Seq<char>, lo: nat)
    requires
        pastes_wf(ps, t),
        range_wf(t, a as int, b as int),
        forall|i: int| 0 <= i < ps.len() ==> #[trigger] ps[i].start >= lo,
    ensures
        pastes_wf(shifted(ps, a, b, blen(input)), replaced(t, a as int, b as int, input)),
        forall|i: int|
            0 <= i < shifted(ps, a, b, blen(input)).len() ==> #[trigger] shifted(ps, a, b, blen(input))[i].start
                >= (if lo <= a {
                lo
            } else if lo >= b {
                moved_by(lo, a, b, blen(input))
            } else {
                a + blen(input)
            }),
        forall|i: int|
            0 <= i < shifted(ps, a, b, blen(input)).len() ==> (#[trigger] shifted(ps, a, b, blen(input))[i]).end <= a
                || shifted(ps, a, b, blen(input))[i].start >= a + blen(input),
    decreases ps.len(),
{
    let n = blen(input);
    let t2 = replaced(t, a as int, b as int, input);
    lemma_replaced(t, a as int, b as int, input);
    if ps.len() > 0 {
        let p = ps[0];
        let rest = ps.drop_first();
        assert(pastes_wf(rest, t)) by {
            assert forall|i: int, j: int| 0 <= i < j < rest.len() implies #[trigger] rest[i].end <= #[trigger] rest[j].start by {
                assert(ps[i + 1].end <= ps[j + 1].start);
            }
            assert forall|i: int| 0 <= i < rest.len() implies #[trigger] rest[i].start < rest[i].end <= blen(t) && at_boundary(t, rest[i].start as int) && at_boundary(t, rest[i].end as int) by {
                assert(rest[i] == ps[i + 1]);
            }
        }
        assert(p.start < p.end);
        assert forall|i: int| 0 <= i < rest.len() implies #[trigger] rest[i].start >= p.end by {
            assert(ps[0].end <= ps[i + 1].start);
        }
        lemma_shifted(rest, t, a, b, input, p.end);
        let sr = shifted(rest, a, b, n);
        let out = shifted(ps, a, b, n);
        if p.end <= a {
            assert(out == seq![p] + sr);
            assert(at_boundary(t2, p.start as int));
            assert(at_boundary(t2, p.end as int));
        } else if p.start < b {
            assert(out == sr);
        } else {
            let q = PasteView { start: moved_by(p.start, a, b, n), end: moved_by(p.end, a, b, n), payload: p.payload };
            assert(out == seq![q] + sr);
            assert(at_boundary(t2, p.start - b + a + n));
            assert(at_boundary(t2, p.end - b + a + n));
        }
    }
}

/// The first cluster start at or after byte `c` is a boundary of the text.
proof fn lemma_first_at_least(t: Seq<char>, starts: Seq<usize>, c: nat, k: int)
    requires
        cuts(starts, t),
        0 <= k,
    ensures
        first_at_least(starts, blen(t), c, k) <= blen(t),
        at_boundary(t, first_at_least(starts, blen(t), c, k) as int),
        c <= blen(t) ==> first_at_least(starts, blen(t), c, k) >= c,
    decreases starts.len() - k,
{
    crate::bytes::lemma_boundary(t, blen(t) as int);
    if k < starts.len() {
        assert(at_boundary(t, starts[k] as int));
        lemma_first_at_least(t, starts, c, k + 1);
    }
}

/// The first cluster start at or after byte `c` (the end if none).
fn cluster_at_or_after(text: &str, c: usize) -> (r: usize)
    ensures
        r == forward_cluster(text@, c as nat),
        r <= blen(text@),
        at_boundary(text@, r as int),
        c <= blen(text@) ==> r >= c,
{
    let g = grapheme_offsets(text);
    let len = byte_len(text);
    proof {
        lemma_first_at_least(text@, g@, c as nat, 0);
    }
    let mut k: usize = 0;
    while k < g.len()
        invariant
            g@ == grapheme_starts(text@),
            cuts(g@, text@),
            len == blen(text@),
            k <= g@.len(),
            first_at_least(g@, len as nat, c as nat, 0) == first_at_least(g@, len as nat, c as nat, k as int),
        decreases g.len() - k,
    {
        if g[k] >= c {
            proof {
                assert(at_boundary(text@, g@[k as int] as int));
            }
            return g[k];
        }
        k += 1;
    }
    len
}

impl Editor {
    fn replace(&mut self, text: &mut String, a: usize, b: usize, input: &str)
        requires
            range_wf(old(text)@, a as int, b as int),
            pastes_wf(old(self)@.pastes, old(text)@),
        ensures
            (final(self)@, final(text)@) == old(self)@.replace_spec(old(text)@, a as nat, b as nat, input@),
            pastes_wf(final(self)@.pastes, final(text)@),
            final(self)@.cursor <= blen(final(text)@),
            at_boundary(final(text)@, final(self)@.cursor as int),
            final(self)@.cursor >= a + blen(input@),
    {
        let ghost t = text@;
        let ghost ps = self@.pastes;
        let len = byte_len(text.as_str());
        proof {
            crate::bytes::lemma_boundary(t, 0);
            crate::bytes::lemma_boundary(t, len as int);
        }
        let mut out = String::new();
        push_str(&mut out, slice(text.as_str(), 0, a));
        push_str(&mut out, input);
        push_str(&mut out, slice(text.as_str(), b, len));
        proof {
            assert(out@ =~= replaced(t, a as int, b as int, input@));
            lemma_replaced(t, a as int, b as int, input@);
            lemma_shifted(ps, t, a as nat, b as nat, input@, 0);
        }
        let new_len = byte_len(out.as_str());
        let n = byte_len(input);
        let mut kept: Vec<Paste> = Vec::new();
        let mut i: usize = 0;
        proof {
            assert(ps.skip(0) =~= ps);
        }
        while i < self.pastes.len()
            invariant
                ps == pastes_view(self.pastes@),
                pastes_wf(ps, t),
                range_wf(t, a as int, b as int),
                new_len == blen(replaced(t, a as int, b as int, input@)),
                new_len == a + n + (blen(t) - b),
                n == blen(input@),
                i <= ps.len(),
                shifted(ps, a as nat, b as nat, n as nat) == pastes_view(kept@) + shifted(ps.skip(i as int), a as nat, b as nat, n as nat),
            decreases ps.len() - i,
        {
            let p = &self.pastes[i];
            let ghost pv = ps[i as int];
            proof {
                assert(ps.skip(i as int)[0] == pv);
                assert(ps.skip(i as int).drop_first() =~= ps.skip(i + 1));
                assert(pv == p@);
                assert(pv.start < pv.end <= blen(t));
            }
            let ghost before = pastes_view(kept@);
            if p.range.end <= a {
                kept.push(p.clone());
                proof {
                    assert(pastes_view(kept@) =~= before.push(pv));
                    assert(pastes_view(kept@) + shifted(ps.skip(i + 1), a as nat, b as nat, n as nat) =~= before + (seq![pv] + shifted(ps.skip(i + 1), a as nat, b as nat, n as nat)));
                }
            } else if p.range.start < b {
            } else {
                let start = p.range.start - (b - a) + n;
                let end = start + (p.range.end - p.range.start);
                let q = Paste { range: start..end, payload: p.payload.clone() };
                kept.push(q);
                proof {
                    let qv = PasteView { start: moved_by(pv.start, a as nat, b as nat, n as nat), end: moved_by(pv.end, a as nat, b as nat, n as nat), payload: pv.payload };
                    assert(pastes_view(kept@) =~= before.push(qv));
                    assert(pastes_view(kept@) + shifted(ps.skip(i + 1), a as nat, b as nat, n as nat) =~= before + (seq![qv] + shifted(ps.skip(i + 1), a as nat, b as nat, n as nat)));
                }
            }
            i += 1;
        }
        proof {
            assert(ps.skip(i as int) =~= Seq::<PasteView>::empty());
            assert(pastes_view(kept@) =~= shifted(ps, a as nat, b as nat, n as nat));
        }
        self.pastes = kept;
        *text = out;
        let found = cluster_at_or_after(text.as_str(), a + n);
        self.cursor = found;
        self.preferred = None;
        self.snapped = None;
    }
}

// ---------------------------------------------------------------------------
// Typing and pasting
// ---------------------------------------------------------------------------

/// Whether `c` survives input cleaning: newlines and printable characters.
pub open spec fn kept_char(c: char) -> bool {
    c == '\n' || ((c as u32) >= 32 && !is_cc(c))
}

/// Input as the draft takes it: CRLF and CR become LF, a tab becomes four
/// spaces, and other control characters are dropped.
pub open spec fn cleaned(s: Seq<char>) -> Seq<char>
    decreases s.len(),
{
    if s.len() == 0 {
        Seq::empty()
    } else if s[0] == '\r' && s.len() > 1 && s[1] == '\n' {
        seq!['\n'] + cleaned(s.skip(2))
    } else if s[0] == '\r' {
        seq!['\n'] + cleaned(s.skip(1))
    } else if s[0] == '\t' {
        seq![' ', ' ', ' ', ' '] + cleaned(s.skip(1))
    } else if kept_char(s[0]) {
        seq![s[0]] + cleaned(s.skip(1))
    } else {
        cleaned(s.skip(1))
    }
}

fn clean(input: &str) -> (r: String)
    ensures
        r@ == cleaned(input@),
{
    let cs = chars_of(input);
    let ghost s = cs@;
    let mut out: Vec<char> = Vec::new();
    let mut i: usize = 0;
    proof {
        assert(s.skip(0) =~= s);
    }
    while i < cs.len()
        invariant
            s == cs@,
            i <= s.len(),
            cleaned(s) == out@ + cleaned(s.skip(i as int)),
        decreases cs.len() - i,
    {
        let c = cs[i];
        let ghost rest = s.skip(i as int);
        let ghost before = out@;
        proof {
            assert(rest[0] == c);
        }
        if c == '\r' && i + 1 < cs.len() && cs[i + 1] == '\n' {
            out.push('\n');
            proof {
                assert(rest[1] == '\n');
                assert(rest.skip(2) =~= s.skip(i + 2));
                assert(out@ + cleaned(s.skip(i + 2)) =~= before + (seq!['\n'] + cleaned(rest.skip(2))));
            }
            i += 2;
        } else {
            proof {
                assert(rest.skip(1) =~= s.skip(i + 1));
                if c == '\r' {
                    assert(!(rest.len() > 1 && rest[1] == '\n'));
                }
            }
            if c == '\r' {
                out.push('\n');
                proof {
                    assert(out@ + cleaned(s.skip(i + 1)) =~= before + (seq!['\n'] + cleaned(rest.skip(1))));
                }
            } else if c == '\t' {
                out.push(' ');
                out.push(' ');
                out.push(' ');
                out.push(' ');
                proof {
                    assert(out@ + cleaned(s.skip(i + 1)) =~= before + (seq![' ', ' ', ' ', ' '] + cleaned(rest.skip(1))));
                }
            } else if c == '\n' || ((c as u32) >= 32 && !char_is_control(c)) {
                out.push(c);
                proof {
                    assert(out@ + cleaned(s.skip(i + 1)) =~= before + (seq![c] + cleaned(rest.skip(1))));
                }
            } else {
                proof {
                    assert(out@ + cleaned(s.skip(i + 1)) =~= before + cleaned(rest.skip(1)));
                }
            }
            i += 1;
        }
    }
    proof {
        assert(s.skip(i as int) =~= Seq::<char>::empty());
        assert(out@ + Seq::<char>::empty() =~= out@);
    }
    string_of(&out)
}

/// How far whole clusters of `s` fit in `remaining` bytes, from the `k`-th cluster on.
pub open spec fn fit_scan(s: Seq<char>, starts: Seq<usize>, remaining: nat, k: int) -> nat
    decreases starts.len() - k,
{
    if k < 0 || k >= starts.len() {
        blen(s)
    } else if cut_at(starts, blen(s), k + 1) > remaining {
        starts[k] as nat
    } else {
        fit_scan(s, starts, remaining, k + 1)
    }
}

proof fn lemma_fit_scan(s: Seq<char>, starts: Seq<usize>, remaining: nat, k: int)
    requires
        cuts(starts, s),
        0 <= k <= starts.len(),
        cut_at(starts, blen(s), k) <= remaining,
    ensures
        fit_scan(s, starts, remaining, k) <= remaining,
        fit_scan(s, starts, remaining, k) <= blen(s),
        at_boundary(s, fit_scan(s, starts, remaining, k) as int),
    decreases starts.len() - k,
{
    crate::bytes::lemma_boundary(s, blen(s) as int);
    if k < starts.len() {
        assert(at_boundary(s, starts[k] as int));
        if k + 1 < starts.len() {
            assert(starts[k] < starts[k + 1]);
        }
        if cut_at(starts, blen(s), k + 1) <= remaining {
            lemma_fit_scan(s, starts, remaining, k + 1);
        }
    }
}

/// Where the scan from the `k`-th cluster on stops: at a cut `j` from `k` on
/// within `remaining`, whose next cluster, if any, would pass it.
proof fn lemma_fit_scan_stop(s: Seq<char>, starts: Seq<usize>, remaining: nat, k: int)
    requires
        cuts(starts, s),
        0 <= k <= starts.len(),
        cut_at(starts, blen(s), k) <= remaining,
    ensures
        exists|j: int|
            k <= j <= starts.len() && fit_scan(s, starts, remaining, k) == #[trigger] cut_at(starts, blen(s), j)
                && (j < starts.len() ==> cut_at(starts, blen(s), j + 1) > remaining),
    decreases starts.len() - k,
{
    if k < starts.len() {
        if cut_at(starts, blen(s), k + 1) > remaining {
            assert(fit_scan(s, starts, remaining, k) == cut_at(starts, blen(s), k));
        } else {
            lemma_fit_scan_stop(s, starts, remaining, k + 1);
            let j = choose|j: int|
                k + 1 <= j <= starts.len() && fit_scan(s, starts, remaining, k + 1) == #[trigger] cut_at(
                    starts,
                    blen(s),
                    j,
                ) && (j < starts.len() ==> cut_at(starts, blen(s), j + 1) > remaining);
            assert(fit_scan(s, starts, remaining, k) == cut_at(starts, blen(s), j));
        }
    } else {
        assert(fit_scan(s, starts, remaining, k) == cut_at(starts, blen(s), k));
    }
}

pub open spec fn sat_sub_usize(a: nat, b: nat) -> nat {
    if a >= b {
        (a - b) as nat
    } else {
        0
    }
}

impl EditorView {
    /// The longest prefix of whole clusters of `input` that keeps the
    /// expanded draft within `LIMIT` bytes.
    pub open spec fn fitted_spec(self, t: Seq<char>, input: Seq<char>) -> Seq<char> {
        let remaining = sat_sub_usize(LIMIT as nat, blen(expanded_text(t, self.pastes)));
        bslice(input, 0, fit_scan(input, grapheme_starts(input), remaining, 0) as int)
    }
}

/// What goes in of an input is its longest prefix of whole clusters that
/// keeps the expanded draft within `LIMIT` bytes: it ends at a cluster cut
/// of the input, fits in the bytes left, and the next cluster, if any, would
/// not have fitted.
pub proof fn law_input_is_longest_fitting_cluster_prefix(e: EditorView, t: Seq<char>, input: Seq<char>)
    requires
        cuts(grapheme_starts(input), input),
    ensures
        ({
            let starts = grapheme_starts(input);
            let remaining = sat_sub_usize(LIMIT as nat, blen(expanded_text(t, e.pastes)));
            let fitted = e.fitted_spec(t, input);
            exists|k: int|
                0 <= k <= starts.len() && fitted == bslice(input, 0, #[trigger] cut_at(starts, blen(input), k) as int)
                    && cut_at(starts, blen(input), k) <= remaining && (k < starts.len() ==> cut_at(
                    starts,
                    blen(input),
                    k + 1,
                ) > remaining)
        }),
        blen(e.fitted_spec(t, input)) <= sat_sub_usize(LIMIT as nat, blen(expanded_text(t, e.pastes))),
{
    let starts = grapheme_starts(input);
    let remaining = sat_sub_usize(LIMIT as nat, blen(expanded_text(t, e.pastes)));
    lemma_fit_scan_stop(input, starts, remaining, 0);
    lemma_fit_scan(input, starts, remaining, 0);
    crate::bytes::lemma_boundary(input, 0);
    let r = fit_scan(input, starts, remaining, 0);
    lemma_slice_bytes(input, 0, r as int);
}

impl Editor {
    pub(crate) fn moved(&mut self)
        ensures
            final(self)@ == old(self)@.moved_spec(),
    {
        self.action = Action::Idle;
        self.preferred = None;
        self.snapped = None;
        self.yank_range = None;
    }

    fn exit_history(&mut self)
        ensures
            final(self)@ == old(self)@.exit_history_spec(),
    {
        self.history_index = None;
        self.draft = None;
    }

    fn snapshot(&self, text: &str) -> (r: Snapshot)
        ensures
            r@ == self@.snapshot_spec(text@),
    {
        Snapshot { text: crate::text::owned(text), cursor: self.cursor, pastes: clone_pastes(&self.pastes), counter: self.counter }
    }

    fn save(&mut self, text: &str)
        ensures
            final(self)@ == old(self)@.save_spec(text@),
    {
        let ghost old_undo = self@.undo;
        if self.undo.len() == RETAIN {
            self.undo.remove(0);
            proof {
                assert(snapshots_view(self.undo@) =~= old_undo.drop_first());
            }
        }
        let s = self.snapshot(text);
        let ghost before = snapshots_view(self.undo@);
        self.undo.push(s);
        proof {
            assert(snapshots_view(self.undo@) =~= before.push(s@));
        }
    }

    fn fitted(&self, text: &str, input: &str) -> (r: String)
        requires
            self@.wf(text@),
        ensures
            r@ == self@.fitted_spec(text@, input@),
            blen(r@) <= LIMIT,
            blen(r@) <= sat_sub_usize(LIMIT as nat, blen(expanded_text(text@, self@.pastes))),
    {
        let expanded = self.expanded(text);
        let used = byte_len(expanded.as_str());
        let remaining = if LIMIT >= used { LIMIT - used } else { 0 };
        let g = grapheme_offsets(input);
        let len = byte_len(input);
        let mut end: usize = 0;
        let mut k: usize = 0;
        proof {
            crate::bytes::lemma_boundary(input@, 0);
        }
        while k < g.len()
            invariant
                g@ == grapheme_starts(input@),
                cuts(g@, input@),
                len == blen(input@),
                k <= g@.len(),
                end as nat == cut_at(g@, len as nat, k as int),
                end <= remaining,
                fit_scan(input@, g@, remaining as nat, 0) == fit_scan(input@, g@, remaining as nat, k as int),
            ensures
                end as nat == fit_scan(input@, g@, remaining as nat, 0),
            decreases g.len() - k,
        {
            let next = if k + 1 < g.len() { g[k + 1] } else { len };
            proof {
                if k + 1 < g.len() {
                    assert(g@[k as int] < g@[k + 1]);
                }
            }
            if next > remaining {
                break;
            }
            end = next;
            k += 1;
        }
        proof {
            lemma_fit_scan(input@, g@, remaining as nat, 0);
            crate::bytes::lemma_boundary(input@, 0);
        }
        let r = crate::text::owned(slice(input, 0, end));
        r
    }
}

pub open spec fn has_ws(s: Seq<char>) -> bool {
    exists|i: int| 0 <= i < s.len() && is_ws(#[trigger] s[i])
}

pub open spec fn has_char(s: Seq<char>, c: char) -> bool {
    exists|i: int| 0 <= i < s.len() && #[trigger] s[i] == c
}

/// How many `c` there are in `s`.
pub open spec fn count_char(s: Seq<char>, c: char) -> nat
    decreases s.len(),
{
    if s.len() == 0 {
        0
    } else {
        (if s.last() == c {
            1nat
        } else {
            0nat
        }) + count_char(s.drop_last(), c)
    }
}

/// Length of `s` in UTF-16 code units.
pub open spec fn utf16_len(s: Seq<char>) -> nat
    decreases s.len(),
{
    if s.len() == 0 {
        0
    } else {
        (if (s.last() as u32) >= 0x10000 {
            2nat
        } else {
            1nat
        }) + utf16_len(s.drop_last())
    }
}

pub proof fn lemma_blen_zero(s: Seq<char>)
    ensures
        (blen(s) == 0) == (s.len() == 0),
{
    if s.len() > 0 {
        reveal_with_fuel(encode_utf8, 1);
        vstd::utf8::encode_utf8_first_scalar(s);
    }
}

fn has_whitespace(s: &str) -> (r: bool)
    ensures
        r == has_ws(s@),
{
    let cs = chars_of(s);
    let mut i: usize = 0;
    while i < cs.len()
        invariant
            cs@ == s@,
            i <= cs.len(),
            forall|j: int| 0 <= j < i ==> !is_ws(#[trigger] s@[j]),
        decreases cs.len() - i,
    {
        if char_is_whitespace(cs[i]) {
            return true;
        }
        i += 1;
    }
    false
}

fn contains_char(s: &str, c: char) -> (r: bool)
    ensures
        r == has_char(s@, c),
{
    let cs = chars_of(s);
    let mut i: usize = 0;
    while i < cs.len()
        invariant
            cs@ == s@,
            i <= cs.len(),
            forall|j: int| 0 <= j < i ==> #[trigger] s@[j] != c,
        decreases cs.len() - i,
    {
        if cs[i] == c {
            return true;
        }
        i += 1;
    }
    false
}

pub proof fn lemma_len_le_blen(s: Seq<char>)
    ensures
        s.len() <= blen(s),
    decreases s.len(),
{
    if s.len() > 0 {
        reveal_with_fuel(encode_utf8, 1);
        vstd::utf8::encode_utf8_first_scalar(s);
        lemma_len_le_blen(s.drop_first());
    }
}

/// Number of `c` characters, and UTF-16 units, of a text no longer than `LIMIT` bytes.
fn char_count_and_units(s: &str, c: char) -> (r: (usize, usize))
    requires
        blen(s@) <= LIMIT,
    ensures
        r.0 == count_char(s@, c),
        r.1 == utf16_len(s@),
        r.0 <= LIMIT,
{
    let cs = chars_of(s);
    let mut n: usize = 0;
    let mut u: usize = 0;
    let mut i: usize = 0;
    proof {
        lemma_len_le_blen(s@);
    }
    while i < cs.len()
        invariant
            cs@ == s@,
            cs.len() <= LIMIT,
            i <= cs.len(),
            n == count_char(s@.take(i as int), c),
            u == utf16_len(s@.take(i as int)),
            n <= i,
            u <= 2 * i,
        decreases cs.len() - i,
    {
        proof {
            assert(s@.take(i + 1).drop_last() =~= s@.take(i as int));
            assert(s@.take(i + 1).last() == cs@[i as int]);
        }
        if cs[i] == c {
            n += 1;
        }
        if (cs[i] as u32) >= 0x10000 {
            u += 2;
        } else {
            u += 1;
        }
        i += 1;
    }
    proof {
        assert(s@.take(i as int) =~= s@);
    }
    (n, u)
}

/// `ps` with `p` placed before the first marker that starts after it.
pub open spec fn insert_sorted(ps: Seq<PasteView>, p: PasteView) -> Seq<PasteView>
    decreases ps.len(),
{
    if ps.len() == 0 {
        seq![p]
    } else if ps[0].start > p.start {
        seq![p] + ps
    } else {
        seq![ps[0]] + insert_sorted(ps.drop_first(), p)
    }
}

proof fn lemma_insert_sorted(ps: Seq<PasteView>, p: PasteView, t: Seq<char>)
    requires
        pastes_wf(ps, t),
        p.start < p.end <= blen(t),
        at_boundary(t, p.start as int),
        at_boundary(t, p.end as int),
        forall|i: int| 0 <= i < ps.len() ==> (#[trigger] ps[i]).end <= p.start || ps[i].start >= p.end,
    ensures
        pastes_wf(insert_sorted(ps, p), t),
        insert_sorted(ps, p).len() == ps.len() + 1,
    decreases ps.len(),
{
    if ps.len() > 0 {
        let rest = ps.drop_first();
        assert(pastes_wf(rest, t)) by {
            assert forall|i: int, j: int| 0 <= i < j < rest.len() implies #[trigger] rest[i].end <= #[trigger] rest[j].start by {
                assert(ps[i + 1].end <= ps[j + 1].start);
            }
            assert forall|i: int| 0 <= i < rest.len() implies #[trigger] rest[i].start < rest[i].end <= blen(t) && at_boundary(t, rest[i].start as int) && at_boundary(t, rest[i].end as int) by {
                assert(rest[i] == ps[i + 1]);
            }
        }
        if ps[0].start > p.start {
            let out = seq![p] + ps;
            assert(ps[0].start >= p.end);
            assert forall|i: int, j: int| 0 <= i < j < out.len() implies #[trigger] out[i].end <= #[trigger] out[j].start by {
                if i == 0 {
                    assert(ps[0].end <= ps[j - 1].start || j == 1);
                    assert(out[j] == ps[j - 1]);
                    if j > 1 {
                        assert(ps[0].start < ps[0].end);
                    }
                } else {
                    assert(out[i] == ps[i - 1] && out[j] == ps[j - 1]);
                }
            }
        } else {
            assert forall|i: int| 0 <= i < rest.len() implies (#[trigger] rest[i]).end <= p.start || rest[i].start >= p.end by {
                assert(rest[i] == ps[i + 1]);
            }
            lemma_insert_sorted(rest, p, t);
            let sub = insert_sorted(rest, p);
            let out = seq![ps[0]] + sub;
            assert(ps[0].end <= p.start);
            assert forall|k: int| 0 <= k < sub.len() implies ps[0].end <= #[trigger] sub[k].start by {
                lemma_insert_sorted_members(rest, p, k);
                if sub[k] != p {
                    let j = choose|j: int| 0 <= j < rest.len() && rest[j] == sub[k];
                    assert(ps[0].end <= ps[j + 1].start);
                }
            }
            assert forall|i: int, j: int| 0 <= i < j < out.len() implies #[trigger] out[i].end <= #[trigger] out[j].start by {
                if i == 0 {
                    assert(out[j] == sub[j - 1]);
                } else {
                    assert(out[i] == sub[i - 1] && out[j] == sub[j - 1]);
                }
            }
            assert forall|i: int| 0 <= i < out.len() implies #[trigger] out[i].start < out[i].end <= blen(t) && at_boundary(t, out[i].start as int) && at_boundary(t, out[i].end as int) by {
                if i > 0 {
                    assert(out[i] == sub[i - 1]);
                }
            }
        }
    }
}

proof fn lemma_insert_sorted_members(ps: Seq<PasteView>, p: PasteView, k: int)
    requires
        0 <= k < insert_sorted(ps, p).len(),
    ensures
        insert_sorted(ps, p)[k] == p || exists|j: int| 0 <= j < ps.len() && ps[j] == insert_sorted(ps, p)[k],
    decreases ps.len(),
{
    if ps.len() > 0 {
        if ps[0].start > p.start {
            if k > 0 {
                assert(insert_sorted(ps, p)[k] == ps[k - 1]);
            }
        } else if k > 0 {
            lemma_insert_sorted_members(ps.drop_first(), p, k - 1);
            let sub = insert_sorted(ps.drop_first(), p);
            assert(insert_sorted(ps, p)[k] == sub[k - 1]);
            if sub[k - 1] != p {
                let j = choose|j: int| 0 <= j < ps.drop_first().len() && ps.drop_first()[j] == sub[k - 1];
                assert(ps[j + 1] == sub[k - 1]);
            }
        } else {
            assert(insert_sorted(ps, p)[0] == ps[0]);
        }
    }
}

/// The marker text that stands in the draft for a large paste.
pub open spec fn marker_text(counter: nat, lines: nat, units: nat) -> Seq<char> {
    if lines > 10 {
        "[paste #"@ + crate::presentation::decimal(counter) + " +"@ + crate::presentation::decimal(lines) + " lines]"@
    } else {
        "[paste #"@ + crate::presentation::decimal(counter) + " "@ + crate::presentation::decimal(units) + " chars]"@
    }
}

/// Whether a paste reads like a path (`/`, `~` or `.` first).
pub open spec fn path_like(s: Seq<char>) -> bool {
    s.len() > 0 && (s[0] == '/' || s[0] == '~' || s[0] == '.')
}

pub open spec fn is_ascii_alnum(c: char) -> bool {
    ('0' <= c <= '9') || ('a' <= c <= 'z') || ('A' <= c <= 'Z')
}

/// Whether the character just before byte `cursor` is an ASCII word character.
pub open spec fn word_char_before(t: Seq<char>, cursor: nat) -> bool {
    let p = bslice(t, 0, cursor as int);
    p.len() > 0 && (is_ascii_alnum(p.last()) || p.last() == '_')
}

impl EditorView {
    /// Text or IME input: one undo step per run of typing, broken by whitespace.
    pub open spec fn type_text_spec(self, t: Seq<char>, input: Seq<char>) -> (EditorView, Seq<char>) {
        let e1 = self.normalized(t).exit_history_spec();
        let safe = e1.fitted_spec(t, cleaned(input));
        if safe.len() == 0 {
            (e1, t)
        } else {
            let e2 = if e1.action != Action::Type || has_ws(safe) {
                e1.save_spec(t)
            } else {
                e1
            };
            let (e3, t3) = e2.replace_spec(t, e2.cursor as nat, e2.cursor as nat, safe);
            (
                EditorView {
                    action: if has_char(safe, '\n') {
                        Action::Idle
                    } else {
                        Action::Type
                    },
                    ..e3
                },
                t3,
            )
        }
    }

    /// Inserts a folded paste's marker at the cursor and registers the paste.
    pub open spec fn fold_spec(self, t: Seq<char>, safe: Seq<char>, lines: nat, units: nat) -> (EditorView, Seq<char>) {
        let e3 = EditorView { counter: (self.counter + 1) as usize, ..self };
        let marker = marker_text(e3.counter as nat, lines, units);
        let (e4, t4) = e3.replace_spec(t, e3.cursor as nat, e3.cursor as nat, marker);
        let folded = PasteView { start: e3.cursor as nat, end: (e3.cursor + blen(marker)) as nat, payload: safe };
        (EditorView { pastes: insert_sorted(e4.pastes, folded), ..e4 }, t4)
    }

    /// The paste as it goes in: cleaned, with a space before a path-like
    /// paste that would otherwise join the word before the cursor.
    pub open spec fn paste_text(self, t: Seq<char>, input: Seq<char>) -> Seq<char> {
        let s0 = cleaned(input);
        if path_like(s0) && word_char_before(t, self.cursor as nat) {
            seq![' '] + s0
        } else {
            s0
        }
    }

    /// Whether at least one cluster of the paste fits under the limit.
    pub open spec fn paste_fits(self, t: Seq<char>, input: Seq<char>) -> bool {
        let e1 = self.normalized(t).exit_history_spec().moved_spec();
        e1.fitted_spec(t, e1.paste_text(t, input)).len() > 0
    }

    /// A bracketed or clipboard paste: one undo step; past ten lines or a
    /// thousand UTF-16 units it is folded behind a marker.
    pub open spec fn insert_spec(self, t: Seq<char>, input: Seq<char>) -> (EditorView, Seq<char>) {
        let e1 = self.normalized(t).exit_history_spec().moved_spec();
        let safe = e1.fitted_spec(t, e1.paste_text(t, input));
        if safe.len() == 0 {
            (e1, t)
        } else {
            let e2 = e1.save_spec(t);
            let lines = count_char(safe, '\n') + 1;
            let units = utf16_len(safe);
            if lines > 10 || units > 1000 {
                e2.fold_spec(t, safe, lines, units)
            } else {
                e2.replace_spec(t, e2.cursor as nat, e2.cursor as nat, safe)
            }
        }
    }
}

proof fn lemma_wf_fields(e: EditorView, f: EditorView, t: Seq<char>, u: Seq<char>)
    requires
        e.wf(t),
        pastes_wf(f.pastes, u),
        f.undo == e.undo || f.undo == e.save_spec(t).undo,
        pastes_wf(e.pastes, t),
        f.draft matches Some(d) ==> (f.draft == e.draft || snapshot_wf(d)),
        f.history == e.history,
        f.history_index matches Some(i) ==> i < e.history.len(),
        f.ring.len() <= RETAIN,
        f.action != Action::Yank,
    ensures
        f.wf(u),
{
    let s = e.save_spec(t);
    if f.undo == s.undo {
        assert forall|i: int| 0 <= i < f.undo.len() implies snapshot_wf(#[trigger] f.undo[i]) by {
            if e.undo.len() == RETAIN {
                if i < f.undo.len() - 1 {
                    assert(f.undo[i] == e.undo[i + 1]);
                }
            } else if i < e.undo.len() {
                assert(f.undo[i] == e.undo[i]);
            }
        }
    }
}

impl Editor {
    /// Text or IME input; a newline is its own undo step.
    pub fn type_text(&mut self, text: &mut String, input: &str)
        requires
            old(self)@.wf(old(text)@),
        ensures
            (final(self)@, final(text)@) == old(self)@.type_text_spec(old(text)@, input@),
            final(self)@.wf(final(text)@),
            blen(expanded_text(old(text)@, old(self)@.pastes)) <= LIMIT && containing_from(
                old(self)@.pastes,
                old(self)@.normalized(old(text)@).cursor as int,
                0,
            ) is None ==> blen(expanded_text(final(text)@, final(self)@.pastes)) <= LIMIT,
    {
        let ghost e0 = self@;
        let ghost t = text@;
        self.normalize(text.as_str());
        self.exit_history();
        let ghost e1 = self@;
        let cleaned = clean(input);
        let safe = self.fitted(text.as_str(), cleaned.as_str());
        proof {
            lemma_blen_zero(safe@);
        }
        if byte_len(safe.as_str()) == 0 {
            return;
        }
        if self.action != Action::Type || has_whitespace(safe.as_str()) {
            self.save(text.as_str());
        }
        let ghost e2 = self@;
        let c = self.cursor;
        self.replace(text, c, c, safe.as_str());
        self.action = if contains_char(safe.as_str(), '\n') { Action::Idle } else { Action::Type };
        proof {
            lemma_wf_fields(e1, self@, t, text@);
            let ps = e0.pastes;
            if blen(expanded_text(t, ps)) <= LIMIT && containing_from(ps, c as int, 0) is None {
                lemma_containing_from(ps, c as int, 0);
                lemma_expanded_len(t, ps);
                lemma_expanded_len(text@, self@.pastes);
                lemma_replaced(t, c as int, c as int, safe@);
                lemma_shifted_excess(ps, c as nat, blen(safe@));
            }
        }
    }

    fn paste_text(&self, text: &str, input: &str) -> (r: String)
        requires
            self@.cursor <= blen(text@),
            at_boundary(text@, self@.cursor as int),
        ensures
            r@ == self@.paste_text(text@, input@),
    {
        let safe = clean(input);
        let sc = chars_of(safe.as_str());
        if sc.len() > 0 && (sc[0] == '/' || sc[0] == '~' || sc[0] == '.') {
            proof {
                crate::bytes::lemma_boundary(text@, 0);
            }
            let before = slice(text, 0, self.cursor);
            let bc = chars_of(before);
            if bc.len() > 0 {
                let last = bc[bc.len() - 1];
                if ('0' <= last && last <= '9') || ('a' <= last && last <= 'z') || ('A' <= last && last <= 'Z') || last == '_' {
                    let mut spaced = String::new();
                    crate::text::push_char(&mut spaced, ' ');
                    push_str(&mut spaced, safe.as_str());
                    proof {
                        assert(spaced@ =~= seq![' '] + safe@);
                    }
                    return spaced;
                }
            }
        }
        safe
    }

    #[verifier::rlimit(40)]
    #[verifier::spinoff_prover]
    fn fold(&mut self, text: &mut String, safe: String, lines: usize, units: usize)
        requires
            pastes_wf(old(self)@.pastes, old(text)@),
            old(self)@.counter < usize::MAX,
            old(self)@.cursor <= blen(old(text)@),
            at_boundary(old(text)@, old(self)@.cursor as int),
        ensures
            (final(self)@, final(text)@) == old(self)@.fold_spec(old(text)@, safe@, lines as nat, units as nat),
            pastes_wf(final(self)@.pastes, final(text)@),
    {
        let ghost t = text@;
        self.counter = self.counter + 1;
        let mut marker = crate::text::owned("[paste #");
        crate::presentation::push_decimal(&mut marker, self.counter as u64);
        if lines > 10 {
            push_str(&mut marker, " +");
            crate::presentation::push_decimal(&mut marker, lines as u64);
            push_str(&mut marker, " lines]");
        } else {
            push_str(&mut marker, " ");
            crate::presentation::push_decimal(&mut marker, units as u64);
            push_str(&mut marker, " chars]");
        }
        let ghost e3 = self@;
        proof {
            assert(marker@ =~= marker_text(self.counter as nat, lines as nat, units as nat));
        }
        let start = self.cursor;
        self.replace(text, start, start, marker.as_str());
        let mlen = byte_len(marker.as_str());
        proof {
            lemma_replaced(t, start as int, start as int, marker@);
            lemma_shifted(e3.pastes, t, start as nat, start as nat, marker@, 0);
            lemma_blen_zero(marker@);
            assert(marker@.len() > 0) by {
                assert(marker@[0] == "[paste #"@[0]) by {
                    reveal_strlit("[paste #");
                }
            }
            assert(start + mlen <= blen(text@));
        }
        let tl = byte_len(text.as_str());
        let folded = Paste { range: start..start + mlen, payload: safe };
        let ghost fv = folded@;
        let mut k: usize = 0;
        proof {
            assert(self@.pastes.skip(0) =~= self@.pastes);
            assert(self@.pastes.take(0) + insert_sorted(self@.pastes, fv) =~= insert_sorted(self@.pastes, fv));
        }
        while k < self.pastes.len() && self.pastes[k].range.start <= start
            invariant
                k <= self.pastes@.len(),
                fv.start == start,
                forall|j: int| 0 <= j < k ==> (#[trigger] self@.pastes[j]).start <= start,
                insert_sorted(self@.pastes, fv) == self@.pastes.take(k as int) + insert_sorted(self@.pastes.skip(k as int), fv),
            decreases self.pastes.len() - k,
        {
            proof {
                let rest = self@.pastes.skip(k as int);
                assert(rest[0] == self@.pastes[k as int]);
                assert(rest.drop_first() =~= self@.pastes.skip(k + 1));
                assert(self@.pastes.take(k + 1) =~= self@.pastes.take(k as int).push(rest[0]));
                assert(insert_sorted(rest, fv) == seq![rest[0]] + insert_sorted(rest.drop_first(), fv));
                assert(self@.pastes.take(k as int) + insert_sorted(rest, fv) =~= self@.pastes.take(k + 1) + insert_sorted(self@.pastes.skip(k + 1), fv));
            }
            k += 1;
        }
        proof {
            let rest = self@.pastes.skip(k as int);
            if k < self@.pastes.len() {
                assert(rest[0] == self@.pastes[k as int]);
                assert(insert_sorted(rest, fv) == seq![fv] + rest);
            } else {
                assert(rest =~= Seq::<PasteView>::empty());
            }
            lemma_insert_sorted(self@.pastes, fv, text@);
        }
        let ghost before = self@.pastes;
        self.pastes.insert(k, folded);
        proof {
            assert(self@.pastes =~= before.take(k as int) + (seq![fv] + before.skip(k as int)));
            if k < before.len() {
                assert(insert_sorted(before.skip(k as int), fv) == seq![fv] + before.skip(k as int));
            } else {
                assert(before.skip(k as int) =~= Seq::<PasteView>::empty());
            }
            assert(self@.pastes =~= insert_sorted(before, fv));
        }
    }

    /// A bracketed or clipboard paste, capped before folding.
    pub fn insert(&mut self, text: &mut String, input: &str)
        requires
            old(self)@.wf(old(text)@),
            old(self)@.counter < usize::MAX,
        ensures
            (final(self)@, final(text)@) == old(self)@.insert_spec(old(text)@, input@),
            final(self)@.wf(final(text)@),
    {
        let ghost t = text@;
        self.normalize(text.as_str());
        self.exit_history();
        self.moved();
        let ghost e1 = self@;
        let safe = self.paste_text(text.as_str(), input);
        proof {
            crate::bytes::lemma_boundary(t, 0);
        }
        let safe = self.fitted(text.as_str(), safe.as_str());
        proof {
            lemma_blen_zero(safe@);
        }
        if byte_len(safe.as_str()) == 0 {
            return;
        }
        self.save(text.as_str());
        let ghost e2 = self@;
        let (newlines, units) = char_count_and_units(safe.as_str(), '\n');
        let lines = newlines + 1;
        if lines > 10 || units > 1000 {
            self.fold(text, safe, lines, units);
            proof {
                lemma_wf_fields(e1, self@, t, text@);
            }
        } else {
            let c = self.cursor;
            self.replace(text, c, c, safe.as_str());
            proof {
                lemma_wf_fields(e1, self@, t, text@);
            }
        }
    }
}

// ---------------------------------------------------------------------------
// Moving the cursor
// ---------------------------------------------------------------------------

/// After an ASCII byte that starts a character, the next offset is a boundary.
pub proof fn lemma_after_ascii(t: Seq<char>, i: int)
    requires
        at_boundary(t, i),
        0 <= i < blen(t),
        encode_utf8(t)[i] < 0x80,
    ensures
        at_boundary(t, i + 1),
{
    let bs = encode_utf8(t);
    vstd::utf8::encode_utf8_valid_utf8(t);
    crate::bytes::lemma_boundary(t, i);
    vstd::utf8::valid_utf8_split(bs, i);
    let suffix = bs.subrange(i, bs.len() as int);
    assert(suffix[0] == bs[i]);
    assert(vstd::utf8::pop_first_scalar(suffix) =~= bs.subrange(i + 1, bs.len() as int));
    if i + 1 < bs.len() {
        let rest = bs.subrange(i + 1, bs.len() as int);
        vstd::utf8::is_char_boundary_start_end_of_seq(rest);
        vstd::utf8::is_char_boundary_iff_not_is_continuation_byte(rest, 0);
        assert(rest[0] == bs[i + 1]);
    }
}

/// The last newline byte before offset `c`.
pub open spec fn last_nl_before(bs: Seq<u8>, c: int) -> Option<nat>
    decreases c,
{
    if c <= 0 || c > bs.len() {
        None
    } else if bs[c - 1] == 10 {
        Some((c - 1) as nat)
    } else {
        last_nl_before(bs, c - 1)
    }
}

/// The first newline byte at or after offset `c`.
pub open spec fn next_nl_from(bs: Seq<u8>, c: int) -> Option<nat>
    decreases bs.len() - c,
{
    if c < 0 || c >= bs.len() {
        None
    } else if bs[c] == 10 {
        Some(c as nat)
    } else {
        next_nl_from(bs, c + 1)
    }
}

/// Start of the logical line holding byte `c`.
pub open spec fn line_start(t: Seq<char>, c: nat) -> nat {
    match last_nl_before(encode_utf8(t), c as int) {
        Some(i) => i + 1,
        None => 0,
    }
}

/// End of the logical line holding byte `c` (its newline, or the end).
pub open spec fn line_end(t: Seq<char>, c: nat) -> nat {
    match next_nl_from(encode_utf8(t), c as int) {
        Some(j) => j,
        None => blen(t),
    }
}

pub proof fn lemma_last_nl_before(bs: Seq<u8>, c: int)
    ensures
        last_nl_before(bs, c) matches Some(i) ==> i < c && i < bs.len() && bs[i as int] == 10,
    decreases c,
{
    if 0 < c <= bs.len() && bs[c - 1] != 10 {
        lemma_last_nl_before(bs, c - 1);
    }
}

pub proof fn lemma_next_nl_from(bs: Seq<u8>, c: int)
    ensures
        next_nl_from(bs, c) matches Some(j) ==> c <= j < bs.len() && bs[j as int] == 10,
    decreases bs.len() - c,
{
    if 0 <= c < bs.len() && bs[c] != 10 {
        lemma_next_nl_from(bs, c + 1);
    }
}

fn line_start_of(text: &str, c: usize) -> (r: usize)
    requires
        c <= blen(text@),
    ensures
        r == line_start(text@, c as nat),
        r <= c,
        at_boundary(text@, r as int),
        r > 0 ==> encode_utf8(text@)[r - 1] == 10,
{
    let mut i = c;
    while i > 0
        invariant
            i <= c <= blen(text@),
            last_nl_before(encode_utf8(text@), c as int) == last_nl_before(encode_utf8(text@), i as int),
        decreases i,
    {
        if byte_at(text, i - 1) == 10u8 {
            proof {
                assert(at_boundary(text@, i - 1));
                lemma_after_ascii(text@, i - 1);
            }
            return i;
        }
        i -= 1;
    }
    0
}

fn line_end_of(text: &str, c: usize) -> (r: usize)
    requires
        c <= blen(text@),
    ensures
        r == line_end(text@, c as nat),
        c <= r <= blen(text@),
        at_boundary(text@, r as int),
        r < blen(text@) ==> encode_utf8(text@)[r as int] == 10,
{
    let len = byte_len(text);
    let mut j = c;
    while j < len
        invariant
            c <= j <= len,
            len == blen(text@),
            next_nl_from(encode_utf8(text@), c as int) == next_nl_from(encode_utf8(text@), j as int),
        decreases len - j,
    {
        if byte_at(text, j) == 10u8 {
            return j;
        }
        j += 1;
    }
    len
}

impl EditorView {
    /// Start of the unit before the cursor.
    pub open spec fn left_spec(self, t: Seq<char>) -> EditorView {
        let e = self.normalized(t).moved_spec();
        let units = atoms_of(bslice(t, 0, e.cursor as int), 0, e.pastes);
        EditorView {
            cursor: (if units.len() > 0 {
                units.last().0
            } else {
                0
            }) as usize,
            ..e
        }
    }

    /// Past the unit after the cursor.
    pub open spec fn right_spec(self, t: Seq<char>) -> EditorView {
        let e = self.normalized(t).moved_spec();
        let units = atoms_of(bslice(t, e.cursor as int, blen(t) as int), e.cursor as nat, e.pastes);
        EditorView {
            cursor: (e.cursor + if units.len() > 0 {
                units[0].1 - units[0].0
            } else {
                0
            }) as usize,
            ..e
        }
    }

    pub open spec fn home_spec(self, t: Seq<char>) -> EditorView {
        let e = self.normalized(t).moved_spec();
        EditorView { cursor: line_start(t, e.cursor as nat) as usize, ..e }
    }

    pub open spec fn end_spec(self, t: Seq<char>) -> EditorView {
        let e = self.normalized(t).moved_spec();
        EditorView { cursor: line_end(t, e.cursor as nat) as usize, ..e }
    }
}

/// The start of the last editing unit before byte `c`, or 0.
fn unit_before(pastes: &Vec<Paste>, text: &str, c: usize) -> (r: usize)
    requires
        pastes_wf(pastes_view(pastes@), text@),
        c <= blen(text@),
        at_boundary(text@, c as int),
    ensures
        r == (if atoms_of(bslice(text@, 0, c as int), 0, pastes_view(pastes@)).len() > 0 {
            atoms_of(bslice(text@, 0, c as int), 0, pastes_view(pastes@)).last().0
        } else {
            0
        }),
        r <= c,
        at_boundary(text@, r as int),
{
    proof {
        crate::bytes::lemma_boundary(text@, 0);
        lemma_markers_fit(text@, pastes_view(pastes@), 0, c as int);
        lemma_slice_bytes(text@, 0, c as int);
    }
    let prefix = slice(text, 0, c);
    let units = atoms(prefix, 0, pastes);
    if units.len() > 0 {
        let last = units[units.len() - 1];
        proof {
            assert(pairs_view(units@)[units@.len() - 1] == (last.0 as nat, last.1 as nat));
            lemma_slice_boundary(text@, 0, c as int, last.0 as int);
        }
        last.0
    } else {
        0
    }
}

/// The length of the editing unit that starts at byte `c`, or 0 at the end.
fn unit_after(pastes: &Vec<Paste>, text: &str, c: usize) -> (r: usize)
    requires
        pastes_wf(pastes_view(pastes@), text@),
        c <= blen(text@),
        at_boundary(text@, c as int),
    ensures
        r == (if atoms_of(bslice(text@, c as int, blen(text@) as int), c as nat, pastes_view(pastes@)).len() > 0 {
            atoms_of(bslice(text@, c as int, blen(text@) as int), c as nat, pastes_view(pastes@))[0].1
                - atoms_of(bslice(text@, c as int, blen(text@) as int), c as nat, pastes_view(pastes@))[0].0
        } else {
            0
        }),
        c + r <= blen(text@),
        at_boundary(text@, c + r),
{
    let len = byte_len(text);
    proof {
        crate::bytes::lemma_boundary(text@, len as int);
        lemma_markers_fit(text@, pastes_view(pastes@), c as int, len as int);
        lemma_slice_bytes(text@, c as int, len as int);
    }
    let rest = slice(text, c, len);
    let units = atoms(rest, c, pastes);
    if units.len() > 0 {
        let first = units[0];
        proof {
            assert(pairs_view(units@)[0] == (first.0 as nat, first.1 as nat));
            lemma_slice_boundary(text@, c as int, len as int, first.1 as int);
        }
        first.1 - first.0
    } else {
        0
    }
}

impl Editor {
    pub fn left(&mut self, text: &str)
        requires
            old(self)@.wf(text@),
        ensures
            final(self)@ == old(self)@.left_spec(text@),
            final(self)@.wf(text@),
    {
        self.normalize(text);
        self.moved();
        self.cursor = unit_before(&self.pastes, text, self.cursor);
    }

    pub fn right(&mut self, text: &str)
        requires
            old(self)@.wf(text@),
        ensures
            final(self)@ == old(self)@.right_spec(text@),
            final(self)@.wf(text@),
    {
        self.normalize(text);
        self.moved();
        let len = byte_len(text);
        let step = unit_after(&self.pastes, text, self.cursor);
        proof {
            assert(atoms_of(bslice(text@, self.cursor as int, blen(text@) as int), self.cursor as nat, self@.pastes).len() > 0 ==> {
                let u = atoms_of(bslice(text@, self.cursor as int, blen(text@) as int), self.cursor as nat, self@.pastes);
                u[0].0 == 0
            });
        }
        self.cursor = self.cursor + step;
    }

    pub fn home(&mut self, text: &str)
        requires
            old(self)@.wf(text@),
        ensures
            final(self)@ == old(self)@.home_spec(text@),
            final(self)@.wf(text@),
    {
        self.normalize(text);
        self.moved();
        self.cursor = line_start_of(text, self.cursor);
    }

    pub fn end(&mut self, text: &str)
        requires
            old(self)@.wf(text@),
        ensures
            final(self)@ == old(self)@.end_spec(text@),
            final(self)@.wf(text@),
    {
        self.normalize(text);
        self.moved();
        self.cursor = line_end_of(text, self.cursor);
    }

    /// A mouse click moved the cursor: leave history browsing and settle it.
    pub fn clicked(&mut self, text: &str)
        requires
            old(self)@.wf(text@),
        ensures
            final(self)@ == old(self)@.exit_history_spec().moved_spec().normalized(text@),
            final(self)@.wf(text@),
    {
        self.exit_history();
        self.moved();
        self.normalize(text);
    }
}

// ---------------------------------------------------------------------------
// Deleting, killing and yanking
// ---------------------------------------------------------------------------

/// The text of `units` of `seg` (which starts at byte `base` of the draft),
/// a folded paste's payload standing for its marker.
pub open spec fn expand_units(seg: Seq<char>, base: nat, ps: Seq<PasteView>, units: Seq<(nat, nat)>) -> Seq<char>
    decreases units.len(),
{
    if units.len() == 0 {
        Seq::empty()
    } else {
        let u = units[0];
        let piece = match paste_index(ps, (base + u.0) as int) {
            Some(k) => ps[k].payload,
            None => bslice(seg, u.0 as int, u.1 as int),
        };
        piece + expand_units(seg, base, ps, units.drop_first())
    }
}

/// Bytes `a..b` of the draft with folded pastes unfolded.
pub open spec fn expanded_range(t: Seq<char>, ps: Seq<PasteView>, a: nat, b: nat) -> Seq<char> {
    let seg = bslice(t, a as int, b as int);
    expand_units(seg, a, ps, atoms_of(seg, a, ps))
}

fn expand_range(pastes: &Vec<Paste>, text: &str, a: usize, b: usize) -> (r: String)
    requires
        pastes_wf(pastes_view(pastes@), text@),
        range_wf(text@, a as int, b as int),
    ensures
        r@ == expanded_range(text@, pastes_view(pastes@), a as nat, b as nat),
{
    let ghost ps = pastes_view(pastes@);
    proof {
        lemma_markers_fit(text@, ps, a as int, b as int);
        lemma_slice_bytes(text@, a as int, b as int);
    }
    let seg = slice(text, a, b);
    let units = atoms(seg, a, pastes);
    let ghost uv = pairs_view(units@);
    let mut result = String::new();
    let mut i: usize = 0;
    proof {
        assert(uv.skip(0) =~= uv);
        assert(result@ + expand_units(seg@, a as nat, ps, uv) =~= expand_units(seg@, a as nat, ps, uv));
    }
    while i < units.len()
        invariant
            ps == pastes_view(pastes@),
            uv == pairs_view(units@),
            ps.len() == pastes.len(),
            units_wf(uv, seg@),
            a + blen(seg@) <= usize::MAX,
            i <= units@.len(),
            expanded_range(text@, ps, a as nat, b as nat) == result@ + expand_units(seg@, a as nat, ps, uv.skip(i as int)),
        decreases units.len() - i,
    {
        let (u0, u1) = units[i];
        proof {
            assert(uv[i as int] == (u0 as nat, u1 as nat));
            assert(uv.skip(i as int)[0] == uv[i as int]);
            assert(uv.skip(i as int).drop_first() =~= uv.skip(i + 1));
        }
        let ghost before = result@;
        match find_paste(pastes, a + u0) {
            Some(k) => {
                proof {
                    lemma_paste_index_from(ps, (a + u0) as int, 0);
                    match paste_index(ps, (a + u0) as int) {
                        Some(j) => {
                            assert(ps.len() == pastes@.len());
                            assert(k as int == j);
                        },
                        None => {},
                    }
                }
                push_str(&mut result, pastes[k].payload.as_str());
            },
            None => {
                push_str(&mut result, slice(seg, u0, u1));
            },
        }
        proof {
            assert(result@ + expand_units(seg@, a as nat, ps, uv.skip(i + 1)) =~= before + expand_units(seg@, a as nat, ps, uv.skip(i as int)));
        }
        i += 1;
    }
    proof {
        assert(uv.skip(i as int) =~= Seq::<(nat, nat)>::empty());
        assert(result@ + Seq::<char>::empty() =~= result@);
    }
    result
}

pub open spec fn min_usize(a: usize, b: usize) -> usize {
    if a <= b {
        a
    } else {
        b
    }
}

pub open spec fn max_usize(a: usize, b: usize) -> usize {
    if a >= b {
        a
    } else {
        b
    }
}

impl EditorView {
    /// Removes the text between the cursor and `target`; a kill keeps it in
    /// the ring (extending the last entry during a kill run).
    pub open spec fn erase_spec(self, t: Seq<char>, target: usize, kill: bool) -> (EditorView, Seq<char>) {
        let e1 = self.exit_history_spec();
        let a = min_usize(target, e1.cursor);
        let b = max_usize(target, e1.cursor);
        if a == b {
            (e1, t)
        } else {
            let e2 = e1.save_spec(t);
            let e3 = if kill {
                let deleted = expanded_range(t, e2.pastes, a as nat, b as nat);
                if e2.action == Action::Kill && e2.ring.len() > 0 {
                    let last = e2.ring.last();
                    EditorView {
                        ring: e2.ring.update(
                            e2.ring.len() - 1,
                            if target < e2.cursor {
                                deleted + last
                            } else {
                                last + deleted
                            },
                        ),
                        ..e2
                    }
                } else {
                    let kept = if e2.ring.len() == RETAIN {
                        e2.ring.drop_first()
                    } else {
                        e2.ring
                    };
                    EditorView { ring: kept.push(deleted), ..e2 }
                }
            } else {
                e2
            };
            let (e4, t4) = e3.replace_spec(t, a as nat, b as nat, Seq::empty());
            let e5 = e4.normalized(t4);
            (
                EditorView {
                    action: if kill {
                        Action::Kill
                    } else {
                        Action::Idle
                    },
                    ..e5
                },
                t4,
            )
        }
    }

    pub open spec fn delete_spec(self, t: Seq<char>) -> (EditorView, Seq<char>) {
        let e = self.normalized(t).moved_spec();
        let units = atoms_of(bslice(t, e.cursor as int, blen(t) as int), e.cursor as nat, e.pastes);
        let step: nat = if units.len() > 0 {
            (units[0].1 - units[0].0) as nat
        } else {
            0
        };
        e.erase_spec(t, (e.cursor + step) as usize, false)
    }

    pub open spec fn restore_spec(self, d: SnapshotView) -> (EditorView, Seq<char>) {
        (EditorView { cursor: d.cursor, pastes: d.pastes, counter: d.counter, top: 0, ..self }.moved_spec(), d.text)
    }

    pub open spec fn undo_spec(self, t: Seq<char>) -> (EditorView, Seq<char>) {
        let e = self.exit_history_spec().moved_spec();
        if e.undo.len() == 0 {
            (e, t)
        } else {
            EditorView { undo: e.undo.drop_last(), ..e }.restore_spec(e.undo.last())
        }
    }
}

impl Editor {
    #[verifier::rlimit(40)]
    fn erase(&mut self, text: &mut String, target: usize, kill: bool)
        requires
            old(self)@.wf(old(text)@),
            old(self)@.cursor <= blen(old(text)@),
            at_boundary(old(text)@, old(self)@.cursor as int),
            target <= blen(old(text)@),
            at_boundary(old(text)@, target as int),
        ensures
            (final(self)@, final(text)@) == old(self)@.erase_spec(old(text)@, target, kill),
            final(self)@.wf(final(text)@),
    {
        let ghost t = text@;
        self.exit_history();
        let ghost e1 = self@;
        let a = if target < self.cursor { target } else { self.cursor };
        let b = if target > self.cursor { target } else { self.cursor };
        if a == b {
            return;
        }
        self.save(text.as_str());
        if kill {
            let deleted = expand_range(&self.pastes, text.as_str(), a, b);
            if self.action == Action::Kill && self.ring.len() > 0 {
                let n = self.ring.len();
                let mut last = self.ring[n - 1].clone();
                if target < self.cursor {
                    let mut joined = deleted;
                    push_str(&mut joined, last.as_str());
                    last = joined;
                } else {
                    push_str(&mut last, deleted.as_str());
                }
                let ghost before = strings_view(self.ring@);
                self.ring.set(n - 1, last);
                proof {
                    assert(strings_view(self.ring@) =~= before.update(n - 1, last@));
                }
            } else {
                if self.ring.len() == RETAIN {
                    let ghost before = strings_view(self.ring@);
                    self.ring.remove(0);
                    proof {
                        assert(strings_view(self.ring@) =~= before.drop_first());
                    }
                }
                let ghost before = strings_view(self.ring@);
                self.ring.push(deleted);
                proof {
                    assert(strings_view(self.ring@) =~= before.push(deleted@));
                }
            }
        }
        let ghost e3 = self@;
        self.replace(text, a, b, "");
        proof {
            assert(""@ =~= Seq::<char>::empty()) by {
                reveal_strlit("");
            }
        }
        self.action = if kill { Action::Kill } else { Action::Idle };
        proof {
            lemma_wf_fields(e1, self@, t, text@);
        }
        self.normalize(text.as_str());
    }

    pub fn delete(&mut self, text: &mut String)
        requires
            old(self)@.wf(old(text)@),
        ensures
            (final(self)@, final(text)@) == old(self)@.delete_spec(old(text)@),
            final(self)@.wf(final(text)@),
    {
        self.normalize(text.as_str());
        self.moved();
        let len = byte_len(text.as_str());
        let step = unit_after(&self.pastes, text.as_str(), self.cursor);
        let target = self.cursor + step;
        self.erase(text, target, false);
    }

    fn restore(&mut self, text: &mut String, state: Snapshot)
        ensures
            (final(self)@, final(text)@) == old(self)@.restore_spec(state@),
    {
        *text = state.text;
        self.cursor = state.cursor;
        self.pastes = state.pastes;
        self.counter = state.counter;
        self.top = 0;
        self.moved();
    }

    pub fn undo(&mut self, text: &mut String)
        requires
            old(self)@.wf(old(text)@),
        ensures
            (final(self)@, final(text)@) == old(self)@.undo_spec(old(text)@),
            final(self)@.wf(final(text)@),
    {
        self.exit_history();
        self.moved();
        let ghost e = self@;
        let ghost before = snapshots_view(self.undo@);
        if let Some(snapshot) = self.undo.pop() {
            proof {
                assert(snapshots_view(self.undo@) =~= before.drop_last());
                assert(snapshot@ == before.last());
                assert(snapshot_wf(before[before.len() - 1]));
            }
            self.restore(text, snapshot);
            proof {
                assert forall|i: int| 0 <= i < self@.undo.len() implies snapshot_wf(#[trigger] self@.undo[i]) by {
                    assert(self@.undo[i] == before[i]);
                }
            }
        }
    }
}

/// `s` without leading and trailing whitespace.
pub open spec fn trim_front(s: Seq<char>) -> Seq<char>
    decreases s.len(),
{
    if s.len() > 0 && is_ws(s[0]) {
        trim_front(s.drop_first())
    } else {
        s
    }
}

pub open spec fn trim_back(s: Seq<char>) -> Seq<char>
    decreases s.len(),
{
    if s.len() > 0 && is_ws(s.last()) {
        trim_back(s.drop_last())
    } else {
        s
    }
}

pub open spec fn trimmed(s: Seq<char>) -> Seq<char> {
    trim_back(trim_front(s))
}

pub fn trim_text(s: &str) -> (r: String)
    ensures
        r@ == trimmed(s@),
{
    let cs = chars_of(s);
    let ghost v = cs@;
    let mut a: usize = 0;
    proof {
        assert(v.skip(0) =~= v);
    }
    while a < cs.len() && char_is_whitespace(cs[a])
        invariant
            v == cs@,
            a <= v.len(),
            trim_front(v) == trim_front(v.skip(a as int)),
        decreases cs.len() - a,
    {
        proof {
            assert(v.skip(a as int)[0] == v[a as int]);
            assert(v.skip(a as int).drop_first() =~= v.skip(a + 1));
        }
        a += 1;
    }
    proof {
        assert(v.skip(0) =~= v);
        if a < v.len() {
            assert(v.skip(a as int)[0] == v[a as int]);
        }
    }
    let ghost front = v.skip(a as int);
    let mut b: usize = cs.len();
    while b > a && char_is_whitespace(cs[b - 1])
        invariant
            v == cs@,
            front == v.skip(a as int),
            a <= b <= v.len(),
            trim_back(front) == trim_back(v.subrange(a as int, b as int)),
        decreases b,
    {
        proof {
            assert(v.subrange(a as int, b as int).last() == v[b - 1]);
            assert(v.subrange(a as int, b as int).drop_last() =~= v.subrange(a as int, b - 1));
        }
        b -= 1;
    }
    proof {
        assert(v.subrange(a as int, v.len() as int) =~= front);
        if b > a {
            assert(v.subrange(a as int, b as int).last() == v[b - 1]);
        }
    }
    let mut out: Vec<char> = Vec::new();
    let mut k = a;
    while k < b
        invariant
            v == cs@,
            a <= k <= b <= v.len(),
            out@ == v.subrange(a as int, k as int),
        decreases b - k,
    {
        out.push(cs[k]);
        k += 1;
        proof {
            assert(out@ =~= v.subrange(a as int, k as int));
        }
    }
    string_of(&out)
}

impl EditorView {
    /// Pastes the newest kill (or, popping, replaces the last yank by the
    /// entry before it and rotates the ring), unless the draft would outgrow `LIMIT`.
    pub open spec fn yank_spec(self, t: Seq<char>, pop: bool) -> (EditorView, Seq<char>) {
        let e = self.normalized(t);
        if e.ring.len() == 0 || (pop && (e.action != Action::Yank || e.ring.len() < 2)) {
            (e, t)
        } else {
            let r = if pop {
                match e.yank_range {
                    Some(r) => r,
                    None => (e.cursor, e.cursor),
                }
            } else {
                (e.cursor, e.cursor)
            };
            let index = if pop {
                e.ring.len() - 2
            } else {
                e.ring.len() - 1
            };
            let payload = e.ring[index];
            let rest = sat_sub(blen(expanded_text(t, e.pastes)), blen(expanded_range(t, e.pastes, r.0 as nat, r.1 as nat)));
            if rest + blen(payload) > LIMIT {
                (e, t)
            } else {
                let e2 = e.save_spec(t).exit_history_spec();
                let e3 = if pop {
                    EditorView { ring: seq![e2.ring.last()] + e2.ring.drop_last(), ..e2 }
                } else {
                    e2
                };
                let (e4, t4) = e3.replace_spec(t, r.0 as nat, r.1 as nat, payload);
                (EditorView { yank_range: Some((r.0, e4.cursor)), action: Action::Yank, ..e4 }, t4)
            }
        }
    }

    /// After a send: the trimmed expanded draft heads the history (unless it
    /// repeats the newest entry), and the draft, undo and pastes are cleared.
    pub open spec fn sent_spec(self, t: Seq<char>) -> (EditorView, Seq<char>) {
        let s = trimmed(expanded_text(t, self.pastes));
        let h = if s.len() > 0 && !(self.history.len() > 0 && self.history[0] == s) {
            let h1 = seq![s] + self.history;
            if h1.len() > RETAIN {
                h1.take(RETAIN as int)
            } else {
                h1
            }
        } else {
            self.history
        };
        (
            EditorView {
                history: h,
                cursor: 0,
                top: 0,
                pastes: Seq::empty(),
                counter: 0,
                undo: Seq::empty(),
                jump: None,
                ..self
            }.exit_history_spec().moved_spec(),
            Seq::empty(),
        )
    }

    /// Browses the history: `older` steps back (saving the draft first),
    /// otherwise forward, and past the newest entry the draft comes back.
    pub open spec fn history_spec(self, t: Seq<char>, older: bool) -> (EditorView, Seq<char>) {
        let e = self.moved_spec();
        let up = match e.history_index {
            Some(i) => i + 1,
            None => 0,
        };
        let stop = if older {
            up >= e.history.len()
        } else {
            e.history_index is None
        };
        if stop {
            (e, t)
        } else {
            let next: Option<usize> = if older {
                Some(up as usize)
            } else {
                match e.history_index {
                    Some(i) => if i == 0 {
                        None
                    } else {
                        Some((i - 1) as usize)
                    },
                    None => None,
                }
            };
            let e2 = if e.history_index is None {
                EditorView { draft: Some(e.snapshot_spec(t)), ..e.save_spec(t) }
            } else {
                e
            };
            let e3 = EditorView { history_index: next, ..e2 };
            match next {
                Some(i) => (
                    EditorView {
                        pastes: Seq::empty(),
                        cursor: (if older {
                            0
                        } else {
                            blen(e3.history[i as int])
                        }) as usize,
                        top: 0,
                        ..e3
                    },
                    e3.history[i as int],
                ),
                None => match e3.draft {
                    Some(d) => EditorView { draft: None, ..e3 }.restore_spec(d),
                    None => (e3, t),
                },
            }
        }
    }
}

impl Editor {
    pub fn yank(&mut self, text: &mut String, pop: bool)
        requires
            old(self)@.wf(old(text)@),
        ensures
            (final(self)@, final(text)@) == old(self)@.yank_spec(old(text)@, pop),
            final(self)@.wf(final(text)@),
    {
        let ghost t = text@;
        self.normalize(text.as_str());
        if self.ring.len() == 0 || (pop && (self.action != Action::Yank || self.ring.len() < 2)) {
            return;
        }
        let ghost e = self@;
        let (a, b) = if pop {
            match &self.yank_range {
                Some(r) => (r.start, r.end),
                None => (self.cursor, self.cursor),
            }
        } else {
            (self.cursor, self.cursor)
        };
        let index = if pop { self.ring.len() - 2 } else { self.ring.len() - 1 };
        let payload = self.ring[index].clone();
        let whole = self.expanded(text.as_str());
        let part = expand_range(&self.pastes, text.as_str(), a, b);
        let wl = byte_len(whole.as_str());
        let pl = byte_len(part.as_str());
        let rest = if wl >= pl { wl - pl } else { 0 };
        let n = byte_len(payload.as_str());
        if n > LIMIT || rest > LIMIT - n {
            return;
        }
        self.save(text.as_str());
        self.exit_history();
        if pop {
            let ghost before = strings_view(self.ring@);
            let last = self.ring.pop().unwrap();
            self.ring.insert(0, last);
            proof {
                assert(strings_view(self.ring@) =~= seq![before.last()] + before.drop_last());
            }
        }
        let ghost e3 = self@;
        self.replace(text, a, b, payload.as_str());
        proof {
            lemma_replaced(t, a as int, b as int, payload@);
        }
        self.yank_range = Some(a..self.cursor);
        self.action = Action::Yank;
        proof {
            assert(range_wf(text@, a as int, self.cursor as int));
            lemma_wf_fields(e, EditorView { action: Action::Idle, ..self@ }, t, text@);
        }
    }

    pub fn sent(&mut self, text: &mut String)
        requires
            old(self)@.wf(old(text)@),
        ensures
            (final(self)@, final(text)@) == old(self)@.sent_spec(old(text)@),
            final(self)@.wf(final(text)@),
    {
        let whole = self.expanded(text.as_str());
        let sent = trim_text(whole.as_str());
        let ghost h0 = strings_view(self.history@);
        let fresh = self.history.len() == 0 || !crate::text::str_eq(self.history[0].as_str(), sent.as_str());
        proof {
            if self.history@.len() > 0 {
                assert(h0[0] == self.history@[0]@);
            }
        }
        if byte_len(sent.as_str()) > 0 && fresh {
            proof {
                lemma_blen_zero(sent@);
            }
            self.history.insert(0, sent);
            let ghost h1 = strings_view(self.history@);
            proof {
                assert(h1 =~= seq![sent@] + h0);
            }
            self.history.truncate(RETAIN);
            proof {
                if h1.len() > RETAIN {
                    assert(strings_view(self.history@) =~= h1.take(RETAIN as int));
                } else {
                    assert(strings_view(self.history@) =~= h1);
                }
            }
        } else {
            proof {
                lemma_blen_zero(sent@);
            }
        }
        *text = String::new();
        self.cursor = 0;
        self.top = 0;
        self.pastes.clear();
        self.counter = 0;
        self.undo.clear();
        self.jump = None;
        self.exit_history();
        self.moved();
        proof {
            assert(text@ =~= Seq::<char>::empty());
            assert(self@.pastes =~= Seq::<PasteView>::empty());
            assert(self@.undo =~= Seq::<SnapshotView>::empty());
        }
    }

    pub fn history(&mut self, text: &mut String, older: bool)
        requires
            old(self)@.wf(old(text)@),
        ensures
            (final(self)@, final(text)@) == old(self)@.history_spec(old(text)@, older),
            final(self)@.wf(final(text)@),
    {
        let ghost t = text@;
        self.moved();
        let ghost e = self@;
        let next = if older {
            let i = match self.history_index {
                Some(i) => i + 1,
                None => 0,
            };
            if i >= self.history.len() {
                return;
            }
            Some(i)
        } else {
            let i = match self.history_index {
                Some(i) => i,
                None => return,
            };
            if i == 0 { None } else { Some(i - 1) }
        };
        if self.history_index.is_none() {
            self.save(text.as_str());
            self.draft = Some(self.snapshot(text.as_str()));
        }
        self.history_index = next;
        match next {
            Some(i) => {
                *text = self.history[i].clone();
                self.pastes.clear();
                self.cursor = if older { 0 } else { byte_len(text.as_str()) };
                self.top = 0;
                proof {
                    assert(self@.pastes =~= Seq::<PasteView>::empty());
                    lemma_wf_fields(e, self@, t, text@);
                }
            },
            None => {
                match self.draft.take() {
                    Some(draft) => {
                        proof {
                            assert(snapshot_wf(draft@));
                        }
                        self.restore(text, draft);
                        proof {
                            lemma_wf_fields(e, self@, t, text@);
                        }
                    },
                    None => {},
                }
            },
        }
    }
}

// ---------------------------------------------------------------------------
// Word movement
// ---------------------------------------------------------------------------

/// ASCII punctuation (`u8::is_ascii_punctuation`); a character is ASCII
/// punctuation exactly when its one UTF-8 byte is.
pub open spec fn is_punct_byte(b: u8) -> bool {
    (33 <= b <= 47) || (58 <= b <= 64) || (91 <= b <= 96) || (123 <= b <= 126)
}

fn punct_byte(b: u8) -> (r: bool)
    ensures
        r == is_punct_byte(b),
{
    (33 <= b && b <= 47) || (58 <= b && b <= 64) || (91 <= b && b <= 96) || (123 <= b && b <= 126)
}

pub open spec fn all_ws(s: Seq<char>) -> bool {
    forall|i: int| 0 <= i < s.len() ==> is_ws(#[trigger] s[i])
}

/// A word part: `(start, end, kind)` in draft bytes; kind 0 is whitespace,
/// 1 a word, 2 punctuation or other symbols, 3 a folded paste.
pub type Part = (nat, nat, u8);

/// Kind of the text after the last punctuation of a segment.
pub open spec fn tail_kind(rest: Seq<char>) -> u8 {
    if all_ws(rest) {
        0
    } else if has_word(rest) {
        1
    } else {
        2
    }
}

/// Parts of one word-bound segment `sg` (at draft byte `off`), scanning its
/// bytes from `j`, with the current run starting at `start`: each ASCII
/// punctuation character is a part of its own.
pub open spec fn punct_scan(sg: Seq<char>, off: nat, j: nat, start: nat) -> Seq<Part>
    decreases blen(sg) - j,
{
    if j >= blen(sg) {
        if start < blen(sg) {
            seq![(off + start, off + blen(sg), tail_kind(bslice(sg, start as int, blen(sg) as int)))]
        } else {
            Seq::empty()
        }
    } else if is_punct_byte(encode_utf8(sg)[j as int]) {
        (if j > start {
            seq![(off + start, off + j, 1u8)]
        } else {
            Seq::<Part>::empty()
        }) + seq![(off + j, off + j + 1, 2u8)] + punct_scan(sg, off, j + 1, j + 1)
    } else {
        punct_scan(sg, off, j + 1, start)
    }
}

/// Parts of the word-bound segments of `chunk` (at draft byte `off`) from the `k`-th on.
pub open spec fn bound_scan(chunk: Seq<char>, off: nat, wb: Seq<usize>, k: int) -> Seq<Part>
    decreases wb.len() - k,
{
    if k < 0 || k >= wb.len() {
        Seq::empty()
    } else {
        let sg = bslice(chunk, wb[k] as int, cut_at(wb, blen(chunk), k + 1) as int);
        punct_scan(sg, (off + wb[k]) as nat, 0, 0) + bound_scan(chunk, off, wb, k + 1)
    }
}

/// The smallest marker start after byte `x`, looking at pastes from the `i`-th on.
pub open spec fn next_marker_after(ps: Seq<PasteView>, x: nat, i: int) -> Option<nat>
    decreases ps.len() - i,
{
    if i < 0 || i >= ps.len() {
        None
    } else {
        let rest = next_marker_after(ps, x, i + 1);
        if ps[i].start > x {
            match rest {
                Some(m) => Some(min_nat(ps[i].start, m)),
                None => Some(ps[i].start),
            }
        } else {
            rest
        }
    }
}

/// Word parts of `seg` (at draft byte `base`) from `pos` on: a folded paste
/// is one part; between markers, UAX #29 word-bound segments split further at
/// ASCII punctuation.
pub open spec fn parts_from(seg: Seq<char>, base: nat, ps: Seq<PasteView>, pos: nat) -> Seq<Part>
    decreases blen(seg) - pos,
{
    if pos >= blen(seg) {
        Seq::empty()
    } else {
        match paste_index(ps, (base + pos) as int) {
            Some(k) => {
                let end = min_nat(sat_sub(ps[k].end, base), blen(seg));
                if end <= pos {
                    Seq::empty()
                } else {
                    seq![(base + pos, base + end, 3u8)] + parts_from(seg, base, ps, end)
                }
            },
            None => {
                let end = match next_marker_after(ps, base + pos, 0) {
                    Some(m) => min_nat(sat_sub(m, base), blen(seg)),
                    None => blen(seg),
                };
                if end <= pos {
                    Seq::empty()
                } else {
                    let chunk = bslice(seg, pos as int, end as int);
                    bound_scan(chunk, base + pos, word_bound_starts(chunk), 0) + parts_from(seg, base, ps, end)
                }
            },
        }
    }
}

pub open spec fn parts_view(v: Seq<(usize, usize, u8)>) -> Seq<Part> {
    v.map_values(|x: (usize, usize, u8)| (x.0 as nat, x.1 as nat, x.2))
}

/// Every part is a range on boundaries of the draft `t`.
pub open spec fn parts_wf(parts: Seq<Part>, t: Seq<char>) -> bool {
    forall|i: int| 0 <= i < parts.len() ==> #[trigger] range_wf(t, parts[i].0 as int, parts[i].1 as int)
}

fn push_part(out: &mut Vec<(usize, usize, u8)>, a: usize, b: usize, kind: u8)
    ensures
        parts_view(final(out)@) == parts_view(old(out)@).push((a as nat, b as nat, kind)),
{
    out.push((a, b, kind));
    proof {
        assert(parts_view(final(out)@) =~= parts_view(old(out)@).push((a as nat, b as nat, kind)));
    }
}

/// Appends the parts of one word-bound segment; `sg` is bytes `off..` of the draft `t`.
fn punct_parts(sg: &str, off: usize, out: &mut Vec<(usize, usize, u8)>, Ghost(t): Ghost<Seq<char>>)
    requires
        range_wf(t, off as int, off + blen(sg@)),
        off + blen(sg@) <= usize::MAX,
        sg@ == bslice(t, off as int, off + blen(sg@)),
        parts_wf(parts_view(old(out)@), t),
    ensures
        parts_view(final(out)@) == parts_view(old(out)@) + punct_scan(sg@, off as nat, 0, 0),
        parts_wf(parts_view(final(out)@), t),
{
    let len = byte_len(sg);
    let ghost o = parts_view(out@);
    let mut start: usize = 0;
    let mut j: usize = 0;
    proof {
        lemma_slice_bytes(t, off as int, off + len);
        crate::bytes::lemma_boundary(sg@, 0);
        assert(o + punct_scan(sg@, off as nat, 0, 0) =~= parts_view(out@) + punct_scan(sg@, off as nat, 0, 0));
    }
    while j < len
        invariant
            len == blen(sg@),
            off + len <= usize::MAX,
            range_wf(t, off as int, off + len),
            sg@ == bslice(t, off as int, off + len),
            start <= j <= len,
            at_boundary(sg@, start as int),
            parts_wf(parts_view(out@), t),
            o + punct_scan(sg@, off as nat, 0, 0) == parts_view(out@) + punct_scan(sg@, off as nat, j as nat, start as nat),
        decreases len - j,
    {
        let b = byte_at(sg, j);
        let ghost before = parts_view(out@);
        if punct_byte(b) {
            proof {
                assert(!vstd::utf8::is_continuation_byte(b));
                assert(at_boundary(sg@, j as int));
                lemma_after_ascii(sg@, j as int);
                lemma_slice_boundary(t, off as int, off + len, start as int);
                lemma_slice_boundary(t, off as int, off + len, j as int);
                lemma_slice_boundary(t, off as int, off + len, j + 1);
            }
            if j > start {
                push_part(out, off + start, off + j, 1);
            }
            push_part(out, off + j, off + j + 1, 2);
            proof {
                assert(parts_view(out@) + punct_scan(sg@, off as nat, (j + 1) as nat, (j + 1) as nat) =~= before + punct_scan(sg@, off as nat, j as nat, start as nat));
            }
            start = j + 1;
        }
        j += 1;
    }
    if start < len {
        proof {
            crate::bytes::lemma_boundary(sg@, len as int);
            lemma_slice_boundary(t, off as int, off + len, start as int);
            lemma_slice_boundary(t, off as int, off + len, len as int);
        }
        let rest = slice(sg, start, len);
        let kind: u8 = if crate::text::is_blank(rest) {
            0
        } else if contains_word(rest) {
            1
        } else {
            2
        };
        let ghost before = parts_view(out@);
        push_part(out, off + start, off + len, kind);
        proof {
            assert(parts_view(out@) =~= before + punct_scan(sg@, off as nat, j as nat, start as nat));
        }
    } else {
        proof {
            assert(punct_scan(sg@, off as nat, j as nat, start as nat) =~= Seq::<Part>::empty());
            assert(parts_view(out@) + Seq::<Part>::empty() =~= parts_view(out@));
        }
    }
}

/// Appends the parts of the word-bound segments of `chunk`, bytes `off..` of the draft `t`.
fn bound_parts(chunk: &str, off: usize, out: &mut Vec<(usize, usize, u8)>, Ghost(t): Ghost<Seq<char>>)
    requires
        range_wf(t, off as int, off + blen(chunk@)),
        off + blen(chunk@) <= usize::MAX,
        chunk@ == bslice(t, off as int, off + blen(chunk@)),
        parts_wf(parts_view(old(out)@), t),
    ensures
        parts_view(final(out)@) == parts_view(old(out)@) + bound_scan(chunk@, off as nat, word_bound_starts(chunk@), 0),
        parts_wf(parts_view(final(out)@), t),
{
    let len = byte_len(chunk);
    let wb = word_bound_offsets(chunk);
    let ghost o = parts_view(out@);
    let mut k: usize = 0;
    proof {
        assert(o + bound_scan(chunk@, off as nat, wb@, 0) =~= parts_view(out@) + bound_scan(chunk@, off as nat, wb@, 0));
    }
    while k < wb.len()
        invariant
            len == blen(chunk@),
            wb@ == word_bound_starts(chunk@),
            cuts(wb@, chunk@),
            off + len <= usize::MAX,
            range_wf(t, off as int, off + len),
            chunk@ == bslice(t, off as int, off + len),
            k <= wb@.len(),
            parts_wf(parts_view(out@), t),
            o + bound_scan(chunk@, off as nat, wb@, 0) == parts_view(out@) + bound_scan(chunk@, off as nat, wb@, k as int),
        decreases wb.len() - k,
    {
        let a = wb[k];
        let b = if k + 1 < wb.len() { wb[k + 1] } else { len };
        proof {
            assert(at_boundary(chunk@, a as int));
            if k + 1 < wb.len() {
                assert(at_boundary(chunk@, wb@[k + 1] as int));
                assert(wb@[k as int] < wb@[k + 1]);
            } else {
                crate::bytes::lemma_boundary(chunk@, len as int);
            }
            lemma_slice_boundary(t, off as int, off + len, a as int);
            lemma_slice_boundary(t, off as int, off + len, b as int);
            lemma_slice_of_slice(t, off as int, off + len, a as int, b as int);
        }
        let sg = slice(chunk, a, b);
        let ghost before = parts_view(out@);
        punct_parts(sg, off + a, out, Ghost(t));
        proof {
            assert(parts_view(out@) + bound_scan(chunk@, off as nat, wb@, k + 1) =~= before + bound_scan(chunk@, off as nat, wb@, k as int));
        }
        k += 1;
    }
    proof {
        assert(bound_scan(chunk@, off as nat, wb@, k as int) =~= Seq::<Part>::empty());
        assert(parts_view(out@) + Seq::<Part>::empty() =~= parts_view(out@));
    }
}

fn next_marker(pastes: &Vec<Paste>, x: usize) -> (r: Option<usize>)
    ensures
        match next_marker_after(pastes_view(pastes@), x as nat, 0) {
            Some(m) => r is Some && r.unwrap() as nat == m && m > x,
            None => r.is_none(),
        },
{
    let ghost ps = pastes_view(pastes@);
    let mut best: Option<usize> = None;
    let mut i = pastes.len();
    while i > 0
        invariant
            ps == pastes_view(pastes@),
            i <= ps.len(),
            match next_marker_after(ps, x as nat, i as int) {
                Some(m) => best is Some && best.unwrap() as nat == m && m > x,
                None => best.is_none(),
            },
        decreases i,
    {
        i -= 1;
        let s = pastes[i].range.start;
        if s > x {
            best = match best {
                Some(m) => Some(if s <= m { s } else { m }),
                None => Some(s),
            };
        }
    }
    best
}

/// Word parts of bytes `a..b` of the draft.
fn word_parts(text: &str, a: usize, b: usize, pastes: &Vec<Paste>) -> (r: Vec<(usize, usize, u8)>)
    requires
        range_wf(text@, a as int, b as int),
        pastes_wf(pastes_view(pastes@), text@),
    ensures
        parts_view(r@) == parts_from(bslice(text@, a as int, b as int), a as nat, pastes_view(pastes@), 0),
        parts_wf(parts_view(r@), text@),
{
    let ghost t = text@;
    let ghost ps = pastes_view(pastes@);
    let tl = byte_len(text);
    proof {
        lemma_slice_bytes(t, a as int, b as int);
        lemma_markers_fit(t, ps, a as int, b as int);
    }
    let seg = slice(text, a, b);
    let len = byte_len(seg);
    let mut out: Vec<(usize, usize, u8)> = Vec::new();
    let mut pos: usize = 0;
    proof {
        assert(parts_view(out@) =~= Seq::<Part>::empty());
        assert(parts_view(out@) + parts_from(seg@, a as nat, ps, 0) =~= parts_from(seg@, a as nat, ps, 0));
        lemma_slice_boundary(t, a as int, b as int, 0);
    }
    while pos < len
        invariant
            t == text@,
            ps == pastes_view(pastes@),
            ps.len() == pastes.len(),
            pastes_wf(ps, t),
            range_wf(t, a as int, b as int),
            seg@ == bslice(t, a as int, b as int),
            len == b - a,
            blen(seg@) == len,
            b <= tl,
            tl == blen(t),
            markers_fit(seg@, a as nat, ps),
            pos <= len,
            at_boundary(seg@, pos as int),
            parts_wf(parts_view(out@), t),
            parts_from(seg@, a as nat, ps, 0) == parts_view(out@) + parts_from(seg@, a as nat, ps, pos as nat),
        decreases len - pos,
    {
        let ghost before = parts_view(out@);
        match find_paste(pastes, a + pos) {
            Some(k) => {
                proof {
                    lemma_paste_index_from(ps, (a + pos) as int, 0);
                    match paste_index(ps, (a + pos) as int) {
                        Some(j) => {
                            assert(k as int == j);
                        },
                        None => {},
                    }
                    assert(ps[k as int].start < ps[k as int].end);
                }
                let pe = pastes[k].range.end - a;
                let end = if pe < len { pe } else { len };
                proof {
                    crate::bytes::lemma_boundary(seg@, len as int);
                    lemma_slice_boundary(t, a as int, b as int, pos as int);
                    lemma_slice_boundary(t, a as int, b as int, end as int);
                }
                push_part(&mut out, a + pos, a + end, 3);
                proof {
                    assert(parts_view(out@) + parts_from(seg@, a as nat, ps, end as nat) =~= before + parts_from(seg@, a as nat, ps, pos as nat));
                }
                pos = end;
            },
            None => {
                let end = match next_marker(pastes, a + pos) {
                    Some(m) => {
                        let rel = m - a;
                        if rel < len { rel } else { len }
                    },
                    None => len,
                };
                proof {
                    crate::bytes::lemma_boundary(seg@, len as int);
                    if end < len {
                        let m = next_marker_after(ps, (a + pos) as nat, 0).unwrap();
                        lemma_next_marker_is_start(ps, (a + pos) as nat, 0);
                        let j = choose|j: int| 0 <= j < ps.len() && ps[j].start == m;
                        assert(at_boundary(t, ps[j].start as int));
                        lemma_slice_boundary(t, a as int, b as int, end as int);
                    }
                    lemma_slice_boundary(t, a as int, b as int, pos as int);
                    lemma_slice_boundary(t, a as int, b as int, end as int);
                    lemma_slice_of_slice(t, a as int, b as int, pos as int, end as int);
                }
                let chunk = slice(seg, pos, end);
                bound_parts(chunk, a + pos, &mut out, Ghost(t));
                proof {
                    assert(parts_view(out@) + parts_from(seg@, a as nat, ps, end as nat) =~= before + parts_from(seg@, a as nat, ps, pos as nat));
                }
                pos = end;
            },
        }
    }
    proof {
        assert(parts_from(seg@, a as nat, ps, pos as nat) =~= Seq::<Part>::empty());
        assert(parts_view(out@) + Seq::<Part>::empty() =~= parts_view(out@));
    }
    out
}

proof fn lemma_next_marker_is_start(ps: Seq<PasteView>, x: nat, i: int)
    requires
        0 <= i,
    ensures
        next_marker_after(ps, x, i) matches Some(m) ==> exists|j: int| i <= j < ps.len() && ps[j].start == m,
    decreases ps.len() - i,
{
    if i < ps.len() {
        lemma_next_marker_is_start(ps, x, i + 1);
        if ps[i].start > x {
            match next_marker_after(ps, x, i + 1) {
                Some(m) => {
                    if ps[i].start > m {
                        let j = choose|j: int| i + 1 <= j < ps.len() && ps[j].start == m;
                        assert(i <= j < ps.len() && ps[j].start == m);
                    }
                },
                None => {},
            }
        }
    }
}

/// Walks word parts in travel order from the `k`-th: whitespace is crossed,
/// then one word, one paste, or a run of punctuation.
pub open spec fn target_scan(parts: Seq<Part>, backwards: bool, k: int, target: nat, category: Option<u8>) -> nat
    decreases parts.len() - k,
{
    if k < 0 || k >= parts.len() {
        target
    } else {
        let p = parts[k];
        let kind = p.2;
        if category is Some && (category.unwrap() != 2 || kind != 2) {
            target
        } else {
            let next_category = if category is None && kind != 0 {
                Some(kind)
            } else {
                category
            };
            let next_target = if backwards {
                p.0
            } else {
                p.1
            };
            if kind == 1 || kind == 3 {
                next_target
            } else {
                target_scan(parts, backwards, k + 1, next_target, next_category)
            }
        }
    }
}

/// Where a word move from byte `c` lands: across a newline next to the
/// cursor, or else across whitespace and then one word, paste or
/// punctuation run within the line.
pub open spec fn word_target_spec(t: Seq<char>, ps: Seq<PasteView>, c: nat, backwards: bool) -> nat {
    let bs = encode_utf8(t);
    if backwards && c > 0 && bs[c - 1] == 10 {
        (c - 1) as nat
    } else if !backwards && c < bs.len() && bs[c as int] == 10 {
        c + 1
    } else {
        let (a, b) = if backwards {
            (line_start(t, c), c)
        } else {
            (c, line_end(t, c))
        };
        let parts = parts_from(bslice(t, a as int, b as int), a, ps, 0);
        target_scan(
            if backwards {
                parts.reverse()
            } else {
                parts
            },
            backwards,
            0,
            c,
            None,
        )
    }
}

proof fn lemma_target_scan(parts: Seq<Part>, t: Seq<char>, backwards: bool, k: int, target: nat, category: Option<u8>)
    requires
        parts_wf(parts, t),
        range_wf(t, target as int, target as int),
        0 <= k,
    ensures
        range_wf(t, target_scan(parts, backwards, k, target, category) as int, target_scan(parts, backwards, k, target, category) as int),
    decreases parts.len() - k,
{
    if k < parts.len() {
        assert(range_wf(t, parts[k].0 as int, parts[k].1 as int));
        let p = parts[k];
        let next_category = if category is None && p.2 != 0 {
            Some(p.2)
        } else {
            category
        };
        let next_target = if backwards {
            p.0
        } else {
            p.1
        };
        lemma_target_scan(parts, t, backwards, k + 1, next_target, next_category);
    }
}

fn reversed(v: &Vec<(usize, usize, u8)>) -> (r: Vec<(usize, usize, u8)>)
    ensures
        parts_view(r@) == parts_view(v@).reverse(),
{
    let mut out: Vec<(usize, usize, u8)> = Vec::new();
    let mut i = v.len();
    while i > 0
        invariant
            i <= v.len(),
            parts_view(out@) == parts_view(v@).subrange(i as int, v@.len() as int).reverse(),
        decreases i,
    {
        i -= 1;
        let ghost before = parts_view(out@);
        out.push(v[i]);
        proof {
            let w = parts_view(v@);
            assert(parts_view(out@) =~= before.push(w[i as int]));
            assert(w.subrange(i as int, w.len() as int).reverse() =~= w.subrange(i + 1, w.len() as int).reverse().push(w[i as int]));
        }
    }
    proof {
        assert(parts_view(v@).subrange(0, v@.len() as int) =~= parts_view(v@));
    }
    out
}

impl Editor {
    fn word_target(&self, text: &str, backwards: bool) -> (r: usize)
        requires
            self@.wf(text@),
            self@.cursor <= blen(text@),
            at_boundary(text@, self@.cursor as int),
        ensures
            r == word_target_spec(text@, self@.pastes, self@.cursor as nat, backwards),
            r <= blen(text@),
            at_boundary(text@, r as int),
    {
        let ghost t = text@;
        let cursor = self.cursor;
        let len = byte_len(text);
        if backwards && cursor > 0 && byte_at(text, cursor - 1) == 10u8 {
            proof {
                assert(at_boundary(t, cursor - 1));
            }
            return cursor - 1;
        }
        if !backwards && cursor < len && byte_at(text, cursor) == 10u8 {
            proof {
                lemma_after_ascii(t, cursor as int);
            }
            return cursor + 1;
        }
        let start = line_start_of(text, cursor);
        let end = line_end_of(text, cursor);
        let (a, b) = if backwards { (start, cursor) } else { (cursor, end) };
        let found = word_parts(text, a, b, &self.pastes);
        let ghost pv = parts_view(found@);
        let parts = if backwards { reversed(&found) } else { found };
        let ghost ordered = parts_view(parts@);
        proof {
            assert(parts_wf(ordered, t)) by {
                if backwards {
                    assert forall|i: int| 0 <= i < ordered.len() implies #[trigger] range_wf(t, ordered[i].0 as int, ordered[i].1 as int) by {
                        assert(ordered[i] == pv[pv.len() - 1 - i]);
                    }
                }
            }
        }
        let mut target = cursor;
        let mut category: Option<u8> = None;
        let mut k: usize = 0;
        proof {
            crate::bytes::lemma_boundary(t, 0);
        }
        while k < parts.len()
            invariant
                t == text@,
                cursor == self@.cursor,
                word_target_spec(t, self@.pastes, cursor as nat, backwards) == target_scan(ordered, backwards, 0, cursor as nat, None),
                ordered == parts_view(parts@),
                parts_wf(ordered, t),
                k <= ordered.len(),
                range_wf(t, target as int, target as int),
                target_scan(ordered, backwards, 0, cursor as nat, None) == target_scan(ordered, backwards, k as int, target as nat, category),
            decreases parts.len() - k,
        {
            let (i, e, kind) = parts[k];
            proof {
                assert(ordered[k as int] == (i as nat, e as nat, kind));
                assert(range_wf(t, i as int, e as int));
            }
            match category {
                Some(prior) => {
                    if prior != 2 || kind != 2 {
                        return target;
                    }
                },
                None => {
                    if kind != 0 {
                        category = Some(kind);
                    }
                },
            }
            target = if backwards { i } else { e };
            if kind == 1 || kind == 3 {
                return target;
            }
            k += 1;
        }
        target
    }

    pub fn word_left(&mut self, text: &str)
        requires
            old(self)@.wf(text@),
        ensures
            final(self)@ == (EditorView {
                cursor: word_target_spec(text@, old(self)@.pastes, old(self)@.normalized(text@).cursor as nat, true) as usize,
                ..old(self)@.normalized(text@).moved_spec()
            }),
            final(self)@.wf(text@),
    {
        self.normalize(text);
        self.moved();
        self.cursor = self.word_target(text, true);
    }

    pub fn word_right(&mut self, text: &str)
        requires
            old(self)@.wf(text@),
        ensures
            final(self)@ == (EditorView {
                cursor: word_target_spec(text@, old(self)@.pastes, old(self)@.normalized(text@).cursor as nat, false) as usize,
                ..old(self)@.normalized(text@).moved_spec()
            }),
            final(self)@.wf(text@),
    {
        self.normalize(text);
        self.moved();
        self.cursor = self.word_target(text, false);
    }
}

impl EditorView {
    /// Backspace: the unit before the cursor, or (with `word`) a word, killed.
    pub open spec fn backspace_spec(self, t: Seq<char>, word: bool) -> (EditorView, Seq<char>) {
        let e = self.normalized(t);
        if word {
            e.erase_spec(t, word_target_spec(t, e.pastes, e.cursor as nat, true) as usize, true)
        } else {
            let units = atoms_of(bslice(t, 0, e.cursor as int), 0, e.pastes);
            let target: nat = if units.len() > 0 {
                units.last().0
            } else {
                0
            };
            e.moved_spec().erase_spec(t, target as usize, false)
        }
    }

    /// Kills to a word boundary, or to the line's start or end (crossing the
    /// newline when already there).
    pub open spec fn kill_spec(self, t: Seq<char>, backwards: bool, line: bool) -> (EditorView, Seq<char>) {
        let e = self.normalized(t);
        let c = e.cursor as nat;
        let target: nat = if !line {
            word_target_spec(t, e.pastes, c, backwards)
        } else if backwards {
            let s = line_start(t, c);
            if s == c {
                sat_sub(s, 1)
            } else {
                s
            }
        } else {
            let d = line_end(t, c);
            if d == c {
                min_nat(d + 1, blen(t))
            } else {
                d
            }
        };
        e.erase_spec(t, target as usize, true)
    }
}

impl Editor {
    pub fn backspace(&mut self, text: &mut String, word: bool)
        requires
            old(self)@.wf(old(text)@),
        ensures
            (final(self)@, final(text)@) == old(self)@.backspace_spec(old(text)@, word),
            final(self)@.wf(final(text)@),
    {
        self.normalize(text.as_str());
        let target = if word {
            self.word_target(text.as_str(), true)
        } else {
            unit_before(&self.pastes, text.as_str(), self.cursor)
        };
        if !word {
            self.moved();
        }
        self.erase(text, target, word);
    }

    pub fn kill(&mut self, text: &mut String, backwards: bool, line: bool)
        requires
            old(self)@.wf(old(text)@),
        ensures
            (final(self)@, final(text)@) == old(self)@.kill_spec(old(text)@, backwards, line),
            final(self)@.wf(final(text)@),
    {
        let ghost t = text@;
        self.normalize(text.as_str());
        let c = self.cursor;
        let target = if !line {
            self.word_target(text.as_str(), backwards)
        } else if backwards {
            let s = line_start_of(text.as_str(), c);
            if s == c {
                if s > 0 {
                    proof {
                        assert(at_boundary(t, s - 1));
                    }
                    s - 1
                } else {
                    0
                }
            } else {
                s
            }
        } else {
            let d = line_end_of(text.as_str(), c);
            let len = byte_len(text.as_str());
            if d == c {
                if d < len {
                    proof {
                        lemma_after_ascii(t, d as int);
                    }
                    d + 1
                } else {
                    len
                }
            } else {
                d
            }
        };
        self.erase(text, target, true);
    }
}

// ---------------------------------------------------------------------------
// Wrapping into rows
// ---------------------------------------------------------------------------

pub open spec fn is_cjk(c: char) -> bool {
    let u = c as u32;
    (0x2e80 <= u <= 0x9fff) || (0xac00 <= u <= 0xd7af) || (0xf900 <= u <= 0xfaff) || (0x20000 <= u <= 0x323af)
}

pub open spec fn has_cjk(s: Seq<char>) -> bool {
    exists|i: int| 0 <= i < s.len() && is_cjk(#[trigger] s[i])
}

fn contains_cjk(s: &str) -> (r: bool)
    ensures
        r == has_cjk(s@),
{
    let cs = chars_of(s);
    let mut i: usize = 0;
    while i < cs.len()
        invariant
            cs@ == s@,
            i <= cs.len(),
            forall|j: int| 0 <= j < i ==> !is_cjk(#[trigger] s@[j]),
        decreases cs.len() - i,
    {
        let u = cs[i] as u32;
        if (0x2e80 <= u && u <= 0x9fff) || (0xac00 <= u && u <= 0xd7af) || (0xf900 <= u && u <= 0xfaff) || (0x20000 <= u
            && u <= 0x323af) {
            proof {
                assert(is_cjk(s@[i as int]));
            }
            return true;
        }
        i += 1;
    }
    false
}

/// A row may break between unit `g` and the following unit `next`: after a
/// whitespace run, or beside CJK text.
pub open spec fn break_after(g: Seq<char>, next: Seq<char>) -> bool {
    (crate::text::blank(g) && !crate::text::blank(next)) || (!crate::text::blank(g) && !crate::text::blank(next) && (
    has_cjk(g) || has_cjk(next)))
}

pub open spec fn sat_add(a: nat, b: nat) -> nat {
    if a + b > usize::MAX {
        usize::MAX as nat
    } else {
        a + b
    }
}

/// Wrapping state within a line: rows so far, start of the open row,
/// columns it takes, and the last break opportunity `(byte, columns before it)`.
pub type WrapState = (Seq<(nat, nat)>, nat, nat, Option<(nat, nat)>);

/// Before a unit of `size` columns at `byte`: if it would overflow the open
/// row, break at the last opportunity when the rest then fits, else right
/// before the unit (unless the row is empty).
pub open spec fn overflow_step(st: WrapState, base: nat, byte: nat, size: nat, w: nat) -> WrapState {
    let (rows, start, columns, opp) = st;
    if columns + size > w {
        let fits = match opp {
            Some(o) => sat_sub(columns, o.1) + size <= w,
            None => false,
        };
        if fits {
            let o = opp.unwrap();
            (rows.push((base + start, base + o.0)), o.0, sat_sub(columns, o.1), None)
        } else if byte > start {
            (rows.push((base + start, base + byte)), byte, 0, None)
        } else {
            (rows, start, columns, None)
        }
    } else {
        st
    }
}

pub open spec fn shifted_rows(rows: Seq<(nat, nat)>, by: nat) -> Seq<(nat, nat)> {
    rows.map_values(|r: (nat, nat)| (by + r.0, by + r.1))
}

/// Rows of the lines of `t` from byte `base` on, `w` columns wide.
pub open spec fn wrap_lines(t: Seq<char>, w: nat, ps: Seq<PasteView>, base: nat) -> Seq<(nat, nat)>
    decreases blen(t), (if ps.len() > 0 {
        1nat
    } else {
        0nat
    }), 2nat, blen(t) - base,
{
    if base > blen(t) {
        Seq::empty()
    } else {
        let e = line_end(t, base);
        proof {
            lemma_next_nl_from(encode_utf8(t), base as int);
        }
        let rows = line_rows(t, w, ps, base);
        if e >= blen(t) {
            rows
        } else {
            rows + wrap_lines(t, w, ps, e + 1)
        }
    }
}

/// Rows of the line of `t` that starts at byte `base`.
pub open spec fn line_rows(t: Seq<char>, w: nat, ps: Seq<PasteView>, base: nat) -> Seq<(nat, nat)>
    decreases blen(t), (if ps.len() > 0 {
        1nat
    } else {
        0nat
    }), 1nat, 0nat,
{
    let e = line_end(t, base);
    let line = bslice(t, base as int, e as int);
    let segs = atoms_of(line, base, ps);
    let st = fold_line(t, w, ps, base, line, segs, 0, (Seq::empty(), 0, 0, None));
    st.0.push((base + st.1, base + blen(line)))
}

/// Wraps the units `segs` of `line` (at byte `base` of `t`) from the `i`-th on.
pub open spec fn fold_line(
    t: Seq<char>,
    w: nat,
    ps: Seq<PasteView>,
    base: nat,
    line: Seq<char>,
    segs: Seq<(nat, nat)>,
    i: int,
    st: WrapState,
) -> WrapState
    decreases blen(t), (if ps.len() > 0 {
        1nat
    } else {
        0nat
    }), 0nat, segs.len() - i,
{
    if i < 0 || i >= segs.len() {
        st
    } else {
        let byte = segs[i].0;
        let g = bslice(line, byte as int, segs[i].1 as int);
        let size = display_width(g) as nat;
        let st1 = overflow_step(st, base, byte, size, w);
        if size > w && grapheme_starts(g).len() > 1 && (blen(g) < blen(t) || (blen(g) == blen(t) && ps.len() > 0)) {
            // An oversized marker may span rows but remains one editing unit.
            let sub = wrap_lines(g, w, Seq::empty(), 0);
            if sub.len() > 0 {
                let last = sub.last();
                let rows = st1.0 + shifted_rows(sub.drop_last(), base + byte);
                fold_line(
                    t,
                    w,
                    ps,
                    base,
                    line,
                    segs,
                    i + 1,
                    (rows, byte + last.0, display_width(bslice(g, last.0 as int, blen(g) as int)) as nat, st1.3),
                )
            } else {
                fold_line(t, w, ps, base, line, segs, i + 1, st1)
            }
        } else {
            let columns = sat_add(st1.2, size);
            let opp = if i + 1 < segs.len() && break_after(g, bslice(line, segs[i + 1].0 as int, segs[i + 1].1 as int)) {
                Some((segs[i + 1].0, columns))
            } else {
                st1.3
            };
            fold_line(t, w, ps, base, line, segs, i + 1, (st1.0, st1.1, columns, opp))
        }
    }
}

pub open spec fn max1(width: usize) -> nat {
    if width < 1 {
        1
    } else {
        width as nat
    }
}

/// The visual rows of draft `t` at `width` columns: whitespace is kept; rows
/// break after whitespace runs or beside CJK, otherwise long words wrap at
/// cluster boundaries; a folded paste stays one unit.
pub open spec fn wrap_spec(t: Seq<char>, width: usize, ps: Seq<PasteView>) -> Seq<(nat, nat)> {
    wrap_lines(t, max1(width), ps, 0)
}

pub open spec fn rows_view(v: Seq<Row>) -> Seq<(nat, nat)> {
    v.map_values(|r: Row| (r.start as nat, r.end as nat))
}

pub open spec fn rows_wf(rows: Seq<(nat, nat)>, t: Seq<char>) -> bool {
    forall|i: int| 0 <= i < rows.len() ==> #[trigger] range_wf(t, rows[i].0 as int, rows[i].1 as int)
}

fn push_row(out: &mut Vec<Row>, start: usize, end: usize)
    ensures
        rows_view(final(out)@) == rows_view(old(out)@).push((start as nat, end as nat)),
{
    out.push(Row { start, end });
    proof {
        assert(rows_view(final(out)@) =~= rows_view(old(out)@).push((start as nat, end as nat)));
    }
}

/// With no folded pastes, the first unit of a whole-text line that is one
/// unit is the text itself, so it has at most one cluster.
proof fn lemma_single_unit(t: Seq<char>, base: nat, e: nat, segs: Seq<(nat, nat)>, i: int, starts: Seq<usize>)
    requires
        range_wf(t, base as int, e as int),
        segs == atoms_of(bslice(t, base as int, e as int), base, Seq::empty()),
        units_wf(segs, bslice(t, base as int, e as int)),
        i == 0 < segs.len(),
        segs[i].1 - segs[i].0 == blen(t),
        starts == grapheme_starts(bslice(bslice(t, base as int, e as int), segs[i].0 as int, segs[i].1 as int)),
        cuts(starts, bslice(bslice(t, base as int, e as int), segs[i].0 as int, segs[i].1 as int)),
    ensures
        starts.len() <= 1,
{
    let line = bslice(t, base as int, e as int);
    lemma_slice_bytes(t, base as int, e as int);
    assert(base == 0 && e == blen(t));
    assert(segs[i].0 == 0 && segs[i].1 == blen(t));
    lemma_bslice_all(t);
    assert(line == t);
    lemma_bslice_all(line);
    let g = bslice(line, 0, blen(line) as int);
    assert(g == t);
    // The units from 0 on start with the unit at 0.
    reveal_with_fuel(atoms_from, 1);
    assert(paste_index(Seq::<PasteView>::empty(), 0int) is None);
    let first = atom_end(line, 0, Seq::empty(), 0);
    assert(segs.len() > 0);
    assert(segs[0] == (0nat, first));
    if starts.len() > 1 {
        assert(starts[1] < blen(g));
        assert(first == starts[1]);
        assert(false);
    }
}

pub open spec fn opp_view(o: Option<(usize, usize)>) -> Option<(nat, nat)> {
    match o {
        Some(x) => Some((x.0 as nat, x.1 as nat)),
        None => None,
    }
}

/// The byte where unit `i` starts (the line's end past the last unit).
pub open spec fn unit_start(segs: Seq<(nat, nat)>, len: nat, i: int) -> nat {
    if 0 <= i < segs.len() {
        segs[i].0
    } else {
        len
    }
}

fn wrap(text: &str, width: usize, pastes: &Vec<Paste>) -> (r: Vec<Row>)
    requires
        pastes_wf(pastes_view(pastes@), text@),
    ensures
        rows_view(r@) == wrap_spec(text@, width, pastes_view(pastes@)),
        rows_wf(rows_view(r@), text@),
        r@.len() > 0,
        r@[0].start == 0,
    decreases blen(text@), (if pastes@.len() > 0 {
        1nat
    } else {
        0nat
    }), 2nat,
{
    let ghost t = text@;
    let ghost ps = pastes_view(pastes@);
    let w = if width < 1 { 1 } else { width };
    let len = byte_len(text);
    let mut result: Vec<Row> = Vec::new();
    let mut base: usize = 0;
    proof {
        crate::bytes::lemma_boundary(t, 0);
        assert(rows_view(result@) + wrap_lines(t, w as nat, ps, 0) =~= wrap_lines(t, w as nat, ps, 0));
    }
    loop
        invariant_except_break
            wrap_lines(t, w as nat, ps, 0) == rows_view(result@) + wrap_lines(t, w as nat, ps, base as nat),
        invariant
            t == text@,
            ps == pastes_view(pastes@),
            pastes_wf(ps, t),
            w as nat == max1(width),
            w >= 1,
            len == blen(t),
            base <= len,
            at_boundary(t, base as int),
            rows_wf(rows_view(result@), t),
            result@.len() > 0 ==> result@[0].start == 0,
            result@.len() == 0 ==> base == 0,
        ensures
            wrap_lines(t, w as nat, ps, 0) == rows_view(result@),
            rows_wf(rows_view(result@), t),
            result@.len() > 0,
            result@[0].start == 0,
        decreases len - base,
    {
        let e = line_end_of(text, base);
        let mut lrows = wrap_line(text, base, e, w, pastes);
        let ghost before = rows_view(result@);
        let ghost lr = rows_view(lrows@);
        let ghost rb = result@;
        let ghost lb = lrows@;
        result.append(&mut lrows);
        proof {
            assert(result@ =~= rb + lb);
            if rb.len() > 0 {
                assert(result@[0] == rb[0]);
            } else {
                assert(result@[0] == lb[0]);
            }
            assert(rows_view(result@) =~= before + lr);
            assert forall|k: int| 0 <= k < rows_view(result@).len() implies #[trigger] range_wf(t, rows_view(result@)[k].0 as int, rows_view(result@)[k].1 as int) by {
                if k < before.len() {
                    assert(rows_view(result@)[k] == before[k]);
                } else {
                    assert(rows_view(result@)[k] == lr[k - before.len()]);
                }
            }
        }
        if e >= len {
            proof {
                assert(rows_view(result@) =~= before + wrap_lines(t, w as nat, ps, base as nat));
            }
            break;
        }
        proof {
            lemma_after_ascii(t, e as int);
            assert(before + wrap_lines(t, w as nat, ps, base as nat) =~= rows_view(result@) + wrap_lines(t, w as nat, ps, (e + 1) as nat));
        }
        base = e + 1;
    }
    result
}

/// Rows of the line `base..e` of the draft.
#[verifier::rlimit(60)]
fn wrap_line(text: &str, base: usize, e: usize, w: usize, pastes: &Vec<Paste>) -> (r: Vec<Row>)
    requires
        pastes_wf(pastes_view(pastes@), text@),
        base <= e <= blen(text@),
        at_boundary(text@, base as int),
        e == line_end(text@, base as nat),
        at_boundary(text@, e as int),
        w >= 1,
    ensures
        rows_view(r@) == line_rows(text@, w as nat, pastes_view(pastes@), base as nat),
        rows_wf(rows_view(r@), text@),
        r@.len() > 0,
        r@[0].start == base,
    decreases blen(text@), (if pastes@.len() > 0 {
        1nat
    } else {
        0nat
    }), 1nat,
{
    let ghost t = text@;
    let ghost ps = pastes_view(pastes@);
    let tl = byte_len(text);
    proof {
        lemma_markers_fit(t, ps, base as int, e as int);
        lemma_slice_bytes(t, base as int, e as int);
    }
    let line = slice(text, base, e);
    let ll = byte_len(line);
    let segs = atoms(line, base, pastes);
    let ghost sv = pairs_view(segs@);
    let mut lrows: Vec<Row> = Vec::new();
    let mut start: usize = 0;
    let mut columns: usize = 0;
    let mut opp: Option<(usize, usize)> = None;
    let mut i: usize = 0;
    proof {
        crate::bytes::lemma_boundary(line@, 0);
        assert(rows_view(lrows@) =~= Seq::<(nat, nat)>::empty());
    }
    while i < segs.len()
        invariant
            t == text@,
            ps == pastes_view(pastes@),
            pastes_wf(ps, t),
            tl == blen(t),
            range_wf(t, base as int, e as int),
            e <= tl,
            w >= 1,
            line@ == bslice(t, base as int, e as int),
            ll == blen(line@),
            ll == e - base,
            sv == pairs_view(segs@),
            sv == atoms_of(line@, base as nat, ps),
            units_wf(sv, line@),
            units_chain(sv, ll as nat),
            i <= sv.len(),
            start <= unit_start(sv, ll as nat, i as int),
            at_boundary(line@, start as int),
            opp matches Some(o) ==> start <= o.0 <= unit_start(sv, ll as nat, i as int) && at_boundary(line@, o.0 as int) && o.1 <= columns,
            rows_wf(rows_view(lrows@), t),
            rows_view(lrows@).len() == 0 ==> start == 0,
            rows_view(lrows@).len() > 0 ==> rows_view(lrows@)[0].0 == base,
            fold_line(t, w as nat, ps, base as nat, line@, sv, 0, (Seq::empty(), 0, 0, None))
                == fold_line(t, w as nat, ps, base as nat, line@, sv, i as int, (rows_view(lrows@), start as nat, columns as nat, opp_view(opp))),
        decreases segs.len() - i,
    {
        let (byte, gend) = segs[i];
        proof {
            assert(sv[i as int] == (byte as nat, gend as nat));
            assert(byte < gend <= ll);
            if i + 1 < sv.len() {
                assert(sv[i as int].1 == sv[i + 1].0);
            } else {
                assert(sv.last().1 == ll);
            }
            lemma_slice_boundary(t, base as int, e as int, byte as int);
            lemma_slice_boundary(t, base as int, e as int, gend as int);
            lemma_slice_boundary(t, base as int, e as int, start as int);
            lemma_slice_of_slice(t, base as int, e as int, byte as int, gend as int);
        }
        let g = slice(line, byte, gend);
        let size = width_of(g);
        let ghost st0 = (rows_view(lrows@), start as nat, columns as nat, opp_view(opp));
        let ghost st1 = overflow_step(st0, base as nat, byte as nat, size as nat, w as nat);
        if size > w || columns > w - size {
            let fits = match opp {
                Some(o) => size <= w && columns - o.1 <= w - size,
                None => false,
            };
            if fits {
                let o = opp.unwrap();
                proof {
                    lemma_slice_boundary(t, base as int, e as int, o.0 as int);
                }
                push_row(&mut lrows, base + start, base + o.0);
                start = o.0;
                columns = columns - o.1;
            } else if byte > start {
                push_row(&mut lrows, base + start, base + byte);
                start = byte;
                columns = 0;
            }
            opp = None;
        }
        proof {
            assert((rows_view(lrows@), start as nat, columns as nat, opp_view(opp)) == st1);
        }
        let starts = grapheme_offsets(g);
        if size > w && starts.len() > 1 {
            proof {
                if pastes@.len() == 0 && blen(g@) >= blen(t) {
                    assert(ps =~= Seq::<PasteView>::empty());
                    assert(byte == 0 && gend == ll && base == 0);
                    if i > 0 {
                        assert(sv[i - 1].1 == sv[i as int].0);
                        assert(sv[i - 1].0 < sv[i - 1].1);
                    }
                    lemma_single_unit(t, base as nat, e as nat, sv, i as int, starts@);
                }
            }
            let none: Vec<Paste> = Vec::new();
            proof {
                assert(pastes_view(none@) =~= Seq::<PasteView>::empty());
            }
            let sub = wrap(g, w, &none);
            let n = sub.len();
            let mut k: usize = 0;
            let ghost rows1 = rows_view(lrows@);
            let ghost subv = rows_view(sub@);
            let ghost was_empty = rows_view(lrows@).len() == 0;
            proof {
                if was_empty {
                    assert(start == 0);
                    assert(byte == start);
                }
            }
            while k + 1 < n
                invariant
                    was_empty ==> byte == 0 && rows1.len() == 0,
                    subv[0].0 == 0,
                    rows1.len() > 0 ==> rows1[0].0 == base,
                    subv == rows_view(sub@),
                    n == sub@.len(),
                    n > 0,
                    k < n,
                    rows_wf(subv, g@),
                    g@ == bslice(t, (base + byte) as int, (base + gend) as int),
                    range_wf(t, (base + byte) as int, (base + gend) as int),
                    base + gend <= tl,
                    blen(g@) == gend - byte,
                    rows_wf(rows_view(lrows@), t),
                    rows_view(lrows@) == rows1 + shifted_rows(subv.take(k as int), (base + byte) as nat),
                decreases n - k,
            {
                proof {
                    assert(range_wf(g@, subv[k as int].0 as int, subv[k as int].1 as int));
                    lemma_slice_boundary(t, (base + byte) as int, (base + gend) as int, subv[k as int].0 as int);
                    lemma_slice_boundary(t, (base + byte) as int, (base + gend) as int, subv[k as int].1 as int);
                }
                let ghost before = rows_view(lrows@);
                push_row(&mut lrows, base + byte + sub[k].start, base + byte + sub[k].end);
                proof {
                    assert(shifted_rows(subv.take(k + 1), (base + byte) as nat) =~= shifted_rows(subv.take(k as int), (base + byte) as nat).push((((base + byte) + subv[k as int].0) as nat, ((base + byte) + subv[k as int].1) as nat)));
                    assert(rows_view(lrows@) =~= rows1 + shifted_rows(subv.take(k + 1), (base + byte) as nat));
                }
                k += 1;
            }
            proof {
                assert(k + 1 == n);
                assert(subv.take(k as int) =~= subv.drop_last());
                assert(range_wf(g@, subv.last().0 as int, subv.last().1 as int));
            }
            let last_start = sub[n - 1].start;
            proof {
                if was_empty && n == 1 {
                    assert(last_start == 0);
                }
            }
            let gl = byte_len(g);
            proof {
                crate::bytes::lemma_boundary(g@, gl as int);
                lemma_slice_boundary(t, base as int, e as int, (byte + last_start) as int);
                lemma_slice_boundary(t, (base + byte) as int, (base + gend) as int, last_start as int);
            }
            let tail = slice(g, last_start, gl);
            start = byte + last_start;
            columns = width_of(tail);
        } else {
            columns = columns.saturating_add(size);
            if i + 1 < segs.len() {
                let (nb, ne) = segs[i + 1];
                proof {
                    assert(sv[i + 1] == (nb as nat, ne as nat));
                    assert(nb < ne <= ll);
                }
                let next = slice(line, nb, ne);
                let ws = crate::text::is_blank(g);
                let nws = crate::text::is_blank(next);
                if (ws && !nws) || (!ws && !nws && (contains_cjk(g) || contains_cjk(next))) {
                    opp = Some((nb, columns));
                }
            }
        }
        i += 1;
    }
    proof {
        lemma_slice_boundary(t, base as int, e as int, start as int);
        lemma_slice_boundary(t, base as int, e as int, ll as int);
    }
    push_row(&mut lrows, base + start, base + ll);
    proof {
        assert(rows_view(lrows@).len() == lrows@.len());
        assert(rows_view(lrows@)[0].0 == base);
        assert(lrows@[0].start as nat == rows_view(lrows@)[0].0);
    }
    lrows
}

// ---------------------------------------------------------------------------
// Vertical movement and the visible cursor
// ---------------------------------------------------------------------------

/// Rows of the draft without folded pastes.
pub fn rows(text: &str, width: usize) -> (r: Vec<Row>)
    ensures
        rows_view(r@) == wrap_spec(text@, width, Seq::empty()),
        rows_wf(rows_view(r@), text@),
        r@.len() > 0,
        r@[0].start == 0,
{
    let none: Vec<Paste> = Vec::new();
    proof {
        assert(pastes_view(none@) =~= Seq::<PasteView>::empty());
    }
    wrap(text, width, &none)
}

impl Editor {
    /// Rows of the draft, a folded paste staying one unit.
    pub fn rows(&self, text: &str, width: usize) -> (r: Vec<Row>)
        requires
            self@.wf(text@),
        ensures
            rows_view(r@) == wrap_spec(text@, width, self@.pastes),
            rows_wf(rows_view(r@), text@),
            r@.len() > 0,
            r@[0].start == 0,
    {
        wrap(text, width, &self.pastes)
    }
}

/// UTF-8 length of one character (`char::len_utf8`).
fn utf8_len(c: char) -> (r: usize)
    ensures
        r == blen(seq![c]),
        1 <= r <= 4,
{
    proof {
        vstd::utf8::char_is_scalar(c);
        reveal_with_fuel(encode_utf8, 2);
        assert(seq![c].drop_first() =~= Seq::<char>::empty());
    }
    let u = c as u32;
    if u < 0x80 {
        1
    } else if u < 0x800 {
        2
    } else if u < 0x10000 {
        3
    } else {
        4
    }
}

pub open spec fn utf16_units(c: char) -> nat {
    if (c as u32) >= 0x10000 {
        2
    } else {
        1
    }
}

/// The byte of `chunk` where UTF-16 column `col` falls, from its `k`-th
/// character on with `u` units before it, and the units before that byte.
pub open spec fn col_scan(chunk: Seq<char>, col: nat, k: int, u: nat) -> (nat, nat)
    decreases chunk.len() - k,
{
    if k < 0 || k >= chunk.len() {
        (blen(chunk), u)
    } else if u + utf16_units(chunk[k]) > col {
        (blen(chunk.take(k)), u)
    } else {
        col_scan(chunk, col, k + 1, u + utf16_units(chunk[k]))
    }
}

proof fn lemma_utf16_take(s: Seq<char>, k: int)
    requires
        0 <= k < s.len(),
    ensures
        utf16_len(s.take(k + 1)) == utf16_len(s.take(k)) + utf16_units(s[k]),
{
    assert(s.take(k + 1).drop_last() =~= s.take(k));
}

fn column_byte(chunk: &str, col: usize) -> (r: (usize, usize))
    ensures
        (r.0 as nat, r.1 as nat) == col_scan(chunk@, col as nat, 0, 0),
{
    let cs = chars_of(chunk);
    let ghost v = cs@;
    let mut j: usize = 0;
    let mut u: usize = 0;
    let mut k: usize = 0;
    proof {
        assert(v.take(0) =~= Seq::<char>::empty());
        reveal_with_fuel(encode_utf8, 1);
        lemma_len_le_blen(v);
    }
    let total = byte_len(chunk);
    while k < cs.len()
        invariant
            v == cs@,
            v == chunk@,
            total == blen(v),
            k <= v.len(),
            j as nat == blen(v.take(k as int)),
            u as nat == utf16_len(v.take(k as int)),
            u <= col,
            col_scan(v, col as nat, 0, 0) == col_scan(v, col as nat, k as int, u as nat),
        decreases cs.len() - k,
    {
        let c = cs[k];
        let cu: usize = if (c as u32) >= 0x10000 { 2 } else { 1 };
        if cu > col - u {
            return (j, u);
        }
        proof {
            lemma_utf16_take(v, k as int);
            assert(v.take(k + 1) =~= v.take(k as int) + seq![c]);
            lemma_encode_concat(v.take(k as int), seq![c]);
            assert(v.take(k as int) + v.skip(k as int) =~= v);
            assert(v.skip(k as int) =~= v.take(k + 1).skip(k as int) + v.skip(k + 1));
            lemma_encode_concat(v.take(k + 1), v.skip(k + 1));
            assert(v.take(k + 1) + v.skip(k + 1) =~= v);
        }
        let n = utf8_len(c);
        j = j + n;
        u = u + cu;
        k += 1;
    }
    proof {
        assert(v.take(k as int) =~= v);
    }
    (j, u)
}

/// Greatest UTF-16 column of row `i`; a soft-wrapped row ends before its last unit.
pub open spec fn max_col(t: Seq<char>, rows: Seq<(nat, nat)>, i: int) -> nat {
    let n = utf16_len(bslice(t, rows[i].0 as int, rows[i].1 as int));
    if i + 1 < rows.len() && rows[i + 1].0 == rows[i].1 {
        sat_sub(n, 1)
    } else {
        n
    }
}

/// The column to aim for on the target row, and the sticky preference after.
pub open spec fn pick_col(preferred: Option<usize>, source_col: nat, source_max: nat, target_max: nat) -> (nat, Option<usize>) {
    if preferred is None || source_col < source_max {
        if target_max < source_col {
            (target_max, Some(source_col as usize))
        } else {
            (source_col, None)
        }
    } else if target_max < source_col || target_max < preferred.unwrap() {
        (target_max, preferred)
    } else {
        (preferred.unwrap() as nat, None)
    }
}

/// Moving to row `target` (and further down while the snapped position falls
/// back onto an earlier row): the new cursor, preference, and snapped column.
pub open spec fn visual_scan(
    t: Seq<char>,
    ps: Seq<PasteView>,
    rows: Seq<(nat, nat)>,
    current: nat,
    target: nat,
    source_col: nat,
    source_max: nat,
    preferred: Option<usize>,
) -> (nat, Option<usize>, Option<usize>)
    decreases rows.len() - target,
{
    if target >= rows.len() {
        (0, preferred, None)
    } else {
        let (col, pref) = pick_col(preferred, source_col, source_max, max_col(t, rows, target as int));
        let (byte, units) = col_scan(bslice(t, rows[target as int].0 as int, rows[target as int].1 as int), col, 0, 0);
        let requested = rows[target as int].0 + byte;
        let snapped = snap_spec(t, ps, requested);
        if snapped < rows[target as int].0 && target > current && target + 1 < rows.len() {
            visual_scan(t, ps, rows, current, target + 1, source_col, source_max, pref)
        } else {
            (
                snapped,
                pref,
                if snapped != requested || units != col {
                    Some(col as usize)
                } else {
                    None
                },
            )
        }
    }
}

pub open spec fn sat_add_signed(c: nat, d: int) -> nat {
    if c + d < 0 {
        0
    } else if c + d > usize::MAX {
        usize::MAX as nat
    } else {
        (c + d) as nat
    }
}

impl EditorView {
    /// Up/Down by `delta` visual rows at `width`; with `history`, the first
    /// and last rows lead into the sent history.
    pub open spec fn vertical_spec(self, t: Seq<char>, width: usize, delta: isize, history: bool) -> (EditorView, Seq<char>) {
        let e = EditorView { action: Action::Idle, ..self.normalized(t) };
        let rows = wrap_spec(t, width, e.pastes);
        let current = row_at_spec(rows, e.cursor as nat, rows.len() as int);
        if history && delta < 0 && current == 0 {
            if e.cursor == line_start(t, e.cursor as nat) || e.history_index is Some {
                e.history_spec(t, true)
            } else {
                (e.home_spec(t), t)
            }
        } else if history && delta > 0 && current + 1 == rows.len() {
            if e.history_index is Some {
                e.history_spec(t, false)
            } else {
                (e.end_spec(t), t)
            }
        } else {
            let target = min_nat(sat_add_signed(current, delta as int), (rows.len() - 1) as nat);
            let source_col = match e.snapped {
                Some(s) => s as nat,
                None => utf16_len(bslice(t, rows[current as int].0 as int, e.cursor as int)),
            };
            let (c, pref, snapped) = visual_scan(t, e.pastes, rows, current, target, source_col, max_col(t, rows, current as int), e.preferred);
            (EditorView { cursor: c as usize, preferred: pref, snapped, ..e }, t)
        }
    }
}

fn utf16_count(s: &str) -> (r: usize)
    ensures
        r == utf16_len(s@),
{
    let cs = chars_of(s);
    let ghost v = cs@;
    let mut u: usize = 0;
    let mut j: usize = 0;
    let mut k: usize = 0;
    proof {
        assert(v.take(0) =~= Seq::<char>::empty());
        reveal_with_fuel(encode_utf8, 1);
    }
    let total = byte_len(s);
    while k < cs.len()
        invariant
            v == cs@,
            v == s@,
            total == blen(v),
            k <= v.len(),
            j as nat == blen(v.take(k as int)),
            j <= total,
            u as nat == utf16_len(v.take(k as int)),
            u <= j,
        decreases cs.len() - k,
    {
        let c = cs[k];
        proof {
            lemma_utf16_take(v, k as int);
            assert(v.take(k + 1) =~= v.take(k as int) + seq![c]);
            lemma_encode_concat(v.take(k as int), seq![c]);
            assert(v.take(k + 1) + v.skip(k + 1) =~= v);
            lemma_encode_concat(v.take(k + 1), v.skip(k + 1));
        }
        let n = utf8_len(c);
        proof {
            vstd::utf8::char_is_scalar(c);
        }
        if (c as u32) >= 0x10000 {
            u = u + 2;
        } else {
            u = u + 1;
        }
        j = j + n;
        k += 1;
    }
    proof {
        assert(s@.take(k as int) =~= s@);
    }
    u
}

fn row_max_col(text: &str, rows: &Vec<Row>, i: usize) -> (r: usize)
    requires
        rows_wf(rows_view(rows@), text@),
        i < rows@.len(),
    ensures
        r == max_col(text@, rows_view(rows@), i as int),
{
    let ghost rv = rows_view(rows@);
    proof {
        assert(range_wf(text@, rv[i as int].0 as int, rv[i as int].1 as int));
    }
    let chunk = slice(text, rows[i].start, rows[i].end);
    let n = utf16_count(chunk);
    if rows.len() - i > 1 && rows[i + 1].start == rows[i].end {
        if n > 0 { n - 1 } else { 0 }
    } else {
        n
    }
}

proof fn lemma_col_scan(chunk: Seq<char>, col: nat, k: int, u: nat)
    requires
        0 <= k <= chunk.len(),
    ensures
        col_scan(chunk, col, k, u).0 <= blen(chunk),
    decreases chunk.len() - k,
{
    if k < chunk.len() {
        if u + utf16_units(chunk[k]) > col {
            lemma_encode_concat(chunk.take(k), chunk.skip(k));
            assert(chunk.take(k) + chunk.skip(k) =~= chunk);
        } else {
            lemma_col_scan(chunk, col, k + 1, u + utf16_units(chunk[k]));
        }
    }
}

pub open spec fn source_column(e: EditorView, t: Seq<char>, rows: Seq<(nat, nat)>, current: int) -> nat {
    match e.snapped {
        Some(s) => s as nat,
        None => utf16_len(bslice(t, rows[current].0 as int, e.cursor as int)),
    }
}

impl Editor {
    #[verifier::rlimit(40)]
    fn move_visual(&mut self, text: &str, rows: &Vec<Row>, current: usize, target: usize)
        requires
            old(self)@.wf(text@),
            rows_wf(rows_view(rows@), text@),
            current < rows@.len(),
            target < rows@.len(),
            rows@[current as int].start <= old(self)@.cursor,
            old(self)@.cursor <= blen(text@),
            at_boundary(text@, old(self)@.cursor as int),
        ensures
            final(self)@ == (EditorView {
                cursor: visual_scan(text@, old(self)@.pastes, rows_view(rows@), current as nat, target as nat, source_column(old(self)@, text@, rows_view(rows@), current as int), max_col(text@, rows_view(rows@), current as int), old(self)@.preferred).0 as usize,
                preferred: visual_scan(text@, old(self)@.pastes, rows_view(rows@), current as nat, target as nat, source_column(old(self)@, text@, rows_view(rows@), current as int), max_col(text@, rows_view(rows@), current as int), old(self)@.preferred).1,
                snapped: visual_scan(text@, old(self)@.pastes, rows_view(rows@), current as nat, target as nat, source_column(old(self)@, text@, rows_view(rows@), current as int), max_col(text@, rows_view(rows@), current as int), old(self)@.preferred).2,
                ..old(self)@
            }),
            final(self)@.wf(text@),
    {
        let ghost rv = rows_view(rows@);
        let ghost e0 = self@;
        proof {
            assert(range_wf(text@, rv[current as int].0 as int, rv[current as int].1 as int));
            assert(rv[current as int].0 == rows@[current as int].start);
        }
        let source_col = match self.snapped {
            Some(s) => s,
            None => utf16_count(slice(text, rows[current].start, self.cursor)),
        };
        let source_max = row_max_col(text, rows, current);
        let mut tgt = target;
        loop
            invariant
                rv == rows_view(rows@),
                rows_wf(rv, text@),
                tgt < rv.len(),
                current < rv.len(),
                e0 == old(self)@,
                e0.wf(text@),
                self@ == (EditorView { preferred: self@.preferred, ..e0 }),
                source_col as nat == source_column(e0, text@, rv, current as int),
                source_max as nat == max_col(text@, rv, current as int),
                visual_scan(text@, e0.pastes, rv, current as nat, target as nat, source_col as nat, source_max as nat, e0.preferred)
                    == visual_scan(text@, e0.pastes, rv, current as nat, tgt as nat, source_col as nat, source_max as nat, self@.preferred),
            decreases rv.len() - tgt,
        {
            let ghost pref_before = self@.preferred;
            let target_max = row_max_col(text, rows, tgt);
            let col = if self.preferred.is_none() || source_col < source_max {
                if target_max < source_col {
                    self.preferred = Some(source_col);
                    target_max
                } else {
                    self.preferred = None;
                    source_col
                }
            } else if target_max < source_col || target_max < self.preferred.unwrap() {
                target_max
            } else {
                let p = self.preferred.unwrap();
                self.preferred = None;
                p
            };
            proof {
                assert((col as nat, self@.preferred) == pick_col(pref_before, source_col as nat, source_max as nat, target_max as nat));
                assert(range_wf(text@, rv[tgt as int].0 as int, rv[tgt as int].1 as int));
                assert(rv[tgt as int] == (rows@[tgt as int].start as nat, rows@[tgt as int].end as nat));
            }
            let chunk = slice(text, rows[tgt].start, rows[tgt].end);
            let (byte, units) = column_byte(chunk, col);
            proof {
                lemma_col_scan(chunk@, col as nat, 0, 0);
            }
            let requested = rows[tgt].start + byte;
            let snapped = snap(&self.pastes, text, requested);
            if snapped < rows[tgt].start && tgt > current && rows.len() - tgt > 1 {
                tgt += 1;
                continue;
            }
            self.cursor = snapped;
            self.snapped = if snapped != requested || units != col { Some(col) } else { None };
            proof {
                assert(chunk@ == bslice(text@, rv[tgt as int].0 as int, rv[tgt as int].1 as int));
                assert(visual_scan(text@, e0.pastes, rv, current as nat, tgt as nat, source_col as nat, source_max as nat, pref_before)
                    == (snapped as nat, self@.preferred, self@.snapped));
            }
            return;
        }
    }

    #[verifier::rlimit(60)]
    pub fn vertical(&mut self, text: &mut String, width: usize, delta: isize, history: bool)
        requires
            old(self)@.wf(old(text)@),
        ensures
            (final(self)@, final(text)@) == old(self)@.vertical_spec(old(text)@, width, delta, history),
            final(self)@.wf(final(text)@),
    {
        self.normalize(text.as_str());
        self.action = Action::Idle;
        let rows = self.rows(text.as_str(), width);
        let current = row_at(&rows, self.cursor);
        proof {
            lemma_row_at(rows_view(rows@), self.cursor as nat, rows@.len() as int);
        }
        if history && delta < 0 && current == 0 {
            let line_start = line_start_of(text.as_str(), self.cursor);
            if self.cursor == line_start || self.history_index.is_some() {
                self.history(text, true);
            } else {
                self.home(text.as_str());
            }
            return;
        }
        if history && delta > 0 && rows.len() - current == 1 {
            if self.history_index.is_some() {
                self.history(text, false);
            } else {
                self.end(text.as_str());
            }
            return;
        }
        let moved = if delta >= 0 {
            current.saturating_add(delta as usize)
        } else {
            let m = ((-(delta + 1)) as usize) + 1;
            current.saturating_sub(m)
        };
        let target = if moved < rows.len() - 1 { moved } else { rows.len() - 1 };
        proof {
            assert(rows_view(rows@)[current as int].0 == rows@[current as int].start);
        }
        self.move_visual(text.as_str(), &rows, current, target);
    }
}

/// A screen rectangle in terminal cells.
#[derive(Clone, Copy, Debug, PartialEq, Eq, Structural)]
pub struct Rect {
    pub x: u16,
    pub y: u16,
    pub width: u16,
    pub height: u16,
}

/// A terminal cell.
#[derive(Clone, Copy, Debug, PartialEq, Eq, Structural)]
pub struct Position {
    pub x: u16,
    pub y: u16,
}

impl Default for Rect {
    fn default() -> (r: Rect)
        ensures
            r == (Rect { x: 0, y: 0, width: 0, height: 0 }),
    {
        Rect { x: 0, y: 0, width: 0, height: 0 }
    }
}

impl Rect {
    /// A rectangle whose size is clipped so that it ends within the
    /// coordinate range.
    pub fn new(x: u16, y: u16, width: u16, height: u16) -> (r: Rect)
        ensures
            r.x == x && r.y == y,
            r.width == min_nat(width as nat, (u16::MAX - x) as nat),
            r.height == min_nat(height as nat, (u16::MAX - y) as nat),
    {
        let max_width = u16::MAX - x;
        let max_height = u16::MAX - y;
        Rect {
            x,
            y,
            width: if width < max_width { width } else { max_width },
            height: if height < max_height { height } else { max_height },
        }
    }

    pub fn is_empty(&self) -> (r: bool)
        ensures
            r == (self.width == 0 || self.height == 0),
    {
        self.width == 0 || self.height == 0
    }
}

impl Position {
    pub fn new(x: u16, y: u16) -> (r: Position)
        ensures
            r == (Position { x, y }),
    {
        Position { x, y }
    }
}

pub open spec fn rect_ok(area: Rect) -> bool {
    area.x + area.width <= u16::MAX && area.y + area.height <= u16::MAX
}

impl EditorView {
    /// Scrolls the composer so the cursor's row is visible in `area` and
    /// gives the cursor's cell, or nothing for an empty area.
    pub open spec fn project_spec(self, t: Seq<char>, rows: Seq<(nat, nat)>, area: Rect) -> (EditorView, Option<(nat, nat)>) {
        let e = self.normalized(t);
        if area.width == 0 || area.height == 0 {
            (e, None)
        } else {
            let row = row_at_spec(rows, e.cursor as nat, rows.len() as int);
            let top1 = if row < e.top {
                row
            } else {
                e.top as nat
            };
            let top2 = if row >= top1 + area.height {
                (row + 1 - area.height) as nat
            } else {
                top1
            };
            let top3 = min_nat(top2, sat_sub(rows.len(), area.height as nat));
            let x = min_nat(display_width(bslice(t, rows[row as int].0 as int, e.cursor as int)) as nat, sat_sub(area.width as nat, 1));
            (EditorView { top: top3 as usize, ..e }, Some(((area.x + x) as nat, (area.y + (row - top3)) as nat)))
        }
    }
}

impl Editor {
    /// The visible cursor: scrolls so its row shows in `area` and returns its cell.
    pub fn project(&mut self, text: &str, rows: &[Row], area: Rect) -> (r: Option<Position>)
        requires
            old(self)@.wf(text@),
            rows_wf(rows_view(rows@), text@),
            rows@.len() > 0,
            rows@[0].start == 0,
            rect_ok(area),
        ensures
            final(self)@ == old(self)@.project_spec(text@, rows_view(rows@), area).0,
            match old(self)@.project_spec(text@, rows_view(rows@), area).1 {
                Some(p) => r == Some(Position { x: p.0 as u16, y: p.1 as u16 }),
                None => r.is_none(),
            },
            final(self)@.wf(text@),
    {
        let ghost rv = rows_view(rows@);
        self.normalize(text);
        if area.is_empty() {
            return None;
        }
        let row = row_at(rows, self.cursor);
        proof {
            assert(rv[0].0 == 0);
            lemma_row_at(rv, self.cursor as nat, rv.len() as int);
            assert(rv[row as int] == (rows@[row as int].start as nat, rows@[row as int].end as nat));
        }
        let h = area.height as usize;
        if row < self.top {
            self.top = row;
        }
        if row - self.top >= h {
            self.top = row - h + 1;
        }
        let cap = if rows.len() >= h { rows.len() - h } else { 0 };
        if cap < self.top {
            self.top = cap;
        }
        proof {
            assert(range_wf(text@, rv[row as int].0 as int, rv[row as int].1 as int));
        }
        let before = slice(text, rows[row].start, self.cursor);
        let wide = width_of(before);
        let wmax = (area.width - 1) as usize;
        let x = if wide < wmax { wide } else { wmax };
        Some(Position::new(area.x + x as u16, area.y + (row - self.top) as u16))
    }
}
// ---------------------------------------------------------------------------
// Laws
// ---------------------------------------------------------------------------

/// Stepping into the history and straight back out past the newest entry
/// gives back the draft, its cursor and its paste registry.
pub proof fn law_history_round_trip_restores_draft(e: EditorView, t: Seq<char>)
    requires
        e.history_index is None,
        e.history.len() > 0,
    ensures
        ({
            let (f, u) = e.history_spec(t, true);
            let (g, v) = f.history_spec(u, false);
            &&& u == e.history[0]
            &&& f.cursor == 0
            &&& v == t
            &&& g.cursor == e.cursor
            &&& g.pastes == e.pastes
            &&& g.counter == e.counter
            &&& g.history_index is None
            &&& g.draft is None
        }),
{
}

/// A paste is one undo step: when at least one of its clusters fits,
/// undoing right after it gives back the draft, the cursor (on its cluster),
/// the paste registry and so the expanded draft from before it, and the undo
/// record it took.
pub proof fn law_undo_reverts_paste(e: EditorView, t: Seq<char>, input: Seq<char>)
    requires
        e.paste_fits(t, input),
    ensures
        ({
            let (f, u) = e.insert_spec(t, input);
            let (g, v) = f.undo_spec(u);
            &&& v == t
            &&& g.cursor == e.normalized(t).cursor
            &&& g.pastes == e.pastes
            &&& expanded_text(v, g.pastes) == expanded_text(t, e.pastes)
            &&& g.counter == e.counter
            &&& (e.undo.len() < RETAIN ==> g.undo == e.undo)
        }),
{
    let e1 = e.normalized(t).exit_history_spec().moved_spec();
    let safe = e1.fitted_spec(t, e1.paste_text(t, input));
    let e2 = e1.save_spec(t);
    let lines = count_char(safe, '\n') + 1;
    let units = utf16_len(safe);
    let (f, u) = e.insert_spec(t, input);
    assert(f.undo == e2.undo);
    if e.undo.len() < RETAIN {
        assert(e2.undo.drop_last() =~= e.undo);
    }
}

/// After a move, typed text is its own undo step: undoing right after it
/// gives back the draft, the cursor and the paste registry from before.
pub proof fn law_undo_reverts_typing_after_a_move(e: EditorView, t: Seq<char>, input: Seq<char>)
    requires
        e.action != Action::Type,
        e.type_text_spec(t, input).1 != t,
    ensures
        ({
            let (f, u) = e.type_text_spec(t, input);
            let (g, v) = f.undo_spec(u);
            &&& v == t
            &&& g.cursor == e.normalized(t).cursor
            &&& g.pastes == e.pastes
            &&& g.counter == e.counter
            &&& (e.undo.len() < RETAIN ==> g.undo == e.undo)
        }),
{
    let e1 = e.normalized(t).exit_history_spec();
    let e2 = e1.save_spec(t);
    let (f, u) = e.type_text_spec(t, input);
    assert(f.undo == e2.undo);
    if e.undo.len() < RETAIN {
        assert(e2.undo.drop_last() =~= e.undo);
    }
}

/// How much longer the expanded draft is than the draft for the pastes of
/// `ps`: each paste's payload length less its marker's.
pub open spec fn excess(ps: Seq<PasteView>) -> int
    decreases ps.len(),
{
    if ps.len() == 0 {
        0
    } else {
        blen(ps[0].payload) - (ps[0].end - ps[0].start) + excess(ps.drop_first())
    }
}

proof fn lemma_expand_len(t: Seq<char>, ps: Seq<PasteView>, i: int, pos: nat)
    requires
        pastes_wf(ps, t),
        0 <= i <= ps.len(),
        pos <= blen(t),
        at_boundary(t, pos as int),
        forall|k: int| i <= k < ps.len() ==> #[trigger] ps[k].start >= pos,
    ensures
        blen(expand_from(t, ps, i, pos)) == (blen(t) - pos) + excess(ps.skip(i)),
    decreases ps.len() - i,
{
    crate::bytes::lemma_boundary(t, blen(t) as int);
    if i >= ps.len() {
        lemma_slice_bytes(t, pos as int, blen(t) as int);
        assert(ps.skip(i).len() == 0);
    } else {
        let p = ps[i];
        let start = ps[i].start;
        assert(ps[i].start < ps[i].end <= blen(t) && at_boundary(t, ps[i].start as int) && at_boundary(
            t,
            ps[i].end as int,
        ));
        assert forall|k: int| i + 1 <= k < ps.len() implies #[trigger] ps[k].start >= p.end by {
            assert(ps[i].end <= ps[k].start);
        }
        lemma_expand_len(t, ps, i + 1, p.end);
        lemma_slice_bytes(t, pos as int, start as int);
        let a = bslice(t, pos as int, start as int);
        let rest = expand_from(t, ps, i + 1, p.end);
        lemma_encode_concat(a, p.payload);
        lemma_encode_concat(a + p.payload, rest);
        assert(ps.skip(i).drop_first() =~= ps.skip(i + 1));
        assert(ps.skip(i)[0] == p);
    }
}

/// The expanded draft is the draft, with each marker's length traded for its
/// payload's.
pub proof fn lemma_expanded_len(t: Seq<char>, ps: Seq<PasteView>)
    requires
        pastes_wf(ps, t),
    ensures
        blen(expanded_text(t, ps)) == blen(t) + excess(ps),
{
    crate::bytes::lemma_boundary(t, 0);
    assert(ps.skip(0) =~= ps);
    lemma_expand_len(t, ps, 0, 0);
}

/// Inserting at a position no marker strictly contains keeps every paste,
/// and so the excess.
proof fn lemma_shifted_excess(ps: Seq<PasteView>, c: nat, n: nat)
    requires
        forall|k: int| 0 <= k < ps.len() ==> !(#[trigger] ps[k].start < c < ps[k].end),
        forall|k: int| 0 <= k < ps.len() ==> #[trigger] ps[k].start < ps[k].end,
    ensures
        excess(shifted(ps, c, c, n)) == excess(ps),
    decreases ps.len(),
{
    if ps.len() > 0 {
        assert forall|k: int| 0 <= k < ps.drop_first().len() implies !(#[trigger] ps.drop_first()[k].start < c
            < ps.drop_first()[k].end) && ps.drop_first()[k].start < ps.drop_first()[k].end by {
            assert(ps.drop_first()[k] == ps[k + 1]);
        }
        lemma_shifted_excess(ps.drop_first(), c, n);
        let p = ps[0];
        let rest = shifted(ps.drop_first(), c, c, n);
        if p.end <= c {
            assert((seq![p] + rest).drop_first() =~= rest);
        } else {
            assert(!(p.start < c));
            let q = PasteView { start: moved_by(p.start, c, c, n), end: moved_by(p.end, c, c, n), payload: p.payload };
            assert((seq![q] + rest).drop_first() =~= rest);
            assert((seq![q] + rest)[0] == q);
        }
    }
}

} // verus!
