//! Room transcript lines: control characters are dropped, each logical line is
//! wrapped greedily by grapheme cluster and display width, and every message
//! contributes a header, its text and a blank line.
use crate::bytes::{at_boundary, blen, bslice, byte_len, slice};
use crate::editor::{cuts, display_width, grapheme_offsets, grapheme_starts, width_of};
use crate::presentation::{decimal, push_decimal};
use crate::room::{clone_members, members_view, Member, MemberView, Message, MessageView};
use crate::text::{char_is_control, chars_of, is_cc, owned, push_char, push_str};
use vstd::prelude::*;

verus! {

/// Whether a character is shown: control characters other than the line
/// break are never rendered.
pub open spec fn shown(c: char) -> bool {
    !is_cc(c) || c == '\n'
}

/// The characters of `t` that are shown, in order.
pub open spec fn visible_text(t: Seq<char>) -> Seq<char>
    decreases t.len(),
{
    if t.len() == 0 {
        Seq::empty()
    } else {
        let p = visible_text(t.drop_last());
        if shown(t.last()) {
            p.push(t.last())
        } else {
            p
        }
    }
}

/// `t` split at each line break; there is always at least one piece.
pub open spec fn split_lines(t: Seq<char>) -> Seq<Seq<char>>
    decreases t.len(),
{
    if t.len() == 0 {
        seq![Seq::empty()]
    } else {
        let p = split_lines(t.drop_last());
        if t.last() == '\n' {
            p.push(Seq::empty())
        } else {
            p.update(p.len() - 1, p.last().push(t.last()))
        }
    }
}

pub proof fn lemma_split_lines_nonempty(t: Seq<char>)
    ensures
        split_lines(t).len() >= 1,
    decreases t.len(),
{
    if t.len() > 0 {
        lemma_split_lines_nonempty(t.drop_last());
    }
}

pub open spec fn sat(x: int) -> nat {
    if x > usize::MAX {
        usize::MAX as nat
    } else if x < 0 {
        0
    } else {
        x as nat
    }
}

/// End of the `k`-th cluster of `t` whose clusters start at `gs`.
pub open spec fn piece_end(t: Seq<char>, gs: Seq<usize>, k: int) -> int {
    if k + 1 < gs.len() {
        gs[k + 1] as int
    } else {
        blen(t) as int
    }
}

/// The `k`-th cluster of `t`.
pub open spec fn piece(t: Seq<char>, gs: Seq<usize>, k: int) -> Seq<char> {
    bslice(t, gs[k] as int, piece_end(t, gs, k))
}

/// Greedy filling from cluster `k` on, with `line` holding `cols` columns so
/// far: a cluster that would pass `width` starts a new line unless the
/// current line is empty. Column counts saturate at `usize::MAX`.
pub open spec fn fill(
    t: Seq<char>,
    gs: Seq<usize>,
    width: nat,
    k: nat,
    line: Seq<char>,
    cols: nat,
) -> Seq<Seq<char>>
    decreases gs.len() - k,
{
    if k >= gs.len() {
        seq![line]
    } else {
        let g = piece(t, gs, k as int);
        let size = display_width(g) as nat;
        if cols + size > width && line.len() > 0 {
            seq![line] + fill(t, gs, width, k + 1, g, size)
        } else {
            fill(t, gs, width, k + 1, line + g, sat(cols + size as int))
        }
    }
}

/// The display lines of one logical line at `width` columns.
pub open spec fn wrapped_line(t: Seq<char>, width: nat) -> Seq<Seq<char>> {
    fill(t, grapheme_starts(t), width, 0, Seq::empty(), 0)
}

/// The display lines of several logical lines, one after another.
pub open spec fn wrap_all(ls: Seq<Seq<char>>, width: nat) -> Seq<Seq<char>>
    decreases ls.len(),
{
    if ls.len() == 0 {
        Seq::empty()
    } else {
        wrap_all(ls.drop_last(), width) + wrapped_line(ls.last(), width)
    }
}

/// The display lines of a text: shown characters only, split at line breaks,
/// each logical line wrapped.
pub open spec fn wrapped(t: Seq<char>, width: nat) -> Seq<Seq<char>> {
    wrap_all(split_lines(visible_text(t)), width)
}

pub open spec fn views(v: Seq<String>) -> Seq<Seq<char>> {
    v.map_values(|s: String| s@)
}

fn push_line(lines: &mut Vec<String>, s: String)
    ensures
        views(final(lines)@) == views(old(lines)@).push(s@),
{
    lines.push(s);
    proof {
        assert(views(lines@) =~= views(old(lines)@).push(s@));
    }
}

/// Wraps one logical line (no line break in it) onto `lines`.
fn wrap_line(t: &str, width: usize, lines: &mut Vec<String>)
    ensures
        views(final(lines)@) == views(old(lines)@) + wrapped_line(t@, width as nat),
{
    let gs = grapheme_offsets(t);
    let n = byte_len(t);
    let ghost all = fill(t@, gs@, width as nat, 0, Seq::empty(), 0);
    let mut line = String::new();
    let mut started = false;
    let mut columns: usize = 0;
    let mut k: usize = 0;
    proof {
        assert(views(lines@) + all =~= views(old(lines)@) + all);
    }
    while k < gs.len()
        invariant
            gs@ == grapheme_starts(t@),
            cuts(gs@, t@),
            n == blen(t@),
            k <= gs.len(),
            started == (line@.len() > 0),
            all == fill(t@, gs@, width as nat, 0, Seq::empty(), 0),
            views(lines@) + fill(t@, gs@, width as nat, k as nat, line@, columns as nat)
                == views(old(lines)@) + all,
        decreases gs.len() - k,
    {
        let start = gs[k];
        let end = if k + 1 < gs.len() {
            gs[k + 1]
        } else {
            n
        };
        proof {
            assert(start < n && at_boundary(t@, start as int));
            if k + 1 < gs.len() {
                assert(gs@[k as int] < gs@[k + 1]);
                assert(at_boundary(t@, gs@[k + 1] as int));
            }
        }
        let g = slice(t, start, end);
        let size = width_of(g);
        let ghost rest = fill(t@, gs@, width as nat, (k + 1) as nat, g@, size as nat);
        let over = size > width || columns > width - size;
        if over && started {
            proof {
                let ghost before = views(lines@);
                assert(fill(t@, gs@, width as nat, k as nat, line@, columns as nat) == seq![line@]
                    + rest);
                assert(before.push(line@) + rest =~= before + (seq![line@] + rest));
            }
            push_line(lines, line);
            line = owned(g);
            columns = size;
        } else {
            proof {
                assert(fill(t@, gs@, width as nat, k as nat, line@, columns as nat) == fill(
                    t@,
                    gs@,
                    width as nat,
                    (k + 1) as nat,
                    line@ + g@,
                    sat(columns + size as int),
                ));
                assert(g@.len() > 0) by {
                    if g@.len() == 0 {
                        assert(blen(g@) == 0);
                    }
                }
            }
            push_str(&mut line, g);
            columns = columns.saturating_add(size);
        }
        started = true;
        k += 1;
    }
    proof {
        assert(views(lines@) + seq![line@] =~= views(lines@).push(line@));
    }
    push_line(lines, line);
}

/// Appends the display lines of `text` at `width` columns: control
/// characters other than the line break are dropped, and each logical line is
/// wrapped on its own.
pub fn wrap_into(text: &str, width: usize, lines: &mut Vec<String>)
    ensures
        views(final(lines)@) == views(old(lines)@) + wrapped(text@, width as nat),
{
    let cs = chars_of(text);
    let mut cur = String::new();
    let mut i: usize = 0;
    proof {
        assert(text@.subrange(0, 0) =~= Seq::<char>::empty());
        assert(views(lines@) =~= views(old(lines)@) + Seq::<Seq<char>>::empty());
    }
    while i < cs.len()
        invariant
            cs@ == text@,
            i <= cs.len(),
            split_lines(visible_text(text@.subrange(0, i as int))).len() >= 1,
            cur@ == split_lines(visible_text(text@.subrange(0, i as int))).last(),
            views(lines@) == views(old(lines)@) + wrap_all(
                split_lines(visible_text(text@.subrange(0, i as int))).drop_last(),
                width as nat,
            ),
        decreases cs.len() - i,
    {
        let c = cs[i];
        let ghost s = text@.subrange(0, i + 1);
        let ghost v = visible_text(text@.subrange(0, i as int));
        let ghost p = split_lines(v);
        proof {
            assert(s.drop_last() =~= text@.subrange(0, i as int));
            assert(s.last() == c);
        }
        if c == '\n' {
            proof {
                assert(visible_text(s) == v.push(c));
                assert(v.push(c).drop_last() =~= v);
                assert(split_lines(v.push(c)) == p.push(Seq::empty()));
                assert(p.push(Seq::<char>::empty()).drop_last() =~= p);
                assert(p =~= p.drop_last().push(p.last()));
                assert(wrap_all(p, width as nat) == wrap_all(p.drop_last(), width as nat)
                    + wrapped_line(p.last(), width as nat));
            }
            wrap_line(cur.as_str(), width, lines);
            cur = String::new();
            proof {
                lemma_split_lines_nonempty(s);
                assert(cur@ =~= Seq::<char>::empty());
            }
        } else if !char_is_control(c) {
            proof {
                assert(visible_text(s) == v.push(c));
                assert(v.push(c).drop_last() =~= v);
                assert(split_lines(v.push(c)) == p.update(p.len() - 1, p.last().push(c)));
                assert(p.update(p.len() - 1, p.last().push(c)).drop_last() =~= p.drop_last());
            }
            push_char(&mut cur, c);
        } else {
            proof {
                assert(visible_text(s) == v);
            }
        }
        i += 1;
    }
    let ghost p = split_lines(visible_text(text@.subrange(0, i as int)));
    proof {
        assert(text@.subrange(0, i as int) =~= text@);
        assert(p =~= p.drop_last().push(p.last()));
        assert(wrap_all(p, width as nat) == wrap_all(p.drop_last(), width as nat) + wrapped_line(
            p.last(),
            width as nat,
        ));
    }
    wrap_line(cur.as_str(), width, lines);
    proof {
        assert(views(lines@) =~= views(old(lines)@) + wrapped(text@, width as nat));
    }
}

// ---------------------------------------------------------------------------
// Message headers and the transcript
// ---------------------------------------------------------------------------

/// Who wrote a message: `name (pane)` for an agent, `human` otherwise.
pub open spec fn author_text(m: MessageView) -> Seq<char> {
    match m.author {
        Some(a) => a.name + " ("@ + a.pane_id + ")"@,
        None => "human"@,
    }
}

/// The members a message was addressed to: the captured audience, then the
/// legacy single recipient.
pub open spec fn audience(m: MessageView) -> Seq<MemberView> {
    m.recipients + match m.recipient {
        Some(r) => seq![r],
        None => Seq::empty(),
    }
}

/// Member names separated by `, `.
pub open spec fn joined_names(ms: Seq<MemberView>) -> Seq<char>
    decreases ms.len(),
{
    if ms.len() == 0 {
        Seq::empty()
    } else if ms.len() == 1 {
        ms[0].name
    } else {
        joined_names(ms.drop_last()) + ", "@ + ms.last().name
    }
}

pub open spec fn destination_text(m: MessageView) -> Seq<char> {
    if audience(m).len() == 0 {
        Seq::empty()
    } else {
        " \u{2192} "@ + joined_names(audience(m)) + " [expires "@ + decimal(
            match m.expires_unix {
                Some(e) => e as nat,
                None => 0,
            },
        ) + "]"@
    }
}

pub open spec fn correlation_text(m: MessageView) -> Seq<char> {
    match m.reply_to {
        Some(n) => " \u{b7} reply to #"@ + decimal(n as nat),
        None => Seq::empty(),
    }
}

/// `#sequence author destination correlation`.
pub open spec fn header_text(m: MessageView) -> Seq<char> {
    "#"@ + decimal(m.sequence as nat) + " "@ + author_text(m) + destination_text(m)
        + correlation_text(m)
}

fn push_names(s: &mut String, ms: &Vec<Member>, from: usize, first: bool)
    requires
        from <= ms.len(),
    ensures
        final(s)@ == old(s)@ + (if first {
            joined_names(members_view(ms@.subrange(from as int, ms.len() as int)))
        } else {
            names_after(members_view(ms@.subrange(from as int, ms.len() as int)))
        }),
    decreases ms.len() - from,
{
    if from < ms.len() {
        if !first {
            push_str(s, ", ");
        }
        push_str(s, ms[from].name.as_str());
        push_names(s, ms, from + 1, false);
        proof {
            let all = members_view(ms@.subrange(from as int, ms.len() as int));
            let rest = members_view(ms@.subrange(from + 1, ms.len() as int));
            assert(rest =~= all.drop_first());
            lemma_names_split(all);
        }
    } else {
        proof {
            assert(members_view(ms@.subrange(from as int, ms.len() as int)).len() == 0);
        }
    }
}

/// `, name` for each member in order.
pub open spec fn names_after(ms: Seq<MemberView>) -> Seq<char>
    decreases ms.len(),
{
    if ms.len() == 0 {
        Seq::empty()
    } else {
        ", "@ + ms[0].name + names_after(ms.drop_first())
    }
}

proof fn lemma_names_after_push(ms: Seq<MemberView>, x: MemberView)
    ensures
        names_after(ms.push(x)) == names_after(ms) + ", "@ + x.name,
    decreases ms.len(),
{
    if ms.len() == 0 {
        let mx = ms.push(x);
        assert(mx.drop_first() =~= Seq::<MemberView>::empty());
        assert(names_after(mx.drop_first()) == Seq::<char>::empty());
        assert(mx[0] == x);
        assert(names_after(mx) == ", "@ + x.name + Seq::<char>::empty());
        assert(names_after(mx) =~= names_after(ms) + ", "@ + x.name);
    } else {
        lemma_names_after_push(ms.drop_first(), x);
        let mx = ms.push(x);
        assert(mx.drop_first() =~= ms.drop_first().push(x));
        assert(mx[0] == ms[0]);
        assert(names_after(mx) == ", "@ + ms[0].name + names_after(ms.drop_first().push(x)));
        assert(names_after(ms) == ", "@ + ms[0].name + names_after(ms.drop_first()));
        assert(names_after(mx) =~= names_after(ms) + ", "@ + x.name);
    }
}

/// Joining is the first name followed by `, name` for the others.
proof fn lemma_names_split(ms: Seq<MemberView>)
    requires
        ms.len() > 0,
    ensures
        joined_names(ms) == ms[0].name + names_after(ms.drop_first()),
    decreases ms.len(),
{
    if ms.len() == 1 {
        assert(ms.drop_first().len() == 0);
        assert(joined_names(ms) =~= ms[0].name + names_after(ms.drop_first()));
    } else {
        lemma_names_split(ms.drop_last());
        assert(ms.drop_last().drop_first() =~= ms.drop_first().drop_last());
        lemma_names_after_push(ms.drop_first().drop_last(), ms.last());
        assert(ms.drop_first().drop_last().push(ms.last()) =~= ms.drop_first());
        assert(joined_names(ms) =~= ms[0].name + names_after(ms.drop_first()));
    }
}

/// The header line of a message, before wrapping.
pub fn message_header(m: &Message) -> (r: String)
    ensures
        r@ == header_text(m@),
{
    let mut s = owned("#");
    push_decimal(&mut s, m.sequence);
    push_str(&mut s, " ");
    match &m.author {
        Some(a) => {
            push_str(&mut s, a.name.as_str());
            push_str(&mut s, " (");
            push_str(&mut s, a.pane_id.as_str());
            push_str(&mut s, ")");
        },
        None => {
            push_str(&mut s, "human");
        },
    }
    let ghost after_author = s@;
    let mut names: Vec<Member> = clone_members(&m.recipients);
    match &m.recipient {
        Some(r) => {
            names.push(r.clone());
        },
        None => {},
    }
    proof {
        assert(members_view(names@) =~= audience(m@));
    }
    if names.len() > 0 {
        push_str(&mut s, " \u{2192} ");
        push_names(&mut s, &names, 0, true);
        proof {
            assert(names@.subrange(0, names.len() as int) =~= names@);
        }
        push_str(&mut s, " [expires ");
        let e = match m.expires_unix {
            Some(e) => e,
            None => 0,
        };
        push_decimal(&mut s, e);
        push_str(&mut s, "]");
    }
    proof {
        assert(s@ =~= after_author + destination_text(m@));
    }
    match m.reply_to {
        Some(n) => {
            push_str(&mut s, " \u{b7} reply to #");
            push_decimal(&mut s, n);
        },
        None => {},
    }
    proof {
        assert(s@ =~= header_text(m@));
    }
    s
}

/// The display lines one message contributes: its wrapped header, its wrapped
/// text and a blank line.
pub open spec fn message_lines(m: MessageView, width: nat) -> Seq<Seq<char>> {
    wrapped(header_text(m), width) + wrapped(m.text, width) + seq![Seq::<char>::empty()]
}

/// The display lines of a run of messages.
pub open spec fn transcript(ms: Seq<MessageView>, width: nat) -> Seq<Seq<char>>
    decreases ms.len(),
{
    if ms.len() == 0 {
        Seq::empty()
    } else {
        transcript(ms.drop_last(), width) + message_lines(ms.last(), width)
    }
}

/// Appends the display lines of one message.
pub fn append_message(lines: &mut Vec<String>, m: &Message, width: usize)
    ensures
        views(final(lines)@) == views(old(lines)@) + message_lines(m@, width as nat),
{
    let header = message_header(m);
    wrap_into(header.as_str(), width, lines);
    wrap_into(m.text.as_str(), width, lines);
    push_line(lines, String::new());
    proof {
        assert(views(lines@) =~= views(old(lines)@) + message_lines(m@, width as nat));
    }
}

/// The transcript of `a` then `b` is the transcript of `a`, then that of `b`.
pub proof fn lemma_transcript_concat(a: Seq<MessageView>, b: Seq<MessageView>, width: nat)
    ensures
        transcript(a + b, width) == transcript(a, width) + transcript(b, width),
    decreases b.len(),
{
    if b.len() == 0 {
        assert(a + b =~= a);
        assert(transcript(a, width) + transcript(b, width) =~= transcript(a, width));
    } else {
        lemma_transcript_concat(a, b.drop_last(), width);
        assert((a + b).drop_last() =~= a + b.drop_last());
        assert((a + b).last() == b.last());
        assert(transcript(a + b, width) =~= transcript(a, width) + transcript(b, width));
    }
}

// ---------------------------------------------------------------------------
// The cached transcript
// ---------------------------------------------------------------------------

/// The room transcript as display lines, kept between frames so that at an
/// unchanged width only new messages are formatted and wrapped.
pub struct TranscriptCache {
    pub lines: Vec<String>,
    /// How many messages `lines` holds.
    pub messages: usize,
    /// The width `lines` was wrapped at.
    pub width: u16,
    /// Lines scrolled back from the newest.
    pub scroll: usize,
}

pub struct TranscriptCacheView {
    pub lines: Seq<Seq<char>>,
    pub messages: nat,
    pub width: u16,
    pub scroll: nat,
}

impl View for TranscriptCache {
    type V = TranscriptCacheView;

    open spec fn view(&self) -> TranscriptCacheView {
        TranscriptCacheView {
            lines: views(self.lines@),
            messages: self.messages as nat,
            width: self.width,
            scroll: self.scroll as nat,
        }
    }
}

pub open spec fn message_views(ms: Seq<Message>) -> Seq<MessageView> {
    ms.map_values(|m: Message| m@)
}

/// The cache after a frame whose transcript area is `area_width` by
/// `area_height`: a changed width, or fewer messages than were formatted,
/// rebuilds it; otherwise the messages past those formatted are appended. The
/// scroll offset is clamped so the viewport stays within the lines.
pub open spec fn refreshed(
    c: TranscriptCacheView,
    ms: Seq<MessageView>,
    area_width: u16,
    area_height: u16,
) -> TranscriptCacheView {
    let w: u16 = if area_width == 0 {
        1
    } else {
        area_width
    };
    let rebuilt = c.width != w || c.messages > ms.len();
    let from: nat = if rebuilt {
        0
    } else {
        c.messages
    };
    let base = if rebuilt {
        Seq::empty()
    } else {
        c.lines
    };
    let lines = base + transcript(ms.subrange(from as int, ms.len() as int), w as nat);
    let room: nat = if lines.len() > area_height {
        (lines.len() - area_height) as nat
    } else {
        0
    };
    TranscriptCacheView {
        lines,
        messages: ms.len(),
        width: w,
        scroll: if c.scroll < room {
            c.scroll
        } else {
            room
        },
    }
}

/// The cache holds exactly the transcript of the first messages it counts.
pub open spec fn cache_current(c: TranscriptCacheView, ms: Seq<MessageView>) -> bool {
    &&& c.messages <= ms.len()
    &&& c.lines == transcript(ms.subrange(0, c.messages as int), c.width as nat)
}

impl TranscriptCache {
    pub fn new() -> (r: Self)
        ensures
            r@.lines.len() == 0,
            r@.messages == 0,
            r@.width == 0,
            r@.scroll == 0,
    {
        TranscriptCache { lines: Vec::new(), messages: 0, width: 0, scroll: 0 }
    }

    /// Brings the cache up to date with `messages` for a transcript area of
    /// `area_width` by `area_height` cells.
    pub fn refresh(&mut self, messages: &Vec<Message>, area_width: u16, area_height: u16)
        ensures
            final(self)@ == refreshed(old(self)@, message_views(messages@), area_width, area_height),
    {
        let width: u16 = if area_width == 0 {
            1
        } else {
            area_width
        };
        let ghost ms = message_views(messages@);
        let ghost rebuilt = self.width != width || self.messages > messages.len();
        if self.width != width || self.messages > messages.len() {
            self.lines = Vec::new();
            self.messages = 0;
            self.width = width;
        }
        let ghost base = views(self.lines@);
        let ghost from = self.messages as int;
        let mut i = self.messages;
        proof {
            assert(ms.subrange(from, from) =~= Seq::<MessageView>::empty());
            assert(base + transcript(Seq::empty(), width as nat) =~= base);
        }
        while i < messages.len()
            invariant
                ms == message_views(messages@),
                ms.len() == messages@.len(),
                0 <= from <= i <= messages.len(),
                self.width == width,
                self.messages == from,
                self.scroll == old(self).scroll,
                rebuilt == (old(self).width != width || old(self).messages > messages.len()),
                base == (if rebuilt {
                    Seq::empty()
                } else {
                    views(old(self).lines@)
                }),
                from == (if rebuilt {
                    0
                } else {
                    old(self).messages as int
                }),
                views(self.lines@) == base + transcript(ms.subrange(from, i as int), width as nat),
            decreases messages.len() - i,
        {
            append_message(&mut self.lines, &messages[i], width as usize);
            proof {
                let before = ms.subrange(from, i as int);
                let after = ms.subrange(from, i + 1);
                assert(after.drop_last() =~= before);
                assert(after.last() == messages@[i as int]@);
                assert(views(self.lines@) =~= base + transcript(after, width as nat));
            }
            i += 1;
        }
        self.messages = messages.len();
        let n = self.lines.len();
        let room = if n > area_height as usize {
            n - area_height as usize
        } else {
            0
        };
        if self.scroll > room {
            self.scroll = room;
        }
        proof {
            assert(views(self.lines@).len() == n);
            assert(self@ =~= refreshed(old(self)@, ms, area_width, area_height));
        }
    }
}

/// A cache that holds the transcript of the messages it counts holds the
/// transcript of all of them after a refresh, whatever the width.
pub proof fn law_refresh_renders_every_message(
    c: TranscriptCacheView,
    ms: Seq<MessageView>,
    area_width: u16,
    area_height: u16,
)
    requires
        cache_current(c, ms),
    ensures
        refreshed(c, ms, area_width, area_height).lines == transcript(
            ms,
            refreshed(c, ms, area_width, area_height).width as nat,
        ),
        cache_current(refreshed(c, ms, area_width, area_height), ms),
{
    let r = refreshed(c, ms, area_width, area_height);
    let w = r.width as nat;
    if c.width != r.width || c.messages > ms.len() {
        assert(ms.subrange(0, ms.len() as int) =~= ms);
        assert(r.lines =~= transcript(ms, w));
    } else {
        let k = c.messages as int;
        lemma_transcript_concat(ms.subrange(0, k), ms.subrange(k, ms.len() as int), w);
        assert(ms.subrange(0, k) + ms.subrange(k, ms.len() as int) =~= ms);
    }
    assert(ms.subrange(0, ms.len() as int) =~= ms);
}

/// Refreshing again for the same messages and area changes nothing.
pub proof fn law_refresh_is_idempotent(
    c: TranscriptCacheView,
    ms: Seq<MessageView>,
    area_width: u16,
    area_height: u16,
)
    ensures
        refreshed(refreshed(c, ms, area_width, area_height), ms, area_width, area_height)
            == refreshed(c, ms, area_width, area_height),
{
    let r = refreshed(c, ms, area_width, area_height);
    let r2 = refreshed(r, ms, area_width, area_height);
    assert(ms.subrange(ms.len() as int, ms.len() as int) =~= Seq::<MessageView>::empty());
    assert(r2.lines =~= r.lines);
}

} // verus!
