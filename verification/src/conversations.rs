//! The conversation API on a pane's bound Pi session: which session a pane
//! may be read through, pages of its messages, and re-validation of a
//! message reference before branching. No client-provided path is ever read.
use crate::bytes::{at_boundary, blen, bslice, byte_len, is_boundary, slice};
use crate::json::{str_at, Json};
use crate::pi_conversation::{
    absolute, matches_query, text_matches, ConversationMessage, ConversationMessageView, PiConversation,
};
use crate::schema::{AgentConversationParams, MessageRef};
use crate::search_pane::{clip, upto};
use crate::editor::Rect;
use crate::text::{chars_of, char_is_control, is_cc, owned, push_str, str_eq, string_of};
use vstd::prelude::*;

verus! {

/// An API error: a machine-readable code and a message.
pub struct ErrorBody {
    pub code: String,
    pub message: String,
}

pub fn unsupported(message: &str) -> (r: ErrorBody)
    ensures
        r.code@ == "conversation_unsupported"@,
        r.message@ == message@,
{
    ErrorBody { code: owned("conversation_unsupported"), message: owned(message) }
}

/// How a pane's agent session is identified.
#[derive(Debug, Clone, Copy, PartialEq, Eq, Structural)]
pub enum AgentSessionRefKind {
    Path,
    Id,
}

/// The agent session a pane reports.
pub struct AgentSessionInfo {
    pub agent: String,
    pub kind: AgentSessionRefKind,
    pub value: String,
}

/// Which error, if any, keeps a pane's bound session from being read.
pub open spec fn bound_path_error(agent: Option<Seq<char>>, session: Option<AgentSessionInfo>) -> Option<Seq<char>> {
    match session {
        None => Some("target has no bound Pi session path"@),
        Some(s) => if s.agent@ != "pi"@ || (agent matches Some(a) && a != "pi"@) {
            Some("conversation operations support only Pi sessions"@)
        } else if s.kind != AgentSessionRefKind::Path {
            Some("Pi session ID alone is unsupported; report the current session path"@)
        } else if !absolute(s.value@) {
            Some("bound Pi session path must be absolute"@)
        } else {
            None
        },
    }
}

pub open spec fn opt_str_view(o: Option<&str>) -> Option<Seq<char>> {
    match o {
        Some(s) => Some(s@),
        None => None,
    }
}

pub open spec fn opt_ref<'a>(o: Option<&'a AgentSessionInfo>) -> Option<AgentSessionInfo> {
    match o {
        Some(s) => Some(*s),
        None => None,
    }
}

/// The Pi session path a pane is bound to: only Pi panes that report their
/// current session by absolute path qualify.
pub fn bound_pi_path<'a>(agent: Option<&str>, session: Option<&'a AgentSessionInfo>) -> (r: Result<&'a str, ErrorBody>)
    ensures
        match bound_path_error(opt_str_view(agent), opt_ref(session)) {
            Some(m) => r is Err && r->Err_0.code@ == "conversation_unsupported"@ && r->Err_0.message@ == m,
            None => r is Ok && r->Ok_0@ == session.unwrap().value@,
        },
{
    let session = match session {
        Some(s) => s,
        None => {
            return Err(unsupported("target has no bound Pi session path"));
        },
    };
    let other_agent = match agent {
        Some(a) => !str_eq(a, "pi"),
        None => false,
    };
    if !str_eq(session.agent.as_str(), "pi") || other_agent {
        return Err(unsupported("conversation operations support only Pi sessions"));
    }
    if session.kind != AgentSessionRefKind::Path {
        return Err(unsupported("Pi session ID alone is unsupported; report the current session path"));
    }
    let cs = chars_of(session.value.as_str());
    if !(cs.len() > 0 && cs[0] == '/') {
        return Err(unsupported("bound Pi session path must be absolute"));
    }
    Ok(session.value.as_str())
}

/// A reference must name the session the pane is bound to now, and still
/// name the same message there.
pub fn validate_bound_reference(c: &PiConversation, reference: &MessageRef) -> (r: Result<(), String>)
    requires
        c.wf(),
    ensures
        c.path@ != reference.session_path@ ==> r is Err && r->Err_0@
            == "target is now bound to a different Pi session; search again before branching"@,
        c.path@ == reference.session_path@ ==> match crate::pi_fork::current_entry(*c, reference@) {
            Ok(_) => r is Ok,
            Err(e) => r is Err && r->Err_0@ == e,
        },
{
    if !str_eq(c.path.as_str(), reference.session_path.as_str()) {
        return Err(owned("target is now bound to a different Pi session; search again before branching"));
    }
    c.validate(reference)
}

/// The working directory a fork starts in: the source session's `cwd`.
pub fn fork_cwd(c: &PiConversation) -> (r: Option<&str>)
    ensures
        match str_at(c.header@, "cwd"@) {
            Some(d) => r is Some && r.unwrap()@ == d,
            None => r is None,
        },
{
    c.header.str_at("cwd")
}

pub open spec fn fork_check_error(c: PiConversation, reference: crate::schema::MessageRefView, cwd_is_dir: bool) -> Option<(Seq<char>, Seq<char>)> {
    if c.path@ != reference.session_path {
        Some(("conversation_stale"@, "target is now bound to a different Pi session; search again before branching"@))
    } else if crate::pi_fork::current_entry(c, reference) is Err {
        Some(("conversation_stale"@, crate::pi_fork::current_entry(c, reference)->Err_0))
    } else if str_at(c.header@, "cwd"@) is None || !cwd_is_dir {
        Some(("conversation_cwd_unavailable"@, "Pi session cwd must be an existing directory; source was not changed"@))
    } else {
        None
    }
}

/// Whether a fork may be prepared: the reference must still name the bound
/// session's message (else `conversation_stale`), and the session's `cwd`
/// must be an existing directory, as the caller found `cwd_is_dir` (else
/// `conversation_cwd_unavailable`).
pub fn fork_precheck(c: &PiConversation, reference: &MessageRef, cwd_is_dir: bool) -> (r: Result<(), ErrorBody>)
    requires
        c.wf(),
    ensures
        match fork_check_error(*c, reference@, cwd_is_dir) {
            Some((code, message)) => r matches Err(e) && e.code@ == code && e.message@ == message,
            None => r is Ok,
        },
{
    match validate_bound_reference(c, reference) {
        Err(message) => {
            return Err(ErrorBody { code: owned("conversation_stale"), message });
        },
        Ok(()) => {},
    }
    if fork_cwd(c).is_none() || !cwd_is_dir {
        return Err(
            ErrorBody {
                code: owned("conversation_cwd_unavailable"),
                message: owned("Pi session cwd must be an existing directory; source was not changed"),
            },
        );
    }
    Ok(())
}

/// A fork that could not be prepared.
pub fn fork_failed(message: String) -> (r: ErrorBody)
    ensures
        r.code@ == "conversation_fork_failed"@,
        r.message == message,
{
    ErrorBody { code: owned("conversation_fork_failed"), message }
}

// ---------------------------------------------------------------------------
// Pages
// ---------------------------------------------------------------------------

/// One page of a conversation's messages.
pub struct ConversationPage {
    pub session_id: String,
    pub session_path: String,
    pub messages: Vec<ConversationMessage>,
    pub total: usize,
    pub partial_tail: bool,
    pub offset: usize,
    pub limit: usize,
    pub has_more: bool,
    pub next_offset: Option<usize>,
}

/// Page size when none is asked for.
pub const DEFAULT_PAGE: usize = 100;

/// Largest page.
pub const MAX_PAGE: usize = 500;

/// Bytes of message text a page may carry in all, and per message.
pub const PAGE_TEXT_BYTES: usize = 524288;

pub const MESSAGE_TEXT_BYTES: usize = 8000;

pub const TRUNCATION_NOTE: &'static str = "\n[excerpt truncated — fork preserves full message]";

/// The characters a page shows: no control characters but newlines and tabs.
pub open spec fn shown_chars(s: Seq<char>) -> Seq<char>
    decreases s.len(),
{
    if s.len() == 0 {
        seq![]
    } else if is_cc(s.last()) && s.last() != '\n' && s.last() != '\t' {
        shown_chars(s.drop_last())
    } else {
        shown_chars(s.drop_last()).push(s.last())
    }
}

/// The last character boundary at or before byte `n`.
pub open spec fn boundary_at_most(t: Seq<char>, n: int) -> int
    decreases n,
{
    if n <= 0 || at_boundary(t, n) {
        if n < 0 {
            0
        } else {
            n
        }
    } else {
        boundary_at_most(t, n - 1)
    }
}

/// A message text as a page shows it, cut to `per` bytes on a character
/// boundary with a note when it is longer; and whether it was cut.
pub open spec fn excerpt_of(text: Seq<char>, per: nat) -> (Seq<char>, bool) {
    let s = shown_chars(text);
    if blen(s) > per {
        (bslice(s, 0, boundary_at_most(s, per as int)) + TRUNCATION_NOTE@, true)
    } else {
        (s, false)
    }
}

proof fn lemma_boundary_at_most(t: Seq<char>, n: int)
    requires
        0 <= n <= blen(t),
    ensures
        0 <= boundary_at_most(t, n) <= n,
        at_boundary(t, boundary_at_most(t, n)),
    decreases n,
{
    if n > 0 && !at_boundary(t, n) {
        lemma_boundary_at_most(t, n - 1);
    }
}

pub fn excerpt(text: &str, per: usize) -> (r: (String, bool))
    ensures
        (r.0@, r.1) == excerpt_of(text@, per as nat),
{
    let cs = chars_of(text);
    let mut kept: Vec<char> = Vec::new();
    let mut i: usize = 0;
    proof {
        assert(text@.take(0) =~= Seq::<char>::empty());
    }
    while i < cs.len()
        invariant
            cs@ == text@,
            i <= cs@.len(),
            kept@ == shown_chars(text@.take(i as int)),
        decreases cs@.len() - i,
    {
        proof {
            assert(text@.take(i + 1).drop_last() =~= text@.take(i as int));
        }
        let c = cs[i];
        if !char_is_control(c) || c == '\n' || c == '\t' {
            kept.push(c);
        }
        i += 1;
    }
    proof {
        assert(text@.take(cs@.len() as int) =~= text@);
    }
    let s = string_of(&kept);
    let n = byte_len(s.as_str());
    if n <= per {
        return (s, false);
    }
    let mut end = per;
    proof {
        lemma_boundary_at_most(s@, per as int);
    }
    while !is_boundary(s.as_str(), end)
        invariant
            end <= per < n,
            n == blen(s@),
            boundary_at_most(s@, end as int) == boundary_at_most(s@, per as int),
        decreases end,
    {
        end -= 1;
    }
    let mut out = owned(slice(s.as_str(), 0, end));
    push_str(&mut out, TRUNCATION_NOTE);
    (out, true)
}

/// The first message from `i` on with entry ID `id`.
pub open spec fn message_index(ms: Seq<ConversationMessageView>, id: Seq<char>, i: int) -> Option<int>
    decreases ms.len() - i,
{
    if i < 0 || i >= ms.len() {
        None
    } else if ms[i].reference.entry_id == id {
        Some(i)
    } else {
        message_index(ms, id, i + 1)
    }
}

pub open spec fn sat(a: int, b: int) -> int {
    if a >= b {
        a - b
    } else {
        0
    }
}

/// The messages that match a query, newest first.
pub open spec fn matching(ms: Seq<ConversationMessageView>, q: Seq<char>) -> Seq<ConversationMessageView>
    decreases ms.len(),
{
    if ms.len() == 0 {
        seq![]
    } else if text_matches(ms.last().text, q) {
        seq![ms.last()] + matching(ms.drop_last(), q)
    } else {
        matching(ms.drop_last(), q)
    }
}

/// The messages a page lists before excerpting, the total they come from,
/// the offset and the limit; or the error.
pub open spec fn page_plan(ms: Seq<ConversationMessageView>, params: AgentConversationParams) -> Result<
    (Seq<ConversationMessageView>, nat, nat, nat),
    Seq<char>,
> {
    let limit: nat = match params.limit {
        Some(l) => l as nat,
        None => DEFAULT_PAGE as nat,
    };
    if !(1 <= limit <= MAX_PAGE) {
        Err("conversation limit must be between 1 and 500"@)
    } else {
        let offset0: int = match params.offset {
            Some(o) => o as int,
            None => 0,
        };
        let centered: Result<int, Seq<char>> = match params.around_entry_id {
            Some(id) => if params.query is Some {
                Err("around_entry_id requires query to be omitted"@)
            } else {
                match message_index(ms, id@, 0) {
                    None => Err("selected Pi message is gone; search again"@),
                    Some(k) => {
                        let a = sat(k, (limit / 2) as int);
                        let b = sat(ms.len() as int, limit as int);
                        Ok(if a < b {
                            a
                        } else {
                            b
                        })
                    },
                }
            },
            None => Ok(offset0),
        };
        match centered {
            Err(e) => Err(e),
            Ok(offset) => {
                let listed = match params.query {
                    Some(q) => matching(ms, q@),
                    None => ms,
                };
                let page = if offset >= listed.len() {
                    Seq::empty()
                } else {
                    upto(listed.skip(offset), limit)
                };
                Ok((page, listed.len(), offset as nat, limit))
            },
        }
    }
}

/// Text bytes each listed message may carry.
pub open spec fn per_message(count: nat) -> nat {
    let share = PAGE_TEXT_BYTES as nat / (if count == 0 {
        1
    } else {
        count
    });
    if share < MESSAGE_TEXT_BYTES {
        share
    } else {
        MESSAGE_TEXT_BYTES as nat
    }
}

pub open spec fn excerpted(m: ConversationMessageView, per: nat) -> ConversationMessageView {
    let (t, cut) = excerpt_of(m.text, per);
    if cut {
        ConversationMessageView { text: t, text_truncated: true, ..m }
    } else {
        ConversationMessageView { text: t, ..m }
    }
}

pub open spec fn messages_view(v: Seq<ConversationMessage>) -> Seq<ConversationMessageView> {
    v.map_values(|m: ConversationMessage| m@)
}

fn filter_matching(ms: Vec<ConversationMessage>, query: &str) -> (r: Vec<ConversationMessage>)
    ensures
        messages_view(r@) == matching(messages_view(ms@), query@),
{
    let ghost all = messages_view(ms@);
    let mut rest = ms;
    let mut out: Vec<ConversationMessage> = Vec::new();
    proof {
        assert(messages_view(out@) =~= Seq::<ConversationMessageView>::empty());
    }
    while rest.len() > 0
        invariant
            matching(all, query@) == messages_view(out@) + matching(messages_view(rest@), query@),
        decreases rest@.len(),
    {
        let ghost rv = messages_view(rest@);
        let m = rest.pop().unwrap();
        proof {
            assert(messages_view(rest@) =~= rv.drop_last());
            assert(rv.last() == m@);
        }
        let ghost before = messages_view(out@);
        if matches_query(m.text.as_str(), query) {
            out.push(m);
            proof {
                assert(messages_view(out@) =~= before.push(rv.last()));
                assert(before.push(rv.last()) + matching(rv.drop_last(), query@) =~= before + (seq![rv.last()]
                    + matching(rv.drop_last(), query@)));
            }
        }
    }
    proof {
        assert(messages_view(rest@) =~= Seq::<ConversationMessageView>::empty());
        assert(messages_view(out@) + Seq::<ConversationMessageView>::empty() =~= messages_view(out@));
    }
    out
}

fn position_of(ms: &Vec<ConversationMessage>, id: &str) -> (r: Option<usize>)
    ensures
        match r {
            Some(k) => message_index(messages_view(ms@), id@, 0) == Some(k as int),
            None => message_index(messages_view(ms@), id@, 0) is None,
        },
{
    let mut i: usize = 0;
    while i < ms.len()
        invariant
            i <= ms@.len(),
            message_index(messages_view(ms@), id@, 0) == message_index(messages_view(ms@), id@, i as int),
        decreases ms@.len() - i,
    {
        proof {
            assert(messages_view(ms@)[i as int] == ms@[i as int]@);
        }
        if str_eq(ms[i].reference.entry_id.as_str(), id) {
            return Some(i);
        }
        i += 1;
    }
    None
}

/// Texts of a page, excerpted to `per` bytes each.
fn excerpt_all(page: Vec<ConversationMessage>, per: usize) -> (r: Vec<ConversationMessage>)
    ensures
        messages_view(r@) == messages_view(page@).map_values(|m: ConversationMessageView| excerpted(m, per as nat)),
{
    let ghost pv = messages_view(page@);
    let count = page.len();
    let mut page = page;
    let mut shown: Vec<ConversationMessage> = Vec::new();
    let mut i: usize = 0;
    proof {
        assert(pv.skip(0) =~= pv);
        assert(messages_view(shown@) =~= pv.take(0).map_values(|m: ConversationMessageView| excerpted(m, per as nat)));
    }
    while page.len() > 0
        invariant
            i + page@.len() == count,
            count == pv.len(),
            messages_view(page@) == pv.skip(i as int),
            messages_view(shown@) == pv.take(i as int).map_values(
                |m: ConversationMessageView| excerpted(m, per as nat),
            ),
        decreases page@.len(),
    {
        let ghost before = messages_view(shown@);
        let ghost old_page = page@;
        let mut m = page.remove(0);
        proof {
            assert(messages_view(old_page)[0] == old_page[0]@);
            assert(pv[i as int] == m@) by {
                assert(pv.skip(i as int)[0] == pv[i as int]);
            }
            assert forall|j: int| 0 <= j < page@.len() implies #[trigger] messages_view(page@)[j] == pv.skip(
                i + 1,
            )[j] by {
                assert(page@[j] == old_page[j + 1]);
                assert(messages_view(old_page)[j + 1] == old_page[j + 1]@);
                assert(pv.skip(i as int)[j + 1] == pv[i + 1 + j]);
            }
            assert(messages_view(page@) =~= pv.skip(i + 1));
        }
        let ghost mv = m@;
        let (text, cut) = excerpt(m.text.as_str(), per);
        m.text = text;
        if cut {
            m.text_truncated = true;
        }
        proof {
            assert(m@ == excerpted(mv, per as nat));
        }
        let ghost mm = m@;
        shown.push(m);
        proof {
            assert(messages_view(shown@) =~= before.push(mm));
            assert(pv.take(i + 1) =~= pv.take(i as int).push(pv[i as int]));
            assert(pv.take(i + 1).map_values(|m: ConversationMessageView| excerpted(m, per as nat)) =~= pv.take(
                i as int,
            ).map_values(|m: ConversationMessageView| excerpted(m, per as nat)).push(excerpted(mv, per as nat)));
        }
        i += 1;
    }
    proof {
        assert(pv.take(i as int) =~= pv);
    }
    shown
}

/// The listed messages of a page before excerpting, the total they come
/// from, the offset and the limit.
fn plan_page(c: &PiConversation, params: &AgentConversationParams) -> (r: Result<
    (Vec<ConversationMessage>, usize, usize, usize),
    String,
>)
    requires
        c.wf(),
    ensures
        match page_plan(c.all_messages(), *params) {
            Err(e) => r is Err && r->Err_0@ == e,
            Ok(plan) => r is Ok && messages_view(r->Ok_0.0@) == plan.0 && r->Ok_0.1 == plan.1 && r->Ok_0.2
                == plan.2 && r->Ok_0.3 == plan.3,
        },
{
    let limit = match params.limit {
        Some(l) => l,
        None => DEFAULT_PAGE,
    };
    if !(1 <= limit && limit <= MAX_PAGE) {
        return Err(owned("conversation limit must be between 1 and 500"));
    }
    let mut offset = match params.offset {
        Some(o) => o,
        None => 0,
    };
    let messages = match c.messages() {
        Ok(ms) => ms,
        Err(e) => {
            return Err(e);
        },
    };
    let ghost ms = c.all_messages();
    proof {
        assert(messages_view(messages@) == ms);
    }
    match &params.around_entry_id {
        Some(id) => {
            if params.query.is_some() {
                return Err(owned("around_entry_id requires query to be omitted"));
            }
            let selected = match position_of(&messages, id.as_str()) {
                Some(k) => k,
                None => {
                    return Err(owned("selected Pi message is gone; search again"));
                },
            };
            let a = selected.saturating_sub(limit / 2);
            let b = messages.len().saturating_sub(limit);
            offset = if a < b {
                a
            } else {
                b
            };
        },
        None => {},
    }
    let listed = match &params.query {
        Some(q) => filter_matching(messages, q.as_str()),
        None => messages,
    };
    let ghost lv = messages_view(listed@);
    let total = listed.len();
    let mut listed = listed;
    let page: Vec<ConversationMessage> = if offset >= listed.len() {
        Vec::new()
    } else {
        let mut tail = listed.split_off(offset);
        tail.truncate(limit);
        tail
    };
    proof {
        let pv = messages_view(page@);
        if offset < lv.len() {
            assert(pv =~= upto(lv.skip(offset as int), limit as nat));
        } else {
            assert(pv =~= Seq::<ConversationMessageView>::empty());
        }
    }
    Ok((page, total, offset, limit))
}

/// A page of the bound conversation: `limit` messages from `offset` on
/// (from a window around `around_entry_id` instead, when given), or the
/// matches of `query`, newest first; texts are cut to fit the transport.
pub fn conversation_page(c: &PiConversation, params: &AgentConversationParams) -> (r: Result<ConversationPage, String>)
    requires
        c.wf(),
    ensures
        match page_plan(c.all_messages(), *params) {
            Err(e) => r is Err && r->Err_0@ == e,
            Ok(plan) => r is Ok && {
                let p = r->Ok_0;
                let (page, total, offset, limit) = plan;
                let end: int = if offset + page.len() > usize::MAX {
                    usize::MAX as int
                } else {
                    (offset + page.len()) as int
                };
                &&& messages_view(p.messages@) == page.map_values(
                    |m: ConversationMessageView| excerpted(m, per_message(page.len())),
                )
                &&& p.total == total
                &&& p.offset == offset
                &&& p.limit == limit
                &&& p.partial_tail == c.partial_tail
                &&& p.has_more == (end < total)
                &&& p.next_offset == (if end < total {
                    Some(end as usize)
                } else {
                    None
                })
                &&& Some(p.session_id@) == str_at(c.header@, "id"@)
                &&& p.session_path@ == c.path@
            },
        },
{
    let (page, total, offset, limit) = plan_page(c, params)?;
    let count = page.len();
    let share = PAGE_TEXT_BYTES / (if count == 0 {
        1
    } else {
        count
    });
    let per = if share < MESSAGE_TEXT_BYTES {
        share
    } else {
        MESSAGE_TEXT_BYTES
    };
    let shown = excerpt_all(page, per);
    let end = offset.saturating_add(count);
    let has_more = end < total;
    let session_id = match c.header.str_at("id") {
        Some(s) => owned(s),
        None => {
            return Err(owned("Pi session missing id"));
        },
    };
    Ok(
        ConversationPage {
            session_id,
            session_path: owned(c.path.as_str()),
            messages: shown,
            total,
            partial_tail: c.partial_tail,
            offset,
            limit,
            has_more,
            next_offset: if has_more {
                Some(end)
            } else {
                None
            },
        },
    )
}

// ---------------------------------------------------------------------------
// Preview geometry
// ---------------------------------------------------------------------------

/// `(controls, tree, status, text)` of the conversation preview, right of a
/// one-column border: two rows of controls, the message tree (half of what
/// is left, at most twelve rows), one status row and the message text. The
/// same geometry serves drawing and hit testing.
pub open spec fn preview_of(area: Rect) -> (Rect, Rect, Rect, Rect) {
    let x = area.x.saturating_add(1);
    let width = area.width.saturating_sub(1);
    let controls = clip(x, area.y, width, if area.height < 2 { area.height } else { 2 });
    let remaining = area.height.saturating_sub(3);
    let tree_height = if remaining / 2 < 12 { remaining / 2 } else { 12 };
    let tree = clip(x, area.y.saturating_add(2), width, tree_height);
    let status = clip(x, tree.y.saturating_add(tree.height), width, if area.height > 2 { 1 } else { 0 });
    let text = clip(x, status.y.saturating_add(status.height), width, remaining.saturating_sub(tree_height));
    (controls, tree, status, text)
}

pub fn preview_rects(area: Rect) -> (r: (Rect, Rect, Rect, Rect))
    ensures
        r == preview_of(area),
{
    let x = area.x.saturating_add(1);
    let width = area.width.saturating_sub(1);
    let controls = Rect::new(x, area.y, width, if area.height < 2 { area.height } else { 2 });
    let remaining = area.height.saturating_sub(3);
    let tree_height = if remaining / 2 < 12 { remaining / 2 } else { 12 };
    let tree = Rect::new(x, area.y.saturating_add(2), width, tree_height);
    let status = Rect::new(x, tree.y.saturating_add(tree.height), width, if area.height > 2 { 1 } else { 0 });
    let text = Rect::new(x, status.y.saturating_add(status.height), width, remaining.saturating_sub(tree_height));
    (controls, tree, status, text)
}

} // verus!
