//! Current room membership of a workspace, derived on demand from its panes:
//! only panes with a public address, an attached terminal and an effective
//! agent identity are members, so plain shells never are; only a live hook
//! session reported for the same agent makes a member reply-capable. Saved
//! session metadata never resurrects a binding.
use crate::conversations::AgentSessionRefKind;
use crate::editor::{trim_text, trimmed};
use crate::mentions::{alphanumeric, char_is_alphanumeric};
use crate::presentation::{decimal, push_decimal};
use crate::room::{members_view, Member, MemberView};
use crate::text::{char_is_whitespace, chars_of, is_ws, owned, push_str, str_eq, string_of};
use vstd::prelude::*;

verus! {

/// A live hook's session identity.
pub struct SessionRef {
    pub kind: AgentSessionRefKind,
    pub value: String,
}

pub struct SessionRefView {
    pub kind: AgentSessionRefKind,
    pub value: Seq<char>,
}

impl View for SessionRef {
    type V = SessionRefView;

    open spec fn view(&self) -> SessionRefView {
        SessionRefView { kind: self.kind, value: self.value@ }
    }
}

/// What membership reads of one pane of the workspace.
pub struct PaneFacts {
    /// The pane's public number in its workspace, if it is registered.
    pub public_number: Option<u32>,
    /// The attached terminal, if it exists.
    pub terminal_id: Option<String>,
    /// The terminal's effective agent label; none for a plain shell.
    pub agent_label: Option<String>,
    /// The managed agent's name.
    pub agent_name: Option<String>,
    /// The sidebar `name` metadata.
    pub sidebar_name: Option<String>,
    /// The agent label of the terminal's live hook, if it has one.
    pub hook_label: Option<String>,
    /// The live hook's session identity.
    pub hook_session: Option<SessionRef>,
}

pub struct PaneFactsView {
    pub public_number: Option<u32>,
    pub terminal_id: Option<Seq<char>>,
    pub agent_label: Option<Seq<char>>,
    pub agent_name: Option<Seq<char>>,
    pub sidebar_name: Option<Seq<char>>,
    pub hook_label: Option<Seq<char>>,
    pub hook_session: Option<SessionRefView>,
}

impl View for PaneFacts {
    type V = PaneFactsView;

    open spec fn view(&self) -> PaneFactsView {
        PaneFactsView {
            public_number: self.public_number,
            terminal_id: self.terminal_id.deep_view(),
            agent_label: self.agent_label.deep_view(),
            agent_name: self.agent_name.deep_view(),
            sidebar_name: self.sidebar_name.deep_view(),
            hook_label: self.hook_label.deep_view(),
            hook_session: match self.hook_session {
                Some(s) => Some(s@),
                None => None,
            },
        }
    }
}

/// Index of the first whitespace of `s` at or after `i`, or its length.
pub open spec fn first_ws_from(s: Seq<char>, i: int) -> int
    decreases s.len() - i,
{
    if i < 0 || i >= s.len() {
        s.len() as int
    } else if is_ws(s[i]) {
        i
    } else {
        first_ws_from(s, i + 1)
    }
}

/// A word with no letter or digit in it, such as `∴`.
pub open spec fn decorative(w: Seq<char>) -> bool {
    w.len() > 0 && forall|i: int| 0 <= i < w.len() ==> !alphanumeric(#[trigger] w[i])
}

/// A name trimmed, without a standalone decorative first word.
pub open spec fn undecorated(s: Seq<char>) -> Seq<char> {
    let t = trimmed(s);
    let k = first_ws_from(t, 0);
    if k < t.len() && decorative(t.take(k)) {
        trimmed(t.skip(k))
    } else {
        t
    }
}

pub open spec fn opt_name(n: Option<Seq<char>>) -> Seq<char> {
    match n {
        Some(x) => undecorated(x),
        None => Seq::empty(),
    }
}

/// The chosen name: the sidebar name, else the managed agent's name, else
/// the pane ID; never the generic agent label.
pub open spec fn chosen_name(p: PaneFactsView, pane_id: Seq<char>) -> Seq<char> {
    if opt_name(p.sidebar_name).len() > 0 {
        opt_name(p.sidebar_name)
    } else if opt_name(p.agent_name).len() > 0 {
        opt_name(p.agent_name)
    } else {
        pane_id
    }
}

pub open spec fn kind_text(k: AgentSessionRefKind) -> Seq<char> {
    match k {
        AgentSessionRefKind::Path => "Path"@,
        AgentSessionRefKind::Id => "Id"@,
    }
}

/// `Kind:value` of the live hook session, only when the hook reports the
/// pane's own agent.
pub open spec fn session_text(p: PaneFactsView, label: Seq<char>) -> Option<Seq<char>> {
    match (p.hook_label, p.hook_session) {
        (Some(h), Some(s)) => if h == label {
            Some(kind_text(s.kind) + ":"@ + s.value)
        } else {
            None
        },
        _ => None,
    }
}

/// `workspace:pN`, the public pane ID.
pub open spec fn public_pane_id(workspace_id: Seq<char>, n: u32) -> Seq<char> {
    workspace_id + ":p"@ + decimal(n as nat)
}

/// The member a pane makes, if any.
pub open spec fn member_of(workspace_id: Seq<char>, p: PaneFactsView) -> Option<MemberView> {
    match (p.public_number, p.terminal_id, p.agent_label) {
        (Some(n), Some(t), Some(label)) => {
            let pid = public_pane_id(workspace_id, n);
            Some(
                MemberView {
                    pane_id: pid,
                    terminal_id: t,
                    agent: label,
                    name: chosen_name(p, pid),
                    session: session_text(p, label),
                },
            )
        },
        _ => None,
    }
}

/// The members of the panes, in pane order.
pub open spec fn kept_members(workspace_id: Seq<char>, ps: Seq<PaneFactsView>) -> Seq<MemberView>
    decreases ps.len(),
{
    if ps.len() == 0 {
        Seq::empty()
    } else {
        let rest = kept_members(workspace_id, ps.drop_last());
        match member_of(workspace_id, ps.last()) {
            Some(m) => rest.push(m),
            None => rest,
        }
    }
}

/// `a` sorts strictly before `b`, character by character.
pub open spec fn text_less(a: Seq<char>, b: Seq<char>) -> bool
    decreases a.len(),
{
    if a.len() == 0 {
        b.len() > 0
    } else if b.len() == 0 {
        false
    } else if (a[0] as u32) < (b[0] as u32) {
        true
    } else if (a[0] as u32) > (b[0] as u32) {
        false
    } else {
        text_less(a.drop_first(), b.drop_first())
    }
}

/// Where a stable sort puts `x` among `sorted`: after every member whose
/// pane ID does not sort after it.
pub open spec fn insert_position(sorted: Seq<MemberView>, x: MemberView, j: int) -> int
    decreases sorted.len() - j,
{
    if j < 0 || j >= sorted.len() {
        sorted.len() as int
    } else if text_less(x.pane_id, sorted[j].pane_id) {
        j
    } else {
        insert_position(sorted, x, j + 1)
    }
}

/// The members stably sorted by pane ID.
pub open spec fn sorted_by_pane(ms: Seq<MemberView>) -> Seq<MemberView>
    decreases ms.len(),
{
    if ms.len() == 0 {
        Seq::empty()
    } else {
        let s = sorted_by_pane(ms.drop_last());
        s.insert(insert_position(s, ms.last(), 0), ms.last())
    }
}

/// A workspace's current members, ordered by pane ID.
pub open spec fn members_spec(workspace_id: Seq<char>, ps: Seq<PaneFactsView>) -> Seq<MemberView> {
    sorted_by_pane(kept_members(workspace_id, ps))
}

pub proof fn lemma_insert_position_bound(sorted: Seq<MemberView>, x: MemberView, j: int)
    requires
        0 <= j <= sorted.len(),
    ensures
        j <= insert_position(sorted, x, j) <= sorted.len(),
    decreases sorted.len() - j,
{
    if j < sorted.len() {
        lemma_insert_position_bound(sorted, x, j + 1);
    }
}

pub proof fn lemma_sorted_len(ms: Seq<MemberView>)
    ensures
        sorted_by_pane(ms).len() == ms.len(),
    decreases ms.len(),
{
    if ms.len() > 0 {
        lemma_sorted_len(ms.drop_last());
        lemma_insert_position_bound(sorted_by_pane(ms.drop_last()), ms.last(), 0);
    }
}

fn is_decorative(w: &Vec<char>, k: usize) -> (r: bool)
    requires
        k <= w@.len(),
    ensures
        r == decorative(w@.take(k as int)),
{
    if k == 0 {
        return false;
    }
    let mut i: usize = 0;
    while i < k
        invariant
            k <= w@.len(),
            i <= k,
            forall|j: int| 0 <= j < i ==> !alphanumeric(#[trigger] w@[j]),
        decreases k - i,
    {
        if char_is_alphanumeric(w[i]) {
            proof {
                assert(w@.take(k as int)[i as int] == w@[i as int]);
            }
            return false;
        }
        i += 1;
    }
    proof {
        assert forall|j: int| 0 <= j < w@.take(k as int).len() implies !alphanumeric(
            #[trigger] w@.take(k as int)[j],
        ) by {
            assert(w@.take(k as int)[j] == w@[j]);
        }
    }
    true
}

/// A name trimmed, without a standalone decorative first word.
pub fn undecorate(s: &str) -> (r: String)
    ensures
        r@ == undecorated(s@),
{
    let t = trim_text(s);
    let cs = chars_of(t.as_str());
    let mut k: usize = 0;
    while k < cs.len() && !char_is_whitespace(cs[k])
        invariant
            cs@ == t@,
            k <= cs.len(),
            first_ws_from(t@, 0) == first_ws_from(t@, k as int),
        decreases cs.len() - k,
    {
        k += 1;
    }
    if k < cs.len() && is_decorative(&cs, k) {
        let rest = crate::mentions::slice_string(&cs, k, cs.len());
        proof {
            assert(rest@ =~= t@.skip(k as int));
        }
        trim_text(rest.as_str())
    } else {
        t
    }
}

fn opt_undecorated(n: &Option<String>) -> (r: String)
    ensures
        r@ == opt_name(n.deep_view()),
{
    match n {
        Some(x) => undecorate(x.as_str()),
        None => String::new(),
    }
}

/// The member one pane makes, if it makes one.
pub fn pane_member(workspace_id: &str, p: &PaneFacts) -> (r: Option<Member>)
    ensures
        match r {
            Some(m) => member_of(workspace_id@, p@) == Some(m@),
            None => member_of(workspace_id@, p@) is None,
        },
{
    let n = match p.public_number {
        Some(n) => n,
        None => return None,
    };
    let terminal = match &p.terminal_id {
        Some(t) => t,
        None => return None,
    };
    let label = match &p.agent_label {
        Some(l) => l,
        None => return None,
    };
    let mut pane_id = owned(workspace_id);
    push_str(&mut pane_id, ":p");
    push_decimal(&mut pane_id, n as u64);
    let side = opt_undecorated(&p.sidebar_name);
    let name = if crate::bytes::byte_len(side.as_str()) > 0 {
        side
    } else {
        let managed = opt_undecorated(&p.agent_name);
        if crate::bytes::byte_len(managed.as_str()) > 0 {
            managed
        } else {
            pane_id.clone()
        }
    };
    proof {
        lemma_len_zero(opt_name(p@.sidebar_name));
        lemma_len_zero(opt_name(p@.agent_name));
    }
    let session = match (&p.hook_label, &p.hook_session) {
        (Some(h), Some(s)) => {
            if str_eq(h.as_str(), label.as_str()) {
                let mut text = match s.kind {
                    AgentSessionRefKind::Path => owned("Path"),
                    AgentSessionRefKind::Id => owned("Id"),
                };
                push_str(&mut text, ":");
                push_str(&mut text, s.value.as_str());
                Some(text)
            } else {
                None
            }
        },
        _ => None,
    };
    let m = Member {
        pane_id,
        terminal_id: terminal.clone(),
        agent: label.clone(),
        name,
        session,
    };
    proof {
        assert(m@ == member_of(workspace_id@, p@)->Some_0);
    }
    Some(m)
}

/// A text is empty exactly when its UTF-8 encoding is.
proof fn lemma_len_zero(s: Seq<char>)
    ensures
        (vstd::utf8::encode_utf8(s).len() == 0) == (s.len() == 0),
{
    if s.len() > 0 {
        assert(vstd::utf8::encode_utf8(s) == vstd::utf8::encode_scalar(s[0] as u32)
            + vstd::utf8::encode_utf8(s.drop_first()));
    } else {
        assert(vstd::utf8::encode_utf8(s) == Seq::<u8>::empty());
    }
}

/// Whether `a` sorts strictly before `b`.
pub fn pane_id_less(a: &str, b: &str) -> (r: bool)
    ensures
        r == text_less(a@, b@),
{
    let x = chars_of(a);
    let y = chars_of(b);
    let mut i: usize = 0;
    proof {
        assert(a@.skip(0) =~= a@);
        assert(b@.skip(0) =~= b@);
    }
    while i < x.len() && i < y.len()
        invariant
            x@ == a@,
            y@ == b@,
            i <= x.len(),
            i <= y.len(),
            text_less(a@, b@) == text_less(a@.skip(i as int), b@.skip(i as int)),
        decreases x.len() - i,
    {
        let ghost sa = a@.skip(i as int);
        let ghost sb = b@.skip(i as int);
        proof {
            assert(sa[0] == x@[i as int]);
            assert(sb[0] == y@[i as int]);
            assert(sa.drop_first() =~= a@.skip(i + 1));
            assert(sb.drop_first() =~= b@.skip(i + 1));
        }
        if (x[i] as u32) < (y[i] as u32) {
            return true;
        }
        if (x[i] as u32) > (y[i] as u32) {
            return false;
        }
        i += 1;
    }
    proof {
        assert(a@.skip(i as int).len() == x.len() - i);
        assert(b@.skip(i as int).len() == y.len() - i);
    }
    i < y.len()
}

fn insert_member(out: &mut Vec<Member>, m: Member)
    ensures
        members_view(final(out)@) == members_view(old(out)@).insert(
            insert_position(members_view(old(out)@), m@, 0),
            m@,
        ),
{
    let ghost s = members_view(out@);
    let mut j: usize = 0;
    while j < out.len() && !pane_id_less(m.pane_id.as_str(), out[j].pane_id.as_str())
        invariant
            s == members_view(out@),
            j <= out.len(),
            insert_position(s, m@, 0) == insert_position(s, m@, j as int),
        decreases out.len() - j,
    {
        j += 1;
    }
    proof {
        lemma_insert_position_bound(s, m@, j as int);
    }
    out.insert(j, m);
    proof {
        assert(members_view(out@) =~= s.insert(j as int, m@));
    }
}

/// A workspace's current room members, ordered by pane ID.
pub fn members(workspace_id: &str, panes: &Vec<PaneFacts>) -> (r: Vec<Member>)
    ensures
        members_view(r@) == members_spec(workspace_id@, panes@.map_values(|p: PaneFacts| p@)),
{
    let ghost ps = panes@.map_values(|p: PaneFacts| p@);
    let mut kept: Vec<Member> = Vec::new();
    let mut i: usize = 0;
    while i < panes.len()
        invariant
            ps == panes@.map_values(|p: PaneFacts| p@),
            i <= panes.len(),
            members_view(kept@) == kept_members(workspace_id@, ps.take(i as int)),
        decreases panes.len() - i,
    {
        let found = pane_member(workspace_id, &panes[i]);
        proof {
            assert(ps.take(i + 1).drop_last() =~= ps.take(i as int));
            assert(ps.take(i + 1).last() == panes@[i as int]@);
        }
        match found {
            Some(m) => {
                kept.push(m);
                proof {
                    assert(members_view(kept@) =~= kept_members(workspace_id@, ps.take(i as int)).push(
                        kept@.last()@,
                    ));
                }
            },
            None => {},
        }
        i += 1;
    }
    proof {
        assert(ps.take(i as int) =~= ps);
    }
    let ghost all = members_view(kept@);
    let mut out: Vec<Member> = Vec::new();
    let mut k: usize = 0;
    proof {
        assert(all.take(0) =~= Seq::<MemberView>::empty());
        assert(members_view(out@) =~= Seq::<MemberView>::empty());
    }
    while k < kept.len()
        invariant
            all == members_view(kept@),
            all == kept_members(workspace_id@, ps),
            k <= kept.len(),
            members_view(out@) == sorted_by_pane(all.take(k as int)),
        decreases kept.len() - k,
    {
        let m = kept[k].clone();
        insert_member(&mut out, m);
        proof {
            assert(all.take(k + 1).drop_last() =~= all.take(k as int));
            assert(all.take(k + 1).last() == kept@[k as int]@);
        }
        k += 1;
    }
    proof {
        assert(all.take(k as int) =~= all);
    }
    out
}

/// A pane without an effective agent identity, such as a plain shell, adds
/// no member.
pub proof fn law_plain_shells_are_never_members(
    workspace_id: Seq<char>,
    ps: Seq<PaneFactsView>,
    p: PaneFactsView,
)
    requires
        p.agent_label is None,
    ensures
        members_spec(workspace_id, ps.push(p)) == members_spec(workspace_id, ps),
{
    assert(ps.push(p).drop_last() =~= ps);
}

/// A member is reply-capable only through a live hook session reported for
/// its own agent label, and its session text names that session.
pub proof fn law_only_matching_live_hooks_are_reply_capable(workspace_id: Seq<char>, p: PaneFactsView)
    requires
        member_of(workspace_id, p) matches Some(m) && m.session is Some,
    ensures
        p.hook_label == p.agent_label,
        p.hook_session matches Some(s) && member_of(workspace_id, p)->Some_0.session == Some(
            kind_text(s.kind) + ":"@ + s.value,
        ),
{
}

proof fn lemma_sorted_from(ms: Seq<MemberView>, x: MemberView)
    requires
        sorted_by_pane(ms).contains(x),
    ensures
        ms.contains(x),
    decreases ms.len(),
{
    let s = sorted_by_pane(ms.drop_last());
    let k = insert_position(s, ms.last(), 0);
    lemma_insert_position_bound(s, ms.last(), 0);
    let i = choose|i: int| 0 <= i < sorted_by_pane(ms).len() && sorted_by_pane(ms)[i] == x;
    if x != ms.last() {
        if i < k {
            assert(s[i] == x);
        } else {
            assert(s[i - 1] == x);
        }
        assert(s.contains(x));
        lemma_sorted_from(ms.drop_last(), x);
        let j = choose|j: int| 0 <= j < ms.drop_last().len() && ms.drop_last()[j] == x;
        assert(ms[j] == x);
    } else {
        assert(ms[ms.len() - 1] == x);
    }
}

proof fn lemma_kept_from(workspace_id: Seq<char>, ps: Seq<PaneFactsView>, x: MemberView)
    requires
        kept_members(workspace_id, ps).contains(x),
    ensures
        exists|i: int| 0 <= i < ps.len() && member_of(workspace_id, #[trigger] ps[i]) == Some(x),
    decreases ps.len(),
{
    let rest = kept_members(workspace_id, ps.drop_last());
    if rest.contains(x) {
        lemma_kept_from(workspace_id, ps.drop_last(), x);
        let i = choose|i: int| 0 <= i < ps.drop_last().len() && member_of(workspace_id, #[trigger] ps.drop_last()[i]) == Some(x);
        assert(ps[i] == ps.drop_last()[i]);
    } else {
        let k = choose|k: int| 0 <= k < kept_members(workspace_id, ps).len() && kept_members(workspace_id, ps)[k] == x;
        if k < rest.len() {
            assert(rest[k] == x);
        }
        assert(member_of(workspace_id, ps[ps.len() - 1]) == Some(x));
    }
}

/// Every member is the member of one of the workspace's panes: membership
/// comes from current panes only.
pub proof fn law_members_come_from_current_panes(
    workspace_id: Seq<char>,
    ps: Seq<PaneFactsView>,
    m: MemberView,
)
    requires
        members_spec(workspace_id, ps).contains(m),
    ensures
        exists|i: int| 0 <= i < ps.len() && member_of(workspace_id, #[trigger] ps[i]) == Some(m),
{
    lemma_sorted_from(kept_members(workspace_id, ps), m);
    lemma_kept_from(workspace_id, ps, m);
}

} // verus!
