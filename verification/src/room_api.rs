//! Room API decisions: saved human questions feed only the volatile polling inbox.
//! The caller gathers current membership, saves candidates and encodes replies;
//! these functions decide what is written, refused and enqueued.
use crate::room::{
    dedup_audience, dedup_slots, members_view, Member, MemberView, Message, MessageView, Room,
    RoomView, result_view,
};
use crate::room_delivery::{
    capped, DeliveryStatus, DeliveryStatusView, Runtime, RuntimeView, Status, MAX_DELIVERIES,
};
use crate::schema::{RoomPostParams, RoomRecipient, RoomRecipientView, RoomReplyParams};
use crate::text::{owned, push_str, str_eq};
use vstd::prelude::*;

verus! {

/// A refused request: a stable machine code and a human message.
pub struct ApiError {
    pub code: String,
    pub message: String,
}

pub struct ApiErrorView {
    pub code: Seq<char>,
    pub message: Seq<char>,
}

impl View for ApiError {
    type V = ApiErrorView;

    open spec fn view(&self) -> ApiErrorView {
        ApiErrorView { code: self.code@, message: self.message@ }
    }
}

pub open spec fn api_error(code: Seq<char>, message: Seq<char>) -> ApiErrorView {
    ApiErrorView { code, message }
}

fn make_error(code: &str, message: String) -> (r: ApiError)
    ensures
        r@ == api_error(code@, message@),
{
    ApiError { code: owned(code), message }
}

/// The position of the workspace with exactly this stable id; ordinal
/// navigation aliases are never accepted since they can retarget.
pub fn room_workspace_index(workspace_ids: &Vec<String>, id: &str) -> (r: Option<usize>)
    ensures
        match r {
            Some(k) => k < workspace_ids.len() && workspace_ids@[k as int]@ == id@ && forall|j: int|
                0 <= j < k ==> (#[trigger] workspace_ids@[j])@ != id@,
            None => forall|j: int| 0 <= j < workspace_ids.len() ==> (#[trigger] workspace_ids@[j])@ != id@,
        },
{
    let mut i: usize = 0;
    while i < workspace_ids.len()
        invariant
            i <= workspace_ids.len(),
            forall|j: int| 0 <= j < i ==> (#[trigger] workspace_ids@[j])@ != id@,
        decreases workspace_ids.len() - i,
    {
        if str_eq(workspace_ids[i].as_str(), id) {
            return Some(i);
        }
        i += 1;
    }
    None
}

/// The page size a read uses: 100 unless a smaller limit is asked for.
pub open spec fn page_size(limit: Option<usize>) -> nat {
    match limit {
        Some(l) => if l < 100 {
            l as nat
        } else {
            100
        },
        None => 100,
    }
}

/// The records a read returns: those after `after_sequence`, oldest first,
/// at most one page.
pub open spec fn read_page(messages: Seq<MessageView>, after_sequence: u64, limit: Option<usize>) -> Seq<
    MessageView,
> {
    capped(messages.filter(|m: MessageView| m.sequence > after_sequence), page_size(limit))
}

/// Reads a bounded page of the transcript after a sequence.
pub fn read_messages(room: &Room, after_sequence: u64, limit: Option<usize>) -> (r: Vec<Message>)
    ensures
        r@.map_values(|m: Message| m@) == read_page(room@.messages, after_sequence, limit),
{
    let page: usize = match limit {
        Some(l) => if l < 100 {
            l
        } else {
            100
        },
        None => 100,
    };
    let ghost msgs = room@.messages;
    let ghost p = |m: MessageView| m.sequence > after_sequence;
    let mut out: Vec<Message> = Vec::new();
    let mut i: usize = 0;
    while i < room.messages.len()
        invariant
            msgs == room@.messages,
            p == (|m: MessageView| m.sequence > after_sequence),
            page == page_size(limit),
            i <= room.messages.len(),
            out@.len() <= page,
            out@.map_values(|m: Message| m@) == capped(msgs.take(i as int).filter(p), page as nat),
        decreases room.messages.len() - i,
    {
        proof {
            assert(msgs.take(i + 1).drop_last() =~= msgs.take(i as int));
            assert(msgs.take(i + 1).last() == room.messages@[i as int]@);
            assert(msgs.take(i + 1).last() == msgs[i as int]);
            reveal_with_fuel(Seq::filter, 1);
        }
        let m = &room.messages[i];
        let ghost before = out@.map_values(|m: Message| m@);
        if m.sequence > after_sequence && out.len() < page {
            out.push(m.clone());
        }
        proof {
            let fb = msgs.take(i as int).filter(p);
            let fa = msgs.take(i + 1).filter(p);
            if m.sequence > after_sequence {
                assert(fa == fb.push(m@));
                if fb.len() >= page {
                    assert(capped(fa, page as nat) =~= capped(fb, page as nat));
                    assert(out@.map_values(|m: Message| m@) == before);
                } else {
                    assert(before == fb);
                    assert(out@.map_values(|m: Message| m@) =~= before.push(m@));
                    assert(capped(fa, page as nat) =~= fa);
                }
            } else {
                assert(fa == fb);
                assert(out@.map_values(|m: Message| m@) == before);
            }
        }
        i += 1;
    }
    proof {
        assert(msgs.take(room.messages.len() as int) =~= msgs);
    }
    out
}

/// Sequences strictly increase along `s`.
pub open spec fn increasing(s: Seq<MessageView>) -> bool {
    forall|i: int, j: int| 0 <= i < j < s.len() ==> #[trigger] s[i].sequence < #[trigger] s[j].sequence
}

/// Keeping the records newer than `after` keeps exactly those, in order.
proof fn lemma_newer_records(s: Seq<MessageView>, p: spec_fn(MessageView) -> bool, after: u64)
    requires
        forall|m: MessageView| #[trigger] p(m) == (m.sequence > after),
    ensures
        forall|k: int| 0 <= k < s.filter(p).len() ==> #[trigger] s.filter(p)[k].sequence > after && s.contains(s.filter(p)[k]),
        forall|i: int| 0 <= i < s.len() && s[i].sequence > after ==> s.filter(p).contains(#[trigger] s[i]),
        increasing(s) ==> increasing(s.filter(p)),
    decreases s.len(),
{
    reveal_with_fuel(Seq::filter, 1);
    if s.len() > 0 {
        let init = s.drop_last();
        let x = s.last();
        lemma_newer_records(init, p, after);
        let fi = init.filter(p);
        let f = s.filter(p);
        assert(f == if p(x) { fi.push(x) } else { fi });
        assert forall|k: int| 0 <= k < f.len() implies #[trigger] f[k].sequence > after && s.contains(f[k]) by {
            if k < fi.len() {
                assert(f[k] == fi[k]);
                assert(init.contains(fi[k]));
                let w = choose|w: int| 0 <= w < init.len() && init[w] == fi[k];
                assert(s[w] == fi[k]);
            } else {
                assert(f[k] == x);
                assert(s[s.len() - 1] == x);
            }
        }
        assert forall|i: int| 0 <= i < s.len() && s[i].sequence > after implies f.contains(#[trigger] s[i]) by {
            if i < init.len() {
                assert(init[i] == s[i]);
                assert(fi.contains(init[i]));
                let w = choose|w: int| 0 <= w < fi.len() && fi[w] == init[i];
                assert(f[w] == fi[w]);
            } else {
                assert(s[i] == x);
                assert(f[f.len() - 1] == x);
            }
        }
        if increasing(s) {
            assert forall|i: int, j: int| 0 <= i < j < init.len() implies #[trigger] init[i].sequence
                < #[trigger] init[j].sequence by {
                assert(init[i] == s[i] && init[j] == s[j]);
            }
            assert forall|i: int, j: int| 0 <= i < j < f.len() implies #[trigger] f[i].sequence
                < #[trigger] f[j].sequence by {
                if j < fi.len() {
                    assert(f[i] == fi[i] && f[j] == fi[j]);
                } else {
                    assert(f[j] == x);
                    assert(f[i] == fi[i]);
                    assert(init.contains(fi[i]));
                    let w = choose|w: int| 0 <= w < init.len() && init[w] == fi[i];
                    assert(s[w] == init[w]);
                    assert(s[s.len() - 1] == x);
                }
            }
        }
    }
}

/// A read returns at most a page of records (100, or the smaller limit
/// asked for), each newer than
/// `after_sequence` and taken from the transcript; a page that is not full
/// holds every newer record. On a well-formed transcript the page runs oldest
/// first and skips nothing: every newer record up to the page's last is on it.
pub proof fn law_read_returns_the_records_after_a_sequence(room: RoomView, after_sequence: u64, limit: Option<usize>)
    ensures
        page_size(limit) == (match limit {
            Some(l) => if l < 100 {
                l as nat
            } else {
                100nat
            },
            None => 100nat,
        }),
        read_page(room.messages, after_sequence, limit).len() <= page_size(limit),
        forall|k: int|
            0 <= k < read_page(room.messages, after_sequence, limit).len() ==> #[trigger] read_page(
                room.messages,
                after_sequence,
                limit,
            )[k].sequence > after_sequence && room.messages.contains(read_page(room.messages, after_sequence, limit)[k]),
        read_page(room.messages, after_sequence, limit).len() < page_size(limit) ==> forall|i: int|
            0 <= i < room.messages.len() && room.messages[i].sequence > after_sequence ==> read_page(
                room.messages,
                after_sequence,
                limit,
            ).contains(#[trigger] room.messages[i]),
        room.wf() ==> increasing(read_page(room.messages, after_sequence, limit)),
        room.wf() && read_page(room.messages, after_sequence, limit).len() > 0 ==> forall|i: int|
            0 <= i < room.messages.len() && after_sequence < room.messages[i].sequence <= read_page(
                room.messages,
                after_sequence,
                limit,
            ).last().sequence ==> read_page(room.messages, after_sequence, limit).contains(#[trigger] room.messages[i]),
{
    let ms = room.messages;
    let p = |m: MessageView| m.sequence > after_sequence;
    let f = ms.filter(p);
    let n = page_size(limit);
    let r = read_page(ms, after_sequence, limit);
    lemma_newer_records(ms, p, after_sequence);
    assert(r == capped(f, n));
    assert forall|k: int| 0 <= k < r.len() implies #[trigger] r[k].sequence > after_sequence && ms.contains(r[k]) by {
        assert(r[k] == f[k]);
    }
    if r.len() < n {
        assert(r == f);
    }
    if room.wf() {
        assert(increasing(ms));
        assert forall|i: int, j: int| 0 <= i < j < r.len() implies #[trigger] r[i].sequence < #[trigger] r[j].sequence by {
            assert(r[i] == f[i] && r[j] == f[j]);
        }
        if r.len() > 0 {
            assert forall|i: int|
                0 <= i < ms.len() && after_sequence < ms[i].sequence <= r.last().sequence implies r.contains(
                #[trigger] ms[i],
            ) by {
                assert(f.contains(ms[i]));
                let j = choose|j: int| 0 <= j < f.len() && f[j] == ms[i];
                let l = r.len() - 1;
                assert(r[l] == f[l]);
                if j > l {
                    assert(f[l].sequence < f[j].sequence);
                }
                assert(r[j] == f[j]);
            }
        }
    }
}

/// Whether `member` is exactly the current member named by `target`.
pub open spec fn names_member(member: MemberView, target: RoomRecipientView) -> bool {
    member.pane_id == target.pane_id && member.terminal_id == target.terminal_id && member.session
        == Some(target.session)
}

/// The first current member named by `target`.
pub open spec fn current_member(members: Seq<MemberView>, target: RoomRecipientView) -> Option<MemberView>
    decreases members.len(),
{
    if members.len() == 0 {
        None
    } else if names_member(members[0], target) {
        Some(members[0])
    } else {
        current_member(members.drop_first(), target)
    }
}

/// Finds the current member exactly named by pane, terminal and live session.
pub fn find_member(members: &Vec<Member>, pane_id: &str, terminal_id: &str, session: &str) -> (r: Option<Member>)
    ensures
        r matches Some(m) ==> Some(m@) == current_member(
            members_view(members@),
            RoomRecipientView { pane_id: pane_id@, terminal_id: terminal_id@, session: session@ },
        ),
        r.is_none() ==> current_member(
            members_view(members@),
            RoomRecipientView { pane_id: pane_id@, terminal_id: terminal_id@, session: session@ },
        ).is_none(),
{
    let ghost mv = members_view(members@);
    let ghost t = RoomRecipientView { pane_id: pane_id@, terminal_id: terminal_id@, session: session@ };
    let mut i: usize = 0;
    proof {
        assert(mv.skip(0) =~= mv);
    }
    while i < members.len()
        invariant
            mv == members_view(members@),
            t == (RoomRecipientView { pane_id: pane_id@, terminal_id: terminal_id@, session: session@ }),
            i <= members.len(),
            current_member(mv, t) == current_member(mv.skip(i as int), t),
        decreases members.len() - i,
    {
        let m = &members[i];
        proof {
            assert(mv.skip(i as int)[0] == m@);
            assert(mv.skip(i as int).drop_first() =~= mv.skip(i + 1));
        }
        let hit = str_eq(m.pane_id.as_str(), pane_id) && str_eq(m.terminal_id.as_str(), terminal_id)
            && match &m.session {
            Some(s) => str_eq(s.as_str(), session),
            None => false,
        };
        if hit {
            return Some(m.clone());
        }
        i += 1;
    }
    proof {
        assert(mv.skip(i as int).len() == 0);
    }
    None
}

/// The members named by an explicit recipient list, or the pane of the first
/// target that is not a current member.
pub open spec fn group_targets(members: Seq<MemberView>, targets: Seq<RoomRecipientView>) -> Result<
    Seq<MemberView>,
    Seq<char>,
>
    decreases targets.len(),
{
    if targets.len() == 0 {
        Ok(Seq::empty())
    } else {
        match group_targets(members, targets.drop_last()) {
            Err(p) => Err(p),
            Ok(found) => match current_member(members, targets.last()) {
                Some(m) => Ok(found.push(m)),
                None => Err(targets.last().pane_id),
            },
        }
    }
}

pub open spec fn delivery_full_message() -> Seq<char> {
    "room delivery history limit reached; entries are retained up to 20 minutes after posting, including completed deliveries"@
}

/// What a human post writes: the candidate room, its sequence and the members
/// whose deliveries are enqueued once the candidate is saved.
pub struct PostPlan {
    pub candidate: Room,
    pub sequence: u64,
    pub targets: Vec<Member>,
}

pub struct PostPlanView {
    pub candidate: RoomView,
    pub sequence: u64,
    pub targets: Seq<MemberView>,
}

impl View for PostPlan {
    type V = PostPlanView;

    open spec fn view(&self) -> PostPlanView {
        PostPlanView {
            candidate: self.candidate@,
            sequence: self.sequence,
            targets: members_view(self.targets@),
        }
    }
}

pub open spec fn members_with_session(ms: Seq<MemberView>) -> Seq<MemberView> {
    ms.filter(|m: MemberView| m.session.is_some())
}

/// A post's outcome once its deduplicated targets are known.
pub open spec fn post_with_targets(
    room: RoomView,
    pending: nat,
    text: Seq<char>,
    targets: Seq<MemberView>,
    single: bool,
    now: u64,
) -> Result<PostPlanView, ApiErrorView> {
    if pending + targets.len() > MAX_DELIVERIES {
        Err(api_error("room_delivery_full"@, delivery_full_message()))
    } else {
        let step = if single {
            room.post_step(text, if targets.len() > 0 { Some(targets[0]) } else { None }, now)
        } else {
            room.post_to_step(text, members_with_session(targets), now)
        };
        match step.1 {
            Ok(sequence) => Ok(PostPlanView { candidate: step.0, sequence, targets }),
            Err(e) => Err(api_error("invalid_room_post"@, e)),
        }
    }
}

/// The decision for a human post to a room whose current members are
/// `members`, with `pending` delivery records already held.
pub open spec fn post_plan(
    room: RoomView,
    pending: nat,
    members: Seq<MemberView>,
    text: Seq<char>,
    recipient: Option<RoomRecipientView>,
    recipients: Option<Seq<RoomRecipientView>>,
    now: u64,
) -> Result<PostPlanView, ApiErrorView> {
    if recipients.is_some() && recipients.unwrap().len() > 0 {
        // Addressed group question: every named recipient must be a current member.
        match group_targets(members, recipients.unwrap()) {
            Err(pane) => Err(api_error("invalid_recipient"@, pane + " is not a current room member"@)),
            Ok(found) => {
                let targets = dedup_slots(found);
                if pending + targets.len() > MAX_DELIVERIES {
                    Err(api_error("room_delivery_full"@, delivery_full_message()))
                } else {
                    let step = room.post_to_step(text, targets, now);
                    match step.1 {
                        Ok(sequence) => Ok(PostPlanView { candidate: step.0, sequence, targets }),
                        Err(e) => Err(api_error("invalid_room_post"@, e)),
                    }
                }
            },
        }
    } else {
        match recipient {
            Some(t) => match current_member(members, t) {
                None => Err(api_error("invalid_recipient"@, "not a current room member"@)),
                Some(m) => post_with_targets(room, pending, text, seq![m], true, now),
            },
            None => post_with_targets(room, pending, text, dedup_slots(members), false, now),
        }
    }
}

pub open spec fn recipients_view(v: Seq<RoomRecipient>) -> Seq<RoomRecipientView> {
    v.map_values(|r: RoomRecipient| r@)
}

pub open spec fn opt_recipients_view(v: Option<Vec<RoomRecipient>>) -> Option<Seq<RoomRecipientView>> {
    match v {
        Some(l) => Some(recipients_view(l@)),
        None => None,
    }
}

pub open spec fn opt_recipient_view(v: Option<RoomRecipient>) -> Option<RoomRecipientView> {
    match v {
        Some(t) => Some(t@),
        None => None,
    }
}

fn group_members(members: &Vec<Member>, list: &Vec<RoomRecipient>) -> (r: Result<Vec<Member>, String>)
    ensures
        match group_targets(members_view(members@), recipients_view(list@)) {
            Ok(found) => r matches Ok(v) && members_view(v@) == found,
            Err(pane) => r matches Err(p) && p@ == pane,
        },
{
    let ghost mv = members_view(members@);
    let ghost lv = recipients_view(list@);
    let mut found: Vec<Member> = Vec::new();
    let mut i: usize = 0;
    proof {
        assert(lv.take(0) =~= Seq::<RoomRecipientView>::empty());
        assert(members_view(found@) =~= Seq::<MemberView>::empty());
    }
    while i < list.len()
        invariant
            mv == members_view(members@),
            lv == recipients_view(list@),
            i <= list.len(),
            group_targets(mv, lv.take(i as int)) == Ok::<Seq<MemberView>, Seq<char>>(members_view(found@)),
        decreases list.len() - i,
    {
        let target = &list[i];
        proof {
            assert(lv.take(i + 1).drop_last() =~= lv.take(i as int));
            assert(lv.take(i + 1).last() == target@);
        }
        match find_member(members, target.pane_id.as_str(), target.terminal_id.as_str(), target.session.as_str()) {
            Some(m) => {
                let ghost before = members_view(found@);
                found.push(m);
                proof {
                    assert(members_view(found@) =~= before.push(m@));
                }
            },
            None => {
                proof {
                    assert(group_targets(mv, lv.take(i + 1)) == Err::<Seq<MemberView>, Seq<char>>(target@.pane_id));
                    lemma_group_targets_err_sticks(mv, lv, i as int + 1);
                }
                return Err(target.pane_id.clone());
            },
        }
        i += 1;
    }
    proof {
        assert(lv.take(list.len() as int) =~= lv);
    }
    Ok(found)
}

/// Once a prefix of the recipient list names a missing member, the whole list does.
proof fn lemma_group_targets_err_sticks(members: Seq<MemberView>, targets: Seq<RoomRecipientView>, n: int)
    requires
        0 <= n <= targets.len(),
        group_targets(members, targets.take(n)) is Err,
    ensures
        group_targets(members, targets) == group_targets(members, targets.take(n)),
    decreases targets.len() - n,
{
    if n < targets.len() {
        assert(targets.take(n + 1).drop_last() =~= targets.take(n));
        lemma_group_targets_err_sticks(members, targets, n + 1);
    } else {
        assert(targets.take(n) =~= targets);
    }
}

fn with_session(ms: &Vec<Member>) -> (r: Vec<Member>)
    ensures
        members_view(r@) == members_with_session(members_view(ms@)),
{
    let ghost mv = members_view(ms@);
    let ghost p = |m: MemberView| m.session.is_some();
    let mut out: Vec<Member> = Vec::new();
    let mut i: usize = 0;
    while i < ms.len()
        invariant
            mv == members_view(ms@),
            p == (|m: MemberView| m.session.is_some()),
            i <= ms.len(),
            members_view(out@) == mv.take(i as int).filter(p),
        decreases ms.len() - i,
    {
        proof {
            assert(mv.take(i + 1).drop_last() =~= mv.take(i as int));
            assert(mv.take(i + 1).last() == ms@[i as int]@);
            reveal_with_fuel(Seq::filter, 1);
        }
        if ms[i].session.is_some() {
            let ghost before = members_view(out@);
            out.push(ms[i].clone());
            proof {
                assert(members_view(out@) =~= before.push(ms@[i as int]@));
            }
        }
        i += 1;
    }
    proof {
        assert(mv.take(ms.len() as int) =~= mv);
    }
    out
}

fn post_targets(
    room: &Room,
    runtime: &Runtime,
    text: String,
    targets: Vec<Member>,
    single: bool,
    now: u64,
) -> (r: Result<PostPlan, ApiError>)
    ensures
        match post_with_targets(room@, runtime@.entries.len(), text@, members_view(targets@), single, now) {
            Ok(plan) => r matches Ok(p) && p@ == plan,
            Err(e) => r matches Err(x) && x@ == e,
        },
{
    if let Err(e) = runtime.check_capacity(targets.len()) {
        return Err(make_error("room_delivery_full", e));
    }
    let mut candidate = room.clone();
    let posted = if single {
        let first = if targets.len() > 0 {
            Some(targets[0].clone())
        } else {
            None
        };
        candidate.post(text, first, now)
    } else {
        let audience = with_session(&targets);
        candidate.post_to(text, audience, now)
    };
    match posted {
        Ok(sequence) => Ok(PostPlan { candidate, sequence, targets }),
        Err(e) => Err(make_error("invalid_room_post", e)),
    }
}

/// Decides a human post: which members it addresses, whether delivery
/// capacity allows it, and the candidate room to save before any delivery.
pub fn plan_room_post(room: &Room, runtime: &Runtime, members: Vec<Member>, params: RoomPostParams, now: u64) -> (r: Result<PostPlan, ApiError>)
    ensures
        match post_plan(
            room@,
            runtime@.entries.len(),
            members_view(members@),
            params.text@,
            opt_recipient_view(params.recipient),
            opt_recipients_view(params.recipients),
            now,
        ) {
            Ok(plan) => r matches Ok(p) && p@ == plan,
            Err(e) => r matches Err(x) && x@ == e,
        },
{
    let RoomPostParams { workspace_id: _, text, recipient, recipients } = params;
    if let Some(list) = recipients {
        if list.len() > 0 {
            let found = match group_members(&members, &list) {
                Ok(found) => found,
                Err(pane) => {
                    let mut message = pane;
                    push_str(&mut message, " is not a current room member");
                    return Err(make_error("invalid_recipient", message));
                },
            };
            let targets = dedup_audience(&found);
            if let Err(e) = runtime.check_capacity(targets.len()) {
                return Err(make_error("room_delivery_full", e));
            }
            let mut candidate = room.clone();
            return match candidate.post_to(text, crate::room::clone_members(&targets), now) {
                Ok(sequence) => Ok(PostPlan { candidate, sequence, targets }),
                Err(e) => Err(make_error("invalid_room_post", e)),
            };
        }
    }
    match recipient {
        Some(target) => match find_member(&members, target.pane_id.as_str(), target.terminal_id.as_str(), target.session.as_str()) {
            Some(m) => {
                let mut targets: Vec<Member> = Vec::new();
                targets.push(m);
                proof {
                    assert(members_view(targets@) =~= seq![m@]);
                }
                post_targets(room, runtime, text, targets, true, now)
            },
            None => Err(make_error("invalid_recipient", owned("not a current room member"))),
        },
        None => {
            // Match the domain's per-terminal/session audience deduplication, even
            // if malformed/aliased pane state exposes the same session twice.
            let targets = dedup_audience(&members);
            post_targets(room, runtime, text, targets, false, now)
        },
    }
}

/// Deduplicating an already deduplicated audience changes nothing.
pub proof fn lemma_dedup_idempotent(ms: Seq<MemberView>)
    ensures
        dedup_slots(dedup_slots(ms)) == dedup_slots(ms),
{
    crate::room::law_group_audience_is_deduplicated(ms);
    lemma_dedup_of_distinct(dedup_slots(ms));
}

/// A list without two entries in the same slot is its own deduplication.
proof fn lemma_dedup_of_distinct(ms: Seq<MemberView>)
    requires
        forall|i: int, j: int| 0 <= i < j < ms.len() ==> !crate::room::same_slot(#[trigger] ms[i], #[trigger] ms[j]),
    ensures
        dedup_slots(ms) == ms,
    decreases ms.len(),
{
    if ms.len() > 0 {
        let init = ms.drop_last();
        assert forall|i: int, j: int| 0 <= i < j < init.len() implies !crate::room::same_slot(#[trigger] init[i], #[trigger] init[j]) by {
            assert(init[i] == ms[i] && init[j] == ms[j]);
        }
        lemma_dedup_of_distinct(init);
        assert forall|k: int| 0 <= k < init.len() implies !crate::room::same_slot(#[trigger] init[k], ms.last()) by {
            assert(init[k] == ms[k]);
            assert(ms.last() == ms[ms.len() - 1]);
        }
        assert(init.push(ms.last()) =~= ms);
    }
}

/// No two entries of `ms` share a terminal/session slot.
pub open spec fn slots_apart(ms: Seq<MemberView>) -> bool {
    forall|i: int, j: int| 0 <= i < j < ms.len() ==> !crate::room::same_slot(#[trigger] ms[i], #[trigger] ms[j])
}

/// The members with a live session keep exactly those, and keep slots apart.
proof fn lemma_live_members(ms: Seq<MemberView>)
    ensures
        forall|k: int|
            0 <= k < members_with_session(ms).len() ==> (#[trigger] members_with_session(ms)[k]).session is Some
                && ms.contains(members_with_session(ms)[k]),
        forall|i: int| 0 <= i < ms.len() && ms[i].session is Some ==> members_with_session(ms).contains(#[trigger] ms[i]),
        slots_apart(ms) ==> slots_apart(members_with_session(ms)),
    decreases ms.len(),
{
    reveal_with_fuel(Seq::filter, 1);
    if ms.len() > 0 {
        let init = ms.drop_last();
        let x = ms.last();
        lemma_live_members(init);
        let fi = members_with_session(init);
        let f = members_with_session(ms);
        assert(f == if x.session is Some { fi.push(x) } else { fi });
        assert forall|k: int| 0 <= k < f.len() implies (#[trigger] f[k]).session is Some && ms.contains(f[k]) by {
            if k < fi.len() {
                assert(f[k] == fi[k]);
                assert(init.contains(fi[k]));
                let w = choose|w: int| 0 <= w < init.len() && init[w] == fi[k];
                assert(ms[w] == fi[k]);
            } else {
                assert(f[k] == x);
                assert(ms[ms.len() - 1] == x);
            }
        }
        assert forall|i: int| 0 <= i < ms.len() && ms[i].session is Some implies f.contains(#[trigger] ms[i]) by {
            if i < init.len() {
                assert(init[i] == ms[i]);
                assert(fi.contains(init[i]));
                let w = choose|w: int| 0 <= w < fi.len() && fi[w] == init[i];
                assert(f[w] == fi[w]);
            } else {
                assert(ms[i] == x);
                assert(f[f.len() - 1] == x);
            }
        }
        if slots_apart(ms) {
            assert forall|i: int, j: int| 0 <= i < j < init.len() implies !crate::room::same_slot(
                #[trigger] init[i],
                #[trigger] init[j],
            ) by {
                assert(init[i] == ms[i] && init[j] == ms[j]);
            }
            assert forall|i: int, j: int| 0 <= i < j < f.len() implies !crate::room::same_slot(
                #[trigger] f[i],
                #[trigger] f[j],
            ) by {
                if j < fi.len() {
                    assert(f[i] == fi[i] && f[j] == fi[j]);
                } else {
                    assert(f[j] == x);
                    assert(f[i] == fi[i]);
                    assert(init.contains(fi[i]));
                    let w = choose|w: int| 0 <= w < init.len() && init[w] == fi[i];
                    assert(ms[w] == init[w]);
                    assert(ms[ms.len() - 1] == x);
                }
            }
        }
    }
}

/// A post with no recipient and no recipient list is a question to the whole
/// room. It is accepted exactly when its deliveries fit and the text may be
/// appended; the record it adds at the end of the transcript, under the next
/// sequence, has no single recipient and is addressed to every current member
/// with a live session, once per terminal/session slot, and to no one else;
/// it expires after the request lifetime when anyone is asked.
pub proof fn law_untargeted_post_asks_every_live_member(
    room: RoomView,
    pending: nat,
    members: Seq<MemberView>,
    text: Seq<char>,
    recipients: Option<Seq<RoomRecipientView>>,
    now: u64,
)
    requires
        recipients is None || recipients->Some_0.len() == 0,
    ensures
        post_plan(room, pending, members, text, None, recipients, now) is Ok <==> (pending + dedup_slots(members).len()
            <= MAX_DELIVERIES && room.append_error(text) is None),
        post_plan(room, pending, members, text, None, recipients, now) matches Ok(plan) ==> {
            let m = plan.candidate.messages.last();
            &&& plan.candidate.messages == room.messages.push(m)
            &&& plan.sequence == room.next_sequence
            &&& m.sequence == plan.sequence
            &&& m.text == text
            &&& m.created_unix == now
            &&& m.author is None
            &&& m.reply_to is None
            &&& m.recipient is None
            &&& forall|k: int|
                0 <= k < m.recipients.len() ==> (#[trigger] m.recipients[k]).session is Some && members.contains(
                    m.recipients[k],
                )
            &&& forall|i: int|
                0 <= i < members.len() && members[i].session is Some ==> exists|k: int|
                    0 <= k < m.recipients.len() && crate::room::same_slot(
                        #[trigger] m.recipients[k],
                        #[trigger] members[i],
                    )
            &&& slots_apart(m.recipients)
            &&& m.expires_unix == if m.recipients.len() > 0 {
                Some(crate::room::request_expiry(now))
            } else {
                None
            }
        },
{
    let d = dedup_slots(members);
    let live = members_with_session(d);
    crate::room::law_group_audience_is_deduplicated(members);
    lemma_live_members(d);
    assert(!crate::room::has_sessionless(live));
    lemma_dedup_of_distinct(live);
    let r = post_plan(room, pending, members, text, None, recipients, now);
    assert(r == post_with_targets(room, pending, text, d, false, now));
    if let Ok(plan) = r {
        let m = plan.candidate.messages.last();
        assert(plan.candidate.messages == room.messages.push(m));
        assert(m.recipients == live);
        assert forall|k: int| 0 <= k < m.recipients.len() implies (#[trigger] m.recipients[k]).session is Some
            && members.contains(m.recipients[k]) by {
            assert(d.contains(live[k]));
            let w = choose|w: int| 0 <= w < d.len() && d[w] == live[k];
            assert(members.contains(d[w]));
        }
        assert forall|i: int| 0 <= i < members.len() && members[i].session is Some implies exists|k: int|
            0 <= k < m.recipients.len() && crate::room::same_slot(#[trigger] m.recipients[k], #[trigger] members[i]) by {
            let w = choose|w: int| 0 <= w < d.len() && crate::room::same_slot(#[trigger] d[w], #[trigger] members[i]);
            assert(live.contains(d[w]));
            let k = choose|k: int| 0 <= k < live.len() && live[k] == d[w];
            assert(crate::room::same_slot(m.recipients[k], members[i]));
        }
    }
}

/// After the candidate is saved: enqueue one delivery per target for the saved
/// record, using its immutable text and creation time. No delivery exists
/// until the save succeeds.
pub fn enqueue_saved_post(runtime: &mut Runtime, workspace: &str, saved: &Room, sequence: u64, targets: Vec<Member>)
    ensures
        match saved@.find(sequence) {
            None => final(runtime)@ == old(runtime)@,
            Some(k) => final(runtime)@.epoch == old(runtime)@.epoch
                && final(runtime)@.receivers == old(runtime)@.receivers
                && final(runtime)@.entries.len() == old(runtime)@.entries.len() + targets.len()
                && (forall|j: int| 0 <= j < old(runtime)@.entries.len() ==> #[trigger] final(runtime)@.entries[j]
                    == old(runtime)@.entries[j])
                && forall|j: int| 0 <= j < targets.len() ==> {
                    let e = #[trigger] final(runtime)@.entries[old(runtime)@.entries.len() + j];
                    &&& crate::token::uuid_shaped(e.delivery.delivery_id)
                    &&& e == old(runtime)@.enqueued_entry(
                        workspace@,
                        sequence,
                        saved@.messages[k].text,
                        targets@[j]@,
                        saved@.messages[k].created_unix,
                        e.delivery.delivery_id,
                    )
                },
        },
{
    let mut i: usize = 0;
    let ghost v = saved@;
    proof {
        crate::room::lemma_first_from(v.messages, sequence, 0);
    }
    while i < saved.messages.len()
        invariant
            v == saved@,
            runtime@ == old(runtime)@,
            i <= saved.messages.len(),
            crate::room::first_from(v.messages, sequence, 0) == crate::room::first_from(v.messages, sequence, i as nat),
        decreases saved.messages.len() - i,
    {
        let m = &saved.messages[i];
        proof {
            assert(v.messages[i as int] == m@);
        }
        if m.sequence == sequence {
            proof {
                assert(crate::room::first_from(v.messages, sequence, i as nat) == Some(i as int));
                assert(v.find(sequence) == Some(i as int));
            }
            runtime.enqueue_saved(workspace, sequence, m.text.as_str(), targets, m.created_unix);
            return;
        }
        i += 1;
    }
}

/// Counts of a written request's deliveries: `(queued, unavailable)`.
pub fn written_counts(deliveries: &Vec<DeliveryStatus>, sequence: u64) -> (r: (usize, usize))
    ensures
        r.0 == deliveries@.map_values(|d: DeliveryStatus| d@).filter(
            |d: DeliveryStatusView| d.request_sequence == sequence && d.status == Status::Queued,
        ).len(),
        r.1 == deliveries@.map_values(|d: DeliveryStatus| d@).filter(
            |d: DeliveryStatusView| d.request_sequence == sequence && d.status == Status::Unavailable,
        ).len(),
{
    let ghost dv = deliveries@.map_values(|d: DeliveryStatus| d@);
    let ghost pq = |d: DeliveryStatusView| d.request_sequence == sequence && d.status == Status::Queued;
    let ghost pu = |d: DeliveryStatusView| d.request_sequence == sequence && d.status == Status::Unavailable;
    let mut queued: usize = 0;
    let mut unavailable: usize = 0;
    let mut i: usize = 0;
    while i < deliveries.len()
        invariant
            dv == deliveries@.map_values(|d: DeliveryStatus| d@),
            pq == (|d: DeliveryStatusView| d.request_sequence == sequence && d.status == Status::Queued),
            pu == (|d: DeliveryStatusView| d.request_sequence == sequence && d.status == Status::Unavailable),
            i <= deliveries.len(),
            queued == dv.take(i as int).filter(pq).len(),
            unavailable == dv.take(i as int).filter(pu).len(),
            queued <= i,
            unavailable <= i,
        decreases deliveries.len() - i,
    {
        proof {
            assert(dv.take(i + 1).drop_last() =~= dv.take(i as int));
            assert(dv.take(i + 1).last() == deliveries@[i as int]@);
            reveal_with_fuel(Seq::filter, 1);
        }
        let d = &deliveries[i];
        if d.request_sequence == sequence && d.status == Status::Queued {
            queued += 1;
        }
        if d.request_sequence == sequence && d.status == Status::Unavailable {
            unavailable += 1;
        }
        i += 1;
    }
    proof {
        assert(dv.take(deliveries.len() as int) =~= dv);
    }
    (queued, unavailable)
}

/// What a reply through the API writes: the candidate room, the reply's
/// sequence and the resolved author, whose delivery is marked replied once
/// the candidate is saved.
pub struct ReplyPlan {
    pub candidate: Room,
    pub sequence: u64,
    pub member: Member,
}

/// Decides a reply: the author must currently be the exact live member named,
/// and the room must accept the reply.
pub fn plan_room_reply(room: &Room, members: &Vec<Member>, params: RoomReplyParams, now: u64) -> (r: Result<ReplyPlan, ApiError>)
    ensures
        match current_member(
            members_view(members@),
            RoomRecipientView { pane_id: params.pane_id@, terminal_id: params.terminal_id@, session: params.session@ },
        ) {
            None => r matches Err(e) && e@ == api_error(
                "invalid_recipient"@,
                "session is not currently a member of this room"@,
            ),
            Some(m) => match room@.reply_step(params.request_sequence, m, params.text@, now) {
                (after, Ok(sequence)) => r matches Ok(p) && p.candidate@ == after && p.sequence == sequence && p.member@ == m,
                (_, Err(e)) => r matches Err(x) && x@ == api_error("invalid_room_reply"@, e),
            },
        },
{
    let member = match find_member(members, params.pane_id.as_str(), params.terminal_id.as_str(), params.session.as_str()) {
        Some(m) => m,
        None => return Err(make_error("invalid_recipient", owned("session is not currently a member of this room"))),
    };
    let mut candidate = room.clone();
    match candidate.reply(params.request_sequence, member.clone(), params.text, now) {
        Ok(sequence) => Ok(ReplyPlan { candidate, sequence, member }),
        Err(e) => Err(make_error("invalid_room_reply", e)),
    }
}


/// The public room identity of a workspace: `room:` and its stable id.
pub fn room_id(workspace_id: &str) -> (r: String)
    ensures
        r@ == "room:"@ + workspace_id@,
{
    let mut r = owned("room:");
    push_str(&mut r, workspace_id);
    r
}

/// Registers the Pi receiver of an exact current member; answers its id and
/// the server epoch.
pub fn register_receiver(
    runtime: &mut Runtime,
    members: &Vec<Member>,
    params: crate::schema::RoomDeliveryRegisterParams,
    now: u64,
) -> (r: Result<(String, String), ApiError>)
    ensures
        match current_member(
            members_view(members@),
            RoomRecipientView { pane_id: params.pane_id@, terminal_id: params.terminal_id@, session: params.session@ },
        ) {
            None => final(runtime)@ == old(runtime)@ && (r matches Err(e) && e@ == api_error(
                "invalid_recipient"@,
                "not a current room member/session"@,
            )),
            Some(m) => crate::room_delivery::registered(
                old(runtime)@,
                final(runtime)@,
                params.workspace_id@,
                m,
                params.receiver_nonce@,
                now,
                match r {
                    Ok((id, _)) => Ok::<Seq<char>, Seq<char>>(id@),
                    Err(e) => Err::<Seq<char>, Seq<char>>(e@.message),
                },
            ) && match r {
                Ok((_, epoch)) => epoch@ == old(runtime)@.epoch,
                Err(e) => e@.code == "invalid_room_receiver"@,
            },
        },
{
    let member = match find_member(members, params.pane_id.as_str(), params.terminal_id.as_str(), params.session.as_str()) {
        Some(m) => m,
        None => return Err(make_error("invalid_recipient", owned("not a current room member/session"))),
    };
    match runtime.register(params.workspace_id, member, params.receiver_nonce, now) {
        Ok(id) => Ok((id, runtime.current_epoch())),
        Err(e) => Err(make_error("invalid_room_receiver", e)),
    }
}

pub open spec fn claim_answer(r: Result<Option<crate::room_delivery::Delivery>, ApiError>) -> Result<
    Option<crate::room_delivery::DeliveryView>,
    ApiErrorView,
> {
    match r {
        Ok(Some(d)) => Ok(Some(d@)),
        Ok(None) => Ok(None),
        Err(e) => Err(e@),
    }
}

/// A receiver's poll: the claimed delivery, if any, or why the receiver is refused.
pub fn claim_delivery(runtime: &mut Runtime, params: &crate::schema::RoomDeliveryClaimParams, now: u64) -> (r: Result<Option<crate::room_delivery::Delivery>, ApiError>)
    ensures
        ({
            let (after, answer) = old(runtime)@.claim_step(params.receiver_id@, params.server_epoch@, params.ready, now);
            &&& final(runtime)@ == after
            &&& match answer {
                Ok(d) => claim_answer(r) == Ok::<Option<crate::room_delivery::DeliveryView>, ApiErrorView>(d),
                Err(e) => claim_answer(r) == Err::<Option<crate::room_delivery::DeliveryView>, ApiErrorView>(api_error("invalid_room_receiver"@, e)),
            }
        }),
{
    match runtime.claim(params.receiver_id.as_str(), params.server_epoch.as_str(), params.ready, now) {
        Ok(d) => Ok(d),
        Err(e) => Err(make_error("invalid_room_receiver", e)),
    }
}

/// A receiver's report about a claimed delivery.
pub fn report_delivery(runtime: &mut Runtime, params: crate::schema::RoomDeliveryReportParams) -> (r: Result<(), ApiError>)
    ensures
        ({
            let (after, answer) = old(runtime)@.report_step(
                params.receiver_id@,
                params.server_epoch@,
                params.delivery_id@,
                params.outcome,
                params.detail.deep_view(),
            );
            &&& final(runtime)@ == after
            &&& match answer {
                Ok(()) => r is Ok,
                Err(e) => r matches Err(x) && x@ == api_error("invalid_room_delivery"@, e),
            }
        }),
{
    match runtime.report(params.receiver_id.as_str(), params.server_epoch.as_str(), params.delivery_id.as_str(), params.outcome, params.detail) {
        Ok(()) => Ok(()),
        Err(e) => Err(make_error("invalid_room_delivery", e)),
    }
}
} // verus!
