//! Volatile, at-most-once room inbox. Never reconstructed from the transcript.
//! Only a committed human post enqueues work; claims mark before returning.
use crate::room::{Member, MemberView, REQUEST_TTL_SECONDS};
use crate::text::{char_is_control, chars_of, clone_opt_string, is_cc, opt_str_eq, owned, push_char, str_eq, text_len};
use crate::token::{fresh_token, uuid_shaped};
use vstd::prelude::*;

verus! {

pub const RECEIVER_TTL: u64 = 15;

pub const MAX_RECEIVERS: usize = 1024;

pub const MAX_DELIVERIES: usize = 8192;

pub const RETENTION: u64 = 600;

pub const MAX_DETAIL: usize = 512;

/// Whole seconds since the Unix epoch from the system clock (0 if the clock is
/// before the epoch); nothing is promised of the value.
#[verifier::external_body]
pub fn now() -> u64 {
    std::time::SystemTime::now().duration_since(std::time::UNIX_EPOCH).unwrap_or_default().as_secs()
}

#[derive(Debug, Clone, Copy, PartialEq, Eq, Structural)]
pub enum Status {
    Queued,
    Claimed,
    Submitted,
    Replied,
    Unanswered,
    Failed,
    Unavailable,
    Expired,
}

pub open spec fn is_active(s: Status) -> bool {
    s == Status::Claimed || s == Status::Submitted
}

pub open spec fn is_pending(s: Status) -> bool {
    s == Status::Queued || is_active(s)
}

impl Status {
    pub fn active(self) -> (r: bool)
        ensures
            r == is_active(self),
    {
        match self {
            Status::Claimed | Status::Submitted => true,
            _ => false,
        }
    }

    pub fn pending(self) -> (r: bool)
        ensures
            r == is_pending(self),
    {
        self == Status::Queued || self.active()
    }
}

pub struct Delivery {
    pub delivery_id: String,
    pub workspace_id: String,
    pub request_sequence: u64,
    pub recipient: Member,
    pub text: String,
    pub expires_unix: u64,
}

pub struct DeliveryView {
    pub delivery_id: Seq<char>,
    pub workspace_id: Seq<char>,
    pub request_sequence: u64,
    pub recipient: MemberView,
    pub text: Seq<char>,
    pub expires_unix: u64,
}

impl View for Delivery {
    type V = DeliveryView;

    open spec fn view(&self) -> DeliveryView {
        DeliveryView {
            delivery_id: self.delivery_id@,
            workspace_id: self.workspace_id@,
            request_sequence: self.request_sequence,
            recipient: self.recipient@,
            text: self.text@,
            expires_unix: self.expires_unix,
        }
    }
}

impl Clone for Delivery {
    fn clone(&self) -> (r: Self)
        ensures
            r@ == self@,
    {
        Delivery {
            delivery_id: self.delivery_id.clone(),
            workspace_id: self.workspace_id.clone(),
            request_sequence: self.request_sequence,
            recipient: self.recipient.clone(),
            text: self.text.clone(),
            expires_unix: self.expires_unix,
        }
    }
}

pub struct DeliveryStatus {
    pub delivery_id: String,
    pub request_sequence: u64,
    pub recipient: Member,
    pub status: Status,
    pub detail: Option<String>,
}

pub struct DeliveryStatusView {
    pub delivery_id: Seq<char>,
    pub request_sequence: u64,
    pub recipient: MemberView,
    pub status: Status,
    pub detail: Option<Seq<char>>,
}

impl View for DeliveryStatus {
    type V = DeliveryStatusView;

    open spec fn view(&self) -> DeliveryStatusView {
        DeliveryStatusView {
            delivery_id: self.delivery_id@,
            request_sequence: self.request_sequence,
            recipient: self.recipient@,
            status: self.status,
            detail: self.detail.deep_view(),
        }
    }
}

pub struct ReceiverStatus {
    pub member: Member,
    pub available: bool,
    pub detail: Option<String>,
}

pub struct ReceiverStatusView {
    pub member: MemberView,
    pub available: bool,
    pub detail: Option<Seq<char>>,
}

impl View for ReceiverStatus {
    type V = ReceiverStatusView;

    open spec fn view(&self) -> ReceiverStatusView {
        ReceiverStatusView {
            member: self.member@,
            available: self.available,
            detail: self.detail.deep_view(),
        }
    }
}

#[derive(Debug, Clone, Copy, PartialEq, Eq, Structural)]
pub enum Outcome {
    Submitted,
    Unanswered,
    Failed,
}

/// The current members of one live workspace, as the caller observed them.
pub struct WorkspaceMembers {
    pub workspace_id: String,
    pub members: Vec<Member>,
}

pub struct WorkspaceMembersView {
    pub workspace_id: Seq<char>,
    pub members: Seq<MemberView>,
}

impl View for WorkspaceMembers {
    type V = WorkspaceMembersView;

    open spec fn view(&self) -> WorkspaceMembersView {
        WorkspaceMembersView {
            workspace_id: self.workspace_id@,
            members: self.members@.map_values(|m: Member| m@),
        }
    }
}

struct Receiver {
    id: String,
    workspace: String,
    member: Member,
    nonce: String,
    deadline: u64,
}

pub struct ReceiverView {
    pub id: Seq<char>,
    pub workspace: Seq<char>,
    pub member: MemberView,
    pub nonce: Seq<char>,
    pub deadline: u64,
}

impl View for Receiver {
    type V = ReceiverView;

    closed spec fn view(&self) -> ReceiverView {
        ReceiverView {
            id: self.id@,
            workspace: self.workspace@,
            member: self.member@,
            nonce: self.nonce@,
            deadline: self.deadline,
        }
    }
}

struct Entry {
    delivery: Delivery,
    receiver: Option<String>,
    status: Status,
    detail: Option<String>,
}

pub struct EntryView {
    pub delivery: DeliveryView,
    pub receiver: Option<Seq<char>>,
    pub status: Status,
    pub detail: Option<Seq<char>>,
}

impl View for Entry {
    type V = EntryView;

    closed spec fn view(&self) -> EntryView {
        EntryView {
            delivery: self.delivery@,
            receiver: self.receiver.deep_view(),
            status: self.status,
            detail: self.detail.deep_view(),
        }
    }
}

pub struct Runtime {
    pub epoch: String,
    receivers: Vec<Receiver>,
    entries: Vec<Entry>,
    issued: u64,
}

pub struct RuntimeView {
    pub epoch: Seq<char>,
    pub receivers: Seq<ReceiverView>,
    pub entries: Seq<EntryView>,
}

impl View for Runtime {
    type V = RuntimeView;

    closed spec fn view(&self) -> RuntimeView {
        RuntimeView {
            epoch: self.epoch@,
            receivers: self.receivers@.map_values(|r: Receiver| r@),
            entries: self.entries@.map_values(|e: Entry| e@),
        }
    }
}

pub open spec fn same_identity_spec(a: MemberView, b: MemberView) -> bool {
    &&& a.pane_id == b.pane_id
    &&& a.terminal_id == b.terminal_id
    &&& a.session == b.session
    &&& a.agent == b.agent
}

pub fn same_identity(a: &Member, b: &Member) -> (r: bool)
    ensures
        r == same_identity_spec(a@, b@),
{
    a.pane_id == b.pane_id && a.terminal_id == b.terminal_id && opt_str_eq(&a.session, &b.session)
        && a.agent == b.agent
}

pub open spec fn deadline_after(now: u64, ttl: u64) -> u64 {
    if now + ttl > u64::MAX {
        u64::MAX
    } else {
        (now + ttl) as u64
    }
}

/// The detail text kept for a report: control characters dropped, at most
/// `MAX_DETAIL` characters.
pub open spec fn sanitized(s: Seq<char>) -> Seq<char> {
    capped(s.filter(|c: char| !is_cc(c)), MAX_DETAIL as nat)
}

/// The first `n` items of `s`, or all of them when there are fewer.
pub open spec fn capped<T>(s: Seq<T>, n: nat) -> Seq<T> {
    if s.len() > n {
        s.take(n as int)
    } else {
        s
    }
}

pub open spec fn outcome_status(o: Outcome) -> Status {
    match o {
        Outcome::Submitted => Status::Submitted,
        Outcome::Unanswered => Status::Unanswered,
        Outcome::Failed => Status::Failed,
    }
}

pub open spec fn unit_result_view(r: Result<(), String>) -> Result<(), Seq<char>> {
    match r {
        Ok(()) => Ok(()),
        Err(e) => Err(e@),
    }
}

pub open spec fn string_result_view(r: Result<String, String>) -> Result<Seq<char>, Seq<char>> {
    match r {
        Ok(v) => Ok(v@),
        Err(e) => Err(e@),
    }
}

pub open spec fn claim_result_view(r: Result<Option<Delivery>, String>) -> Result<
    Option<DeliveryView>,
    Seq<char>,
> {
    match r {
        Ok(Some(d)) => Ok(Some(d@)),
        Ok(None) => Ok(None),
        Err(e) => Err(e@),
    }
}

/// No workspace is listed twice: the listing is keyed by workspace.
pub open spec fn distinct_workspaces(current: Seq<WorkspaceMembersView>) -> bool {
    forall|i: int, j: int|
        0 <= i < j < current.len() ==> (#[trigger] current[i]).workspace_id != (#[trigger] current[j]).workspace_id
}

/// The members listed for `workspace`, from its first listing.
pub open spec fn listed(current: Seq<WorkspaceMembersView>, workspace: Seq<char>) -> Option<
    Seq<MemberView>,
>
    decreases current.len(),
{
    if current.len() == 0 {
        None
    } else if current[0].workspace_id == workspace {
        Some(current[0].members)
    } else {
        listed(current.drop_first(), workspace)
    }
}

pub open spec fn lists_identity(members: Seq<MemberView>, member: MemberView) -> bool {
    exists|k: int| 0 <= k < members.len() && same_identity_spec(#[trigger] members[k], member)
}

impl RuntimeView {
    // -----------------------------------------------------------------------
    // Lookups
    // -----------------------------------------------------------------------
    pub open spec fn has_receiver_id(self, id: Seq<char>) -> bool {
        exists|k: int| 0 <= k < self.receivers.len() && (#[trigger] self.receivers[k]).id == id
    }

    pub open spec fn receiver_for(self, workspace: Seq<char>, member: MemberView) -> bool {
        exists|k: int|
            0 <= k < self.receivers.len() && (#[trigger] self.receivers[k]).workspace == workspace
                && same_identity_spec(self.receivers[k].member, member)
    }

    /// The first receiver registered for `member` in `workspace`.
    pub open spec fn first_receiver_for(self, workspace: Seq<char>, member: MemberView) -> Option<int> {
        first_receiver_index(self.receivers, |r: ReceiverView| r.workspace == workspace && same_identity_spec(r.member, member), 0)
    }

    /// Why `member` cannot receive deliveries in `workspace`, if it cannot.
    pub open spec fn unavailable(self, workspace: Seq<char>, member: MemberView) -> Option<Seq<char>> {
        if member.session.is_none() {
            Some("no live session identity"@)
        } else if member.agent != "pi"@ {
            Some("unsupported agent (Pi receiver only)"@)
        } else if !self.receiver_for(workspace, member) {
            Some("Pi receiver offline"@)
        } else {
            None
        }
    }

    pub open spec fn valid_receiver(self, id: Seq<char>, epoch: Seq<char>) -> bool {
        epoch == self.epoch && self.has_receiver_id(id)
    }

    pub open spec fn has_active_for(self, id: Seq<char>) -> bool {
        exists|k: int|
            0 <= k < self.entries.len() && (#[trigger] self.entries[k]).receiver == Some(id)
                && is_active(self.entries[k].status)
    }

    /// The first entry queued for receiver `id`.
    pub open spec fn first_queued_for(self, id: Seq<char>) -> Option<int> {
        first_entry_index(self.entries, |e: EntryView| e.receiver == Some(id) && e.status == Status::Queued, 0)
    }

    /// The first entry with delivery `delivery` owned by receiver `id`.
    pub open spec fn first_delivery_for(self, id: Seq<char>, delivery: Seq<char>) -> Option<int> {
        first_entry_index(self.entries, |e: EntryView| e.delivery.delivery_id == delivery && e.receiver == Some(id), 0)
    }

    /// The first receiver carrying `id`.
    pub open spec fn first_receiver_with_id(self, id: Seq<char>) -> Option<int> {
        first_receiver_index(self.receivers, |r: ReceiverView| r.id == id, 0)
    }

    // -----------------------------------------------------------------------
    // Transitions
    // -----------------------------------------------------------------------
    /// Entry statuses after a sweep whose surviving receivers are `receivers`.
    pub open spec fn swept_entry(e: EntryView, receivers: Seq<ReceiverView>, now: u64) -> EntryView {
        if !is_pending(e.status) {
            e
        } else if now >= e.delivery.expires_unix {
            EntryView {
                status: Status::Expired,
                detail: Some("request expired; never retried"@),
                ..e
            }
        } else if !(exists|k: int| 0 <= k < receivers.len() && Some((#[trigger] receivers[k]).id) == e.receiver) {
            EntryView {
                status: if e.status == Status::Queued {
                    Status::Unavailable
                } else {
                    Status::Failed
                },
                detail: Some("receiver offline or identity changed; never retried"@),
                ..e
            }
        } else {
            e
        }
    }

    pub open spec fn cleaned(self, current: Seq<WorkspaceMembersView>, now: u64) -> RuntimeView {
        let receivers = self.receivers.filter(keeps_receiver(current, now));
        RuntimeView {
            epoch: self.epoch,
            receivers,
            entries: self.entries.filter(keeps_entry(current, now)).map_values(
                |e: EntryView| Self::swept_entry(e, receivers, now),
            ),
        }
    }

    /// Receiver `k` with its deadline pushed out by a heartbeat at `now`.
    pub open spec fn refreshed(self, k: int, now: u64) -> RuntimeView {
        RuntimeView {
            receivers: self.receivers.update(
                k,
                ReceiverView { deadline: deadline_after(now, RECEIVER_TTL), ..self.receivers[k] },
            ),
            ..self
        }
    }

    /// The runtime with one more receiver registered.
    pub open spec fn with_receiver(self, r: ReceiverView) -> RuntimeView {
        RuntimeView { receivers: self.receivers.push(r), ..self }
    }

    /// Entry `k` with a new status and detail.
    pub open spec fn marked(self, k: int, status: Status, detail: Option<Seq<char>>) -> RuntimeView {
        RuntimeView {
            entries: self.entries.update(k, EntryView { status, detail, ..self.entries[k] }),
            ..self
        }
    }

    /// Ids of the receivers that a new registration of `member` in `workspace` replaces.
    pub open spec fn replaced_ids(self, workspace: Seq<char>, member: MemberView) -> Seq<Seq<char>> {
        self.receivers.filter(|r: ReceiverView| r.workspace == workspace && same_identity_spec(r.member, member)).map_values(
            |r: ReceiverView| r.id,
        )
    }

    /// The runtime once the receivers in `ids` are dropped and their pending work
    /// is closed without retry.
    pub open spec fn without_receivers(self, ids: Seq<Seq<char>>) -> RuntimeView {
        RuntimeView {
            epoch: self.epoch,
            receivers: self.receivers.filter(|r: ReceiverView| !ids.contains(r.id)),
            entries: self.entries.map_values(|e: EntryView| Self::orphaned_entry(e, ids)),
        }
    }

    pub open spec fn orphaned_entry(e: EntryView, ids: Seq<Seq<char>>) -> EntryView {
        if is_pending(e.status) && e.receiver.is_some() && ids.contains(e.receiver.unwrap()) {
            EntryView {
                status: if e.status == Status::Queued {
                    Status::Unavailable
                } else {
                    Status::Failed
                },
                detail: Some("receiver replaced; never retried"@),
                ..e
            }
        } else {
            e
        }
    }

    /// The first receiver for `member` in `workspace` registered with `nonce`.
    pub open spec fn same_registration(self, workspace: Seq<char>, member: MemberView, nonce: Seq<char>) -> Option<int> {
        first_receiver_index(
            self.receivers,
            |r: ReceiverView| r.workspace == workspace && same_identity_spec(r.member, member) && r.nonce == nonce,
            0,
        )
    }

    /// The entry queued for `recipient` of request `sequence`; its id is supplied.
    pub open spec fn enqueued_entry(
        self,
        workspace: Seq<char>,
        sequence: u64,
        text: Seq<char>,
        recipient: MemberView,
        now: u64,
        delivery_id: Seq<char>,
    ) -> EntryView {
        let detail = self.unavailable(workspace, recipient);
        EntryView {
            delivery: DeliveryView {
                delivery_id,
                workspace_id: workspace,
                request_sequence: sequence,
                recipient,
                text,
                expires_unix: deadline_after(now, REQUEST_TTL_SECONDS),
            },
            receiver: match self.first_receiver_for(workspace, recipient) {
                Some(k) => Some(self.receivers[k].id),
                None => None,
            },
            status: if detail.is_none() {
                Status::Queued
            } else {
                Status::Unavailable
            },
            detail,
        }
    }

    /// Whether entry `e` answers to a persisted reply of `member` to `sequence`.
    pub open spec fn answered_by(e: EntryView, workspace: Seq<char>, sequence: u64, member: MemberView) -> bool {
        e.delivery.workspace_id == workspace && e.delivery.request_sequence == sequence
            && e.delivery.recipient.terminal_id == member.terminal_id
            && e.delivery.recipient.session == member.session
    }

    /// The state and answer of a claim by receiver `id`.
    pub open spec fn claim_step(self, id: Seq<char>, epoch: Seq<char>, ready: bool, now: u64) -> (
        RuntimeView,
        Result<Option<DeliveryView>, Seq<char>>,
    ) {
        if !self.valid_receiver(id, epoch) {
            (self, Err("invalid or expired room receiver; register current session"@))
        } else {
            let beat = self.refreshed(self.first_receiver_with_id(id).unwrap(), now);
            if !ready || self.has_active_for(id) {
                (beat, Ok(None))
            } else {
                match self.first_queued_for(id) {
                    Some(k) => (beat.marked(k, Status::Claimed, self.entries[k].detail), Ok(Some(self.entries[k].delivery))),
                    None => (beat, Ok(None)),
                }
            }
        }
    }

    /// The state and answer of a report by receiver `id` about `delivery`.
    pub open spec fn report_step(
        self,
        id: Seq<char>,
        epoch: Seq<char>,
        delivery: Seq<char>,
        outcome: Outcome,
        detail: Option<Seq<char>>,
    ) -> (RuntimeView, Result<(), Seq<char>>) {
        if !self.valid_receiver(id, epoch) {
            (self, Err("invalid or expired room receiver; register current session"@))
        } else {
            match self.first_delivery_for(id, delivery) {
                None => (self, Err("unknown delivery for this receiver"@)),
                Some(k) => if self.entries[k].status == Status::Queued {
                    (self, Err("delivery has not been claimed"@))
                } else if is_active(self.entries[k].status) {
                    (self.marked(k, outcome_status(outcome), sanitized_opt(detail)), Ok(()))
                } else {
                    // Terminal outcomes are idempotent and cannot resurrect an entry.
                    (self, Ok(()))
                },
            }
        }
    }

    /// What a status query reports for `member` in `workspace`.
    pub open spec fn receiver_status(self, workspace: Seq<char>, member: MemberView) -> ReceiverStatusView {
        ReceiverStatusView {
            member,
            available: self.unavailable(workspace, member).is_none(),
            detail: self.unavailable(workspace, member),
        }
    }

    /// The entry once a persisted reply has answered it.
    pub open spec fn replied_entry(e: EntryView) -> EntryView {
        EntryView { status: Status::Replied, detail: None, ..e }
    }

    pub open spec fn status_of(e: EntryView) -> DeliveryStatusView {
        DeliveryStatusView {
            delivery_id: e.delivery.delivery_id,
            request_sequence: e.delivery.request_sequence,
            recipient: e.delivery.recipient,
            status: e.status,
            detail: e.detail,
        }
    }
}

pub open spec fn keeps_receiver(current: Seq<WorkspaceMembersView>, now: u64) -> spec_fn(ReceiverView) -> bool {
    |r: ReceiverView|
        r.deadline > now && match listed(current, r.workspace) {
            Some(ms) => lists_identity(ms, r.member),
            None => false,
        }
}

pub open spec fn keeps_entry(current: Seq<WorkspaceMembersView>, now: u64) -> spec_fn(EntryView) -> bool {
    |e: EntryView|
        listed(current, e.delivery.workspace_id).is_some() && now < deadline_after(
            e.delivery.expires_unix,
            RETENTION,
        )
}

pub open spec fn first_receiver_index(rs: Seq<ReceiverView>, p: spec_fn(ReceiverView) -> bool, i: nat) -> Option<int>
    decreases rs.len() - i,
{
    if i >= rs.len() {
        None
    } else if p(rs[i as int]) {
        Some(i as int)
    } else {
        first_receiver_index(rs, p, i + 1)
    }
}

pub open spec fn first_entry_index(es: Seq<EntryView>, p: spec_fn(EntryView) -> bool, i: nat) -> Option<int>
    decreases es.len() - i,
{
    if i >= es.len() {
        None
    } else if p(es[i as int]) {
        Some(i as int)
    } else {
        first_entry_index(es, p, i + 1)
    }
}

pub proof fn lemma_first_receiver_index(rs: Seq<ReceiverView>, p: spec_fn(ReceiverView) -> bool, i: nat)
    ensures
        match first_receiver_index(rs, p, i) {
            Some(c) => i <= c < rs.len() && p(rs[c]) && forall|j: int| i <= j < c ==> !p(#[trigger] rs[j]),
            None => forall|j: int| i <= j < rs.len() ==> !p(#[trigger] rs[j]),
        },
    decreases rs.len() - i,
{
    if i < rs.len() && !p(rs[i as int]) {
        lemma_first_receiver_index(rs, p, i + 1);
    }
}

pub proof fn lemma_first_entry_index(es: Seq<EntryView>, p: spec_fn(EntryView) -> bool, i: nat)
    ensures
        match first_entry_index(es, p, i) {
            Some(c) => i <= c < es.len() && p(es[c]) && forall|j: int| i <= j < c ==> !p(#[trigger] es[j]),
            None => forall|j: int| i <= j < es.len() ==> !p(#[trigger] es[j]),
        },
    decreases es.len() - i,
{
    if i < es.len() && !p(es[i as int]) {
        lemma_first_entry_index(es, p, i + 1);
    }
}

fn err_text(s: &str) -> (r: String)
    ensures
        r@ == s@,
{
    owned(s)
}

fn sanitize_detail(s: &String) -> (r: String)
    ensures
        r@ == sanitized(s@),
{
    let cs = chars_of(s.as_str());
    let mut out = String::new();
    let mut kept: usize = 0;
    let mut i: usize = 0;
    let ghost pred = |c: char| !is_cc(c);
    while i < cs.len()
        invariant
            cs@ == s@,
            pred == (|c: char| !is_cc(c)),
            i <= cs.len(),
            kept <= MAX_DETAIL,
            kept == out@.len(),
            out@ == capped(s@.take(i as int).filter(pred), MAX_DETAIL as nat),
        decreases cs.len() - i,
    {
        proof {
            assert(s@.take(i + 1).drop_last() =~= s@.take(i as int));
            reveal_with_fuel(Seq::filter, 1);
        }
        let c = cs[i];
        proof {
            assert(s@.take(i + 1).last() == c);
            assert(s@.take(i + 1).len() > 0);
        }
        let ghost out_before = out@;
        if !char_is_control(c) && kept < MAX_DETAIL {
            push_char(&mut out, c);
            kept += 1;
        }
        proof {
            let before = s@.take(i as int).filter(pred);
            let after = s@.take(i + 1).filter(pred);
            assert(pred(c) == !is_cc(c));
            if !is_cc(c) {
                assert(after == before.push(c));
                if before.len() >= MAX_DETAIL {
                    assert(out@ == out_before);
                    assert(capped(after, MAX_DETAIL as nat) =~= capped(before, MAX_DETAIL as nat));
                } else {
                    assert(out_before == before);
                    assert(out@ == before.push(c));
                    assert(capped(after, MAX_DETAIL as nat) =~= before.push(c));
                }
            } else {
                assert(out@ == out_before);
                assert(after == before);
            }
        }
        i += 1;
    }
    proof {
        assert(s@.take(cs.len() as int) =~= s@);
    }
    out
}

impl Default for Runtime {
    fn default() -> (r: Self)
        ensures
            r@.receivers.len() == 0,
            r@.entries.len() == 0,
            uuid_shaped(r@.epoch),
    {
        let epoch = fresh_token(0);
        let r = Runtime { epoch, receivers: Vec::new(), entries: Vec::new(), issued: 1 };
        proof {
            assert(r@.receivers =~= Seq::<ReceiverView>::empty());
            assert(r@.entries =~= Seq::<EntryView>::empty());
        }
        r
    }
}


impl Clone for Receiver {
    fn clone(&self) -> (r: Self)
        ensures
            r@ == self@,
    {
        Receiver {
            id: self.id.clone(),
            workspace: self.workspace.clone(),
            member: self.member.clone(),
            nonce: self.nonce.clone(),
            deadline: self.deadline,
        }
    }
}

impl Clone for Entry {
    fn clone(&self) -> (r: Self)
        ensures
            r@ == self@,
    {
        Entry {
            delivery: self.delivery.clone(),
            receiver: clone_opt_string(&self.receiver),
            status: self.status,
            detail: clone_opt_string(&self.detail),
        }
    }
}

fn opt_is(o: &Option<String>, id: &str) -> (r: bool)
    ensures
        r == (o.deep_view() == Some(id@)),
{
    match o {
        Some(x) => str_eq(x.as_str(), id),
        None => false,
    }
}

/// The index of the first listing of `workspace`.
fn listed_index(current: &Vec<WorkspaceMembers>, workspace: &str) -> (r: Option<usize>)
    ensures
        match listed(current@.map_values(|w: WorkspaceMembers| w@), workspace@) {
            Some(ms) => r matches Some(k) && k < current.len() && current@[k as int]@.members == ms,
            None => r.is_none(),
        },
{
    let ghost cur = current@.map_values(|w: WorkspaceMembers| w@);
    let mut i: usize = 0;
    proof {
        assert(cur.skip(0) =~= cur);
    }
    while i < current.len()
        invariant
            cur == current@.map_values(|w: WorkspaceMembers| w@),
            i <= current.len(),
            listed(cur, workspace@) == listed(cur.skip(i as int), workspace@),
        decreases current.len() - i,
    {
        proof {
            assert(cur.skip(i as int)[0] == current@[i as int]@);
            assert(cur.skip(i as int).drop_first() =~= cur.skip(i + 1));
        }
        if str_eq(current[i].workspace_id.as_str(), workspace) {
            return Some(i);
        }
        i += 1;
    }
    proof {
        assert(cur.skip(i as int).len() == 0);
    }
    None
}

fn lists_identity_exec(members: &Vec<Member>, member: &Member) -> (r: bool)
    ensures
        r == lists_identity(members@.map_values(|m: Member| m@), member@),
{
    let ghost ms = members@.map_values(|m: Member| m@);
    let mut k: usize = 0;
    while k < members.len()
        invariant
            ms == members@.map_values(|m: Member| m@),
            k <= members.len(),
            forall|j: int| 0 <= j < k ==> !same_identity_spec(#[trigger] ms[j], member@),
        decreases members.len() - k,
    {
        proof {
            assert(ms[k as int] == members@[k as int]@);
        }
        if same_identity(&members[k], member) {
            return true;
        }
        k += 1;
    }
    false
}

fn deadline(now: u64, ttl: u64) -> (r: u64)
    ensures
        r == deadline_after(now, ttl),
{
    now.saturating_add(ttl)
}

impl Runtime {
    proof fn lemma_view(&self)
        ensures
            self@.receivers.len() == self.receivers.len(),
            self@.entries.len() == self.entries.len(),
            forall|k: int| 0 <= k < self.receivers.len() ==> #[trigger] self@.receivers[k] == self.receivers@[k]@,
            forall|k: int| 0 <= k < self.entries.len() ==> #[trigger] self@.entries[k] == self.entries@[k]@,
            self@.epoch == self.epoch@,
    {
    }

    fn receiver_with_id(&self, id: &str) -> (r: Option<usize>)
        ensures
            match self@.first_receiver_with_id(id@) {
                Some(k) => r == Some(k as usize),
                None => r.is_none(),
            },
            r matches Some(k) ==> k < self.receivers.len(),
            r.is_some() == self@.has_receiver_id(id@),
    {
        proof {
            self.lemma_view();
            lemma_first_receiver_index(self@.receivers, |r: ReceiverView| r.id == id@, 0);
        }
        let mut i: usize = 0;
        while i < self.receivers.len()
            invariant
                i <= self.receivers.len(),
                self@.receivers.len() == self.receivers.len(),
                forall|k: int| 0 <= k < self.receivers.len() ==> #[trigger] self@.receivers[k] == self.receivers@[k]@,
                first_receiver_index(self@.receivers, |r: ReceiverView| r.id == id@, 0)
                    == first_receiver_index(self@.receivers, |r: ReceiverView| r.id == id@, i as nat),
                forall|j: int| 0 <= j < i ==> (#[trigger] self@.receivers[j]).id != id@,
            decreases self.receivers.len() - i,
        {
            if str_eq(self.receivers[i].id.as_str(), id) {
                return Some(i);
            }
            i += 1;
        }
        None
    }

    fn receiver_for(&self, workspace: &str, member: &Member) -> (r: Option<usize>)
        ensures
            match self@.first_receiver_for(workspace@, member@) {
                Some(k) => r == Some(k as usize),
                None => r.is_none(),
            },
            r matches Some(k) ==> k < self.receivers.len(),
            r.is_some() == self@.receiver_for(workspace@, member@),
    {
        proof {
            self.lemma_view();
        }
        let ghost p = |r: ReceiverView| r.workspace == workspace@ && same_identity_spec(r.member, member@);
        let mut i: usize = 0;
        while i < self.receivers.len()
            invariant
                p == (|r: ReceiverView| r.workspace == workspace@ && same_identity_spec(r.member, member@)),
                i <= self.receivers.len(),
                self@.receivers.len() == self.receivers.len(),
                forall|k: int| 0 <= k < self.receivers.len() ==> #[trigger] self@.receivers[k] == self.receivers@[k]@,
                first_receiver_index(self@.receivers, p, 0) == first_receiver_index(self@.receivers, p, i as nat),
                forall|j: int| 0 <= j < i ==> !p(#[trigger] self@.receivers[j]),
            decreases self.receivers.len() - i,
        {
            let r = &self.receivers[i];
            if str_eq(r.workspace.as_str(), workspace) && same_identity(&r.member, member) {
                return Some(i);
            }
            i += 1;
        }
        None
    }

    pub fn check_capacity(&self, targets: usize) -> (r: Result<(), String>)
        ensures
            r is Err <==> self@.entries.len() + targets > MAX_DELIVERIES,
            r matches Err(e) ==> e@ == "room delivery history limit reached; entries are retained up to 20 minutes after posting, including completed deliveries"@,
    {
        proof {
            self.lemma_view();
        }
        if self.entries.len().saturating_add(targets) > MAX_DELIVERIES {
            Err(err_text("room delivery history limit reached; entries are retained up to 20 minutes after posting, including completed deliveries"))
        } else {
            Ok(())
        }
    }

    fn unavailable_reason(&self, workspace: &str, member: &Member) -> (r: Option<String>)
        ensures
            r.deep_view() == self@.unavailable(workspace@, member@),
    {
        if member.session.is_none() {
            Some(err_text("no live session identity"))
        } else if !str_eq(member.agent.as_str(), "pi") {
            Some(err_text("unsupported agent (Pi receiver only)"))
        } else if self.receiver_for(workspace, member).is_none() {
            Some(err_text("Pi receiver offline"))
        } else {
            None
        }
    }

    fn validate(&self, id: &str, epoch: &str) -> (r: Result<(), String>)
        ensures
            r is Ok <==> self@.valid_receiver(id@, epoch@),
            r matches Err(e) ==> e@ == "invalid or expired room receiver; register current session"@,
    {
        proof {
            self.lemma_view();
        }
        if !str_eq(epoch, self.epoch.as_str()) || self.receiver_with_id(id).is_none() {
            Err(err_text("invalid or expired room receiver; register current session"))
        } else {
            Ok(())
        }
    }

    /// The server epoch that receivers must quote.
    pub fn current_epoch(&self) -> (r: String)
        ensures
            r@ == self@.epoch,
    {
        self.epoch.clone()
    }

    /// How many delivery records (queued, active or retained status) are held.
    pub fn entry_count(&self) -> (r: usize)
        ensures
            r == self@.entries.len(),
    {
        self.entries.len()
    }

    /// How many registered receivers are held.
    pub fn receiver_count(&self) -> (r: usize)
        ensures
            r == self@.receivers.len(),
    {
        self.receivers.len()
    }

    fn next_token(&mut self) -> (r: String)
        ensures
            uuid_shaped(r@),
            final(self)@ == old(self)@,
    {
        let token = fresh_token(self.issued);
        self.issued = self.issued.wrapping_add(1);
        token
    }
}

spec fn receivers_view(v: Seq<Receiver>) -> Seq<ReceiverView> {
    v.map_values(|r: Receiver| r@)
}

spec fn entries_view(v: Seq<Entry>) -> Seq<EntryView> {
    v.map_values(|e: Entry| e@)
}

fn holds_receiver(receivers: &Vec<Receiver>, id: &Option<String>) -> (r: bool)
    ensures
        r == exists|k: int|
            0 <= k < receivers.len() && Some((#[trigger] receivers_view(receivers@)[k]).id) == id.deep_view(),
{
    let ghost rv = receivers_view(receivers@);
    let mut k: usize = 0;
    while k < receivers.len()
        invariant
            rv == receivers_view(receivers@),
            k <= receivers.len(),
            forall|j: int| 0 <= j < k ==> Some((#[trigger] rv[j]).id) != id.deep_view(),
        decreases receivers.len() - k,
    {
        proof {
            assert(rv[k as int] == receivers@[k as int]@);
        }
        let matched = match id {
            Some(x) => str_eq(receivers[k].id.as_str(), x.as_str()),
            None => false,
        };
        if matched {
            return true;
        }
        k += 1;
    }
    false
}

fn swept(e: &Entry, receivers: &Vec<Receiver>, now: u64) -> (r: Entry)
    ensures
        r@ == RuntimeView::swept_entry(e@, receivers_view(receivers@), now),
{
    let mut out = e.clone();
    if !e.status.pending() {
        return out;
    }
    if now >= e.delivery.expires_unix {
        out.status = Status::Expired;
        out.detail = Some(err_text("request expired; never retried"));
    } else if !holds_receiver(receivers, &e.receiver) {
        out.status = if e.status == Status::Queued {
            Status::Unavailable
        } else {
            Status::Failed
        };
        out.detail = Some(err_text("receiver offline or identity changed; never retried"));
    }
    out
}

impl Runtime {
    /// Sweep only on API/presentation refresh, never in per-pane render paths.
    pub fn cleanup(&mut self, current: &Vec<WorkspaceMembers>, now: u64)
        requires
            distinct_workspaces(current@.map_values(|w: WorkspaceMembers| w@)),
        ensures
            final(self)@ == old(self)@.cleaned(current@.map_values(|w: WorkspaceMembers| w@), now),
    {
        let ghost cur = current@.map_values(|w: WorkspaceMembers| w@);
        let ghost old_v = self@;
        let ghost kr = keeps_receiver(cur, now);
        let ghost ke = keeps_entry(cur, now);
        proof {
            self.lemma_view();
        }
        let mut kept: Vec<Receiver> = Vec::new();
        let mut i: usize = 0;
        while i < self.receivers.len()
            invariant
                old_v == self@,
                cur == current@.map_values(|w: WorkspaceMembers| w@),
                kr == keeps_receiver(cur, now),
                i <= self.receivers.len(),
                self@.receivers.len() == self.receivers.len(),
                forall|k: int| 0 <= k < self.receivers.len() ==> #[trigger] self@.receivers[k] == self.receivers@[k]@,
                receivers_view(kept@) == old_v.receivers.take(i as int).filter(kr),
            decreases self.receivers.len() - i,
        {
            let r = &self.receivers[i];
            let keep = r.deadline > now && match listed_index(current, r.workspace.as_str()) {
                Some(k) => lists_identity_exec(&current[k].members, &r.member),
                None => false,
            };
            proof {
                assert(old_v.receivers.take(i + 1).drop_last() =~= old_v.receivers.take(i as int));
                assert(old_v.receivers.take(i + 1).last() == r@);
                reveal_with_fuel(Seq::filter, 1);
                assert(keep == kr(r@));
            }
            if keep {
                kept.push(r.clone());
                proof {
                    assert(receivers_view(kept@) =~= old_v.receivers.take(i as int).filter(kr).push(r@));
                }
            }
            i += 1;
        }
        proof {
            assert(old_v.receivers.take(self.receivers.len() as int) =~= old_v.receivers);
        }
        let mut entries: Vec<Entry> = Vec::new();
        let mut i: usize = 0;
        while i < self.entries.len()
            invariant
                old_v == self@,
                cur == current@.map_values(|w: WorkspaceMembers| w@),
                ke == keeps_entry(cur, now),
                i <= self.entries.len(),
                self@.entries.len() == self.entries.len(),
                forall|k: int| 0 <= k < self.entries.len() ==> #[trigger] self@.entries[k] == self.entries@[k]@,
                entries_view(entries@) == old_v.entries.take(i as int).filter(ke),
            decreases self.entries.len() - i,
        {
            let e = &self.entries[i];
            let keep = listed_index(current, e.delivery.workspace_id.as_str()).is_some()
                && now < deadline(e.delivery.expires_unix, RETENTION);
            proof {
                assert(old_v.entries.take(i + 1).drop_last() =~= old_v.entries.take(i as int));
                assert(old_v.entries.take(i + 1).last() == e@);
                reveal_with_fuel(Seq::filter, 1);
                assert(keep == ke(e@));
            }
            if keep {
                entries.push(e.clone());
                proof {
                    assert(entries_view(entries@) =~= old_v.entries.take(i as int).filter(ke).push(e@));
                }
            }
            i += 1;
        }
        proof {
            assert(old_v.entries.take(self.entries.len() as int) =~= old_v.entries);
        }
        let ghost kept_v = receivers_view(kept@);
        let mut out: Vec<Entry> = Vec::new();
        let mut i: usize = 0;
        while i < entries.len()
            invariant
                i <= entries.len(),
                kept_v == receivers_view(kept@),
                out@.len() == i,
                forall|k: int|
                    0 <= k < i ==> (#[trigger] out@[k])@ == RuntimeView::swept_entry(
                        entries@[k]@,
                        kept_v,
                        now,
                    ),
            decreases entries.len() - i,
        {
            out.push(swept(&entries[i], &kept, now));
            i += 1;
        }
        self.receivers = kept;
        self.entries = out;
        proof {
            let filtered = old_v.entries.filter(ke);
            assert(entries_view(entries@) == filtered);
            assert(self@.receivers == old_v.receivers.filter(kr));
            assert(self@.entries =~= filtered.map_values(|e: EntryView| RuntimeView::swept_entry(e, kept_v, now))) by {
                assert forall|k: int| 0 <= k < filtered.len() implies self@.entries[k] == RuntimeView::swept_entry(filtered[k], kept_v, now) by {
                    assert(filtered[k] == entries@[k]@);
                }
            }
        }
    }
}

/// Why a receiver registration is refused before any state is consulted.
pub open spec fn registration_error(member: MemberView, nonce: Seq<char>) -> Option<Seq<char>> {
    if member.session.is_none() || member.agent != "pi"@ {
        Some("only live Pi sessions support room delivery"@)
    } else if byte_len_spec(nonce) == 0 || byte_len_spec(nonce) > 256 {
        Some("receiver_nonce must contain 1..=256 bytes"@)
    } else {
        None
    }
}

/// The relation between the runtime before and after a registration of
/// `member`'s receiver with `nonce`, and the answer given.
pub open spec fn registered(
    old: RuntimeView,
    new: RuntimeView,
    workspace: Seq<char>,
    member: MemberView,
    nonce: Seq<char>,
    now: u64,
    r: Result<Seq<char>, Seq<char>>,
) -> bool {
    &&& new.epoch == old.epoch
    &&& match registration_error(member, nonce) {
        Some(e) => r == Err::<Seq<char>, Seq<char>>(e) && new == old,
        None => match old.same_registration(workspace, member, nonce) {
            Some(k) => r == Ok::<Seq<char>, Seq<char>>(old.receivers[k].id) && new == old.refreshed(k, now),
            None => {
                let mid = old.without_receivers(old.replaced_ids(workspace, member));
                if mid.receivers.len() >= MAX_RECEIVERS {
                    r == Err::<Seq<char>, Seq<char>>("room receiver limit reached"@) && new == mid
                } else {
                    &&& r is Ok
                    &&& uuid_shaped(r->Ok_0)
                    &&& new == mid.with_receiver(
                        ReceiverView {
                            id: r->Ok_0,
                            workspace,
                            member,
                            nonce,
                            deadline: deadline_after(now, RECEIVER_TTL),
                        },
                    )
                }
            },
        },
    }
}

pub open spec fn byte_len_spec(s: Seq<char>) -> nat {
    crate::text::byte_len(s)
}

fn orphan(e: &Entry, ids: &Vec<String>) -> (r: Entry)
    ensures
        r@ == RuntimeView::orphaned_entry(e@, ids@.map_values(|s: String| s@)),
{
    let ghost iv = ids@.map_values(|s: String| s@);
    let mut out = e.clone();
    if e.status.pending() {
        if let Some(id) = &e.receiver {
            let mut k: usize = 0;
            let mut found = false;
            while k < ids.len()
                invariant
                    iv == ids@.map_values(|s: String| s@),
                    k <= ids.len(),
                    found == exists|j: int| 0 <= j < k && iv[j] == id@,
                decreases ids.len() - k,
            {
                proof {
                    assert(iv[k as int] == ids@[k as int]@);
                }
                if ids[k] == *id {
                    found = true;
                }
                k += 1;
            }
            if found {
                out.status = if e.status == Status::Queued {
                    Status::Unavailable
                } else {
                    Status::Failed
                };
                out.detail = Some(err_text("receiver replaced; never retried"));
            }
        }
    }
    out
}

impl Runtime {
    fn same_registration_index(&self, workspace: &str, member: &Member, nonce: &str) -> (r: Option<usize>)
        ensures
            match self@.same_registration(workspace@, member@, nonce@) {
                Some(k) => r == Some(k as usize),
                None => r.is_none(),
            },
            r matches Some(k) ==> k < self.receivers.len(),
    {
        proof {
            self.lemma_view();
        }
        let ghost p = |r: ReceiverView| r.workspace == workspace@ && same_identity_spec(r.member, member@) && r.nonce == nonce@;
        let mut i: usize = 0;
        while i < self.receivers.len()
            invariant
                p == (|r: ReceiverView| r.workspace == workspace@ && same_identity_spec(r.member, member@) && r.nonce == nonce@),
                i <= self.receivers.len(),
                self@.receivers.len() == self.receivers.len(),
                forall|k: int| 0 <= k < self.receivers.len() ==> #[trigger] self@.receivers[k] == self.receivers@[k]@,
                first_receiver_index(self@.receivers, p, 0) == first_receiver_index(self@.receivers, p, i as nat),
            decreases self.receivers.len() - i,
        {
            let r = &self.receivers[i];
            if str_eq(r.workspace.as_str(), workspace) && same_identity(&r.member, member) && str_eq(r.nonce.as_str(), nonce) {
                return Some(i);
            }
            i += 1;
        }
        None
    }

    /// Drops every receiver of `member` in `workspace`, closing its pending work.
    fn replace_receivers(&mut self, workspace: &str, member: &Member)
        ensures
            final(self)@ == old(self)@.without_receivers(old(self)@.replaced_ids(workspace@, member@)),
    {
        let ghost old_v = self@;
        let ghost p = |r: ReceiverView| r.workspace == workspace@ && same_identity_spec(r.member, member@);
        proof {
            self.lemma_view();
        }
        let mut ids: Vec<String> = Vec::new();
        let mut i: usize = 0;
        while i < self.receivers.len()
            invariant
                old_v == self@,
                p == (|r: ReceiverView| r.workspace == workspace@ && same_identity_spec(r.member, member@)),
                i <= self.receivers.len(),
                self@.receivers.len() == self.receivers.len(),
                forall|k: int| 0 <= k < self.receivers.len() ==> #[trigger] self@.receivers[k] == self.receivers@[k]@,
                ids@.map_values(|s: String| s@) == old_v.receivers.take(i as int).filter(p).map_values(|r: ReceiverView| r.id),
            decreases self.receivers.len() - i,
        {
            let r = &self.receivers[i];
            let hit = str_eq(r.workspace.as_str(), workspace) && same_identity(&r.member, member);
            proof {
                assert(old_v.receivers.take(i + 1).drop_last() =~= old_v.receivers.take(i as int));
                assert(old_v.receivers.take(i + 1).last() == r@);
                reveal_with_fuel(Seq::filter, 1);
                assert(hit == p(r@));
            }
            if hit {
                ids.push(r.id.clone());
                proof {
                    assert(ids@.map_values(|s: String| s@) =~= old_v.receivers.take(i as int).filter(p).map_values(|r: ReceiverView| r.id).push(r@.id));
                }
            }
            i += 1;
        }
        proof {
            assert(old_v.receivers.take(self.receivers.len() as int) =~= old_v.receivers);
        }
        let ghost iv = ids@.map_values(|s: String| s@);
        let ghost q = |r: ReceiverView| !iv.contains(r.id);
        let mut kept: Vec<Receiver> = Vec::new();
        let mut i: usize = 0;
        while i < self.receivers.len()
            invariant
                old_v == self@,
                iv == ids@.map_values(|s: String| s@),
                q == (|r: ReceiverView| !iv.contains(r.id)),
                i <= self.receivers.len(),
                self@.receivers.len() == self.receivers.len(),
                forall|k: int| 0 <= k < self.receivers.len() ==> #[trigger] self@.receivers[k] == self.receivers@[k]@,
                receivers_view(kept@) == old_v.receivers.take(i as int).filter(q),
            decreases self.receivers.len() - i,
        {
            let r = &self.receivers[i];
            let mut k: usize = 0;
            let mut listed_id = false;
            while k < ids.len()
                invariant
                    iv == ids@.map_values(|s: String| s@),
                    k <= ids.len(),
                    listed_id == exists|j: int| 0 <= j < k && iv[j] == r@.id,
                decreases ids.len() - k,
            {
                proof {
                    assert(iv[k as int] == ids@[k as int]@);
                }
                if ids[k] == r.id {
                    listed_id = true;
                }
                k += 1;
            }
            proof {
                assert(old_v.receivers.take(i + 1).drop_last() =~= old_v.receivers.take(i as int));
                assert(old_v.receivers.take(i + 1).last() == r@);
                reveal_with_fuel(Seq::filter, 1);
                assert(listed_id == iv.contains(r@.id));
            }
            if !listed_id {
                kept.push(r.clone());
                proof {
                    assert(receivers_view(kept@) =~= old_v.receivers.take(i as int).filter(q).push(r@));
                }
            }
            i += 1;
        }
        proof {
            assert(old_v.receivers.take(self.receivers.len() as int) =~= old_v.receivers);
        }
        let mut out: Vec<Entry> = Vec::new();
        let mut i: usize = 0;
        while i < self.entries.len()
            invariant
                old_v == self@,
                iv == ids@.map_values(|s: String| s@),
                i <= self.entries.len(),
                self@.entries.len() == self.entries.len(),
                forall|k: int| 0 <= k < self.entries.len() ==> #[trigger] self@.entries[k] == self.entries@[k]@,
                out@.len() == i,
                forall|k: int| 0 <= k < i ==> (#[trigger] out@[k])@ == RuntimeView::orphaned_entry(old_v.entries[k], iv),
            decreases self.entries.len() - i,
        {
            out.push(orphan(&self.entries[i], &ids));
            i += 1;
        }
        self.receivers = kept;
        self.entries = out;
        proof {
            assert(self@.entries =~= old_v.entries.map_values(|e: EntryView| RuntimeView::orphaned_entry(e, iv)));
        }
    }

    pub fn register(&mut self, workspace: String, member: Member, nonce: String, now: u64) -> (r: Result<String, String>)
        ensures
            registered(old(self)@, final(self)@, workspace@, member@, nonce@, now, string_result_view(r)),
    {
        if member.session.is_none() || !str_eq(member.agent.as_str(), "pi") {
            return Err(err_text("only live Pi sessions support room delivery"));
        }
        let n = text_len(nonce.as_str());
        if n == 0 || n > 256 {
            return Err(err_text("receiver_nonce must contain 1..=256 bytes"));
        }
        proof {
            self.lemma_view();
            lemma_first_receiver_index(
                self@.receivers,
                |r: ReceiverView| r.workspace == workspace@ && same_identity_spec(r.member, member@) && r.nonce == nonce@,
                0,
            );
        }
        if let Some(k) = self.same_registration_index(workspace.as_str(), &member, nonce.as_str()) {
            self.receivers[k].deadline = deadline(now, RECEIVER_TTL);
            let id = self.receivers[k].id.clone();
            proof {
                assert(self@.receivers =~= old(self)@.refreshed(k as int, now).receivers);
            }
            return Ok(id);
        }
        self.replace_receivers(workspace.as_str(), &member);
        if self.receivers.len() >= MAX_RECEIVERS {
            proof {
                self.lemma_view();
            }
            return Err(err_text("room receiver limit reached"));
        }
        let id = self.next_token();
        let ghost mid = self@;
        let receiver = Receiver { id: id.clone(), workspace, member, nonce, deadline: deadline(now, RECEIVER_TTL) };
        self.receivers.push(receiver);
        proof {
            assert(self@.receivers =~= mid.receivers.push(receiver@));
        }
        Ok(id)
    }
}

fn outcome_to_status(o: Outcome) -> (r: Status)
    ensures
        r == outcome_status(o),
{
    match o {
        Outcome::Submitted => Status::Submitted,
        Outcome::Unanswered => Status::Unanswered,
        Outcome::Failed => Status::Failed,
    }
}

pub open spec fn sanitized_opt(d: Option<Seq<char>>) -> Option<Seq<char>> {
    match d {
        Some(s) => Some(sanitized(s)),
        None => None,
    }
}

impl Runtime {
    fn first_queued(&self, id: &str) -> (r: Option<usize>)
        ensures
            match self@.first_queued_for(id@) {
                Some(k) => r == Some(k as usize),
                None => r.is_none(),
            },
            r matches Some(k) ==> k < self.entries.len(),
    {
        proof {
            self.lemma_view();
            lemma_first_entry_index(self@.entries, |e: EntryView| e.receiver == Some(id@) && e.status == Status::Queued, 0);
        }
        let ghost p = |e: EntryView| e.receiver == Some(id@) && e.status == Status::Queued;
        let mut i: usize = 0;
        while i < self.entries.len()
            invariant
                p == (|e: EntryView| e.receiver == Some(id@) && e.status == Status::Queued),
                i <= self.entries.len(),
                self@.entries.len() == self.entries.len(),
                forall|k: int| 0 <= k < self.entries.len() ==> #[trigger] self@.entries[k] == self.entries@[k]@,
                first_entry_index(self@.entries, p, 0) == first_entry_index(self@.entries, p, i as nat),
            decreases self.entries.len() - i,
        {
            let e = &self.entries[i];
            if opt_is(&e.receiver, id) && e.status == Status::Queued {
                return Some(i);
            }
            i += 1;
        }
        None
    }

    fn delivery_index(&self, id: &str, delivery: &str) -> (r: Option<usize>)
        ensures
            match self@.first_delivery_for(id@, delivery@) {
                Some(k) => r == Some(k as usize),
                None => r.is_none(),
            },
            r matches Some(k) ==> k < self.entries.len(),
    {
        proof {
            self.lemma_view();
            lemma_first_entry_index(self@.entries, |e: EntryView| e.delivery.delivery_id == delivery@ && e.receiver == Some(id@), 0);
        }
        let ghost p = |e: EntryView| e.delivery.delivery_id == delivery@ && e.receiver == Some(id@);
        let mut i: usize = 0;
        while i < self.entries.len()
            invariant
                p == (|e: EntryView| e.delivery.delivery_id == delivery@ && e.receiver == Some(id@)),
                i <= self.entries.len(),
                self@.entries.len() == self.entries.len(),
                forall|k: int| 0 <= k < self.entries.len() ==> #[trigger] self@.entries[k] == self.entries@[k]@,
                first_entry_index(self@.entries, p, 0) == first_entry_index(self@.entries, p, i as nat),
            decreases self.entries.len() - i,
        {
            let e = &self.entries[i];
            if str_eq(e.delivery.delivery_id.as_str(), delivery) && opt_is(&e.receiver, id) {
                return Some(i);
            }
            i += 1;
        }
        None
    }

    fn has_active(&self, id: &str) -> (r: bool)
        ensures
            r == self@.has_active_for(id@),
    {
        proof {
            self.lemma_view();
        }
        let mut i: usize = 0;
        while i < self.entries.len()
            invariant
                i <= self.entries.len(),
                self@.entries.len() == self.entries.len(),
                forall|k: int| 0 <= k < self.entries.len() ==> #[trigger] self@.entries[k] == self.entries@[k]@,
                forall|j: int|
                    0 <= j < i ==> !((#[trigger] self@.entries[j]).receiver == Some(id@) && is_active(
                        self@.entries[j].status,
                    )),
            decreases self.entries.len() - i,
        {
            let e = &self.entries[i];
            if opt_is(&e.receiver, id) && e.status.active() {
                proof {
                    assert(self@.entries[i as int] == e@);
                    assert(self@.entries[i as int].receiver == Some(id@) && is_active(self@.entries[i as int].status));
                }
                return true;
            }
            i += 1;
        }
        false
    }

    /// Caller has saved first and reserved capacity in the same synchronous turn.
    pub fn enqueue_saved(&mut self, workspace: &str, sequence: u64, text: &str, targets: Vec<Member>, now: u64)
        ensures
            final(self)@.epoch == old(self)@.epoch,
            final(self)@.receivers == old(self)@.receivers,
            final(self)@.entries.len() == old(self)@.entries.len() + targets.len(),
            forall|k: int| 0 <= k < old(self)@.entries.len() ==> #[trigger] final(self)@.entries[k] == old(self)@.entries[k],
            forall|k: int|
                0 <= k < targets.len() ==> {
                    let e = #[trigger] final(self)@.entries[old(self)@.entries.len() + k];
                    &&& uuid_shaped(e.delivery.delivery_id)
                    &&& e == old(self)@.enqueued_entry(
                        workspace@,
                        sequence,
                        text@,
                        targets@[k]@,
                        now,
                        e.delivery.delivery_id,
                    )
                },
    {
        let ghost old_v = self@;
        let ghost n0 = self.entries.len();
        proof {
            self.lemma_view();
        }
        let mut i: usize = 0;
        while i < targets.len()
            invariant
                i <= targets.len(),
                n0 == old_v.entries.len(),
                self@.epoch == old_v.epoch,
                self@.receivers == old_v.receivers,
                self@.entries.len() == n0 + i,
                self@.entries.len() == self.entries.len(),
                self@.receivers.len() == self.receivers.len(),
                forall|k: int| 0 <= k < self.receivers.len() ==> #[trigger] self@.receivers[k] == self.receivers@[k]@,
                forall|k: int| 0 <= k < n0 ==> #[trigger] self@.entries[k] == old_v.entries[k],
                forall|k: int|
                    0 <= k < i ==> {
                        let e = #[trigger] self@.entries[n0 + k];
                        &&& uuid_shaped(e.delivery.delivery_id)
                        &&& e == old_v.enqueued_entry(
                            workspace@,
                            sequence,
                            text@,
                            targets@[k]@,
                            now,
                            e.delivery.delivery_id,
                        )
                    },
            decreases targets.len() - i,
        {
            let recipient = targets[i].clone();
            let detail = self.unavailable_reason(workspace, &recipient);
            proof {
                lemma_first_receiver_index(
                    self@.receivers,
                    |r: ReceiverView| r.workspace == workspace@ && same_identity_spec(r.member, recipient@),
                    0,
                );
            }
            let receiver = match self.receiver_for(workspace, &recipient) {
                Some(k) => Some(self.receivers[k].id.clone()),
                None => None,
            };
            let delivery_id = self.next_token();
            let status = if detail.is_none() {
                Status::Queued
            } else {
                Status::Unavailable
            };
            let entry = Entry {
                delivery: Delivery {
                    delivery_id,
                    workspace_id: owned(workspace),
                    request_sequence: sequence,
                    recipient,
                    text: owned(text),
                    expires_unix: deadline(now, REQUEST_TTL_SECONDS),
                },
                receiver,
                status,
                detail,
            };
            let ghost before = self@;
            self.entries.push(entry);
            proof {
                assert(self@.entries =~= before.entries.push(entry@));
                assert(entry@ == old_v.enqueued_entry(workspace@, sequence, text@, targets@[i as int]@, now, entry@.delivery.delivery_id));
                assert(self@.receivers =~= before.receivers);
            }
            i += 1;
        }
    }

    // App calls cleanup with live identity immediately before every operation.
    pub fn claim(&mut self, id: &str, epoch: &str, ready: bool, now: u64) -> (r: Result<Option<Delivery>, String>)
        ensures
            (final(self)@, claim_result_view(r)) == old(self)@.claim_step(id@, epoch@, ready, now),
    {
        if let Err(e) = self.validate(id, epoch) {
            return Err(e);
        }
        proof {
            self.lemma_view();
            lemma_first_receiver_index(self@.receivers, |r: ReceiverView| r.id == id@, 0);
        }
        let ghost old_v = self@;
        if let Some(k) = self.receiver_with_id(id) {
            self.receivers[k].deadline = deadline(now, RECEIVER_TTL);
            proof {
                assert(self@.receivers =~= old_v.refreshed(k as int, now).receivers);
                assert(self@.entries =~= old_v.entries);
            }
        }
        proof {
            self.lemma_view();
            lemma_first_entry_index(self@.entries, |e: EntryView| e.receiver == Some(id@) && e.status == Status::Queued, 0);
        }
        if !ready || self.has_active(id) {
            return Ok(None);
        }
        if let Some(k) = self.first_queued(id) {
            let ghost beat = self@;
            self.entries[k].status = Status::Claimed;
            let d = self.entries[k].delivery.clone();
            proof {
                assert(self@.entries =~= beat.marked(k as int, Status::Claimed, beat.entries[k as int].detail).entries);
            }
            return Ok(Some(d));
        }
        Ok(None)
    }

    pub fn report(&mut self, id: &str, epoch: &str, delivery: &str, outcome: Outcome, detail: Option<String>) -> (r: Result<(), String>)
        ensures
            (final(self)@, unit_result_view(r)) == old(self)@.report_step(id@, epoch@, delivery@, outcome, detail.deep_view()),
    {
        if let Err(e) = self.validate(id, epoch) {
            return Err(e);
        }
        proof {
            self.lemma_view();
        }
        let k = match self.delivery_index(id, delivery) {
            Some(k) => k,
            None => return Err(err_text("unknown delivery for this receiver")),
        };
        proof {
            lemma_first_entry_index(self@.entries, |e: EntryView| e.delivery.delivery_id == delivery@ && e.receiver == Some(id@), 0);
        }
        if self.entries[k].status == Status::Queued {
            return Err(err_text("delivery has not been claimed"));
        }
        if self.entries[k].status.active() {
            let ghost old_v = self@;
            let cleaned = match &detail {
                Some(d) => Some(sanitize_detail(d)),
                None => None,
            };
            self.entries[k].status = outcome_to_status(outcome);
            self.entries[k].detail = cleaned;
            proof {
                assert(self@.entries =~= old_v.marked(k as int, outcome_status(outcome), sanitized_opt(detail.deep_view())).entries);
            }
        }
        Ok(())
    }

    pub fn replied(&mut self, workspace: &str, sequence: u64, member: &Member)
        ensures
            final(self)@.epoch == old(self)@.epoch,
            final(self)@.receivers == old(self)@.receivers,
            final(self)@.entries.len() == old(self)@.entries.len(),
            forall|k: int|
                0 <= k < old(self)@.entries.len() ==> #[trigger] final(self)@.entries[k] == if RuntimeView::answered_by(
                    old(self)@.entries[k],
                    workspace@,
                    sequence,
                    member@,
                ) {
                    RuntimeView::replied_entry(old(self)@.entries[k])
                } else {
                    old(self)@.entries[k]
                },
    {
        let ghost old_v = self@;
        proof {
            self.lemma_view();
        }
        let mut i: usize = 0;
        while i < self.entries.len()
            invariant
                i <= self.entries.len(),
                self@.epoch == old_v.epoch,
                self@.receivers == old_v.receivers,
                self@.entries.len() == old_v.entries.len(),
                self@.entries.len() == self.entries.len(),
                forall|k: int| 0 <= k < self.entries.len() ==> #[trigger] self@.entries[k] == self.entries@[k]@,
                forall|k: int| i <= k < old_v.entries.len() ==> #[trigger] self@.entries[k] == old_v.entries[k],
                forall|k: int|
                    0 <= k < i ==> #[trigger] self@.entries[k] == if RuntimeView::answered_by(
                        old_v.entries[k],
                        workspace@,
                        sequence,
                        member@,
                    ) {
                        RuntimeView::replied_entry(old_v.entries[k])
                    } else {
                        old_v.entries[k]
                    },
            decreases self.entries.len() - i,
        {
            // The domain correlates replies by terminal/session; a pane
            // move inside this workspace must not hide a persisted reply.
            let hit = {
                let d = &self.entries[i].delivery;
                str_eq(d.workspace_id.as_str(), workspace) && d.request_sequence == sequence
                    && d.recipient.terminal_id == member.terminal_id && opt_str_eq(&d.recipient.session, &member.session)
            };
            if hit {
                let ghost before = self@;
                self.entries[i].status = Status::Replied;
                self.entries[i].detail = None;
                proof {
                    assert(self@.entries =~= before.entries.update(i as int, EntryView { status: Status::Replied, detail: None, ..before.entries[i as int] }));
                }
            }
            proof {
                self.lemma_view();
            }
            i += 1;
        }
    }

    pub fn deliveries(&self, workspace: &str) -> (r: Vec<DeliveryStatus>)
        ensures
            r@.map_values(|d: DeliveryStatus| d@) == self@.entries.filter(
                |e: EntryView| e.delivery.workspace_id == workspace@,
            ).map_values(|e: EntryView| RuntimeView::status_of(e)),
    {
        let ghost p = |e: EntryView| e.delivery.workspace_id == workspace@;
        proof {
            self.lemma_view();
        }
        let mut out: Vec<DeliveryStatus> = Vec::new();
        let mut i: usize = 0;
        while i < self.entries.len()
            invariant
                p == (|e: EntryView| e.delivery.workspace_id == workspace@),
                i <= self.entries.len(),
                self@.entries.len() == self.entries.len(),
                forall|k: int| 0 <= k < self.entries.len() ==> #[trigger] self@.entries[k] == self.entries@[k]@,
                out@.map_values(|d: DeliveryStatus| d@) == self@.entries.take(i as int).filter(p).map_values(
                    |e: EntryView| RuntimeView::status_of(e),
                ),
            decreases self.entries.len() - i,
        {
            let e = &self.entries[i];
            let hit = str_eq(e.delivery.workspace_id.as_str(), workspace);
            proof {
                assert(self@.entries.take(i + 1).drop_last() =~= self@.entries.take(i as int));
                assert(self@.entries.take(i + 1).last() == e@);
                reveal_with_fuel(Seq::filter, 1);
            }
            if hit {
                let ghost before = out@.map_values(|d: DeliveryStatus| d@);
                let st = DeliveryStatus {
                    delivery_id: e.delivery.delivery_id.clone(),
                    request_sequence: e.delivery.request_sequence,
                    recipient: e.delivery.recipient.clone(),
                    status: e.status,
                    detail: clone_opt_string(&e.detail),
                };
                out.push(st);
                proof {
                    assert(out@.map_values(|d: DeliveryStatus| d@) =~= before.push(st@));
                    assert(st@ == RuntimeView::status_of(e@));
                }
            }
            proof {
                assert(self@.entries.take(i + 1).filter(p).map_values(|e: EntryView| RuntimeView::status_of(e))
                    =~= out@.map_values(|d: DeliveryStatus| d@));
            }
            i += 1;
        }
        proof {
            assert(self@.entries.take(self.entries.len() as int) =~= self@.entries);
        }
        out
    }

    pub fn receivers(&self, workspace: &str, members: &[Member]) -> (r: Vec<ReceiverStatus>)
        ensures
            r@.len() == members@.len(),
            forall|k: int|
                0 <= k < members@.len() ==> (#[trigger] r@[k])@ == self@.receiver_status(workspace@, members@[k]@),
    {
        let mut out: Vec<ReceiverStatus> = Vec::new();
        let mut i: usize = 0;
        while i < members.len()
            invariant
                i <= members@.len(),
                out@.len() == i,
                forall|k: int|
                    0 <= k < i ==> (#[trigger] out@[k])@ == self@.receiver_status(workspace@, members@[k]@),
            decreases members@.len() - i,
        {
            let member = &members[i];
            let detail = self.unavailable_reason(workspace, member);
            out.push(ReceiverStatus { member: member.clone(), available: detail.is_none(), detail });
            i += 1;
        }
        out
    }
}

// ---------------------------------------------------------------------------
// Laws
// ---------------------------------------------------------------------------

/// At-most-once claims: a claim marks the handed-out entry `Claimed` before
/// returning it, and while that entry is active every further claim by the
/// same receiver hands out nothing.
pub proof fn law_claim_is_at_most_once(
    rt: RuntimeView,
    id: Seq<char>,
    epoch: Seq<char>,
    now: u64,
    later_ready: bool,
    later_now: u64,
)
    requires
        claim_step_hands_out(rt, id, epoch, now),
    ensures
        ({
            let (after, answer) = rt.claim_step(id, epoch, true, now);
            let k = rt.first_queued_for(id).unwrap();
            &&& answer == Ok::<Option<DeliveryView>, Seq<char>>(Some(rt.entries[k].delivery))
            &&& after.entries[k].status == Status::Claimed
            &&& after.has_active_for(id)
            &&& after.claim_step(id, epoch, later_ready, later_now).1 == Ok::<
                Option<DeliveryView>,
                Seq<char>,
            >(None)
        }),
{
    let k = rt.first_queued_for(id).unwrap();
    lemma_first_entry_index(rt.entries, |e: EntryView| e.receiver == Some(id) && e.status == Status::Queued, 0);
    lemma_first_receiver_index(rt.receivers, |r: ReceiverView| r.id == id, 0);
    let after = rt.claim_step(id, epoch, true, now).0;
    assert(after.entries[k].receiver == Some(id) && is_active(after.entries[k].status));
    let j = rt.first_receiver_with_id(id).unwrap();
    assert(after.receivers[j].id == id);
    assert(after.has_receiver_id(id));
}

/// The situation in which a ready claim hands out work: a valid receiver with
/// queued work and nothing active.
pub open spec fn claim_step_hands_out(rt: RuntimeView, id: Seq<char>, epoch: Seq<char>, now: u64) -> bool {
    &&& rt.valid_receiver(id, epoch)
    &&& !rt.has_active_for(id)
    &&& rt.first_queued_for(id).is_some()
}

/// One slot per receiver: while a receiver has an active delivery, claims hand
/// out nothing, whether or not the receiver reports itself ready.
pub proof fn law_active_delivery_holds_the_slot(rt: RuntimeView, id: Seq<char>, epoch: Seq<char>, ready: bool, now: u64)
    requires
        rt.valid_receiver(id, epoch),
        rt.has_active_for(id),
    ensures
        rt.claim_step(id, epoch, ready, now).1 == Ok::<Option<DeliveryView>, Seq<char>>(None),
{
}

/// A receiver that is not ready is never handed work.
pub proof fn law_not_ready_receives_nothing(rt: RuntimeView, id: Seq<char>, epoch: Seq<char>, now: u64)
    requires
        rt.valid_receiver(id, epoch),
    ensures
        rt.claim_step(id, epoch, false, now).1 == Ok::<Option<DeliveryView>, Seq<char>>(None),
{
}

/// Queued work cannot be reported before it is claimed, and the refusal changes nothing.
pub proof fn law_report_requires_claim(
    rt: RuntimeView,
    id: Seq<char>,
    epoch: Seq<char>,
    delivery: Seq<char>,
    outcome: Outcome,
    detail: Option<Seq<char>>,
)
    requires
        rt.valid_receiver(id, epoch),
        rt.first_delivery_for(id, delivery) matches Some(k) && rt.entries[k].status == Status::Queued,
    ensures
        rt.report_step(id, epoch, delivery, outcome, detail) == (
            rt,
            Err::<(), Seq<char>>("delivery has not been claimed"@),
        ),
{
}

/// Terminal outcomes are idempotent: once a delivery is replied, unanswered,
/// failed, unavailable or expired, a report is accepted but changes nothing,
/// so no late report can resurrect it.
pub proof fn law_terminal_status_is_final_under_reports(
    rt: RuntimeView,
    id: Seq<char>,
    epoch: Seq<char>,
    delivery: Seq<char>,
    outcome: Outcome,
    detail: Option<Seq<char>>,
)
    requires
        rt.valid_receiver(id, epoch),
        rt.first_delivery_for(id, delivery) matches Some(k) && !is_pending(rt.entries[k].status),
    ensures
        rt.report_step(id, epoch, delivery, outcome, detail) == (rt, Ok::<(), Seq<char>>(())),
{
}

/// An invalid or stale receiver (wrong epoch, unknown id) can neither claim
/// nor report, and its attempts change nothing.
pub proof fn law_stale_receivers_are_refused(
    rt: RuntimeView,
    id: Seq<char>,
    epoch: Seq<char>,
    ready: bool,
    now: u64,
    delivery: Seq<char>,
    outcome: Outcome,
    detail: Option<Seq<char>>,
)
    requires
        !rt.valid_receiver(id, epoch),
    ensures
        rt.claim_step(id, epoch, ready, now).0 == rt,
        rt.claim_step(id, epoch, ready, now).1 is Err,
        rt.report_step(id, epoch, delivery, outcome, detail).0 == rt,
        rt.report_step(id, epoch, delivery, outcome, detail).1 is Err,
{
}

/// Sweeps never queue work again: an entry comes out of a sweep `Queued` only
/// if it went in `Queued`, and pending work past its expiry comes out `Expired`.
pub proof fn law_sweep_never_requeues(e: EntryView, receivers: Seq<ReceiverView>, now: u64)
    ensures
        RuntimeView::swept_entry(e, receivers, now).status == Status::Queued ==> e.status == Status::Queued,
        is_pending(e.status) && now >= e.delivery.expires_unix ==> RuntimeView::swept_entry(
            e,
            receivers,
            now,
        ).status == Status::Expired,
        !is_pending(e.status) ==> RuntimeView::swept_entry(e, receivers, now) == e,
{
}

/// After a sweep at `now`, no work is still pending past its expiry, and every
/// pending entry belongs to a receiver that survived the sweep.
pub proof fn law_cleanup_closes_expired_and_orphaned_work(
    rt: RuntimeView,
    current: Seq<WorkspaceMembersView>,
    now: u64,
)
    ensures
        forall|k: int|
            0 <= k < rt.cleaned(current, now).entries.len() && is_pending(
                (#[trigger] rt.cleaned(current, now).entries[k]).status,
            ) ==> now < rt.cleaned(current, now).entries[k].delivery.expires_unix && exists|j: int|
                0 <= j < rt.cleaned(current, now).receivers.len() && Some(
                    (#[trigger] rt.cleaned(current, now).receivers[j]).id,
                ) == rt.cleaned(current, now).entries[k].receiver,
{
    let c = rt.cleaned(current, now);
    let filtered = rt.entries.filter(keeps_entry(current, now));
    assert forall|k: int| 0 <= k < c.entries.len() && is_pending((#[trigger] c.entries[k]).status) implies now
        < c.entries[k].delivery.expires_unix && exists|j: int|
        0 <= j < c.receivers.len() && Some((#[trigger] c.receivers[j]).id) == c.entries[k].receiver by {
        assert(c.entries[k] == RuntimeView::swept_entry(filtered[k], c.receivers, now));
    }
}

/// Re-registration replaces: no work of a replaced receiver stays pending, so
/// nothing is silently handed to the new receiver or replayed.
pub proof fn law_replaced_receivers_leave_no_pending_work(rt: RuntimeView, ids: Seq<Seq<char>>)
    ensures
        forall|k: int|
            0 <= k < rt.without_receivers(ids).entries.len() && (#[trigger] rt.without_receivers(
                ids,
            ).entries[k]).receiver.is_some() && ids.contains(rt.without_receivers(ids).entries[k].receiver.unwrap()) ==> !is_pending(
                rt.without_receivers(ids).entries[k].status,
            ),
        forall|j: int|
            0 <= j < rt.without_receivers(ids).receivers.len() ==> !ids.contains(
                (#[trigger] rt.without_receivers(ids).receivers[j]).id,
            ),
{
    let w = rt.without_receivers(ids);
    let p = |r: ReceiverView| !ids.contains(r.id);
    assert forall|j: int| 0 <= j < w.receivers.len() implies !ids.contains((#[trigger] w.receivers[j]).id) by {
        rt.receivers.lemma_filter_pred(p, j);
    }
}

/// Replies correlate by workspace, request, terminal and session: moving the
/// answering pane inside the workspace does not hide a persisted reply.
pub proof fn law_reply_correlation_ignores_pane(
    e: EntryView,
    workspace: Seq<char>,
    sequence: u64,
    member: MemberView,
    moved: MemberView,
)
    requires
        moved.terminal_id == member.terminal_id,
        moved.session == member.session,
    ensures
        RuntimeView::answered_by(e, workspace, sequence, moved) == RuntimeView::answered_by(
            e,
            workspace,
            sequence,
            member,
        ),
{
}

/// A fresh human question reaches only identified Pi members with an online
/// receiver; everyone else is recorded unavailable, never silently routed.
pub proof fn law_unreachable_recipients_are_unavailable(
    rt: RuntimeView,
    workspace: Seq<char>,
    sequence: u64,
    text: Seq<char>,
    recipient: MemberView,
    now: u64,
    id: Seq<char>,
)
    ensures
        rt.enqueued_entry(workspace, sequence, text, recipient, now, id).status == Status::Queued
            <==> (recipient.session.is_some() && recipient.agent == "pi"@ && rt.receiver_for(workspace, recipient)),
        rt.enqueued_entry(workspace, sequence, text, recipient, now, id).status == Status::Queued
            ==> rt.enqueued_entry(workspace, sequence, text, recipient, now, id).receiver.is_some(),
{
    lemma_first_receiver_index(
        rt.receivers,
        |r: ReceiverView| r.workspace == workspace && same_identity_spec(r.member, recipient),
        0,
    );
}
} // verus!
