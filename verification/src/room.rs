//! Shared room data. No PTY, inference, or delivery side effects live here.
use crate::text::{blank, byte_len, clone_opt_string, is_blank, owned, text_len};
use vstd::prelude::*;

verus! {

pub const MAX_MESSAGE_BYTES: usize = 8192;

pub const MAX_MESSAGES: usize = 1000;

pub const REQUEST_TTL_SECONDS: u64 = 600;

pub struct Member {
    pub pane_id: String,
    pub terminal_id: String,
    pub agent: String,
    pub name: String,
    /// Only live hook session identity is reply-capable; restored metadata is not authority.
    pub session: Option<String>,
}

pub struct MemberView {
    pub pane_id: Seq<char>,
    pub terminal_id: Seq<char>,
    pub agent: Seq<char>,
    pub name: Seq<char>,
    pub session: Option<Seq<char>>,
}

impl View for Member {
    type V = MemberView;

    open spec fn view(&self) -> MemberView {
        MemberView {
            pane_id: self.pane_id@,
            terminal_id: self.terminal_id@,
            agent: self.agent@,
            name: self.name@,
            session: self.session.deep_view(),
        }
    }
}

impl Clone for Member {
    fn clone(&self) -> (r: Self)
        ensures
            r == *self,
    {
        Member {
            pane_id: self.pane_id.clone(),
            terminal_id: self.terminal_id.clone(),
            agent: self.agent.clone(),
            name: self.name.clone(),
            session: clone_opt_string(&self.session),
        }
    }
}

pub struct Message {
    pub sequence: u64,
    pub text: String,
    pub created_unix: u64,
    /// None denotes the human owner, never a coordinator agent.
    pub author: Option<Member>,
    /// Legacy single-recipient representation, retained for saved transcripts.
    pub recipient: Option<Member>,
    /// Immutable audience captured when a human question is accepted.
    pub recipients: Vec<Member>,
    pub reply_to: Option<u64>,
    pub expires_unix: Option<u64>,
}

pub struct MessageView {
    pub sequence: u64,
    pub text: Seq<char>,
    pub created_unix: u64,
    pub author: Option<MemberView>,
    pub recipient: Option<MemberView>,
    pub recipients: Seq<MemberView>,
    pub reply_to: Option<u64>,
    pub expires_unix: Option<u64>,
}

pub open spec fn opt_member_view(m: Option<Member>) -> Option<MemberView> {
    match m {
        Some(x) => Some(x@),
        None => None,
    }
}

pub open spec fn members_view(v: Seq<Member>) -> Seq<MemberView> {
    v.map_values(|m: Member| m@)
}

impl View for Message {
    type V = MessageView;

    open spec fn view(&self) -> MessageView {
        MessageView {
            sequence: self.sequence,
            text: self.text@,
            created_unix: self.created_unix,
            author: opt_member_view(self.author),
            recipient: opt_member_view(self.recipient),
            recipients: members_view(self.recipients@),
            reply_to: self.reply_to,
            expires_unix: self.expires_unix,
        }
    }
}

pub fn clone_opt_member(m: &Option<Member>) -> (r: Option<Member>)
    ensures
        r == *m,
{
    match m {
        Some(x) => Some(x.clone()),
        None => None,
    }
}

pub fn clone_members(v: &Vec<Member>) -> (r: Vec<Member>)
    ensures
        r@ == v@,
{
    let mut out: Vec<Member> = Vec::new();
    let mut i: usize = 0;
    while i < v.len()
        invariant
            i <= v.len(),
            out@ == v@.subrange(0, i as int),
        decreases v.len() - i,
    {
        out.push(v[i].clone());
        i += 1;
        assert(out@ =~= v@.subrange(0, i as int));
    }
    assert(v@.subrange(0, v.len() as int) =~= v@);
    out
}

impl Clone for Message {
    fn clone(&self) -> (r: Self)
        ensures
            r@ == self@,
    {
        Message {
            sequence: self.sequence,
            text: self.text.clone(),
            created_unix: self.created_unix,
            author: clone_opt_member(&self.author),
            recipient: clone_opt_member(&self.recipient),
            recipients: clone_members(&self.recipients),
            reply_to: self.reply_to,
            expires_unix: self.expires_unix,
        }
    }
}

pub struct Room {
    pub next_sequence: u64,
    pub messages: Vec<Message>,
}

pub struct RoomView {
    pub next_sequence: u64,
    pub messages: Seq<MessageView>,
}

impl View for Room {
    type V = RoomView;

    open spec fn view(&self) -> RoomView {
        RoomView {
            next_sequence: self.next_sequence,
            messages: self.messages@.map_values(|m: Message| m@),
        }
    }
}

pub fn clone_messages(v: &Vec<Message>) -> (r: Vec<Message>)
    ensures
        r@.map_values(|m: Message| m@) == v@.map_values(|m: Message| m@),
{
    let mut out: Vec<Message> = Vec::new();
    let mut i: usize = 0;
    while i < v.len()
        invariant
            i <= v.len(),
            out@.len() == i,
            forall|k: int| 0 <= k < i ==> (#[trigger] out@[k])@ == v@[k]@,
        decreases v.len() - i,
    {
        out.push(v[i].clone());
        i += 1;
    }
    assert(out@.map_values(|m: Message| m@) =~= v@.map_values(|m: Message| m@));
    out
}

impl Clone for Room {
    fn clone(&self) -> (r: Self)
        ensures
            r@ == self@,
    {
        Room { next_sequence: self.next_sequence, messages: clone_messages(&self.messages) }
    }
}

impl Default for Room {
    fn default() -> (r: Self)
        ensures
            r@.next_sequence == 1,
            r@.messages.len() == 0,
    {
        Room { next_sequence: 1, messages: Vec::new() }
    }
}

/// Two identities are the same reply slot when terminal and session agree.
pub open spec fn same_slot(a: MemberView, b: MemberView) -> bool {
    a.terminal_id == b.terminal_id && a.session == b.session
}

// ---------------------------------------------------------------------------
// Model of the room operations
// ---------------------------------------------------------------------------
/// The index of the first record at or after `i` carrying `sequence`, if any.
pub open spec fn first_from(messages: Seq<MessageView>, sequence: u64, i: nat) -> Option<int>
    decreases messages.len() - i,
{
    if i >= messages.len() {
        None
    } else if messages[i as int].sequence == sequence {
        Some(i as int)
    } else {
        first_from(messages, sequence, i + 1)
    }
}

pub proof fn lemma_first_from(messages: Seq<MessageView>, sequence: u64, i: nat)
    ensures
        match first_from(messages, sequence, i) {
            Some(c) => i <= c < messages.len() && messages[c].sequence == sequence && forall|j: int|
                i <= j < c ==> #[trigger] messages[j].sequence != sequence,
            None => forall|j: int| i <= j < messages.len() ==> #[trigger] messages[j].sequence != sequence,
        },
    decreases messages.len() - i,
{
    if i < messages.len() && messages[i as int].sequence != sequence {
        lemma_first_from(messages, sequence, i + 1);
    }
}

proof fn lemma_first_from_push(messages: Seq<MessageView>, x: MessageView, sequence: u64, i: nat)
    requires
        first_from(messages, sequence, i).is_some(),
    ensures
        first_from(messages.push(x), sequence, i) == first_from(messages, sequence, i),
    decreases messages.len() - i,
{
    if i < messages.len() {
        assert(messages.push(x)[i as int] == messages[i as int]);
        if messages[i as int].sequence != sequence {
            lemma_first_from_push(messages, x, sequence, i + 1);
        }
    }
}

impl RoomView {
    /// Sequences strictly increase along the transcript and stay below the next one;
    /// the transcript never exceeds its bound.
    pub open spec fn wf(self) -> bool {
        &&& self.messages.len() <= MAX_MESSAGES
        &&& forall|i: int, j: int|
            0 <= i < j < self.messages.len() ==> #[trigger] self.messages[i].sequence
                < #[trigger] self.messages[j].sequence
        &&& forall|i: int|
            0 <= i < self.messages.len() ==> #[trigger] self.messages[i].sequence
                < self.next_sequence
    }

    /// Why `append` refuses a record, checked in this order.
    pub open spec fn append_error(self, text: Seq<char>) -> Option<Seq<char>> {
        if blank(text) || byte_len(text) > MAX_MESSAGE_BYTES {
            Some("text must contain 1..=8192 bytes"@)
        } else if self.messages.len() >= MAX_MESSAGES {
            Some("prototype room is full (1000 messages); nothing was discarded"@)
        } else if self.next_sequence == u64::MAX {
            Some("sequence exhausted"@)
        } else {
            None
        }
    }

    /// The room after `message` is accepted under the current next sequence.
    pub open spec fn appended(self, message: MessageView) -> RoomView {
        RoomView {
            next_sequence: (self.next_sequence + 1) as u64,
            messages: self.messages.push(MessageView { sequence: self.next_sequence, ..message }),
        }
    }

    /// The room and answer after trying to append `message`.
    pub open spec fn append_step(self, message: MessageView) -> (RoomView, Result<u64, Seq<char>>) {
        match self.append_error(message.text) {
            Some(e) => (self, Err(e)),
            None => (self.appended(message), Ok(self.next_sequence)),
        }
    }

    /// The room and answer after a human post, optionally to one recipient.
    pub open spec fn post_step(self, text: Seq<char>, recipient: Option<MemberView>, now: u64) -> (
        RoomView,
        Result<u64, Seq<char>>,
    ) {
        if recipient.is_some() && recipient.unwrap().session.is_none() {
            (self, Err("recipient has no live session identity"@))
        } else {
            self.append_step(
                human_message(
                    text,
                    now,
                    recipient,
                    Seq::empty(),
                    if recipient.is_some() {
                        Some(request_expiry(now))
                    } else {
                        None
                    },
                ),
            )
        }
    }

    /// The room and answer after a group question to `recipients`.
    pub open spec fn post_to_step(self, text: Seq<char>, recipients: Seq<MemberView>, now: u64) -> (
        RoomView,
        Result<u64, Seq<char>>,
    ) {
        if has_sessionless(recipients) {
            (self, Err("recipient has no live session identity"@))
        } else {
            let audience = dedup_slots(recipients);
            self.append_step(
                human_message(
                    text,
                    now,
                    None,
                    audience,
                    if audience.len() > 0 {
                        Some(request_expiry(now))
                    } else {
                        None
                    },
                ),
            )
        }
    }

    /// The room and answer after `member` replies to `request`.
    pub open spec fn reply_step(self, request: u64, member: MemberView, text: Seq<char>, now: u64) -> (
        RoomView,
        Result<u64, Seq<char>>,
    ) {
        match self.reply_error(request, member, now) {
            Some(e) => (self, Err(e)),
            None => self.append_step(reply_message(request, member, text, now)),
        }
    }

    /// The index of the first record carrying `sequence`, if any.
    pub open spec fn find(self, sequence: u64) -> Option<int> {
        first_from(self.messages, sequence, 0)
    }

    /// Whether `member` is in the immutable audience of `request`.
    pub open spec fn addressed_to(request: MessageView, member: MemberView) -> bool {
        ||| exists|k: int|
            0 <= k < request.recipients.len() && same_slot(
                #[trigger] request.recipients[k],
                member,
            )
        ||| (request.recipient.is_some() && same_slot(request.recipient.unwrap(), member))
    }

    /// Whether the transcript already holds a reply to `request` from `member`'s slot.
    pub open spec fn has_reply_from(self, request: u64, member: MemberView) -> bool {
        exists|k: int|
            0 <= k < self.messages.len() && (#[trigger] self.messages[k]).reply_to == Some(request)
                && self.messages[k].author.is_some() && same_slot(
                self.messages[k].author.unwrap(),
                member,
            )
    }

    /// Why a reply to `request` by `member` at `now` is refused before its text is
    /// considered, checked in this order.
    pub open spec fn reply_error(self, request: u64, member: MemberView, now: u64) -> Option<
        Seq<char>,
    > {
        match self.find(request) {
            None => Some("unknown request"@),
            Some(i) => {
                let original = self.messages[i];
                if original.recipient.is_none() && original.recipients.len() == 0 {
                    Some("message is not an addressed request"@)
                } else if original.author.is_some() || original.reply_to.is_some() {
                    Some("cannot reply to a reply"@)
                } else if member.session.is_none() || !Self::addressed_to(original, member) {
                    Some("wrong recipient session"@)
                } else if original.expires_unix.is_none() {
                    Some("request missing expiry"@)
                } else if now >= original.expires_unix.unwrap() {
                    Some("request expired"@)
                } else if self.has_reply_from(request, member) {
                    Some("request already has a reply from this session"@)
                } else {
                    None
                }
            },
        }
    }
}

/// `audience` with later entries that share a terminal/session slot with an
/// earlier entry dropped; first occurrences keep their order.
pub open spec fn dedup_slots(members: Seq<MemberView>) -> Seq<MemberView>
    decreases members.len(),
{
    if members.len() == 0 {
        Seq::empty()
    } else {
        let prefix = dedup_slots(members.drop_last());
        let m = members.last();
        if exists|k: int| 0 <= k < prefix.len() && same_slot(#[trigger] prefix[k], m) {
            prefix
        } else {
            prefix.push(m)
        }
    }
}

/// Outcome of an accepted or refused append: `Ok(sequence)` leaves the room
/// extended by the record, `Err(reason)` leaves it untouched.
pub open spec fn append_result(
    old: RoomView,
    new: RoomView,
    message: MessageView,
    r: Result<u64, Seq<char>>,
) -> bool {
    match old.append_error(message.text) {
        Some(e) => r == Err::<u64, Seq<char>>(e) && new == old,
        None => r == Ok::<u64, Seq<char>>(old.next_sequence) && new == old.appended(message),
    }
}

pub open spec fn result_view(r: Result<u64, String>) -> Result<u64, Seq<char>> {
    match r {
        Ok(v) => Ok(v),
        Err(e) => Err(e@),
    }
}

fn err_text(s: &str) -> (r: String)
    ensures
        r@ == s@,
{
    owned(s)
}

impl Room {
    fn append(&mut self, message: Message) -> (r: Result<u64, String>)
        ensures
            (final(self)@, result_view(r)) == old(self)@.append_step(message@),
            old(self)@.wf() ==> final(self)@.wf(),
    {
        if is_blank(message.text.as_str()) || text_len(message.text.as_str()) > MAX_MESSAGE_BYTES {
            proof {
                reveal_strlit("text must contain 1..=8192 bytes");
            }
            return Err(err_text("text must contain 1..=8192 bytes"));
        }
        if self.messages.len() >= MAX_MESSAGES {
            proof {
                reveal_strlit("prototype room is full (1000 messages); nothing was discarded");
            }
            return Err(err_text("prototype room is full (1000 messages); nothing was discarded"));
        }
        if self.next_sequence == u64::MAX {
            proof {
                reveal_strlit("sequence exhausted");
            }
            return Err(err_text("sequence exhausted"));
        }
        let next = self.next_sequence + 1;
        let mut message = message;
        message.sequence = self.next_sequence;
        self.messages.push(message);
        self.next_sequence = next;
        proof {
            assert(self@.messages =~= old(self)@.appended(message@).messages);
            if old(self)@.wf() {
                lemma_append_keeps_wf(old(self)@, message@);
            }
        }
        Ok(next - 1)
    }
}


/// The record a human question becomes before `append` assigns its sequence.
pub open spec fn human_message(
    text: Seq<char>,
    now: u64,
    recipient: Option<MemberView>,
    recipients: Seq<MemberView>,
    expires_unix: Option<u64>,
) -> MessageView {
    MessageView {
        sequence: 0,
        text,
        created_unix: now,
        author: None,
        recipient,
        recipients,
        reply_to: None,
        expires_unix,
    }
}

/// The record an accepted reply becomes before `append` assigns its sequence.
pub open spec fn reply_message(request: u64, member: MemberView, text: Seq<char>, now: u64) -> MessageView {
    MessageView {
        sequence: 0,
        text,
        created_unix: now,
        author: Some(member),
        recipient: None,
        recipients: Seq::empty(),
        reply_to: Some(request),
        expires_unix: None,
    }
}

pub open spec fn request_expiry(now: u64) -> u64 {
    if now + REQUEST_TTL_SECONDS > u64::MAX {
        u64::MAX
    } else {
        (now + REQUEST_TTL_SECONDS) as u64
    }
}

pub open spec fn has_sessionless(members: Seq<MemberView>) -> bool {
    exists|k: int| 0 <= k < members.len() && (#[trigger] members[k]).session.is_none()
}

/// Result of a refused operation: the given reason, room untouched.
pub open spec fn refused(old: RoomView, new: RoomView, r: Result<u64, Seq<char>>, e: Seq<char>) -> bool {
    r == Err::<u64, Seq<char>>(e) && new == old
}

fn expiry(now: u64) -> (r: u64)
    ensures
        r == request_expiry(now),
{
    now.saturating_add(REQUEST_TTL_SECONDS)
}

fn same_slot_exec(a: &Member, b: &Member) -> (r: bool)
    ensures
        r == same_slot(a@, b@),
{
    a.terminal_id == b.terminal_id && crate::text::opt_str_eq(&a.session, &b.session)
}

/// The members of `members` with later entries sharing a terminal/session slot
/// with an earlier one dropped; first occurrences keep their order.
pub fn dedup_audience(members: &Vec<Member>) -> (r: Vec<Member>)
    ensures
        members_view(r@) == dedup_slots(members_view(members@)),
{
    let ghost rv = members_view(members@);
    let mut audience: Vec<Member> = Vec::new();
    let mut i: usize = 0;
    while i < members.len()
        invariant
            i <= members.len(),
            rv == members_view(members@),
            members_view(audience@) == dedup_slots(rv.take(i as int)),
        decreases members.len() - i,
    {
        let member = &members[i];
        let ghost before = members_view(audience@);
        let mut j: usize = 0;
        let mut seen = false;
        while j < audience.len()
            invariant
                j <= audience.len(),
                before == members_view(audience@),
                seen == exists|k: int| 0 <= k < j && same_slot(#[trigger] before[k], member@),
            decreases audience.len() - j,
        {
            proof {
                assert(before[j as int] == audience@[j as int]@);
            }
            if same_slot_exec(&audience[j], member) {
                seen = true;
            }
            j += 1;
        }
        proof {
            assert(rv.take(i + 1).drop_last() =~= rv.take(i as int));
            assert(rv.take(i + 1).last() == member@);
        }
        if !seen {
            audience.push(member.clone());
            proof {
                assert(members_view(audience@) =~= before.push(member@));
            }
        }
        i += 1;
    }
    proof {
        assert(rv.take(members.len() as int) =~= rv);
    }
    audience
}

impl Room {
    /// Posts a human message, optionally addressed to one live session.
    pub fn post(&mut self, text: String, recipient: Option<Member>, now: u64) -> (r: Result<u64, String>)
        ensures
            (final(self)@, result_view(r)) == old(self)@.post_step(text@, opt_member_view(recipient), now),
            old(self)@.wf() ==> final(self)@.wf(),
    {
        if let Some(member) = &recipient {
            if member.session.is_none() {
                return Err(err_text("recipient has no live session identity"));
            }
        }
        let expires_unix = if recipient.is_some() { Some(expiry(now)) } else { None };
        let message = Message {
            sequence: 0,
            text,
            created_unix: now,
            author: None,
            recipient,
            recipients: Vec::new(),
            reply_to: None,
            expires_unix,
        };
        proof {
            assert(message@.recipients =~= Seq::<MemberView>::empty());
        }
        self.append(message)
    }

    /// A group question is one transcript record, not one copy per recipient.
    pub fn post_to(&mut self, text: String, recipients: Vec<Member>, now: u64) -> (r: Result<u64, String>)
        ensures
            (final(self)@, result_view(r)) == old(self)@.post_to_step(text@, members_view(recipients@), now),
            old(self)@.wf() ==> final(self)@.wf(),
    {
        let ghost rv = members_view(recipients@);
        let mut i: usize = 0;
        while i < recipients.len()
            invariant
                i <= recipients.len(),
                rv == members_view(recipients@),
                forall|k: int| 0 <= k < i ==> (#[trigger] rv[k]).session.is_some(),
            decreases recipients.len() - i,
        {
            if recipients[i].session.is_none() {
                proof {
                    assert(rv[i as int] == recipients@[i as int]@);
                    assert(rv[i as int].session.is_none());
                }
                return Err(err_text("recipient has no live session identity"));
            }
            i += 1;
        }
        let audience = dedup_audience(&recipients);
        let expires_unix = if audience.len() > 0 { Some(expiry(now)) } else { None };
        let message = Message {
            sequence: 0,
            text,
            created_unix: now,
            author: None,
            recipient: None,
            recipients: audience,
            reply_to: None,
            expires_unix,
        };
        self.append(message)
    }
}

impl Room {
    fn find_index(&self, request: u64) -> (r: Option<usize>)
        ensures
            r.is_none() ==> self@.find(request).is_none(),
            r matches Some(i) ==> i < self.messages.len() && self@.find(request) == Some(i as int),
    {
        let ghost v = self@;
        let mut i: usize = 0;
        while i < self.messages.len()
            invariant
                v == self@,
                i <= self.messages.len(),
                first_from(v.messages, request, 0) == first_from(v.messages, request, i as nat),
            decreases self.messages.len() - i,
        {
            proof {
                assert(v.messages[i as int] == self.messages@[i as int]@);
            }
            if self.messages[i].sequence == request {
                return Some(i);
            }
            i += 1;
        }
        None
    }

    fn addressed_to_exec(original: &Message, member: &Member) -> (r: bool)
        ensures
            r == RoomView::addressed_to(original@, member@),
    {
        let mut k: usize = 0;
        while k < original.recipients.len()
            invariant
                k <= original.recipients.len(),
                forall|j: int| 0 <= j < k ==> !same_slot(#[trigger] original@.recipients[j], member@),
            decreases original.recipients.len() - k,
        {
            if same_slot_exec(&original.recipients[k], member) {
                proof {
                    assert(original@.recipients[k as int] == original.recipients@[k as int]@);
                }
                return true;
            }
            proof {
                assert(original@.recipients[k as int] == original.recipients@[k as int]@);
            }
            k += 1;
        }
        match &original.recipient {
            Some(m) => same_slot_exec(m, member),
            None => false,
        }
    }

    fn has_reply_from_exec(&self, request: u64, member: &Member) -> (r: bool)
        ensures
            r == self@.has_reply_from(request, member@),
    {
        let ghost v = self@;
        let mut k: usize = 0;
        while k < self.messages.len()
            invariant
                v == self@,
                k <= self.messages.len(),
                forall|j: int|
                    0 <= j < k ==> !((#[trigger] v.messages[j]).reply_to == Some(request)
                        && v.messages[j].author.is_some() && same_slot(
                        v.messages[j].author.unwrap(),
                        member@,
                    )),
            decreases self.messages.len() - k,
        {
            let m = &self.messages[k];
            proof {
                assert(v.messages[k as int] == m@);
            }
            if m.reply_to == Some(request) {
                if let Some(author) = &m.author {
                    if same_slot_exec(author, member) {
                        return true;
                    }
                }
            }
            k += 1;
        }
        false
    }

    /// Records `member`'s single reply to an addressed, unexpired human request.
    pub fn reply(&mut self, request: u64, member: Member, text: String, now: u64) -> (r: Result<u64, String>)
        ensures
            (final(self)@, result_view(r)) == old(self)@.reply_step(request, member@, text@, now),
            old(self)@.wf() ==> final(self)@.wf(),
    {
        let ghost v = self@;
        let i = match self.find_index(request) {
            Some(i) => i,
            None => return Err(err_text("unknown request")),
        };
        let original = &self.messages[i];
        proof {
            assert(v.messages[i as int] == original@);
            assert(original@.recipients.len() == original.recipients@.len());
            assert(original@.author.is_some() == original.author.is_some());
            assert(original@.recipient.is_some() == original.recipient.is_some());
        }
        if original.recipient.is_none() && original.recipients.len() == 0 {
            return Err(err_text("message is not an addressed request"));
        }
        if original.author.is_some() || original.reply_to.is_some() {
            return Err(err_text("cannot reply to a reply"));
        }
        if member.session.is_none() || !Self::addressed_to_exec(original, &member) {
            return Err(err_text("wrong recipient session"));
        }
        let expires = match original.expires_unix {
            Some(e) => e,
            None => return Err(err_text("request missing expiry")),
        };
        if now >= expires {
            return Err(err_text("request expired"));
        }
        if self.has_reply_from_exec(request, &member) {
            return Err(err_text("request already has a reply from this session"));
        }
        // Capture the current author once. Future renames/moves never rewrite history.
        let message = Message {
            sequence: 0,
            text,
            created_unix: now,
            author: Some(member),
            recipient: None,
            recipients: Vec::new(),
            reply_to: Some(request),
            expires_unix: None,
        };
        proof {
            assert(message@.recipients =~= Seq::<MemberView>::empty());
        }
        self.append(message)
    }
}

// ---------------------------------------------------------------------------
// Laws
// ---------------------------------------------------------------------------

/// An accepted append keeps the transcript well formed: sequences stay strictly
/// increasing, below the next sequence, and within the message bound.
pub proof fn lemma_append_keeps_wf(room: RoomView, message: MessageView)
    requires
        room.wf(),
        room.append_error(message.text).is_none(),
    ensures
        room.appended(message).wf(),
{
    let new = room.appended(message);
    assert forall|i: int, j: int| 0 <= i < j < new.messages.len() implies #[trigger] new.messages[i].sequence
        < #[trigger] new.messages[j].sequence by {
        if j == room.messages.len() {
            assert(room.messages[i].sequence < room.next_sequence);
        } else {
            assert(room.messages[i] == new.messages[i]);
            assert(room.messages[j] == new.messages[j]);
        }
    }
    assert forall|i: int| 0 <= i < new.messages.len() implies #[trigger] new.messages[i].sequence
        < new.next_sequence by {
        if i < room.messages.len() {
            assert(room.messages[i] == new.messages[i]);
        }
    }
}

/// Any accepted record extends the transcript at its end: earlier records are
/// never rewritten or dropped, and the new record carries the returned sequence.
pub proof fn law_history_is_append_only(room: RoomView, new: RoomView, message: MessageView, sequence: u64)
    requires
        append_result(room, new, message, Ok(sequence)),
    ensures
        new.messages.len() == room.messages.len() + 1,
        forall|i: int| 0 <= i < room.messages.len() ==> new.messages[i] == room.messages[i],
        new.messages.last().sequence == sequence,
        sequence == room.next_sequence,
        new.next_sequence == sequence + 1,
{
}

/// A refused write consumes no sequence and leaves the transcript untouched.
pub proof fn law_refusal_changes_nothing(room: RoomView, new: RoomView, message: MessageView, reason: Seq<char>)
    requires
        append_result(room, new, message, Err(reason)),
    ensures
        new == room,
{
}

/// Appending a record never changes which record a request sequence names.
proof fn lemma_find_survives_append(room: RoomView, message: MessageView, request: u64)
    requires
        room.find(request).is_some(),
    ensures
        room.appended(message).find(request) == room.find(request),
{
    let x = MessageView { sequence: room.next_sequence, ..message };
    lemma_first_from_push(room.messages, x, request, 0);
}

/// A session replies at most once to a request: once its reply is accepted,
/// every later reply to that request from the same terminal/session is refused.
pub proof fn law_reply_at_most_once_per_session(
    room: RoomView,
    request: u64,
    member: MemberView,
    text: Seq<char>,
    now: u64,
    later: MemberView,
    later_now: u64,
)
    requires
        room.reply_error(request, member, now).is_none(),
        room.append_error(text).is_none(),
        same_slot(member, later),
    ensures
        room.appended(reply_message(request, member, text, now)).reply_error(
            request,
            later,
            later_now,
        ).is_some(),
{
    let msg = reply_message(request, member, text, now);
    let new = room.appended(msg);
    lemma_find_survives_append(room, msg, request);
    let k = room.messages.len() as int;
    assert(new.messages[k].reply_to == Some(request));
    assert(new.messages[k].author == Some(member));
    assert(new.has_reply_from(request, later));
}

/// A reply is never itself an addressed request: in a well-formed room, every
/// attempt to reply to a reply record is refused.
pub proof fn law_no_reply_to_a_reply(
    room: RoomView,
    request: u64,
    member: MemberView,
    text: Seq<char>,
    now: u64,
    other: MemberView,
    other_now: u64,
)
    requires
        room.wf(),
        room.reply_error(request, member, now).is_none(),
        room.append_error(text).is_none(),
    ensures
        room.appended(reply_message(request, member, text, now)).reply_error(
            room.next_sequence,
            other,
            other_now,
        ).is_some(),
{
    let msg = reply_message(request, member, text, now);
    let new = room.appended(msg);
    let s = room.next_sequence;
    let k = room.messages.len() as int;
    assert(new.messages[k].sequence == s);
    lemma_first_from(new.messages, s, 0);
    let c = new.find(s).unwrap();
    if c < k {
        assert(new.messages[c] == room.messages[c]);
        assert(room.messages[c].sequence < s);
    }
    assert(c == k);
}

/// A reply is accepted only from a live session in the request's captured
/// audience, only before the request's expiry.
pub proof fn law_only_addressed_live_sessions_reply_in_time(
    room: RoomView,
    request: u64,
    member: MemberView,
    now: u64,
)
    requires
        room.reply_error(request, member, now).is_none(),
    ensures
        room.find(request).is_some(),
        member.session.is_some(),
        RoomView::addressed_to(room.messages[room.find(request).unwrap()], member),
        room.messages[room.find(request).unwrap()].expires_unix.is_some(),
        now < room.messages[room.find(request).unwrap()].expires_unix.unwrap(),
{
}

/// A group question's audience holds each terminal/session slot once, and
/// every requested member is represented by its first occurrence.
pub proof fn law_group_audience_is_deduplicated(members: Seq<MemberView>)
    ensures
        forall|i: int, j: int|
            0 <= i < j < dedup_slots(members).len() ==> !same_slot(
                #[trigger] dedup_slots(members)[i],
                #[trigger] dedup_slots(members)[j],
            ),
        forall|i: int|
            0 <= i < members.len() ==> exists|k: int|
                0 <= k < dedup_slots(members).len() && same_slot(
                    #[trigger] dedup_slots(members)[k],
                    #[trigger] members[i],
                ),
        forall|k: int|
            0 <= k < dedup_slots(members).len() ==> members.contains(
                #[trigger] dedup_slots(members)[k],
            ),
    decreases members.len(),
{
    if members.len() > 0 {
        let init = members.drop_last();
        law_group_audience_is_deduplicated(init);
        let prefix = dedup_slots(init);
        let m = members.last();
        assert forall|k: int| 0 <= k < prefix.len() implies members.contains(#[trigger] prefix[k]) by {
            assert(init.contains(prefix[k]));
            let w = choose|w: int| 0 <= w < init.len() && init[w] == prefix[k];
            assert(members[w] == prefix[k]);
        }
        assert forall|i: int| 0 <= i < members.len() implies exists|k: int|
            0 <= k < dedup_slots(members).len() && same_slot(
                #[trigger] dedup_slots(members)[k],
                #[trigger] members[i],
            ) by {
            if i < init.len() {
                assert(members[i] == init[i]);
                let k = choose|k: int| 0 <= k < prefix.len() && same_slot(prefix[k], init[i]);
                assert(dedup_slots(members)[k] == prefix[k]);
            } else {
                if exists|k: int| 0 <= k < prefix.len() && same_slot(#[trigger] prefix[k], m) {
                    let k = choose|k: int| 0 <= k < prefix.len() && same_slot(prefix[k], m);
                    assert(dedup_slots(members)[k] == prefix[k]);
                } else {
                    assert(dedup_slots(members)[prefix.len() as int] == m);
                }
            }
        }
        if !(exists|k: int| 0 <= k < prefix.len() && same_slot(#[trigger] prefix[k], m)) {
            assert(members.contains(m)) by {
                assert(members[members.len() - 1] == m);
            }
        }
    }
}
/// Every room operation keeps the transcript well formed: after a post, a
/// group question or a reply, accepted or refused, sequences still strictly
/// increase, stay below the next sequence, and the transcript stays within
/// its bound; an accepted record takes the old next sequence, which then
/// advances by one.
pub proof fn law_every_operation_keeps_sequences(
    room: RoomView,
    text: Seq<char>,
    recipient: Option<MemberView>,
    recipients: Seq<MemberView>,
    request: u64,
    member: MemberView,
    now: u64,
)
    requires
        room.wf(),
    ensures
        room.post_step(text, recipient, now).0.wf(),
        room.post_to_step(text, recipients, now).0.wf(),
        room.reply_step(request, member, text, now).0.wf(),
        room.post_step(text, recipient, now).1 matches Ok(s) ==> s == room.next_sequence
            && room.post_step(text, recipient, now).0.next_sequence == s + 1,
        room.post_to_step(text, recipients, now).1 matches Ok(s) ==> s == room.next_sequence
            && room.post_to_step(text, recipients, now).0.next_sequence == s + 1,
        room.reply_step(request, member, text, now).1 matches Ok(s) ==> s == room.next_sequence
            && room.reply_step(request, member, text, now).0.next_sequence == s + 1,
{
    let m1 = human_message(
        text,
        now,
        recipient,
        Seq::empty(),
        if recipient.is_some() {
            Some(request_expiry(now))
        } else {
            None
        },
    );
    if room.append_error(m1.text).is_none() {
        lemma_append_keeps_wf(room, m1);
    }
    let audience = dedup_slots(recipients);
    let m2 = human_message(
        text,
        now,
        None,
        audience,
        if audience.len() > 0 {
            Some(request_expiry(now))
        } else {
            None
        },
    );
    if room.append_error(m2.text).is_none() {
        lemma_append_keeps_wf(room, m2);
    }
    let m3 = reply_message(request, member, text, now);
    if room.append_error(m3.text).is_none() {
        lemma_append_keeps_wf(room, m3);
    }
}

} // verus!
