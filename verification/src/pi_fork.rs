//! Pi v3 branching: a fresh session that copies one exact branch of the
//! source conversation, ending in a marker that carries the draft to prefill.
//! The source is only read. Only copies that Pi can resume are written: the
//! copied history may not end, or pause anywhere, inside an unresolved batch
//! of tool calls.
use crate::json::{
    at, clone_json, is_text, json_bytes, lemma_array_items, lemma_object_members, members_view, number, str_at, values_of,
    write_json, Json, JsonNumber, JsonView,
};
use crate::token::{clock_entropy, hasher_entropy, le_bytes, sha256, uuid_from_digest, uuid_text, sha256_of};
use crate::text::{chars_of, string_of};
use crate::pi_conversation::{
    ancestry_of, field_of, index_of, plain_user, plain_user_message, texts_view, values_view, PiConversation,
    Records,
};
use crate::schema::{BranchPosition, MessageRef, MessageRefView};
use crate::text::{owned, push_str, str_eq};
use vstd::prelude::*;

verus! {

// ---------------------------------------------------------------------------
// Sets of texts
// ---------------------------------------------------------------------------

/// A set of texts, kept as a list without repeats.
pub struct TextSet {
    pub items: Vec<String>,
}

impl View for TextSet {
    type V = Set<Seq<char>>;

    open spec fn view(&self) -> Set<Seq<char>> {
        texts_view(self.items@).to_set()
    }
}

impl TextSet {
    pub open spec fn wf(self) -> bool {
        texts_view(self.items@).no_duplicates()
    }

    pub fn new() -> (r: Self)
        ensures
            r.wf(),
            r@ == Set::<Seq<char>>::empty(),
    {
        let r = TextSet { items: Vec::new() };
        proof {
            assert(r@ =~= Set::<Seq<char>>::empty());
        }
        r
    }

    fn find(&self, x: &str) -> (r: Option<usize>)
        ensures
            match r {
                Some(k) => k < self.items@.len() && self.items@[k as int]@ == x@,
                None => !self@.contains(x@),
            },
    {
        let mut i: usize = 0;
        while i < self.items.len()
            invariant
                i <= self.items@.len(),
                forall|j: int| 0 <= j < i ==> self.items@[j]@ != x@,
            decreases self.items@.len() - i,
        {
            if str_eq(self.items[i].as_str(), x) {
                return Some(i);
            }
            i += 1;
        }
        proof {
            if self@.contains(x@) {
                let j = choose|j: int| 0 <= j < texts_view(self.items@).len() && texts_view(self.items@)[j] == x@;
                assert(self.items@[j]@ == x@);
            }
        }
        None
    }

    pub fn contains(&self, x: &str) -> (r: bool)
        ensures
            r == self@.contains(x@),
    {
        match self.find(x) {
            Some(k) => {
                proof {
                    assert(texts_view(self.items@)[k as int] == x@);
                }
                true
            },
            None => false,
        }
    }

    pub fn is_empty(&self) -> (r: bool)
        ensures
            r == (self@ == Set::<Seq<char>>::empty()),
    {
        proof {
            if self.items@.len() > 0 {
                assert(self@.contains(texts_view(self.items@)[0]));
            } else {
                assert(self@ =~= Set::<Seq<char>>::empty());
            }
        }
        self.items.len() == 0
    }

    /// Adds `x`; false when it was there already.
    pub fn insert(&mut self, x: &str) -> (r: bool)
        requires
            old(self).wf(),
        ensures
            final(self).wf(),
            final(self)@ == old(self)@.insert(x@),
            r == !old(self)@.contains(x@),
    {
        if self.contains(x) {
            proof {
                assert(self@.insert(x@) =~= self@);
            }
            return false;
        }
        let ghost before = texts_view(self.items@);
        self.items.push(owned(x));
        proof {
            assert(texts_view(self.items@) =~= before.push(x@));
            let after = before.push(x@);
            assert forall|y: Seq<char>| after.contains(y) <==> (before.contains(y) || y == x@) by {
                if before.contains(y) {
                    let j = choose|j: int| 0 <= j < before.len() && before[j] == y;
                    assert(after[j] == y);
                }
                if y == x@ {
                    assert(after[before.len() as int] == y);
                }
                if after.contains(y) {
                    let j = choose|j: int| 0 <= j < after.len() && after[j] == y;
                    if j < before.len() {
                        assert(before[j] == y);
                    }
                }
            }
            assert(self@ =~= before.to_set().insert(x@));
        }
        true
    }

    /// Removes `x`; false when it was not there.
    pub fn remove(&mut self, x: &str) -> (r: bool)
        requires
            old(self).wf(),
        ensures
            final(self).wf(),
            final(self)@ == old(self)@.remove(x@),
            r == old(self)@.contains(x@),
    {
        match self.find(x) {
            Some(k) => {
                let ghost before = texts_view(self.items@);
                self.items.remove(k);
                proof {
                    assert(texts_view(self.items@) =~= before.remove(k as int));
                    assert(before[k as int] == x@);
                    assert(self@ =~= before.to_set().remove(x@)) by {
                        assert forall|y: Seq<char>| before.remove(k as int).contains(y) <==> (before.contains(y)
                            && y != x@) by {
                            if before.contains(y) && y != x@ {
                                let j = choose|j: int| 0 <= j < before.len() && before[j] == y;
                                if j < k {
                                    assert(before.remove(k as int)[j] == y);
                                } else {
                                    assert(before.remove(k as int)[j - 1] == y);
                                }
                            }
                            if before.remove(k as int).contains(y) {
                                let j = choose|j: int| 0 <= j < before.len() - 1 && before.remove(k as int)[j] == y;
                                if j < k {
                                    assert(before[j] == y);
                                } else {
                                    assert(before[j + 1] == y);
                                }
                            }
                        }
                    }
                    assert(before.contains(x@));
                }
                true
            },
            None => {
                proof {
                    assert(self@.remove(x@) =~= self@);
                }
                false
            },
        }
    }
}

// ---------------------------------------------------------------------------
// What a fork may copy
// ---------------------------------------------------------------------------

/// Tool calls awaiting results, all call IDs seen, the entries copied so
/// far, and those that start outside any tool batch.
pub struct ToolState {
    pub pending: Set<Seq<char>>,
    pub seen: Set<Seq<char>>,
    pub ancestors: Set<Seq<char>>,
    pub safe_starts: Set<Seq<char>>,
}

/// The tool calls of an assistant message's first `n` content blocks.
pub open spec fn tool_calls(st: ToolState, blocks: Seq<JsonView>, n: int) -> Result<ToolState, Seq<char>>
    decreases n,
{
    if n <= 0 {
        Ok(st)
    } else {
        match tool_calls(st, blocks, n - 1) {
            Err(e) => Err(e),
            Ok(s) => {
                let b = blocks[n - 1];
                if is_text(at(b, "type"@), "toolCall"@) {
                    match str_at(b, "id"@) {
                        Some(id) => if id.len() == 0 {
                            Err("tool call has no ID"@)
                        } else if s.seen.contains(id) {
                            Err("duplicate tool call ID in fork ancestry"@)
                        } else {
                            Ok(ToolState { seen: s.seen.insert(id), pending: s.pending.insert(id), ..s })
                        },
                        None => Err("tool call has no ID"@),
                    }
                } else {
                    Ok(s)
                }
            },
        }
    }
}

pub open spec fn stop_is(m: JsonView, reason: Seq<char>) -> bool {
    str_at(m, "stopReason"@) == Some(reason)
}

/// The message roles Pi 0.85.1 resumes besides user, assistant and tool results.
pub open spec fn known_role(role: Seq<char>) -> bool {
    role == "user"@ || role == "bashExecution"@ || role == "custom"@ || role == "branchSummary"@ || role
        == "compactionSummary"@
}

/// One copied message: tool results must answer pending calls; any other
/// message needs every call answered first; an assistant message must be
/// complete, and its tool calls become pending.
pub open spec fn check_message(st: ToolState, m: JsonView) -> Result<ToolState, Seq<char>> {
    match str_at(m, "role"@) {
        None => Err("Pi message has no role"@),
        Some(role) => if role == "toolResult"@ {
            match str_at(m, "toolCallId"@) {
                None => Err("tool result has no call ID"@),
                Some(call) => if !st.pending.contains(call) {
                    Err("orphan or duplicate tool result in fork ancestry"@)
                } else {
                    Ok(ToolState { pending: st.pending.remove(call), ..st })
                },
            }
        } else if st.pending != Set::<Seq<char>>::empty() {
            Err("fork ancestry contains unresolved tool calls before another message"@)
        } else if role == "assistant"@ {
            if stop_is(m, "error"@) || stop_is(m, "aborted"@) || stop_is(m, "pending"@) {
                Err("fork ancestry contains an incomplete or failed assistant response"@)
            } else {
                let after = match at(m, "content"@) {
                    JsonView::Array(bs) => tool_calls(st, bs, bs.len() as int),
                    _ => Ok(st),
                };
                match after {
                    Err(e) => Err(e),
                    Ok(s) => if is_text(at(m, "stopReason"@), "toolUse"@) && s.pending == Set::<Seq<char>>::empty() {
                        Err("toolUse response contains no tool calls"@)
                    } else {
                        Ok(s)
                    },
                }
            }
        } else if !known_role(role) {
            Err("unsupported Pi message role: "@ + role)
        } else {
            Ok(st)
        },
    }
}

/// One copied entry. A compaction must keep an entry already copied that
/// starts outside any tool batch; context messages cannot interrupt a batch.
pub open spec fn check_entry(st: ToolState, e: JsonView) -> Result<ToolState, Seq<char>> {
    let st0 = if st.pending == Set::<Seq<char>>::empty() {
        match str_at(e, "id"@) {
            Some(id) => ToolState { safe_starts: st.safe_starts.insert(id), ..st },
            None => st,
        }
    } else {
        st
    };
    match str_at(e, "type"@) {
        None => Err("Pi entry has no type"@),
        Some(kind) => {
            let c = if kind == "compaction"@ {
                if st0.pending != Set::<Seq<char>>::empty() {
                    Err("compaction interrupts an unresolved tool batch"@)
                } else {
                    match str_at(e, "firstKeptEntryId"@) {
                        None => Err(
                            "Pi 0.85.1 requires firstKeptEntryId; retainedTail-only compactions are unsupported"@,
                        ),
                        Some(kept) => if !st0.ancestors.contains(kept) {
                            Err("compaction retained entry is not in the fork ancestry"@)
                        } else if !st0.safe_starts.contains(kept) {
                            Err("compaction retained boundary splits a tool batch"@)
                        } else {
                            Ok(st0)
                        },
                    }
                }
            } else {
                Ok(st0)
            };
            match c {
                Err(x) => Err(x),
                Ok(s1) => if (kind == "custom_message"@ || kind == "branch_summary"@) && s1.pending
                    != Set::<Seq<char>>::empty() {
                    Err("context message interrupts an unresolved tool batch"@)
                } else {
                    let s2 = if kind == "message"@ {
                        check_message(s1, at(e, "message"@))
                    } else {
                        Ok(s1)
                    };
                    match s2 {
                        Err(x) => Err(x),
                        Ok(s3) => Ok(
                            match str_at(e, "id"@) {
                                Some(id) => ToolState { ancestors: s3.ancestors.insert(id), ..s3 },
                                None => s3,
                            },
                        ),
                    }
                },
            }
        },
    }
}

pub open spec fn empty_tools() -> ToolState {
    ToolState {
        pending: Set::empty(),
        seen: Set::empty(),
        ancestors: Set::empty(),
        safe_starts: Set::empty(),
    }
}

/// The first `n` entries, checked in order.
pub open spec fn check_entries(es: Seq<JsonView>, n: int) -> Result<ToolState, Seq<char>>
    decreases n,
{
    if n <= 0 {
        Ok(empty_tools())
    } else {
        match check_entries(es, n - 1) {
            Err(e) => Err(e),
            Ok(st) => check_entry(st, es[n - 1]),
        }
    }
}

/// Whether a branch can be copied: every entry passes, and no tool call is
/// left without its result at the cut.
pub open spec fn context_check(es: Seq<JsonView>) -> Result<(), Seq<char>> {
    match check_entries(es, es.len() as int) {
        Err(e) => Err(e),
        Ok(st) => if st.pending != Set::<Seq<char>>::empty() {
            Err("selected cut leaves unresolved tool calls; select a completed response instead"@)
        } else {
            Ok(())
        },
    }
}

struct Tools {
    pending: TextSet,
    seen: TextSet,
    ancestors: TextSet,
    safe_starts: TextSet,
}

impl Tools {
    spec fn wf(self) -> bool {
        self.pending.wf() && self.seen.wf() && self.ancestors.wf() && self.safe_starts.wf()
    }

    spec fn state(self) -> ToolState {
        ToolState {
            pending: self.pending@,
            seen: self.seen@,
            ancestors: self.ancestors@,
            safe_starts: self.safe_starts@,
        }
    }
}

fn check_calls(tools: &mut Tools, bs: &Vec<Json>) -> (r: Result<(), String>)
    requires
        old(tools).wf(),
    ensures
        final(tools).wf(),
        match tool_calls(old(tools).state(), values_of(bs@), bs@.len() as int) {
            Ok(st) => r is Ok && final(tools).state() == st,
            Err(e) => r is Err && r->Err_0@ == e,
        },
{
    let ghost st0 = tools.state();
    let mut i: usize = 0;
    while i < bs.len()
        invariant
            tools.wf(),
            st0 == old(tools).state(),
            i <= bs@.len(),
            tool_calls(st0, values_of(bs@), i as int) == Ok::<ToolState, Seq<char>>(tools.state()),
        decreases bs@.len() - i,
    {
        let b = &bs[i];
        proof {
            assert(values_of(bs@)[i as int] == b@);
        }
        if b.text_at("type", "toolCall") {
            let id = match b.str_at("id") {
                Some(id) => id,
                None => {
                    proof {
                        reveal_strlit("tool call has no ID");
                        assert(tool_calls(st0, values_of(bs@), i + 1) == Err::<ToolState, Seq<char>>(
                            "tool call has no ID"@,
                        ));
                        lemma_tool_calls_error(st0, values_of(bs@), i + 1, bs@.len() as int);
                    }
                    return Err(owned("tool call has no ID"));
                },
            };
            if id.as_bytes().len() == 0 {
                proof {
                    crate::editor::lemma_blen_zero(id@);
                    lemma_tool_calls_error(st0, values_of(bs@), i + 1, bs@.len() as int);
                }
                return Err(owned("tool call has no ID"));
            }
            proof {
                crate::editor::lemma_blen_zero(id@);
            }
            if !tools.seen.insert(id) {
                proof {
                    lemma_tool_calls_error(st0, values_of(bs@), i + 1, bs@.len() as int);
                }
                return Err(owned("duplicate tool call ID in fork ancestry"));
            }
            tools.pending.insert(id);
        }
        i += 1;
    }
    Ok(())
}

proof fn lemma_tool_calls_error(st: ToolState, bs: Seq<JsonView>, a: int, b: int)
    requires
        1 <= a <= b,
        tool_calls(st, bs, a) is Err,
    ensures
        tool_calls(st, bs, b) == tool_calls(st, bs, a),
    decreases b - a,
{
    if a < b {
        lemma_tool_calls_error(st, bs, a, b - 1);
    }
}

fn check_message_exec(tools: &mut Tools, m: &Json) -> (r: Result<(), String>)
    requires
        old(tools).wf(),
    ensures
        final(tools).wf(),
        match check_message(old(tools).state(), m@) {
            Ok(st) => r is Ok && final(tools).state() == st,
            Err(e) => r is Err && r->Err_0@ == e,
        },
{
    let role = match m.str_at("role") {
        Some(r) => r,
        None => {
            return Err(owned("Pi message has no role"));
        },
    };
    if str_eq(role, "toolResult") {
        let call = match m.str_at("toolCallId") {
            Some(c) => c,
            None => {
                return Err(owned("tool result has no call ID"));
            },
        };
        if !tools.pending.remove(call) {
            return Err(owned("orphan or duplicate tool result in fork ancestry"));
        }
        return Ok(());
    }
    if !tools.pending.is_empty() {
        return Err(owned("fork ancestry contains unresolved tool calls before another message"));
    }
    if str_eq(role, "assistant") {
        let failed = match m.str_at("stopReason") {
            Some(s) => str_eq(s, "error") || str_eq(s, "aborted") || str_eq(s, "pending"),
            None => false,
        };
        if failed {
            return Err(owned("fork ancestry contains an incomplete or failed assistant response"));
        }
        match m.get("content") {
            Some(Json::Array(bs)) => {
                proof {
                    lemma_array_items(*bs);
                }
                check_calls(tools, bs)?;
            },
            _ => {},
        }
        if m.text_at("stopReason", "toolUse") && tools.pending.is_empty() {
            return Err(owned("toolUse response contains no tool calls"));
        }
        return Ok(());
    }
    if !(str_eq(role, "user") || str_eq(role, "bashExecution") || str_eq(role, "custom") || str_eq(
        role,
        "branchSummary",
    ) || str_eq(role, "compactionSummary")) {
        let mut e = owned("unsupported Pi message role: ");
        push_str(&mut e, role);
        return Err(e);
    }
    Ok(())
}

fn check_entry_exec(tools: &mut Tools, e: &Json) -> (r: Result<(), String>)
    requires
        old(tools).wf(),
    ensures
        final(tools).wf(),
        match check_entry(old(tools).state(), e@) {
            Ok(st) => r is Ok && final(tools).state() == st,
            Err(x) => r is Err && r->Err_0@ == x,
        },
{
    if tools.pending.is_empty() {
        match e.str_at("id") {
            Some(id) => {
                tools.safe_starts.insert(id);
            },
            None => {},
        }
    }
    let kind = match e.str_at("type") {
        Some(k) => k,
        None => {
            return Err(owned("Pi entry has no type"));
        },
    };
    if str_eq(kind, "compaction") {
        if !tools.pending.is_empty() {
            return Err(owned("compaction interrupts an unresolved tool batch"));
        }
        let kept = match e.str_at("firstKeptEntryId") {
            Some(k) => k,
            None => {
                return Err(
                    owned(
                        "Pi 0.85.1 requires firstKeptEntryId; retainedTail-only compactions are unsupported",
                    ),
                );
            },
        };
        if !tools.ancestors.contains(kept) {
            return Err(owned("compaction retained entry is not in the fork ancestry"));
        }
        if !tools.safe_starts.contains(kept) {
            return Err(owned("compaction retained boundary splits a tool batch"));
        }
    }
    if (str_eq(kind, "custom_message") || str_eq(kind, "branch_summary")) && !tools.pending.is_empty() {
        return Err(owned("context message interrupts an unresolved tool batch"));
    }
    if str_eq(kind, "message") {
        let null = Json::Null;
        let m: &Json = match e.get("message") {
            Some(m) => m,
            None => &null,
        };
        proof {
            assert(null@ == JsonView::Null);
            assert(m@ == at(e@, "message"@));
        }
        check_message_exec(tools, m)?;
    }
    match e.str_at("id") {
        Some(id) => {
            tools.ancestors.insert(id);
        },
        None => {},
    }
    Ok(())
}

/// Checks a branch, root first, before it is copied (`validate_context`).
pub fn validate_context(entries: &Vec<&Json>) -> (r: Result<(), String>)
    ensures
        match context_check(entries@.map_values(|e: &Json| e@)) {
            Ok(_) => r is Ok,
            Err(e) => r is Err && r->Err_0@ == e,
        },
{
    let ghost es = entries@.map_values(|e: &Json| e@);
    let mut tools = Tools {
        pending: TextSet::new(),
        seen: TextSet::new(),
        ancestors: TextSet::new(),
        safe_starts: TextSet::new(),
    };
    let mut i: usize = 0;
    while i < entries.len()
        invariant
            es == entries@.map_values(|e: &Json| e@),
            tools.wf(),
            i <= entries@.len(),
            check_entries(es, i as int) == Ok::<ToolState, Seq<char>>(tools.state()),
        decreases entries@.len() - i,
    {
        proof {
            assert(es[i as int] == entries@[i as int]@);
        }
        match check_entry_exec(&mut tools, entries[i]) {
            Ok(_) => {},
            Err(e) => {
                proof {
                    lemma_entries_error(es, i + 1, es.len() as int);
                }
                return Err(e);
            },
        }
        i += 1;
    }
    if !tools.pending.is_empty() {
        return Err(owned("selected cut leaves unresolved tool calls; select a completed response instead"));
    }
    Ok(())
}

proof fn lemma_entries_error(es: Seq<JsonView>, a: int, b: int)
    requires
        1 <= a <= b,
        check_entries(es, a) is Err,
    ensures
        check_entries(es, b) == check_entries(es, a),
    decreases b - a,
{
    if a < b {
        lemma_entries_error(es, a, b - 1);
    }
}

// ---------------------------------------------------------------------------
// The draft of a rewrite
// ---------------------------------------------------------------------------

/// The texts of the first `n` blocks run together.
pub open spec fn block_draft(bs: Seq<JsonView>, n: int) -> Result<Seq<char>, Seq<char>>
    decreases n,
{
    if n <= 0 {
        Ok(Seq::empty())
    } else {
        match block_draft(bs, n - 1) {
            Err(e) => Err(e),
            Ok(t) => match str_at(bs[n - 1], "text"@) {
                Some(x) => Ok(t + x),
                None => Err("user text block has no text"@),
            },
        }
    }
}

/// The draft a rewrite puts back in the editor: the content string, or the
/// texts of all its blocks run together.
pub open spec fn draft_of(content: JsonView) -> Result<Seq<char>, Seq<char>> {
    match content {
        JsonView::Str(t) => Ok(t),
        JsonView::Array(bs) => block_draft(bs, bs.len() as int),
        _ => Err("unsupported user content"@),
    }
}

pub fn draft_text(content: &Json) -> (r: Result<String, String>)
    ensures
        match draft_of(content@) {
            Ok(t) => r is Ok && r->Ok_0@ == t,
            Err(e) => r is Err && r->Err_0@ == e,
        },
{
    match content {
        Json::Str(t) => Ok(owned(t.as_str())),
        Json::Array(bs) => {
            proof {
                lemma_array_items(*bs);
            }
            let mut out = String::new();
            let mut i: usize = 0;
            while i < bs.len()
                invariant
                    *content == Json::Array(*bs),
                    content@ == JsonView::Array(values_of(bs@)),
                    i <= bs@.len(),
                    block_draft(values_of(bs@), i as int) == Ok::<Seq<char>, Seq<char>>(out@),
                decreases bs@.len() - i,
            {
                proof {
                    assert(values_of(bs@)[i as int] == bs@[i as int]@);
                }
                match bs[i].str_at("text") {
                    Some(x) => push_str(&mut out, x),
                    None => {
                        proof {
                            assert(block_draft(values_of(bs@), i + 1) == Err::<Seq<char>, Seq<char>>(
                                "user text block has no text"@,
                            ));
                            lemma_draft_error(values_of(bs@), i + 1, bs@.len() as int);
                        }
                        return Err(owned("user text block has no text"));
                    },
                }
                i += 1;
            }
            Ok(out)
        },
        _ => Err(owned("unsupported user content")),
    }
}

proof fn lemma_draft_error(bs: Seq<JsonView>, a: int, b: int)
    requires
        1 <= a <= b,
        block_draft(bs, a) is Err,
    ensures
        block_draft(bs, b) == block_draft(bs, a),
    decreases b - a,
{
    if a < b {
        lemma_draft_error(bs, a, b - 1);
    }
}

// ---------------------------------------------------------------------------
// Choosing what to copy
// ---------------------------------------------------------------------------

/// The entry a reference names, if it still names it with the same ancestry.
pub open spec fn current_entry(c: PiConversation, reference: MessageRefView) -> Result<int, Seq<char>> {
    match index_of(c.records().ids, reference.entry_id, 0) {
        None => Err("that Pi message is gone"@),
        Some(k) => if reference == (MessageRefView {
            session_path: c.path@,
            session_id: field_of(c.header@, "id"@)->Ok_0,
            entry_id: reference.entry_id,
            ancestry_hash: c.records().hashes[k],
        }) {
            Ok(k)
        } else {
            Err("Pi conversation changed; search again before branching"@)
        },
    }
}

/// The entries at indices `idx`.
pub open spec fn entries_at(r: Records, idx: Seq<int>) -> Seq<JsonView> {
    idx.map_values(|i: int| r.entries[i])
}

/// What a fork copies: the branch (indices, root first), the content of the
/// draft and its text. Continuing copies the whole branch to the selected
/// message; rewriting stops before the selected user message and puts its
/// text in the draft.
pub open spec fn fork_source_of(c: PiConversation, reference: MessageRefView, position: BranchPosition) -> Result<
    (Seq<int>, JsonView, Seq<char>),
    Seq<char>,
> {
    match current_entry(c, reference) {
        Err(e) => Err(e),
        Ok(k) => {
            let r = c.records();
            let v = r.entries[k];
            if !is_text(at(v, "type"@), "message"@) {
                Err("branch selection must be a Pi message"@)
            } else {
                let anc = ancestry_of(r, k);
                let chosen: Result<(Seq<int>, JsonView, Seq<char>), Seq<char>> = match position {
                    BranchPosition::Rewrite => if !plain_user(at(v, "message"@)) {
                        Err("rewrite requires a text-only user message; images must be reattached manually"@)
                    } else {
                        let content = at(at(v, "message"@), "content"@);
                        match draft_of(content) {
                            Err(e) => Err(e),
                            Ok(t) => Ok((anc.drop_last(), content, t)),
                        }
                    },
                    BranchPosition::Continue => Ok((anc, JsonView::Null, Seq::empty())),
                };
                match chosen {
                    Err(e) => Err(e),
                    Ok(x) => match context_check(entries_at(r, x.0)) {
                        Err(e) => Err(e),
                        Ok(_) => Ok(x),
                    },
                }
            }
        },
    }
}

/// The branch, draft content and draft text a fork copies.
pub fn fork_source(c: &PiConversation, reference: &MessageRef, position: BranchPosition) -> (r: Result<
    (Vec<usize>, Json, String),
    String,
>)
    requires
        c.wf(),
    ensures
        match fork_source_of(*c, reference@, position) {
            Ok(x) => r is Ok && r->Ok_0.0@.len() == x.0.len() && (forall|i: int|
                0 <= i < x.0.len() ==> r->Ok_0.0@[i] as int == #[trigger] x.0[i]) && r->Ok_0.1@ == x.1 && r->Ok_0.2@
                == x.2,
            Err(e) => r is Err && r->Err_0@ == e,
        },
        r matches Ok(x) ==> forall|i: int| 0 <= i < x.0@.len() ==> #[trigger] x.0@[i] < c.entries@.len(),
{
    c.validate(reference)?;
    let k = c.entry_index(reference.entry_id.as_str())?;
    let ghost rs = c.records();
    let v = &c.entries[k];
    proof {
        assert(values_view(c.entries@)[k as int] == v@);
        assert(current_entry(*c, reference@) == Ok::<int, Seq<char>>(k as int));
    }
    if !v.text_at("type", "message") {
        return Err(owned("branch selection must be a Pi message"));
    }
    let mut anc = c.ancestry_indices(k);
    let null = Json::Null;
    let m: &Json = match v.get("message") {
        Some(m) => m,
        None => &null,
    };
    proof {
        assert(null@ == JsonView::Null);
        assert(m@ == at(v@, "message"@));
    }
    let (content, text) = match position {
        BranchPosition::Rewrite => {
            if !plain_user_message(m) {
                return Err(owned("rewrite requires a text-only user message; images must be reattached manually"));
            }
            let content = match m.get("content") {
                Some(x) => clone_json(x),
                None => Json::Null,
            };
            proof {
                assert(content@ == at(m@, "content"@));
            }
            let text = draft_text(&content)?;
            let ghost before = anc@;
            anc.pop();
            proof {
                assert(anc@ =~= before.drop_last());
            }
            (content, text)
        },
        BranchPosition::Continue => (Json::Null, String::new()),
    };
    let ghost chosen = anc@.map_values(|i: usize| i as int);
    proof {
        let spec_anc = match position {
            BranchPosition::Rewrite => ancestry_of(rs, k as int).drop_last(),
            BranchPosition::Continue => ancestry_of(rs, k as int),
        };
        assert(chosen =~= spec_anc);
    }
    let mut entries: Vec<&Json> = Vec::new();
    let mut i: usize = 0;
    while i < anc.len()
        invariant
            c.wf(),
            rs == c.records(),
            forall|q: int| 0 <= q < anc@.len() ==> anc@[q] < c.entries@.len(),
            i <= anc@.len(),
            entries@.len() == i,
            forall|q: int| 0 <= q < i ==> (#[trigger] entries@[q])@ == rs.entries[anc@[q] as int],
        decreases anc@.len() - i,
    {
        proof {
            assert(values_view(c.entries@)[anc@[i as int] as int] == c.entries@[anc@[i as int] as int]@);
        }
        entries.push(&c.entries[anc[i]]);
        i += 1;
    }
    proof {
        assert(entries@.map_values(|e: &Json| e@) =~= entries_at(rs, chosen));
    }
    validate_context(&entries)?;
    Ok((anc, content, text))
}

// ---------------------------------------------------------------------------
// Fresh identities
// ---------------------------------------------------------------------------

/// A UUID-shaped version 4 identity from the SHA-256 of the clock, std's
/// randomly seeded hasher keys and a per-caller `sequence`. This is not a
/// security credential; exclusive file creation is the final collision guard.
pub fn fresh_identity(sequence: u64) -> (r: String)
    ensures
        crate::token::uuid_shaped(r@),
{
    let mut data: Vec<u8> = Vec::new();
    le_bytes(clock_entropy(), &mut data);
    le_bytes(hasher_entropy(), &mut data);
    le_bytes(sequence, &mut data);
    let digest = sha256(data.as_slice());
    uuid_from_digest(&digest, 0x40)
}

/// An 8-character entry ID not yet in `used`, which it joins. Each attempt
/// uses up one value of `sequence`; `None` only once the sequence has run out.
pub fn unused_entry_id(used: &mut TextSet, sequence: &mut u64) -> (r: Option<String>)
    requires
        old(used).wf(),
    ensures
        final(used).wf(),
        *final(sequence) >= *old(sequence),
        r is Some ==> *final(sequence) > *old(sequence),
        r is None ==> *final(sequence) == u64::MAX,
        match r {
            Some(id) => id@.len() == 8 && !old(used)@.contains(id@) && final(used)@ == old(used)@.insert(id@),
            None => final(used)@ == old(used)@,
        },
{
    while *sequence < u64::MAX
        invariant
            used.wf(),
            used@ == old(used)@,
            *sequence >= *old(sequence),
        decreases u64::MAX - *sequence,
    {
        let full = fresh_identity(*sequence);
        *sequence = *sequence + 1;
        let cs = chars_of(full.as_str());
        let mut head: Vec<char> = Vec::new();
        let mut j: usize = 0;
        while j < 8
            invariant
                cs@ == full@,
                full@.len() == 36,
                j <= 8,
                head@ == full@.take(j as int),
            decreases 8 - j,
        {
            head.push(cs[j]);
            j += 1;
            proof {
                assert(head@ =~= full@.take(j as int));
            }
        }
        let id = string_of(&head);
        if used.insert(id.as_str()) {
            return Some(id);
        }
    }
    None
}

// ---------------------------------------------------------------------------
// The fork's session file
// ---------------------------------------------------------------------------

/// The current time in nanoseconds since the Unix epoch
/// (`OffsetDateTime::now_utc().unix_timestamp_nanos()`); nothing is promised
/// of it.
#[verifier::external_body]
fn clock_nanos() -> i128 {
    time::OffsetDateTime::now_utc().unix_timestamp_nanos()
}

/// The RFC 3339 text of the UTC time `unix_nanos` nanoseconds after the Unix
/// epoch, or the error's text for a time that cannot be expressed.
pub uninterp spec fn rfc3339_text(unix_nanos: i128) -> Result<Seq<char>, Seq<char>>;

/// `OffsetDateTime::from_unix_timestamp_nanos`, then
/// `format(&Rfc3339)`: the RFC 3339 text of a UTC time, or the error's text.
#[verifier::external_body]
fn rfc3339(unix_nanos: i128) -> (r: Result<String, String>)
    ensures
        match r {
            Ok(t) => rfc3339_text(unix_nanos) == Ok::<Seq<char>, Seq<char>>(t@),
            Err(e) => rfc3339_text(unix_nanos) == Err::<Seq<char>, Seq<char>>(e@),
        },
{
    let t = time::OffsetDateTime::from_unix_timestamp_nanos(unix_nanos).map_err(|e| e.to_string())?;
    t.format(&time::format_description::well_known::Rfc3339).map_err(|e| e.to_string())
}

pub open spec fn text_json(s: Seq<char>) -> JsonView {
    JsonView::Str(s)
}

/// The header of the fork: a fresh v3 session in the source's directory,
/// pointing back at the source file.
pub open spec fn fork_header_view(cwd: JsonView, source: Seq<char>, session_id: Seq<char>, timestamp: Seq<char>) -> JsonView {
    JsonView::Object(
        seq![
            ("type"@, text_json("session"@)),
            ("version"@, JsonView::Number(Some(3), crate::presentation::decimal(3))),
            ("id"@, text_json(session_id)),
            ("timestamp"@, text_json(timestamp)),
            ("cwd"@, cwd),
            ("parentSession"@, text_json(source)),
        ],
    )
}

pub open spec fn ref_json(r: MessageRefView) -> JsonView {
    JsonView::Object(
        seq![
            ("session_path"@, text_json(r.session_path)),
            ("session_id"@, text_json(r.session_id)),
            ("entry_id"@, text_json(r.entry_id)),
            ("ancestry_hash"@, text_json(r.ancestry_hash)),
        ],
    )
}

pub open spec fn position_text(p: BranchPosition) -> Seq<char> {
    match p {
        BranchPosition::Rewrite => "rewrite"@,
        BranchPosition::Continue => "continue"@,
    }
}

/// The marker that ends the copied branch: it authorizes one draft prefill
/// for this session and launch token.
pub open spec fn marker_view(
    marker_id: Seq<char>,
    endpoint: Option<Seq<char>>,
    timestamp: Seq<char>,
    session_id: Seq<char>,
    launch_token: Seq<char>,
    source: MessageRefView,
    position: BranchPosition,
    content: JsonView,
    text: Seq<char>,
) -> JsonView {
    JsonView::Object(
        seq![
            ("type"@, text_json("custom"@)),
            ("customType"@, text_json("herdr.fork"@)),
            ("id"@, text_json(marker_id)),
            (
                "parentId"@,
                match endpoint {
                    Some(e) => text_json(e),
                    None => JsonView::Null,
                },
            ),
            ("timestamp"@, text_json(timestamp)),
            (
                "data"@,
                JsonView::Object(
                    seq![
                        ("schemaVersion"@, JsonView::Number(Some(1), crate::presentation::decimal(1))),
                        ("sessionId"@, text_json(session_id)),
                        ("launchToken"@, text_json(launch_token)),
                        ("source"@, ref_json(source)),
                        ("position"@, text_json(position_text(position))),
                        ("draftContent"@, content),
                        ("draftText"@, text_json(text)),
                    ],
                ),
            ),
        ],
    )
}

/// Clears the source's session name for the new session.
pub open spec fn info_view(id: Seq<char>, marker_id: Seq<char>, timestamp: Seq<char>) -> JsonView {
    JsonView::Object(
        seq![
            ("type"@, text_json("session_info"@)),
            ("id"@, text_json(id)),
            ("parentId"@, text_json(marker_id)),
            ("timestamp"@, text_json(timestamp)),
            ("name"@, text_json(""@)),
        ],
    )
}

pub open spec fn ticket_view(session_id: Seq<char>, launch_token: Seq<char>) -> JsonView {
    JsonView::Object(seq![("sessionId"@, text_json(session_id)), ("launchToken"@, text_json(launch_token))])
}

/// JSON lines: each record's text and a newline.
pub open spec fn lines_bytes(rs: Seq<JsonView>) -> Seq<u8>
    decreases rs.len(),
{
    if rs.len() == 0 {
        seq![]
    } else {
        lines_bytes(rs.drop_last()) + json_bytes(rs.last()) + seq![10u8]
    }
}

pub open spec fn ids_of(es: Seq<JsonView>) -> Set<Seq<char>> {
    Set::new(|id: Seq<char>| exists|i: int| 0 <= i < es.len() && str_at(es[i], "id"@) == Some(id))
}

pub open spec fn has_session_info(es: Seq<JsonView>) -> bool {
    exists|i: int| 0 <= i < es.len() && is_text(at(#[trigger] es[i], "type"@), "session_info"@)
}

/// A prepared fork: the bytes of its session file and of its prefill ticket.
pub struct ForkPlan {
    pub session_id: String,
    pub launch_token: String,
    pub timestamp: String,
    pub marker_id: String,
    pub info_id: Option<String>,
    pub session_bytes: Vec<u8>,
    pub ticket_bytes: Vec<u8>,
}

/// The records of the fork's session file.
pub open spec fn fork_records(c: PiConversation, source: MessageRefView, position: BranchPosition, chosen: (
    Seq<int>,
    JsonView,
    Seq<char>,
), p: ForkPlan) -> Seq<JsonView> {
    let es = entries_at(c.records(), chosen.0);
    let endpoint = if es.len() > 0 {
        str_at(es.last(), "id"@)
    } else {
        None
    };
    seq![fork_header_view(at(c.header@, "cwd"@), c.path@, p.session_id@, p.timestamp@)] + es + seq![
        marker_view(
            p.marker_id@,
            endpoint,
            p.timestamp@,
            p.session_id@,
            p.launch_token@,
            source,
            position,
            chosen.1,
            chosen.2,
        ),
    ] + match p.info_id {
        Some(i) => seq![info_view(i@, p.marker_id@, p.timestamp@)],
        None => seq![],
    }
}

fn text_value(s: &str) -> (r: Json)
    ensures
        r@ == text_json(s@),
{
    Json::Str(owned(s))
}

fn member(key: &str, v: Json) -> (r: (String, Json))
    ensures
        r.0@ == key@,
        r.1@ == v@,
{
    (owned(key), v)
}

fn push_line(out: &mut Vec<u8>, v: &Json)
    ensures
        final(out)@ == old(out)@ + json_bytes(v@) + seq![10u8],
{
    let mut b = write_json(v);
    out.append(&mut b);
    out.push(10u8);
}

fn header_json(cwd: &Json, source: &str, session_id: &str, timestamp: &str) -> (r: Json)
    ensures
        r@ == fork_header_view(cwd@, source@, session_id@, timestamp@),
{
    let mut m: Vec<(String, Json)> = Vec::new();
    m.push(member("type", text_value("session")));
    m.push(member("version", number(3)));
    m.push(member("id", text_value(session_id)));
    m.push(member("timestamp", text_value(timestamp)));
    m.push(member("cwd", clone_json(cwd)));
    m.push(member("parentSession", text_value(source)));
    proof {
        lemma_object_members(m);
        assert(members_view(m@) =~= seq![
            ("type"@, text_json("session"@)),
            ("version"@, JsonView::Number(Some(3), crate::presentation::decimal(3))),
            ("id"@, text_json(session_id@)),
            ("timestamp"@, text_json(timestamp@)),
            ("cwd"@, cwd@),
            ("parentSession"@, text_json(source@)),
        ]);
    }
    Json::Object(m)
}

fn ref_value(r: &MessageRef) -> (j: Json)
    ensures
        j@ == ref_json(r@),
{
    let mut m: Vec<(String, Json)> = Vec::new();
    m.push(member("session_path", text_value(r.session_path.as_str())));
    m.push(member("session_id", text_value(r.session_id.as_str())));
    m.push(member("entry_id", text_value(r.entry_id.as_str())));
    m.push(member("ancestry_hash", text_value(r.ancestry_hash.as_str())));
    proof {
        lemma_object_members(m);
        assert(members_view(m@) =~= seq![
            ("session_path"@, text_json(r@.session_path)),
            ("session_id"@, text_json(r@.session_id)),
            ("entry_id"@, text_json(r@.entry_id)),
            ("ancestry_hash"@, text_json(r@.ancestry_hash)),
        ]);
    }
    Json::Object(m)
}

fn marker_json(
    marker_id: &str,
    endpoint: Option<&str>,
    timestamp: &str,
    session_id: &str,
    launch_token: &str,
    source: &MessageRef,
    position: BranchPosition,
    content: Json,
    text: &str,
) -> (r: Json)
    ensures
        r@ == marker_view(
            marker_id@,
            opt_str(endpoint),
            timestamp@,
            session_id@,
            launch_token@,
            source@,
            position,
            content@,
            text@,
        ),
{
    let ghost cv = content@;
    let mut d: Vec<(String, Json)> = Vec::new();
    d.push(member("schemaVersion", number(1)));
    d.push(member("sessionId", text_value(session_id)));
    d.push(member("launchToken", text_value(launch_token)));
    d.push(member("source", ref_value(source)));
    d.push(
        member(
            "position",
            text_value(
                match position {
                    BranchPosition::Rewrite => "rewrite",
                    BranchPosition::Continue => "continue",
                },
            ),
        ),
    );
    d.push(member("draftContent", content));
    d.push(member("draftText", text_value(text)));
    proof {
        lemma_object_members(d);
        assert(members_view(d@) =~= seq![
            ("schemaVersion"@, JsonView::Number(Some(1), crate::presentation::decimal(1))),
            ("sessionId"@, text_json(session_id@)),
            ("launchToken"@, text_json(launch_token@)),
            ("source"@, ref_json(source@)),
            ("position"@, text_json(position_text(position))),
            ("draftContent"@, cv),
            ("draftText"@, text_json(text@)),
        ]);
    }
    let data = Json::Object(d);
    proof {
        assert(data@ == JsonView::Object(
            seq![
                ("schemaVersion"@, JsonView::Number(Some(1), crate::presentation::decimal(1))),
                ("sessionId"@, text_json(session_id@)),
                ("launchToken"@, text_json(launch_token@)),
                ("source"@, ref_json(source@)),
                ("position"@, text_json(position_text(position))),
                ("draftContent"@, cv),
                ("draftText"@, text_json(text@)),
            ],
        ));
    }
    let ghost ev: Option<Seq<char>> = opt_str(endpoint);
    let parent = match endpoint {
        Some(e) => text_value(e),
        None => Json::Null,
    };
    let ghost pv = parent@;
    proof {
        assert(pv == match ev {
            Some(e) => text_json(e),
            None => JsonView::Null,
        });
        assert(text_json(position_text(position)) == match position {
            BranchPosition::Rewrite => text_json("rewrite"@),
            BranchPosition::Continue => text_json("continue"@),
        });
    }
    let ghost dv = data@;
    let mut m: Vec<(String, Json)> = Vec::new();
    m.push(member("type", text_value("custom")));
    m.push(member("customType", text_value("herdr.fork")));
    m.push(member("id", text_value(marker_id)));
    m.push(member("parentId", parent));
    m.push(member("timestamp", text_value(timestamp)));
    m.push(member("data", data));
    proof {
        lemma_object_members(m);
        assert(members_view(m@) =~= seq![
            ("type"@, text_json("custom"@)),
            ("customType"@, text_json("herdr.fork"@)),
            ("id"@, text_json(marker_id@)),
            ("parentId"@, pv),
            ("timestamp"@, text_json(timestamp@)),
            ("data"@, dv),
        ]);
    }
    proof {
        let full = seq![
            ("type"@, text_json("custom"@)),
            ("customType"@, text_json("herdr.fork"@)),
            ("id"@, text_json(marker_id@)),
            (
                "parentId"@,
                match ev {
                    Some(e) => text_json(e),
                    None => JsonView::Null,
                },
            ),
            ("timestamp"@, text_json(timestamp@)),
            (
                "data"@,
                JsonView::Object(
                    seq![
                        ("schemaVersion"@, JsonView::Number(Some(1), crate::presentation::decimal(1))),
                        ("sessionId"@, text_json(session_id@)),
                        ("launchToken"@, text_json(launch_token@)),
                        ("source"@, ref_json(source@)),
                        ("position"@, text_json(position_text(position))),
                        ("draftContent"@, cv),
                        ("draftText"@, text_json(text@)),
                    ],
                ),
            ),
        ];
        assert(members_view(m@) =~= full);
        assert(marker_view(marker_id@, ev, timestamp@, session_id@, launch_token@, source@, position, cv, text@)
            == JsonView::Object(full));
    }
    Json::Object(m)
}

pub open spec fn opt_str(o: Option<&str>) -> Option<Seq<char>> {
    match o {
        Some(e) => Some(e@),
        None => None,
    }
}

fn info_json(id: &str, marker_id: &str, timestamp: &str) -> (r: Json)
    ensures
        r@ == info_view(id@, marker_id@, timestamp@),
{
    let mut m: Vec<(String, Json)> = Vec::new();
    m.push(member("type", text_value("session_info")));
    m.push(member("id", text_value(id)));
    m.push(member("parentId", text_value(marker_id)));
    m.push(member("timestamp", text_value(timestamp)));
    m.push(member("name", text_value("")));
    proof {
        lemma_object_members(m);
        assert(members_view(m@) =~= seq![
            ("type"@, text_json("session_info"@)),
            ("id"@, text_json(id@)),
            ("parentId"@, text_json(marker_id@)),
            ("timestamp"@, text_json(timestamp@)),
            ("name"@, text_json(""@)),
        ]);
    }
    Json::Object(m)
}

fn ticket_json(session_id: &str, launch_token: &str) -> (r: Json)
    ensures
        r@ == ticket_view(session_id@, launch_token@),
{
    let mut m: Vec<(String, Json)> = Vec::new();
    m.push(member("sessionId", text_value(session_id)));
    m.push(member("launchToken", text_value(launch_token)));
    proof {
        lemma_object_members(m);
        assert(members_view(m@) =~= seq![
            ("sessionId"@, text_json(session_id@)),
            ("launchToken"@, text_json(launch_token@)),
        ]);
    }
    Json::Object(m)
}

proof fn lemma_lines_push(rs: Seq<JsonView>, v: JsonView)
    ensures
        lines_bytes(rs.push(v)) == lines_bytes(rs) + json_bytes(v) + seq![10u8],
{
    assert(rs.push(v).drop_last() =~= rs);
}

/// What a fork plan holds for the message `reference` names, its branch
/// `chosen` and the timestamp `timestamp`: the session file's records, the
/// prefill ticket, fresh UUID-shaped identities, and entry IDs the branch
/// does not use.
pub open spec fn plan_ok(c: PiConversation, reference: MessageRefView, position: BranchPosition, chosen: (
    Seq<int>,
    JsonView,
    Seq<char>,
), timestamp: Seq<char>, p: ForkPlan) -> bool {
    let es = entries_at(c.records(), chosen.0);
    &&& p.timestamp@ == timestamp
    &&& p.session_bytes@ == lines_bytes(fork_records(c, reference, position, chosen, p))
    &&& p.ticket_bytes@ == json_bytes(ticket_view(p.session_id@, p.launch_token@))
    &&& crate::token::uuid_shaped(p.session_id@)
    &&& crate::token::uuid_shaped(p.launch_token@)
    &&& !ids_of(es).contains(p.marker_id@)
    &&& (p.info_id is Some) == has_session_info(es)
    &&& (p.info_id matches Some(i) ==> i@ != p.marker_id@ && !ids_of(es).contains(i@))
}

/// The fork of the message `reference` names, stamped `timestamp`: the
/// source is re-validated, the branch chosen and checked, and the session
/// file and prefill ticket are written out as bytes. Identities come from
/// `sequence`, the clock and std's hasher keys. On a valid source it fails
/// only when no fresh entry ID is left. Nothing is written to disk here.
pub fn fork_plan(
    c: &PiConversation,
    reference: &MessageRef,
    position: BranchPosition,
    timestamp: &str,
    sequence: &mut u64,
) -> (r: Result<ForkPlan, String>)
    requires
        c.wf(),
    ensures
        fork_source_of(*c, reference@, position) is Err ==> *final(sequence) == *old(sequence),
        fork_source_of(*c, reference@, position) is Ok ==> *final(sequence) as int >= (*old(sequence)
            as int + 2) % 0x1_0000_0000_0000_0000,
        match fork_source_of(*c, reference@, position) {
            Err(e) => r is Err && r->Err_0@ == e,
            Ok(x) => match r {
                Ok(p) => plan_ok(*c, reference@, position, x, timestamp@, p),
                Err(e) => e@ == "no fresh entry ID is left"@ && *final(sequence) == u64::MAX,
            },
        },
{
    let (anc, content, text) = fork_source(c, reference, position)?;
    let ghost x = fork_source_of(*c, reference@, position)->Ok_0;
    let ghost rs = c.records();
    let ghost es = entries_at(rs, x.0);
    let session_id = fresh_identity(*sequence);
    *sequence = sequence.wrapping_add(1);
    let launch_token = fresh_identity(*sequence);
    *sequence = sequence.wrapping_add(1);
    proof {
        let o = *old(sequence) as int;
        let m = 0x1_0000_0000_0000_0000int;
        if o + 2 >= m {
            assert((o + 2) % m == o + 2 - m) by (nonlinear_arith)
                requires
                    o + 2 >= m,
                    o + 2 < 2 * m,
                    m > 0,
            ;
        } else {
            assert((o + 2) % m == o + 2) by (nonlinear_arith)
                requires
                    0 <= o + 2 < m,
            ;
        }
    }
    let cwd = match c.header.get("cwd") {
        Some(v) => clone_json(v),
        None => Json::Null,
    };
    proof {
        assert(cwd@ == at(c.header@, "cwd"@));
    }
    let header = header_json(&cwd, c.path.as_str(), session_id.as_str(), timestamp);
    let mut out: Vec<u8> = Vec::new();
    push_line(&mut out, &header);
    proof {
        lemma_lines_push(Seq::<JsonView>::empty(), header@);
        assert(Seq::<JsonView>::empty().push(header@) =~= seq![header@]);
        assert(out@ =~= lines_bytes(seq![header@]));
        assert(es.take(0) =~= Seq::<JsonView>::empty());
        assert(ids_of(es.take(0)) =~= Set::<Seq<char>>::empty());
    }
    let mut used = TextSet::new();
    let mut has_info = false;
    let mut i: usize = 0;
    while i < anc.len()
        invariant
            c.wf(),
            rs == c.records(),
            es == entries_at(rs, x.0),
            anc@.len() == x.0.len(),
            forall|q: int| 0 <= q < x.0.len() ==> anc@[q] as int == #[trigger] x.0[q],
            forall|q: int| 0 <= q < anc@.len() ==> #[trigger] anc@[q] < c.entries@.len(),
            i <= anc@.len(),
            used.wf(),
            used@ == ids_of(es.take(i as int)),
            has_info == has_session_info(es.take(i as int)),
            out@ == lines_bytes(seq![header@] + es.take(i as int)),
        decreases anc@.len() - i,
    {
        let e = &c.entries[anc[i]];
        proof {
            assert(values_view(c.entries@)[anc@[i as int] as int] == e@);
            assert(es[i as int] == e@);
            assert(es.take(i + 1) =~= es.take(i as int).push(e@));
            assert(seq![header@] + es.take(i + 1) =~= (seq![header@] + es.take(i as int)).push(e@));
            lemma_lines_push(seq![header@] + es.take(i as int), e@);
        }
        let ghost before = used@;
        match e.str_at("id") {
            Some(id) => {
                used.insert(id);
            },
            None => {},
        }
        proof {
            let a = es.take(i as int);
            let b = es.take(i + 1);
            assert forall|y: Seq<char>| ids_of(b).contains(y) <==> (ids_of(a).contains(y) || str_at(e@, "id"@)
                == Some(y)) by {
                if ids_of(a).contains(y) {
                    let j = choose|j: int| 0 <= j < a.len() && str_at(a[j], "id"@) == Some(y);
                    assert(b[j] == a[j]);
                }
                if str_at(e@, "id"@) == Some(y) {
                    assert(b[i as int] == e@);
                }
                if ids_of(b).contains(y) {
                    let j = choose|j: int| 0 <= j < b.len() && str_at(b[j], "id"@) == Some(y);
                    if j < a.len() {
                        assert(a[j] == b[j]);
                    }
                }
            }
            assert(used@ =~= ids_of(b));
        }
        if e.text_at("type", "session_info") {
            has_info = true;
        }
        proof {
            let a = es.take(i as int);
            let b = es.take(i + 1);
            if has_session_info(a) {
                let j = choose|j: int| 0 <= j < a.len() && is_text(at(a[j], "type"@), "session_info"@);
                assert(b[j] == a[j]);
            }
            if has_session_info(b) {
                let j = choose|j: int| 0 <= j < b.len() && is_text(at(b[j], "type"@), "session_info"@);
                if j < a.len() {
                    assert(a[j] == b[j]);
                }
            }
            if is_text(at(e@, "type"@), "session_info"@) {
                assert(b[i as int] == e@);
            }
        }
        push_line(&mut out, e);
        i += 1;
    }
    proof {
        assert(es.take(es.len() as int) =~= es);
    }
    let endpoint: Option<&str> = if anc.len() > 0 {
        let last = &c.entries[anc[anc.len() - 1]];
        proof {
            assert(values_view(c.entries@)[anc@[anc@.len() - 1] as int] == last@);
            assert(es.last() == last@);
        }
        last.str_at("id")
    } else {
        None
    };
    let marker_id = match unused_entry_id(&mut used, sequence) {
        Some(m) => m,
        None => {
            return Err(owned("no fresh entry ID is left"));
        },
    };
    let ghost used_with_marker = used@;
    let marker = marker_json(
        marker_id.as_str(),
        endpoint,
        timestamp,
        session_id.as_str(),
        launch_token.as_str(),
        reference,
        position,
        content,
        text.as_str(),
    );
    let ghost with_header = seq![header@] + es;
    push_line(&mut out, &marker);
    proof {
        lemma_lines_push(with_header, marker@);
    }
    let info_id: Option<String> = if has_info {
        let id = match unused_entry_id(&mut used, sequence) {
            Some(id) => id,
            None => {
                return Err(owned("no fresh entry ID is left"));
            },
        };
        let info = info_json(id.as_str(), marker_id.as_str(), timestamp);
        push_line(&mut out, &info);
        proof {
            lemma_lines_push(with_header.push(marker@), info@);
            assert(used_with_marker.contains(marker_id@));
        }
        Some(id)
    } else {
        None
    };
    let ticket = write_json(&ticket_json(session_id.as_str(), launch_token.as_str()));
    let plan = ForkPlan {
        session_id,
        launch_token,
        timestamp: owned(timestamp),
        marker_id,
        info_id,
        session_bytes: out,
        ticket_bytes: ticket,
    };
    proof {
        let recs = fork_records(*c, reference@, position, x, plan);
        match &plan.info_id {
            Some(id) => {
                assert(recs =~= with_header.push(marker@).push(info_view(id@, plan.marker_id@, plan.timestamp@)));
            },
            None => {
                assert(recs =~= with_header.push(marker@));
            },
        }
    }
    Ok(plan)
}

/// Prepares a fork of the message `reference` names, stamped with the
/// clock's time: the source's own errors come first; on a valid source the
/// only failures are a time RFC 3339 cannot express, which leaves `sequence`
/// as it was, and running out of fresh entry IDs.
pub fn prepare_fork(c: &PiConversation, reference: &MessageRef, position: BranchPosition, sequence: &mut u64) -> (r:
    Result<ForkPlan, String>)
    requires
        c.wf(),
    ensures
        match fork_source_of(*c, reference@, position) {
            Err(e) => r is Err && r->Err_0@ == e && *final(sequence) == *old(sequence),
            Ok(x) => match r {
                Ok(p) => (exists|n: i128| rfc3339_text(n) == Ok::<Seq<char>, Seq<char>>(p.timestamp@))
                    && plan_ok(*c, reference@, position, x, p.timestamp@, p) && *final(sequence) as int
                    >= (*old(sequence) as int + 2) % 0x1_0000_0000_0000_0000,
                Err(e) => ((exists|n: i128| rfc3339_text(n) == Err::<Seq<char>, Seq<char>>(e@))
                    && *final(sequence) == *old(sequence)) || (e@ == "no fresh entry ID is left"@
                    && *final(sequence) == u64::MAX),
            },
        },
{
    let now = clock_nanos();
    match rfc3339(now) {
        Ok(timestamp) => fork_plan(c, reference, position, timestamp.as_str(), sequence),
        Err(e) => {
            fork_source(c, reference, position)?;
            Err(e)
        },
    }
}

// ---------------------------------------------------------------------------
// Launching the fork
// ---------------------------------------------------------------------------

pub open spec fn is_ascii_alnum(c: char) -> bool {
    ('0' <= c <= '9') || ('a' <= c <= 'z') || ('A' <= c <= 'Z')
}

pub open spec fn ascii_lower(c: char) -> char {
    if 'A' <= c <= 'Z' {
        ((c as u32) + 32) as char
    } else {
        c
    }
}

/// The ASCII letters and digits of `s`, lower-cased.
pub open spec fn alnum_lower(s: Seq<char>) -> Seq<char>
    decreases s.len(),
{
    if s.len() == 0 {
        Seq::empty()
    } else if is_ascii_alnum(s.last()) {
        alnum_lower(s.drop_last()).push(ascii_lower(s.last()))
    } else {
        alnum_lower(s.drop_last())
    }
}

/// Letters and digits of the session ID kept in the fork's agent name.
pub const FORK_NAME_CHARS: usize = 27;

/// The agent name of a fork: `fork-` and the first 27 ASCII letters and
/// digits of its session ID, lower-cased.
pub open spec fn fork_name(session_id: Seq<char>) -> Seq<char> {
    let a = alnum_lower(session_id);
    "fork-"@ + if a.len() > FORK_NAME_CHARS {
        a.take(FORK_NAME_CHARS as int)
    } else {
        a
    }
}

/// The agent name of a fork and the arguments `pi` is started with in the
/// new pane: the fork's session file and the extension that prefills the
/// draft.
pub fn fork_launch(session_id: &str, session_path: &str, extension: &str) -> (r: (String, Vec<String>))
    ensures
        r.0@ == fork_name(session_id@),
        r.1@.map_values(|a: String| a@) == seq!["--session"@, session_path@, "-e"@, extension@],
{
    let cs = chars_of(session_id);
    let mut kept: Vec<char> = Vec::new();
    let mut i: usize = 0;
    proof {
        assert(cs@.take(0) =~= Seq::<char>::empty());
    }
    while i < cs.len() && kept.len() < FORK_NAME_CHARS
        invariant
            cs@ == session_id@,
            i <= cs.len(),
            kept@ == alnum_lower(cs@.take(i as int)),
            kept@.len() <= FORK_NAME_CHARS,
        decreases cs.len() - i,
    {
        let c = cs[i];
        proof {
            assert(cs@.take(i + 1).drop_last() =~= cs@.take(i as int));
            assert(cs@.take(i + 1).last() == c);
        }
        if ('0' <= c && c <= '9') || ('a' <= c && c <= 'z') {
            kept.push(c);
        } else if 'A' <= c && c <= 'Z' {
            kept.push(((c as u32) + 32) as u8 as char);
            proof {
                assert((((c as u32) + 32) as u8 as char) == ascii_lower(c));
            }
        }
        i += 1;
    }
    proof {
        lemma_alnum_lower_prefix(cs@, i as int);
    }
    let mut name = owned("fork-");
    let tail = string_of(&kept);
    push_str(&mut name, tail.as_str());
    let mut args: Vec<String> = Vec::new();
    args.push(owned("--session"));
    args.push(owned(session_path));
    args.push(owned("-e"));
    args.push(owned(extension));
    proof {
        assert(args@.map_values(|a: String| a@) =~= seq!["--session"@, session_path@, "-e"@, extension@]);
    }
    (name, args)
}

/// Filtering a longer prefix keeps what the shorter one kept.
proof fn lemma_alnum_lower_grows(s: Seq<char>, a: int, b: int)
    requires
        0 <= a <= b <= s.len(),
    ensures
        alnum_lower(s.take(a)).len() <= alnum_lower(s.take(b)).len(),
        alnum_lower(s.take(b)).take(alnum_lower(s.take(a)).len() as int) == alnum_lower(s.take(a)),
    decreases b - a,
{
    if a < b {
        lemma_alnum_lower_grows(s, a, b - 1);
        assert(s.take(b).drop_last() =~= s.take(b - 1));
        let x = alnum_lower(s.take(a));
        let y = alnum_lower(s.take(b - 1));
        let z = alnum_lower(s.take(b));
        assert(z.take(x.len() as int) =~= y.take(x.len() as int));
    } else {
        let x = alnum_lower(s.take(a));
        assert(x.take(x.len() as int) =~= x);
    }
}

/// Stopping the scan at `i`, once 27 characters are kept or the text ends,
/// keeps exactly the first 27 of the whole text's.
proof fn lemma_alnum_lower_prefix(s: Seq<char>, i: int)
    requires
        0 <= i <= s.len(),
        alnum_lower(s.take(i)).len() <= FORK_NAME_CHARS,
        i == s.len() || alnum_lower(s.take(i)).len() == FORK_NAME_CHARS,
    ensures
        ({
            let a = alnum_lower(s);
            alnum_lower(s.take(i)) == (if a.len() > FORK_NAME_CHARS {
                a.take(FORK_NAME_CHARS as int)
            } else {
                a
            })
        }),
{
    assert(s.take(s.len() as int) =~= s);
    lemma_alnum_lower_grows(s, i, s.len() as int);
    if i == s.len() {
    } else {
        let x = alnum_lower(s.take(i));
        if alnum_lower(s).len() == FORK_NAME_CHARS {
            assert(alnum_lower(s).take(FORK_NAME_CHARS as int) =~= alnum_lower(s));
        }
    }
}

} // verus!
