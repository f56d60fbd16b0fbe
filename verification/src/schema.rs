//! Request parameters of the room and conversation API, as plain values.
use crate::room_delivery::Outcome;
use vstd::prelude::*;

verus! {

pub struct RoomReadParams {
    pub workspace_id: String,
    pub after_sequence: u64,
    /// Bounded page; defaults to 100, maximum 100.
    pub limit: Option<usize>,
}

pub struct RoomPostParams {
    pub workspace_id: String,
    pub text: String,
    /// Exact current recipient; omitted means all current members, captured once.
    pub recipient: Option<RoomRecipient>,
    /// Exact current recipients of one group question, validated as a whole.
    pub recipients: Option<Vec<RoomRecipient>>,
}

#[derive(Debug, PartialEq, Eq)]
pub struct RoomRecipient {
    pub pane_id: String,
    pub terminal_id: String,
    pub session: String,
}

pub struct RoomRecipientView {
    pub pane_id: Seq<char>,
    pub terminal_id: Seq<char>,
    pub session: Seq<char>,
}

impl View for RoomRecipient {
    type V = RoomRecipientView;

    open spec fn view(&self) -> RoomRecipientView {
        RoomRecipientView {
            pane_id: self.pane_id@,
            terminal_id: self.terminal_id@,
            session: self.session@,
        }
    }
}

impl Clone for RoomRecipient {
    fn clone(&self) -> (r: Self)
        ensures
            r@ == self@,
    {
        RoomRecipient {
            pane_id: self.pane_id.clone(),
            terminal_id: self.terminal_id.clone(),
            session: self.session.clone(),
        }
    }
}

pub struct RoomAgentPostParams {
    pub workspace_id: String,
    pub pane_id: String,
    pub terminal_id: String,
    pub session: String,
    pub text: String,
    /// Ignore text and record one deterministic arrival per agent/session/room.
    pub arrival: bool,
}

pub struct RoomReplyParams {
    pub workspace_id: String,
    pub request_sequence: u64,
    pub pane_id: String,
    pub terminal_id: String,
    pub session: String,
    pub text: String,
}

pub struct RoomDeliveryRegisterParams {
    pub workspace_id: String,
    pub pane_id: String,
    pub terminal_id: String,
    pub session: String,
    pub receiver_nonce: String,
}

pub struct RoomDeliveryClaimParams {
    pub receiver_id: String,
    pub server_epoch: String,
    pub ready: bool,
}

pub struct RoomDeliveryReportParams {
    pub receiver_id: String,
    pub server_epoch: String,
    pub delivery_id: String,
    pub outcome: Outcome,
    pub detail: Option<String>,
}

/// Read the currently bound Pi v3 conversation. No arbitrary file paths are accepted.
pub struct AgentConversationParams {
    pub target: String,
    pub query: Option<String>,
    /// Page size: defaults to 100; must be between 1 and 500.
    pub limit: Option<usize>,
    pub offset: Option<usize>,
    /// With no query, center the page on this visible entry, overriding offset.
    pub around_entry_id: Option<String>,
}

/// Where a fork places the chosen message: rewrite it or continue after it.
#[derive(Debug, Clone, Copy, PartialEq, Eq, Structural)]
pub enum BranchPosition {
    Rewrite,
    Continue,
}

/// Exact identity of one message in a Pi session file.
#[derive(Debug, PartialEq, Eq)]
pub struct MessageRef {
    pub session_path: String,
    pub session_id: String,
    pub entry_id: String,
    pub ancestry_hash: String,
}

pub struct MessageRefView {
    pub session_path: Seq<char>,
    pub session_id: Seq<char>,
    pub entry_id: Seq<char>,
    pub ancestry_hash: Seq<char>,
}

impl View for MessageRef {
    type V = MessageRefView;

    open spec fn view(&self) -> MessageRefView {
        MessageRefView {
            session_path: self.session_path@,
            session_id: self.session_id@,
            entry_id: self.entry_id@,
            ancestry_hash: self.ancestry_hash@,
        }
    }
}

pub struct AgentForkParams {
    pub target: String,
    pub reference: MessageRef,
    pub position: BranchPosition,
}

/// The position a fork request takes when it names none.
pub fn default_branch_position() -> (r: BranchPosition)
    ensures
        r == BranchPosition::Rewrite,
{
    BranchPosition::Rewrite
}

} // verus!
