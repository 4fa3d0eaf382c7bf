//! What the mail service reports to the window.
use crate::model::account::MailAccountId;
use crate::model::mail::{
    AttachmentOperation, ConversationSummary, FolderId, MailFolder, MailboxMode, MessageDetail,
    StoredMessageRef, WriteOutcome,
};
use vstd::prelude::*;

verus! {

/// Tells the answers to requests apart.
#[derive(Debug, Clone, Copy, PartialEq, Eq, Hash)]
pub struct RequestId(u64);

impl View for RequestId {
    type V = u64;

    closed spec fn view(&self) -> u64 {
        self.0
    }
}

impl RequestId {
    /// The next request of the sequence that `counter` holds. The counter wraps.
    pub fn next(counter: &mut u64) -> (id: Self)
        ensures
            id@ == *old(counter),
            *final(counter) == (*old(counter) + 1) % 0x1_0000_0000_0000_0000,
    {
        let id = RequestId(*counter);
        *counter = counter.wrapping_add(1);
        id
    }

    /// The request `value` places behind this one.
    pub fn wrapping_add(self, value: u64) -> (id: Self)
        ensures
            id@ == (self@ + value) % 0x1_0000_0000_0000_0000,
    {
        RequestId(self.0.wrapping_add(value))
    }
}

impl From<u64> for RequestId {
    fn from(value: u64) -> (id: Self) {
        RequestId(value)
    }
}

impl vstd::std_specs::convert::FromSpecImpl<u64> for RequestId {
    open spec fn obeys_from_spec() -> bool {
        true
    }

    closed spec fn from_spec(value: u64) -> Self {
        RequestId(value)
    }
}

/// The request made of a number is told apart by that number.
pub proof fn lemma_request_of_number(value: u64)
    ensures
        <RequestId as vstd::std_specs::convert::FromSpec<u64>>::from_spec(value)@ == value,
{
}

/// What a counter holds after `draws` requests have been drawn from it, which is what the
/// next request is told apart by.
pub open spec fn drawn(counter: u64, draws: nat) -> int
    decreases draws,
{
    if draws == 0 {
        counter as int
    } else {
        (drawn(counter, (draws - 1) as nat) + 1) % 0x1_0000_0000_0000_0000
    }
}

proof fn lemma_drawn(counter: u64, draws: nat)
    ensures
        drawn(counter, draws) == (counter + draws) % 0x1_0000_0000_0000_0000,
    decreases draws,
{
    if draws > 0 {
        lemma_drawn(counter, (draws - 1) as nat);
    }
}

/// Two requests drawn from one counter differ, unless the counter has gone round between
/// them.
pub proof fn lemma_requests_differ(counter: u64, earlier: nat, later: nat)
    requires
        earlier < later,
        later - earlier < 0x1_0000_0000_0000_0000,
    ensures
        drawn(counter, earlier) != drawn(counter, later),
{
    lemma_drawn(counter, earlier);
    lemma_drawn(counter, later);
}

/// What an account shows once it is active.
#[derive(Debug, Clone)]
pub struct AccountMailboxLoad {
    pub mode: MailboxMode,
    pub content: MailboxContentSnapshot,
    pub failure: Option<RefreshFailureKind>,
}

/// The folders of an account and the conversations of the selected one.
#[derive(Debug, Clone)]
pub struct MailboxContentSnapshot {
    pub folders: Vec<MailFolder>,
    pub selected_folder_id: Option<FolderId>,
    pub conversations: Vec<ConversationSummary>,
}

/// Why a refresh failed.
#[derive(Debug, Clone, Copy, PartialEq, Eq, Structural)]
pub enum RefreshFailureKind {
    Connectivity,
    Authentication,
    Storage,
    Backend,
}

/// What the mail service reports.
#[derive(Debug)]
#[allow(inconsistent_fields)]
pub enum MailEvent {
    AccountActivated { request_id: RequestId, load: AccountMailboxLoad },
    AccountRefreshCompleted { account_id: MailAccountId, failure: Option<RefreshFailureKind> },
    MailboxReloaded { request_id: RequestId, result: Result<MailboxContentSnapshot, String> },
    NewMailAvailable {
        account_id: MailAccountId,
        folder_id: FolderId,
        folder_name: String,
        count: usize,
    },
    MailboxCacheChanged { account_id: MailAccountId },
    ThreadPageLoaded { request_id: RequestId, result: Result<Vec<ConversationSummary>, String> },
    SearchCompleted { request_id: RequestId, result: Result<Vec<ConversationSummary>, String> },
    MessageDetailLoaded { request_id: RequestId, result: Result<Option<MessageDetail>, String> },
    MessageActionCompleted { request_id: RequestId, result: Result<WriteOutcome, String> },
    AccountIdentitiesSaveCompleted { request_id: RequestId, result: Result<(), String> },
    PendingWorkChanged,
    DraftSaveCompleted { result: Result<Option<StoredMessageRef>, String> },
    SendCompleted { result: Result<(), String> },
    AttachmentPrepared {
        operation: AttachmentOperation,
        display_name: String,
        result: Result<String, String>,
    },
}

} // verus!
