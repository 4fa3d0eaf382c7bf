//! What is shown of an account, and what is done with it.
use crate::integration::account::{BindingView, EdsAccountBinding};
use crate::integration::backend::actions::{
    EntryView, FlagView, MessageActionQueue, MessageFlagIntent, MoveIntent, MoveView, RouteView,
};
use crate::integration::backend::cache::{
    CacheView, ConversationLoad, ConversationPublication, MailboxCache, MoveError, MoveErrorView,
    RemotePublication,
};
use crate::integration::camel;
use crate::integration::local;
use crate::integration::local::delivery::DeliverySynchronization;
use crate::integration::local::draft::DraftReplayOutcome;
use crate::integration::local::{LocalFolder, LocalFolderNames, LocalMailbox, MailboxView};
use crate::integration::mailbox::MailboxConversations;
use crate::model::account::MailAccountId;
use crate::model::mail;
use crate::model::mail::{
    ConversationId, ConversationSummary, FolderId, FolderView, MailFolder, MessageDetail,
    PreparedMessage, SummaryView, WriteOutcome,
};
use crate::text;
use vstd::prelude::*;

pub mod actions;
pub mod cache;
pub mod pool;
pub mod projection;

verus! {

/// What became of bringing a mailbox in line with the provider.
#[derive(Debug, Clone, Copy, PartialEq, Eq, Structural)]
pub struct RefreshOutcome {
    pub convergence_incomplete: bool,
    pub projection_stale: bool,
}

impl Default for RefreshOutcome {
    fn default() -> (outcome: Self)
        ensures
            !outcome.convergence_incomplete,
            !outcome.projection_stale,
    {
        RefreshOutcome { convergence_incomplete: false, projection_stale: false }
    }
}

/// How a message is marked.
#[derive(Debug, Clone, Copy, PartialEq, Eq, Structural)]
pub enum MessageFlagChange {
    Read(bool),
    Starred(bool),
}

/// A message as it is shown once it was marked.
pub open spec fn changed_summary(summary: SummaryView, change: MessageFlagChange) -> SummaryView {
    match change {
        MessageFlagChange::Read(read) => SummaryView {
            unread_count: if read {
                0
            } else {
                1
            },
            ..summary
        },
        MessageFlagChange::Starred(starred) => SummaryView { starred, ..summary },
    }
}

/// A message as it is shown once it was marked.
pub fn with_flag_change(summary: &ConversationSummary, change: MessageFlagChange) -> (marked:
    ConversationSummary)
    ensures
        marked@ == changed_summary(summary@, change),
{
    let mut marked = summary.clone();
    match change {
        MessageFlagChange::Read(read) => {
            marked.unread_count = if read {
                0
            } else {
                1
            };
        },
        MessageFlagChange::Starred(starred) => {
            marked.starred = starred;
        },
    }
    marked
}

/// What a query is looked for in.
pub open spec fn searched_text(summary: SummaryView) -> Seq<char> {
    summary.subject + seq![' '] + summary.preview + seq![' '] + text::joined(
        summary.participants,
        seq![' '],
    )
}

/// Whether a query finds a message, whatever the case of the letters.
pub open spec fn matches_query(summary: SummaryView, query: Seq<char>) -> bool {
    text::occurs_in(
        text::lowercase_of(searched_text(summary)),
        text::lowercase_of(query),
    )
}

/// Two queries that differ only in the case of their letters find the same messages.
pub proof fn lemma_search_ignores_case(summary: SummaryView, left: Seq<char>, right: Seq<char>)
    requires
        text::lowercase_of(left) == text::lowercase_of(right),
    ensures
        matches_query(summary, left) == matches_query(summary, right),
{
}

/// Whether a query finds a message, whatever the case of the letters.
pub fn summary_contains_query(summary: &ConversationSummary, query: &str) -> (r: bool)
    ensures
        r == matches_query(summary@, query@),
{
    let mut haystack = summary.subject.clone();
    haystack.push(' ');
    haystack.append(summary.preview.as_str());
    haystack.push(' ');
    proof {
        reveal_strlit(" ");
        assert(" "@ =~= seq![' ']);
    }
    let participants = text::join(&summary.participants, " ");
    haystack.append(participants.as_str());
    assert(haystack@ =~= searched_text(summary@));
    let haystack = text::to_lowercase(haystack.as_str());
    let query = text::to_lowercase(query);
    text::contains_text(haystack.as_str(), query.as_str())
}

/// The `limit` conversations of a list from `offset` on, or all of them where `limit` is 0.
pub fn slice_conversations(
    conversations: &Vec<ConversationSummary>,
    offset: usize,
    limit: usize,
) -> (slice: Vec<ConversationSummary>)
    ensures
        mail::summaries(slice@) == camel::page_of(
            mail::summaries(conversations@),
            offset as nat,
            limit as nat,
        ),
{
    camel::page(conversations, offset, limit)
}

/// A part of the conversations of a folder.
#[derive(Debug, Clone, Copy)]
pub struct ConversationPage {
    pub offset: usize,
    pub limit: usize,
}

impl ConversationPage {
    /// That part of `rows`.
    pub open spec fn of(self, rows: Seq<SummaryView>) -> Seq<SummaryView> {
        camel::page_of(rows, self.offset as nat, self.limit as nat)
    }
}

/// What has to be done next to list the conversations of a folder.
#[derive(Debug)]
pub enum ListingStep {
    /// The conversations are there.
    Done(Vec<ConversationSummary>),
    /// The conversations have to be read; the mailbox has that revision.
    Load { revision: u64 },
    /// Reading them failed, and it would fail again.
    Failed,
}

/// What reading the conversations of a folder means for what is listed.
pub open spec fn lists(
    step: ListingStep,
    cache: CacheView,
    folder: Seq<char>,
    page: ConversationPage,
) -> bool {
    match step {
        ListingStep::Done(rows) => cache.conversations.contains_key(folder) && mail::summaries(rows@)
            == page.of(cache.conversations[folder]),
        ListingStep::Load { revision } => !cache.conversations.contains_key(folder) && revision
            == cache.revision,
        ListingStep::Failed => false,
    }
}

/// Where the conversations of a folder are read.
#[derive(Debug, Clone, Copy, PartialEq, Eq, Structural)]
pub struct ProjectionSources {
    /// The local folder that is shown in it.
    pub local: Option<LocalFolder>,
    /// Whether the provider's folder is read.
    pub remote: bool,
}

/// Where the conversations of a folder are read: a local folder is shown in the folder of
/// the provider for the same purpose, or in one of its own.
pub open spec fn sources_of(
    folders: Seq<FolderView>,
    parent: Seq<char>,
    folder: Seq<char>,
) -> ProjectionSources {
    let local = match local::first_of_id(folders, folder) {
        Some(shown) => local::folder_of_kind(shown.kind),
        None => None,
    };
    ProjectionSources {
        local,
        remote: match local {
            Some(kept) => local::folder_path(parent, kept) != folder,
            None => true,
        },
    }
}

/// Where the conversations of a folder are read.
pub fn projection_sources(
    mailbox: &LocalMailbox<'_>,
    folders: &Vec<MailFolder>,
    folder_id: &FolderId,
) -> (sources: ProjectionSources)
    ensures
        sources == sources_of(mail::folder_views(folders@), mailbox.parent(), folder_id@),
{
    let local = mailbox.folder_for_projection(folders, folder_id);
    let remote = match local {
        Some(folder) => mailbox.folder_id(folder).0 != folder_id.0,
        None => true,
    };
    ProjectionSources { local, remote }
}

/// Whether the message was found in the cache, or has to be fetched.
#[derive(Debug, Clone, Copy, PartialEq, Eq, Structural)]
pub enum CacheFill {
    /// The message is there, or is not to be had.
    Settled(bool),
    /// The message has to be fetched from the provider.
    Fetch,
}

/// A message is to be marked at the provider.
#[derive(Debug, PartialEq, Eq)]
pub enum FlagStep {
    SetRead(ConversationId, bool),
    SetStarred(ConversationId, bool),
}

/// A message is to be marked at the provider, as a value.
#[verifier::ext_equal]
pub enum FlagStepView {
    SetRead(Seq<char>, bool),
    SetStarred(Seq<char>, bool),
}

impl View for FlagStep {
    type V = FlagStepView;

    open spec fn view(&self) -> FlagStepView {
        match self {
            FlagStep::SetRead(id, read) => FlagStepView::SetRead(id@, *read),
            FlagStep::SetStarred(id, starred) => FlagStepView::SetStarred(id@, *starred),
        }
    }
}

/// The values of a list of steps.
pub open spec fn flag_step_views(list: Seq<FlagStep>) -> Seq<FlagStepView> {
    list.map_values(|step: FlagStep| step@)
}

/// The steps that tell the provider of marks.
pub open spec fn flag_steps(flags: Seq<FlagView>) -> Seq<FlagStepView>
    decreases flags.len(),
{
    if flags.len() == 0 {
        Seq::empty()
    } else {
        let before = flag_steps(flags.drop_last());
        let flag = flags.last();
        let with_read = match flag.read {
            Some(read) => before.push(FlagStepView::SetRead(flag.conversation_id, read)),
            None => before,
        };
        match flag.starred {
            Some(starred) => with_read.push(
                FlagStepView::SetStarred(flag.conversation_id, starred),
            ),
            None => with_read,
        }
    }
}

/// The steps that tell the provider of marks.
pub fn replay_flag_intents(intents: &Vec<MessageFlagIntent>) -> (steps: Vec<FlagStep>)
    ensures
        flag_step_views(steps@) == flag_steps(actions::flag_views(intents@)),
{
    let ghost all = actions::flag_views(intents@);
    let mut steps: Vec<FlagStep> = Vec::new();
    let mut i: usize = 0;
    assert(all.take(0) =~= Seq::empty());
    assert(flag_step_views(steps@) =~= Seq::empty());
    while i < intents.len()
        invariant
            i <= intents.len(),
            all == actions::flag_views(intents@),
            flag_step_views(steps@) == flag_steps(all.take(i as int)),
        decreases intents.len() - i,
    {
        proof {
            assert(all.take(i + 1).drop_last() =~= all.take(i as int));
            assert(all.take(i + 1).last() == intents@[i as int]@);
        }
        let intent = &intents[i];
        if let Some(read) = intent.read {
            let ghost before = flag_step_views(steps@);
            steps.push(FlagStep::SetRead(intent.conversation_id.clone(), read));
            assert(flag_step_views(steps@) =~= before.push(
                FlagStepView::SetRead(intent@.conversation_id, read),
            ));
        }
        if let Some(starred) = intent.starred {
            let ghost before = flag_step_views(steps@);
            steps.push(FlagStep::SetStarred(intent.conversation_id.clone(), starred));
            assert(flag_step_views(steps@) =~= before.push(
                FlagStepView::SetStarred(intent@.conversation_id, starred),
            ));
        }
        i += 1;
    }
    assert(all.take(i as int) =~= all);
    steps
}

/// Whether an attachment was found in the cache, or has to be fetched.
#[derive(Debug, PartialEq, Eq)]
pub enum AttachmentFill {
    /// The file of the attachment, where it is to be had.
    Settled(Option<String>),
    /// The attachment has to be fetched from the provider.
    Fetch,
}

/// What the stores are asked to look for.
pub fn stored_query(query: &str) -> (lowered: String)
    ensures
        lowered@ == text::lowercase_of(query@),
{
    text::to_lowercase(query)
}

/// The folders that are read again, each once and in order.
pub fn folders_to_refresh(folders: &Vec<MailFolder>) -> (ids: Vec<FolderId>)
    ensures
        text::ordered(cache::folder_names(ids@)),
        forall|id: Seq<char>| #[trigger]
            cache::folder_names(ids@).contains(id) <==> local::has_folder(
                mail::folder_views(folders@),
                id,
            ),
{
    let ghost all = mail::folder_views(folders@);
    let mut names: Vec<String> = Vec::new();
    let mut i: usize = 0;
    assert(text::views(names@) =~= Seq::empty());
    while i < folders.len()
        invariant
            i <= folders.len(),
            all == mail::folder_views(folders@),
            text::ordered(text::views(names@)),
            forall|id: Seq<char>| #[trigger]
                text::views(names@).contains(id) <==> exists|j: int|
                    0 <= j < i && #[trigger] all[j].id == id,
        decreases folders.len() - i,
    {
        let ghost before = text::views(names@);
        text::insert_ordered(&mut names, folders[i].id.0.as_str());
        proof {
            assert forall|id: Seq<char>| #[trigger]
                text::views(names@).contains(id) <==> exists|j: int|
                    0 <= j < i + 1 && #[trigger] all[j].id == id by {
                assert(before.contains(id) <==> exists|j: int|
                    0 <= j < i && #[trigger] all[j].id == id);
                if before.contains(id) {
                    let j = choose|j: int| 0 <= j < i && #[trigger] all[j].id == id;
                    assert(all[j].id == id);
                }
                if id == all[i as int].id {
                    assert(all[i as int].id == id);
                }
            }
        }
        i += 1;
    }
    let ghost sorted = text::views(names@);
    let mut ids: Vec<FolderId> = Vec::new();
    assert(cache::folder_names(ids@) =~= sorted.take(0));
    for name in it: names
        invariant
            sorted == text::views(it.seq()),
            cache::folder_names(ids@) == sorted.take(it.index()),
    {
        let ghost before = cache::folder_names(ids@);
        let ghost value = name@;
        ids.push(FolderId(name));
        proof {
            assert(cache::folder_names(ids@) =~= before.push(value));
            assert(sorted.take(it.index() + 1) =~= before.push(value));
        }
    }
    assert(sorted.take(sorted.len() as int) =~= sorted);
    ids
}

/// What has to be done next to bring a mailbox in line with the provider.
#[derive(Debug, Clone, Copy, PartialEq, Eq, Structural)]
pub enum RefreshStep {
    /// Submit what waits in the outbox.
    SubmitOutbox,
    /// Open the mailbox at the provider and list its folders.
    ListFolders,
    /// Open the folders.
    PrepareFolders,
    /// Mark messages as noted.
    ReplayFlags,
    /// Send the marks to the provider.
    Synchronize,
    /// Settle the marks that the provider was told of.
    AcknowledgeFlags,
    /// Move messages as noted, and settle each move.
    FlushMoves,
    /// Read the folders again.
    RefreshFolders,
    /// List the folders again.
    RelistFolders,
    /// Bring the outbox and the sent messages in line.
    SynchronizeDelivery,
    /// Read the sent folder again.
    RefreshSent,
    /// Bring the drafts in line.
    ReplayDrafts,
    /// Read the drafts folder again.
    RefreshDrafts,
    /// List the folders again, after drafts changed.
    RelistAfterDrafts,
    /// List the conversations of the folders.
    ListConversations,
    /// Publish what the provider has.
    Publish,
    /// The mailbox was brought in line.
    Refreshed,
    /// A step failed.
    Failed,
}

/// Which folders the provider has.
#[derive(Debug, Clone, Copy, PartialEq, Eq, Structural)]
pub struct RemoteFolders {
    pub sent: bool,
    pub drafts: bool,
}

/// What came of a step.
#[derive(Debug, Clone, Copy, PartialEq, Eq, Structural)]
pub enum RefreshEvent {
    Succeeded,
    /// Sent messages or drafts were brought in line; that changed what the provider has.
    RemoteChanged,
    Failed,
}

impl RefreshStep {
    /// What has to be done after that.
    pub open spec fn after(self, event: RefreshEvent, remote: RemoteFolders) -> RefreshStep {
        let changed = event is RemoteChanged;
        match self {
            RefreshStep::Refreshed => RefreshStep::Refreshed,
            RefreshStep::Failed => RefreshStep::Failed,
            _ => if event is Failed {
                RefreshStep::Failed
            } else {
                match self {
                    RefreshStep::SubmitOutbox => RefreshStep::ListFolders,
                    RefreshStep::ListFolders => RefreshStep::PrepareFolders,
                    RefreshStep::PrepareFolders => RefreshStep::ReplayFlags,
                    RefreshStep::ReplayFlags => RefreshStep::Synchronize,
                    RefreshStep::Synchronize => RefreshStep::AcknowledgeFlags,
                    RefreshStep::AcknowledgeFlags => RefreshStep::FlushMoves,
                    RefreshStep::FlushMoves => RefreshStep::RefreshFolders,
                    RefreshStep::RefreshFolders => RefreshStep::RelistFolders,
                    RefreshStep::RelistFolders => RefreshStep::SynchronizeDelivery,
                    RefreshStep::SynchronizeDelivery => if changed && remote.sent {
                        RefreshStep::RefreshSent
                    } else {
                        RefreshStep::ReplayDrafts
                    },
                    RefreshStep::RefreshSent => RefreshStep::ReplayDrafts,
                    RefreshStep::ReplayDrafts => if changed && remote.drafts {
                        RefreshStep::RefreshDrafts
                    } else {
                        RefreshStep::ListConversations
                    },
                    RefreshStep::RefreshDrafts => RefreshStep::RelistAfterDrafts,
                    RefreshStep::RelistAfterDrafts => RefreshStep::ListConversations,
                    RefreshStep::ListConversations => RefreshStep::Publish,
                    RefreshStep::Publish => RefreshStep::Refreshed,
                    _ => RefreshStep::Failed,
                }
            },
        }
    }

    /// What has to be done after that.
    pub fn next_step(self, event: RefreshEvent, remote: RemoteFolders) -> (next: RefreshStep)
        ensures
            next == self.after(event, remote),
    {
        let changed = event == RefreshEvent::RemoteChanged;
        if self != RefreshStep::Refreshed && event == RefreshEvent::Failed {
            return RefreshStep::Failed;
        }
        match self {
            RefreshStep::SubmitOutbox => RefreshStep::ListFolders,
            RefreshStep::ListFolders => RefreshStep::PrepareFolders,
            RefreshStep::PrepareFolders => RefreshStep::ReplayFlags,
            RefreshStep::ReplayFlags => RefreshStep::Synchronize,
            RefreshStep::Synchronize => RefreshStep::AcknowledgeFlags,
            RefreshStep::AcknowledgeFlags => RefreshStep::FlushMoves,
            RefreshStep::FlushMoves => RefreshStep::RefreshFolders,
            RefreshStep::RefreshFolders => RefreshStep::RelistFolders,
            RefreshStep::RelistFolders => RefreshStep::SynchronizeDelivery,
            RefreshStep::SynchronizeDelivery => if changed && remote.sent {
                RefreshStep::RefreshSent
            } else {
                RefreshStep::ReplayDrafts
            },
            RefreshStep::RefreshSent => RefreshStep::ReplayDrafts,
            RefreshStep::ReplayDrafts => if changed && remote.drafts {
                RefreshStep::RefreshDrafts
            } else {
                RefreshStep::ListConversations
            },
            RefreshStep::RefreshDrafts => RefreshStep::RelistAfterDrafts,
            RefreshStep::RelistAfterDrafts => RefreshStep::ListConversations,
            RefreshStep::ListConversations => RefreshStep::Publish,
            RefreshStep::Publish => RefreshStep::Refreshed,
            RefreshStep::Refreshed => RefreshStep::Refreshed,
            RefreshStep::Failed => RefreshStep::Failed,
        }
    }

    /// How far the steps are.
    pub open spec fn rank(self) -> nat {
        match self {
            RefreshStep::SubmitOutbox => 0,
            RefreshStep::ListFolders => 1,
            RefreshStep::PrepareFolders => 2,
            RefreshStep::ReplayFlags => 3,
            RefreshStep::Synchronize => 4,
            RefreshStep::AcknowledgeFlags => 5,
            RefreshStep::FlushMoves => 6,
            RefreshStep::RefreshFolders => 7,
            RefreshStep::RelistFolders => 8,
            RefreshStep::SynchronizeDelivery => 9,
            RefreshStep::RefreshSent => 10,
            RefreshStep::ReplayDrafts => 11,
            RefreshStep::RefreshDrafts => 12,
            RefreshStep::RelistAfterDrafts => 13,
            RefreshStep::ListConversations => 14,
            RefreshStep::Publish => 15,
            RefreshStep::Refreshed => 16,
            RefreshStep::Failed => 17,
        }
    }
}

/// The steps come to an end, and once one fails nothing else is done: marks are settled
/// only once the provider was told of them, and the mailbox is published only once every
/// step before was done.
pub proof fn lemma_refresh_goes_forward(
    step: RefreshStep,
    event: RefreshEvent,
    remote: RemoteFolders,
)
    ensures
        step !is Refreshed && step !is Failed ==> step.after(event, remote).rank() > step.rank(),
        event is Failed && step !is Refreshed ==> step.after(event, remote) is Failed,
        step.after(event, remote) is AcknowledgeFlags ==> step is Synchronize && event !is Failed,
        step.after(event, remote) is Publish ==> step is ListConversations && event !is Failed,
        step is Failed ==> step.after(event, remote) is Failed,
{
}

/// Why a message is not sent.
#[derive(Debug, Clone, Copy, PartialEq, Eq, Structural)]
pub struct NoRecipient;

impl NoRecipient {
    /// What is reported.
    pub fn message(self) -> (message: &'static str)
        ensures
            message@ == "message has no recipients"@,
    {
        "message has no recipients"
    }
}

/// Whether a message can be sent.
pub fn check_recipients(message: &PreparedMessage) -> (result: Result<(), NoRecipient>)
    ensures
        result is Ok <==> mail::any_filled(text::views(message.to@)) || mail::any_filled(
            text::views(message.cc@),
        ) || mail::any_filled(text::views(message.bcc@)),
{
    if message.has_recipient() {
        Ok(())
    } else {
        Err(NoRecipient)
    }
}

/// The local folders that change when a draft is saved.
pub fn folders_of_saved_draft() -> (folders: Vec<LocalFolder>)
    ensures
        folders@ == seq![LocalFolder::Drafts],
{
    let folders = vec![LocalFolder::Drafts];
    assert(folders@ =~= seq![LocalFolder::Drafts]);
    folders
}

/// The local folders that change when a message is queued to be sent.
pub fn folders_of_queued_delivery() -> (folders: Vec<LocalFolder>)
    ensures
        folders@ == seq![LocalFolder::Drafts, LocalFolder::Outbox],
{
    let folders = vec![LocalFolder::Drafts, LocalFolder::Outbox];
    assert(folders@ =~= seq![LocalFolder::Drafts, LocalFolder::Outbox]);
    folders
}

/// What is kept of an account, and the way to it.
#[derive(Debug)]
pub struct AccountBackend {
    pub binding: EdsAccountBinding,
    pub cached_mailbox: MailboxCache,
}

/// What is shown of an account once messages were moved there.
pub open spec fn with_move_noted(
    entries: Seq<EntryView>,
    route: BindingView,
    intent: MoveView,
) -> Seq<EntryView> {
    actions::with_actions(
        entries,
        route,
        RouteView {
            moves: actions::with_move(actions::actions_of(entries, route).moves, intent),
            flags: actions::actions_of(entries, route).flags,
        },
    )
}

/// What is noted once a message was marked.
pub open spec fn with_mark_noted(
    entries: Seq<EntryView>,
    route: BindingView,
    id: Seq<char>,
    change: MessageFlagChange,
) -> Seq<EntryView> {
    let left = actions::actions_of(entries, route);
    let (read, starred) = match change {
        MessageFlagChange::Read(read) => (Some(read), None),
        MessageFlagChange::Starred(starred) => (None, Some(starred)),
    };
    actions::with_actions(
        entries,
        route,
        RouteView {
            moves: left.moves,
            flags: actions::with_flag(left.flags, id, read, starred),
        },
    )
}

/// A message that was marked is shown so as soon as the mark was noted, whatever the
/// provider says.
pub proof fn lemma_noted_mark_is_shown(
    entries: Seq<EntryView>,
    route: BindingView,
    change: MessageFlagChange,
    summary: SummaryView,
)
    ensures
        ({
            let left = actions::actions_of(
                with_mark_noted(entries, route, summary.id, change),
                route,
            );
            let shown = actions::flagged_summary(summary, left.flags);
            match change {
                MessageFlagChange::Read(read) => shown.unread_count == (if read {
                    0u32
                } else {
                    1u32
                }),
                MessageFlagChange::Starred(starred) => shown.starred == starred,
            }
        }),
{
    let left = actions::actions_of(entries, route);
    let (read, starred) = match change {
        MessageFlagChange::Read(read) => (Some(read), None),
        MessageFlagChange::Starred(starred) => (None, Some(starred)),
    };
    let noted = RouteView {
        moves: left.moves,
        flags: actions::with_flag(left.flags, summary.id, read, starred),
    };
    actions::lemma_routes_are_kept_apart(entries, route, noted, route);
    actions::lemma_newer_mark_keeps_the_other_kind(
        left.flags,
        summary.id,
        read,
        starred,
        summary.id,
    );
}

/// A message that was moved is found in its destination as soon as the move was noted,
/// whatever the provider says.
pub proof fn lemma_noted_move_is_shown(
    entries: Seq<EntryView>,
    route: BindingView,
    intent: MoveView,
    summary: SummaryView,
)
    requires
        summary.id == intent.summary.id,
    ensures
        actions::redirected_summary(
            summary,
            actions::actions_of(with_move_noted(entries, route, intent), route).moves,
        ) == (SummaryView { folder_id: intent.destination, ..summary }),
{
    let left = actions::actions_of(entries, route);
    let noted = RouteView { moves: actions::with_move(left.moves, intent), flags: left.flags };
    actions::lemma_routes_are_kept_apart(entries, route, noted, route);
    actions::lemma_noted_move_is_known(left.moves, intent);
}

/// What a refresh of the mailbox gathered.
#[derive(Debug)]
pub struct RefreshedMailbox {
    pub folders: Vec<MailFolder>,
    pub conversations: MailboxConversations,
    /// The drafts that are shown.
    pub drafts: Vec<ConversationSummary>,
    pub delivery: DeliverySynchronization,
    pub replay: DraftReplayOutcome,
}

impl AccountBackend {
    /// Nothing is kept of the account yet.
    pub fn new(binding: EdsAccountBinding) -> (backend: Self)
        ensures
            backend.binding == binding,
            backend.cached_mailbox@.folders is None,
            backend.cached_mailbox@.conversations == Map::<Seq<char>, Seq<SummaryView>>::empty(),
            backend.cached_mailbox@.order == Seq::<Seq<char>>::empty(),
            backend.cached_mailbox@.revision == 0,
    {
        AccountBackend { binding, cached_mailbox: MailboxCache::default() }
    }

    /// The account.
    pub fn account_id(&self) -> (id: &MailAccountId)
        ensures
            id@ == self.binding@.account_id,
    {
        &self.binding.account_id
    }

    /// How many changes the provider has not been told of.
    pub fn unresolved_message_action_count(&self, queue: &MessageActionQueue) -> (n: usize)
        ensures
            n == actions::capped(
                actions::actions_of(queue@, self.binding@).moves.len() + actions::actions_of(
                    queue@,
                    self.binding@,
                ).flags.len(),
            ),
    {
        queue.len_for_route(&self.binding)
    }

    /// Whether a message is in one of the local folders of the account.
    pub fn holds_locally(&self, conversation_id: &ConversationId) -> (r: bool)
        ensures
            r == local::is_local(self.binding@.account_parent_uid, conversation_id@),
    {
        LocalMailbox::new(&self.binding).contains(conversation_id)
    }

    /// Starts to list the conversations of a folder.
    pub fn begin_listing(&self, folder_id: &FolderId, page: ConversationPage) -> (step: ListingStep)
        ensures
            lists(step, self.cached_mailbox@, folder_id@, page),
    {
        match self.cached_mailbox.begin_conversation_load(folder_id) {
            ConversationLoad::Cached(rows) => ListingStep::Done(
                slice_conversations(&rows, page.offset, page.limit),
            ),
            ConversationLoad::Required { revision } => ListingStep::Load { revision },
        }
    }

    /// Goes on once the conversations of a folder were read at `revision`. Where a local
    /// change was made since, they have to be read again, unless they are kept by now.
    pub fn finish_listing(
        &mut self,
        queue: &MessageActionQueue,
        folder_id: &FolderId,
        page: ConversationPage,
        revision: u64,
        conversations: Vec<ConversationSummary>,
    ) -> (step: ListingStep)
        ensures
            final(self).binding == old(self).binding,
            final(self).cached_mailbox@ == (if old(self).cached_mailbox@.revision == revision {
                cache::with_loaded(
                    old(self).cached_mailbox@,
                    folder_id@,
                    mail::summaries(conversations@),
                    actions::actions_of(queue@, old(self).binding@),
                )
            } else {
                old(self).cached_mailbox@
            }),
            lists(step, final(self).cached_mailbox@, folder_id@, page),
    {
        match self.cached_mailbox.publish_conversations(
            &self.binding,
            folder_id,
            revision,
            conversations,
            queue,
        ) {
            ConversationPublication::Published(rows) => ListingStep::Done(
                slice_conversations(&rows, page.offset, page.limit),
            ),
            ConversationPublication::Stale => self.begin_listing(folder_id, page),
        }
    }

    /// Goes on once reading the conversations of a folder at `revision` failed: they may
    /// be kept by now, and where a local change was made since it is worth another try.
    pub fn recover_listing(&self, folder_id: &FolderId, page: ConversationPage, revision: u64) -> (step:
        ListingStep)
        ensures
            match step {
                ListingStep::Failed => !self.cached_mailbox@.conversations.contains_key(folder_id@)
                    && self.cached_mailbox@.revision == revision,
                ListingStep::Load { revision: current } => lists(
                    step,
                    self.cached_mailbox@,
                    folder_id@,
                    page,
                ) && current != revision,
                ListingStep::Done(_) => lists(step, self.cached_mailbox@, folder_id@, page),
            },
    {
        match self.begin_listing(folder_id, page) {
            ListingStep::Load { revision: current } => if current != revision {
                ListingStep::Load { revision: current }
            } else {
                ListingStep::Failed
            },
            step => step,
        }
    }

    /// Keeps the folders that were listed, with the local folders that have to be shown,
    /// unless folders are kept. Gives those that are kept.
    pub fn install_folders(
        &mut self,
        names: LocalFolderNames,
        folders: Vec<MailFolder>,
        outbox_is_used: bool,
    ) -> (kept: Vec<MailFolder>)
        ensures
            final(self).binding == old(self).binding,
            final(self).cached_mailbox@ == (CacheView {
                folders: Some(mail::folder_views(kept@)),
                ..old(self).cached_mailbox@
            }),
            mail::folder_views(kept@) == (match old(self).cached_mailbox@.folders {
                Some(known) => known,
                None => local::with_local_folders(
                    mail::folder_views(folders@),
                    old(self).binding@.account_parent_uid,
                    names,
                    outbox_is_used,
                ),
            }),
    {
        let mut folders = folders;
        LocalMailbox::with_names(&self.binding, names).ensure_projection_folders(
            &mut folders,
            outbox_is_used,
        );
        self.cached_mailbox.install_folders_if_absent(folders)
    }

    /// Whether a message has to be fetched from the provider; `cached` says whether it was
    /// found here.
    pub fn fill_message_cache(&self, conversation_id: &ConversationId, cached: bool) -> (fill:
        CacheFill)
        ensures
            fill == (if cached {
                CacheFill::Settled(true)
            } else if local::is_local(self.binding@.account_parent_uid, conversation_id@) {
                CacheFill::Settled(false)
            } else {
                CacheFill::Fetch
            }),
    {
        if cached {
            CacheFill::Settled(true)
        } else if self.holds_locally(conversation_id) {
            CacheFill::Settled(false)
        } else {
            CacheFill::Fetch
        }
    }

    /// Whether an attachment has to be fetched from the provider; `cached` is the file that
    /// was found here.
    pub fn materialize_attachment(
        &self,
        conversation_id: &ConversationId,
        cached: Option<String>,
    ) -> (fill: AttachmentFill)
        ensures
            match fill {
                AttachmentFill::Settled(uri) => {
                    &&& uri == cached
                    &&& cached is Some || local::is_local(
                        self.binding@.account_parent_uid,
                        conversation_id@,
                    )
                },
                AttachmentFill::Fetch => cached is None && !local::is_local(
                    self.binding@.account_parent_uid,
                    conversation_id@,
                ),
            },
    {
        if cached.is_some() || self.holds_locally(conversation_id) {
            AttachmentFill::Settled(cached)
        } else {
            AttachmentFill::Fetch
        }
    }

    /// Shows a message that was read: one of the provider as it is once it was marked, and
    /// a local one as it was read.
    pub fn read_cached_message_detail(
        &self,
        queue: &MessageActionQueue,
        conversation_id: &ConversationId,
        detail: Option<MessageDetail>,
    ) -> (shown: Option<MessageDetail>)
        ensures
            match (detail, shown) {
                (None, None) => true,
                (Some(detail), Some(shown)) => shown == (if local::is_local(
                    self.binding@.account_parent_uid,
                    conversation_id@,
                ) {
                    detail
                } else {
                    actions::flagged_detail(
                        detail,
                        actions::actions_of(queue@, self.binding@).flags,
                    )
                }),
                _ => false,
            },
    {
        match detail {
            None => None,
            Some(detail) => {
                let mut detail = detail;
                if !self.holds_locally(conversation_id) {
                    queue.apply_flag_overlay_to_detail(&self.binding, &mut detail);
                }
                Some(detail)
            },
        }
    }

    /// Notes that a message was marked in the store that holds it.
    pub fn set_message_flag(
        &mut self,
        queue: &mut MessageActionQueue,
        conversation_id: &ConversationId,
        change: MessageFlagChange,
    ) -> (outcome: WriteOutcome)
        ensures
            final(self).binding == old(self).binding,
            final(self).cached_mailbox@ == cache::changed(
                old(self).cached_mailbox@,
                cache::with_change(
                    old(self).cached_mailbox@.conversations,
                    old(self).cached_mailbox@.order,
                    conversation_id@,
                    change,
                ),
            ),
            ({
                let local = local::is_local(old(self).binding@.account_parent_uid, conversation_id@);
                &&& outcome == (if local {
                    WriteOutcome::Applied
                } else {
                    WriteOutcome::Queued
                })
                &&& final(queue)@ == (if local {
                    old(queue)@
                } else {
                    with_mark_noted(old(queue)@, old(self).binding@, conversation_id@, change)
                })
            }),
    {
        let outcome = if self.holds_locally(conversation_id) {
            WriteOutcome::Applied
        } else {
            match change {
                MessageFlagChange::Read(read) => queue.queue_read(
                    self.binding.clone(),
                    conversation_id.clone(),
                    read,
                ),
                MessageFlagChange::Starred(starred) => queue.queue_starred(
                    self.binding.clone(),
                    conversation_id.clone(),
                    starred,
                ),
            }
            WriteOutcome::Queued
        };
        self.cached_mailbox.record_message_change(conversation_id, change);
        outcome
    }

    /// Moves a message: the move is noted, and shown. A message that waits in a local
    /// folder cannot be moved.
    pub fn move_to_folder(
        &mut self,
        queue: &mut MessageActionQueue,
        conversation_id: &ConversationId,
        folder_id: &FolderId,
    ) -> (result: Result<WriteOutcome, MoveError>)
        ensures
            final(self).binding == old(self).binding,
            match (
                result,
                move_of(
                    old(self).binding@.account_parent_uid,
                    old(self).cached_mailbox@,
                    conversation_id@,
                    folder_id@,
                ),
            ) {
                (Err(error), Err(expected)) => {
                    &&& error@ == expected
                    &&& final(queue)@ == old(queue)@
                    &&& final(self).cached_mailbox@ == old(self).cached_mailbox@
                },
                (Ok(outcome), Ok(intent)) => if intent.summary.folder_id == intent.destination {
                    &&& outcome == WriteOutcome::Unchanged
                    &&& final(queue)@ == old(queue)@
                    &&& final(self).cached_mailbox@ == old(self).cached_mailbox@
                } else {
                    &&& outcome == WriteOutcome::Queued
                    &&& final(queue)@ == with_move_noted(
                        old(queue)@,
                        old(self).binding@,
                        intent,
                    )
                    &&& final(self).cached_mailbox@ == cache::changed(
                        old(self).cached_mailbox@,
                        actions::overlaid(
                            old(self).cached_mailbox@.conversations,
                            old(self).cached_mailbox@.order,
                            actions::actions_of(final(queue)@, old(self).binding@),
                        ),
                    )
                },
                _ => false,
            },
    {
        if self.holds_locally(conversation_id) {
            return Err(MoveError::LocalMessage);
        }
        let (destination_folder_id, summary) = match self.cached_mailbox.resolve_move(
            conversation_id,
            folder_id,
        ) {
            Err(error) => return Err(error),
            Ok(resolved) => resolved,
        };
        if summary.folder_id.0 == destination_folder_id.0 {
            return Ok(WriteOutcome::Unchanged);
        }
        let intent = MoveIntent { destination_folder_id, summary };
        let ghost noted = intent@;
        let ghost before = queue@;
        queue.queue_move(self.binding.clone(), intent);
        self.cached_mailbox.apply_action_projection(&self.binding, queue);
        proof {
            let left = actions::actions_of(before, self.binding@);
            let with_intent = RouteView {
                moves: actions::with_move(left.moves, noted),
                flags: left.flags,
            };
            actions::lemma_routes_are_kept_apart(
                before,
                self.binding@,
                with_intent,
                self.binding@,
            );
            assert(with_intent.moves.len() > 0);
        }
        Ok(WriteOutcome::Queued)
    }

    /// What a query finds: what the provider's store and the local folders found, and what
    /// is found among the rows that are kept, shown as it is once everything noted was
    /// carried out.
    pub fn search(
        &self,
        queue: &MessageActionQueue,
        query: &str,
        remote: Vec<ConversationSummary>,
        local: Vec<ConversationSummary>,
    ) -> (found: Vec<ConversationSummary>)
        ensures
            mail::summaries(found@) == search_results(
                self.cached_mailbox@,
                actions::actions_of(queue@, self.binding@),
                query@,
                mail::summaries(remote@),
                mail::summaries(local@),
            ),
    {
        let query = text::to_lowercase(query);
        let mut found = remote;
        local::append_summaries(&mut found, local);
        local::append_summaries(
            &mut found,
            self.cached_mailbox.matching_conversations(query.as_str()),
        );
        queue.apply_to_summaries(&self.binding, &mut found);
        mail::sort_and_deduplicate_conversations(&mut found);
        found
    }

    /// Publishes what a refresh gathered, which began at `revision`, with the local folders
    /// shown. Where a local change was made since, nothing is published.
    pub fn publish_refresh(
        &mut self,
        queue: &MessageActionQueue,
        names: LocalFolderNames,
        revision: u64,
        refreshed: RefreshedMailbox,
    ) -> (outcome: RefreshOutcome)
        ensures
            final(self).binding == old(self).binding,
            outcome.convergence_incomplete == (refreshed.delivery.convergence_incomplete
                || refreshed.replay.convergence_incomplete),
            outcome.projection_stale == (old(self).cached_mailbox@.revision != revision),
            outcome.projection_stale ==> final(self).cached_mailbox@ == old(self).cached_mailbox@,
            !outcome.projection_stale ==> final(self).cached_mailbox@ == ({
                let shown = shown_mailbox(
                    MailboxView {
                        folders: mail::folder_views(refreshed.folders@),
                        conversations: refreshed.conversations@,
                        order: refreshed.conversations.order(),
                    },
                    old(self).binding@.account_parent_uid,
                    names,
                    mail::summaries(refreshed.drafts@),
                    mail::summaries(refreshed.delivery.outbox@),
                    mail::summaries(refreshed.delivery.sent@),
                );
                cache::published(
                    shown.folders,
                    actions::overlaid(
                        shown.conversations,
                        shown.order,
                        actions::actions_of(queue@, old(self).binding@),
                    ),
                    shown.order,
                    revision,
                )
            }),
    {
        let mut folders = refreshed.folders;
        let mut conversations = refreshed.conversations;
        let mailbox = LocalMailbox::with_names(&self.binding, names);
        mailbox.project_folder(
            LocalFolder::Drafts,
            refreshed.drafts,
            &mut folders,
            &mut conversations,
        );
        mailbox.project_delivery(
            refreshed.delivery.outbox,
            refreshed.delivery.sent,
            &mut folders,
            &mut conversations,
        );
        let publication = self.cached_mailbox.publish_remote(
            &self.binding,
            revision,
            folders,
            conversations,
            queue,
        );
        RefreshOutcome {
            convergence_incomplete: refreshed.delivery.convergence_incomplete
                || refreshed.replay.convergence_incomplete,
            projection_stale: publication == RemotePublication::Stale,
        }
    }
}

/// What is shown of a mailbox: what the provider has, with the local folders.
pub open spec fn shown_mailbox(
    remote: MailboxView,
    parent: Seq<char>,
    names: LocalFolderNames,
    drafts: Seq<SummaryView>,
    outbox: Seq<SummaryView>,
    sent: Seq<SummaryView>,
) -> MailboxView {
    let with_drafts = local::with_local_folder(
        remote,
        parent,
        names.shown(LocalFolder::Drafts),
        LocalFolder::Drafts,
        drafts,
    );
    local::with_delivery(with_drafts, parent, names, outbox, sent)
}

/// What a message is moved to, and what is known of it.
pub open spec fn move_of(
    parent: Seq<char>,
    cache: CacheView,
    id: Seq<char>,
    folder: Seq<char>,
) -> Result<MoveView, MoveErrorView> {
    if local::is_local(parent, id) {
        Err(MoveErrorView::LocalMessage)
    } else {
        match cache::move_target(cache, id, folder) {
            Err(error) => Err(error),
            Ok((destination, summary)) => Ok(MoveView { destination, summary }),
        }
    }
}

/// What a query finds.
pub open spec fn search_results(
    cache: CacheView,
    left: RouteView,
    query: Seq<char>,
    remote: Seq<SummaryView>,
    local: Seq<SummaryView>,
) -> Seq<SummaryView> {
    let kept = cache::found_rows(
        cache::all_rows(cache.conversations, cache.order),
        text::lowercase_of(query),
    );
    mail::ranked(
        mail::first_of_each(
            actions::flagged(
                actions::redirected(remote + local + kept, left.moves),
                left.flags,
            ),
        ),
    )
}

} // verus!
