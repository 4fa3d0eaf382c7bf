//! What is kept of the mailbox of an account.
//!
//! Every local change gives the mailbox another revision. What was read of the mailbox
//! before such a change is not published after it.
use crate::integration::account::EdsAccountBinding;
use crate::integration::backend;
use crate::integration::backend::actions;
use crate::integration::backend::actions::MessageActionQueue;
use crate::integration::backend::projection;
use crate::integration::backend::MessageFlagChange;
use crate::integration::local;
use crate::integration::local::{LocalFolder, LocalFolderNames, LocalMailbox};
use crate::integration::mailbox;
use crate::integration::mailbox::MailboxConversations;
use crate::model::mail;
use crate::model::mail::{
    ConversationId, ConversationSummary, FolderId, FolderView, MailFolder, SummaryView,
};
use crate::text;
use vstd::prelude::*;

verus! {

/// What is kept of the mailbox of an account.
#[derive(Debug)]
pub struct MailboxCache {
    pub folders: Option<Vec<MailFolder>>,
    pub conversations: MailboxConversations,
    pub local_revision: u64,
}

/// What is kept of the mailbox of an account, as a value.
#[verifier::ext_equal]
pub struct CacheView {
    pub folders: Option<Seq<FolderView>>,
    pub conversations: Map<Seq<char>, Seq<SummaryView>>,
    pub order: Seq<Seq<char>>,
    pub revision: u64,
}

impl View for MailboxCache {
    type V = CacheView;

    open spec fn view(&self) -> CacheView {
        CacheView {
            folders: match self.folders {
                Some(folders) => Some(mail::folder_views(folders@)),
                None => None,
            },
            conversations: self.conversations@,
            order: self.conversations.order(),
            revision: self.local_revision,
        }
    }
}

/// Whether what the provider has was published.
#[derive(Debug, Clone, Copy, PartialEq, Eq, Structural)]
pub enum RemotePublication {
    Published,
    /// A local change was made since.
    Stale,
}

/// The conversations of a folder, or the revision at which they have to be read.
#[derive(Debug)]
pub enum ConversationLoad {
    Cached(Vec<ConversationSummary>),
    Required { revision: u64 },
}

/// The conversations of a folder as they were published.
#[derive(Debug)]
pub enum ConversationPublication {
    Published(Vec<ConversationSummary>),
    /// A local change was made since.
    Stale,
}

/// The revision after a local change.
pub open spec fn next_revision(revision: u64) -> u64 {
    if revision == u64::MAX {
        0
    } else {
        (revision + 1) as u64
    }
}

/// The folders with the unread messages of those that are loaded counted.
pub open spec fn counted(
    folders: Seq<FolderView>,
    map: Map<Seq<char>, Seq<SummaryView>>,
) -> Seq<FolderView> {
    folders.map_values(
        |folder: FolderView|
            if map.contains_key(folder.id) {
                FolderView { unread_count: local::unread_sum(map[folder.id]), ..folder }
            } else {
                folder
            },
    )
}

/// The folders, where they are known, with the unread messages counted.
pub open spec fn counted_opt(
    folders: Option<Seq<FolderView>>,
    map: Map<Seq<char>, Seq<SummaryView>>,
) -> Option<Seq<FolderView>> {
    match folders {
        Some(folders) => Some(counted(folders, map)),
        None => None,
    }
}

/// Whether the counts of the folders are those of the rows that are kept.
pub open spec fn counts_agree(cache: CacheView) -> bool {
    cache.folders is Some ==> forall|i: int|
        0 <= i < cache.folders->0.len() && cache.conversations.contains_key(
            (#[trigger] cache.folders->0[i]).id,
        ) ==> cache.folders->0[i].unread_count == local::unread_sum(
            cache.conversations[cache.folders->0[i].id],
        )
}

/// What is kept after a local change.
pub open spec fn changed(cache: CacheView, map: Map<Seq<char>, Seq<SummaryView>>) -> CacheView {
    CacheView {
        folders: counted_opt(cache.folders, map),
        conversations: map,
        order: cache.order,
        revision: next_revision(cache.revision),
    }
}

/// The folders once the first row of the message `id` was changed.
pub open spec fn with_change(
    map: Map<Seq<char>, Seq<SummaryView>>,
    order: Seq<Seq<char>>,
    id: Seq<char>,
    change: MessageFlagChange,
) -> Map<Seq<char>, Seq<SummaryView>> {
    match mailbox::holder(map, order, id) {
        None => map,
        Some(folder) => {
            let at = mailbox::position(map[folder], id);
            map.insert(
                folder,
                map[folder].update(at, backend::changed_summary(map[folder][at], change)),
            )
        },
    }
}

/// What is kept once the rows of a folder were read and nothing was changed since.
pub open spec fn with_loaded(
    cache: CacheView,
    folder: Seq<char>,
    rows: Seq<SummaryView>,
    left: actions::RouteView,
) -> CacheView {
    let known = cache.conversations.contains_key(folder);
    let map = if known {
        cache.conversations
    } else {
        cache.conversations.insert(folder, rows)
    };
    let order = if known {
        cache.order
    } else {
        cache.order.push(folder)
    };
    let shown = actions::overlaid(map, order, left);
    CacheView {
        folders: counted_opt(cache.folders, shown),
        conversations: shown,
        order,
        revision: cache.revision,
    }
}

/// What is kept once what the provider has was published.
pub open spec fn published(
    folders: Seq<FolderView>,
    map: Map<Seq<char>, Seq<SummaryView>>,
    order: Seq<Seq<char>>,
    revision: u64,
) -> CacheView {
    CacheView { folders: Some(counted(folders, map)), conversations: map, order, revision }
}

/// The rows of all folders.
pub open spec fn all_rows(
    map: Map<Seq<char>, Seq<SummaryView>>,
    order: Seq<Seq<char>>,
) -> Seq<SummaryView>
    decreases order.len(),
{
    if order.len() == 0 {
        Seq::empty()
    } else {
        all_rows(map, order.drop_last()) + map[order.last()]
    }
}

/// The rows that a query finds.
pub open spec fn found_rows(rows: Seq<SummaryView>, query: Seq<char>) -> Seq<SummaryView>
    decreases rows.len(),
{
    if rows.len() == 0 {
        Seq::empty()
    } else if backend::matches_query(rows.last(), query) {
        found_rows(rows.drop_last(), query).push(rows.last())
    } else {
        found_rows(rows.drop_last(), query)
    }
}

/// What is left once local folders have to be read again.
#[verifier::ext_equal]
pub struct InvalidationView {
    pub folders: Seq<FolderView>,
    pub conversations: Map<Seq<char>, Seq<SummaryView>>,
    pub order: Seq<Seq<char>>,
    pub ids: Seq<Seq<char>>,
}

/// What is left once a local folder has to be read again: the folder in which it is shown
/// is listed, without rows and unread messages.
pub open spec fn invalidated_one(
    before: InvalidationView,
    parent: Seq<char>,
    names: LocalFolderNames,
    folder: LocalFolder,
) -> InvalidationView {
    let id = local::display_id(before.folders, parent, folder);
    let listed = local::with_folder(
        before.folders,
        id,
        names.shown(folder),
        local::kind_of(folder),
    );
    InvalidationView {
        folders: local::with_unread(listed, id, 0),
        conversations: before.conversations.remove(id),
        order: mailbox::without_folder(before.order, id),
        ids: before.ids.push(id),
    }
}

/// What is left once all of `folders` have to be read again.
pub open spec fn invalidated(
    start: InvalidationView,
    parent: Seq<char>,
    names: LocalFolderNames,
    folders: Seq<LocalFolder>,
) -> InvalidationView
    decreases folders.len(),
{
    if folders.len() == 0 {
        start
    } else {
        invalidated_one(
            invalidated(start, parent, names, folders.drop_last()),
            parent,
            names,
            folders.last(),
        )
    }
}

/// Why a message cannot be moved.
#[derive(Debug, PartialEq, Eq)]
pub enum MoveError {
    /// The message waits in a local folder.
    LocalMessage,
    /// The folders are not known.
    NoFolders,
    /// No folder has that name.
    UnknownDestination(String),
    /// No row is kept of the message.
    UnknownConversation(String),
}

/// Why a message cannot be moved, as a value.
#[verifier::ext_equal]
pub enum MoveErrorView {
    LocalMessage,
    NoFolders,
    UnknownDestination(Seq<char>),
    UnknownConversation(Seq<char>),
}

impl View for MoveError {
    type V = MoveErrorView;

    open spec fn view(&self) -> MoveErrorView {
        match self {
            MoveError::LocalMessage => MoveErrorView::LocalMessage,
            MoveError::NoFolders => MoveErrorView::NoFolders,
            MoveError::UnknownDestination(id) => MoveErrorView::UnknownDestination(id@),
            MoveError::UnknownConversation(id) => MoveErrorView::UnknownConversation(id@),
        }
    }
}

impl MoveErrorView {
    /// What is reported.
    pub open spec fn message(self) -> Seq<char> {
        match self {
            MoveErrorView::LocalMessage =>
                "local message awaiting mailbox reconciliation cannot be moved"@,
            MoveErrorView::NoFolders => "cannot resolve a move before folders are cached"@,
            MoveErrorView::UnknownDestination(id) => "could not resolve destination folder '"@ + id
                + "'"@,
            MoveErrorView::UnknownConversation(id) => "could not locate cached conversation '"@ + id
                + "' before moving it"@,
        }
    }
}

impl MoveError {
    /// What is reported.
    pub fn message(&self) -> (message: String)
        ensures
            message@ == self@.message(),
    {
        match self {
            MoveError::LocalMessage =>
                "local message awaiting mailbox reconciliation cannot be moved".to_owned(),
            MoveError::NoFolders => "cannot resolve a move before folders are cached".to_owned(),
            MoveError::UnknownDestination(id) => text::enclosed(
                "could not resolve destination folder '",
                id.as_str(),
                "'",
            ),
            MoveError::UnknownConversation(id) => text::enclosed(
                "could not locate cached conversation '",
                id.as_str(),
                "' before moving it",
            ),
        }
    }
}

/// Where a message is to be moved, and what is known of it.
pub open spec fn resolved_move(
    folders: Seq<FolderView>,
    map: Map<Seq<char>, Seq<SummaryView>>,
    order: Seq<Seq<char>>,
    id: Seq<char>,
    folder: Seq<char>,
) -> Result<(Seq<char>, SummaryView), MoveErrorView> {
    if !local::has_folder(folders, folder) {
        Err(MoveErrorView::UnknownDestination(folder))
    } else {
        match mailbox::holder(map, order, id) {
            None => Err(MoveErrorView::UnknownConversation(id)),
            Some(held) => Ok((folder, map[held][mailbox::position(map[held], id)])),
        }
    }
}

/// Finds where a message is to be moved, and what is known of it.
pub fn resolve_move_request(
    folders: &Vec<MailFolder>,
    conversations: &MailboxConversations,
    conversation_id: &ConversationId,
    folder_id: &FolderId,
) -> (result: Result<(FolderId, ConversationSummary), MoveError>)
    ensures
        match (
            result,
            resolved_move(
                mail::folder_views(folders@),
                conversations@,
                conversations.order(),
                conversation_id@,
                folder_id@,
            ),
        ) {
            (Ok((destination, summary)), Ok(expected)) => destination@ == expected.0 && summary@
                == expected.1,
            (Err(error), Err(expected)) => error@ == expected,
            _ => false,
        },
{
    match local::find_folder(folders, folder_id) {
        None => Err(MoveError::UnknownDestination(folder_id.0.clone())),
        Some(at) => match conversations.find(conversation_id) {
            None => Err(MoveError::UnknownConversation(conversation_id.0.clone())),
            Some(summary) => Ok((folders[at].id.clone(), summary)),
        },
    }
}

/// Counts the unread messages of the folders that are loaded.
fn count_unread(folders: &Vec<MailFolder>, conversations: &MailboxConversations) -> (counted: Vec<
    MailFolder,
>)
    ensures
        mail::folder_views(counted@) == self::counted(
            mail::folder_views(folders@),
            conversations@,
        ),
{
    let ghost all = mail::folder_views(folders@);
    let mut counted: Vec<MailFolder> = Vec::new();
    let mut i: usize = 0;
    assert(mail::folder_views(counted@) =~= self::counted(all.take(0), conversations@));
    while i < folders.len()
        invariant
            i <= folders.len(),
            all == mail::folder_views(folders@),
            mail::folder_views(counted@) == self::counted(all.take(i as int), conversations@),
        decreases folders.len() - i,
    {
        let ghost before = mail::folder_views(counted@);
        let mut folder = folders[i].clone();
        let ghost old_value = folder@;
        match conversations.get(&folder.id) {
            None => {},
            Some(rows) => {
                folder.unread_count = local::sum_unread(rows);
            },
        }
        let ghost value = folder@;
        counted.push(folder);
        proof {
            assert(mail::folder_views(counted@) =~= before.push(value));
            assert(self::counted(all.take(i + 1), conversations@) =~= before.push(value));
        }
        i += 1;
    }
    assert(all.take(i as int) =~= all);
    counted
}

impl Default for MailboxCache {
    fn default() -> (cache: Self)
        ensures
            cache@.folders is None,
            cache@.conversations == Map::<Seq<char>, Seq<SummaryView>>::empty(),
            cache@.order == Seq::<Seq<char>>::empty(),
            cache@.revision == 0,
    {
        MailboxCache { folders: None, conversations: MailboxConversations::new(), local_revision: 0 }
    }
}

impl MailboxCache {
    /// The folders, where they are known.
    pub fn folders(&self) -> (folders: Option<Vec<MailFolder>>)
        ensures
            match folders {
                Some(folders) => self@.folders == Some(mail::folder_views(folders@)),
                None => self@.folders is None,
            },
    {
        match &self.folders {
            Some(folders) => Some(mail::clone_folders(folders)),
            None => None,
        }
    }

    /// Keeps the folders, unless they are known. Gives those that are kept.
    pub fn install_folders_if_absent(&mut self, folders: Vec<MailFolder>) -> (kept: Vec<MailFolder>)
        ensures
            final(self)@ == (CacheView {
                folders: Some(mail::folder_views(kept@)),
                ..old(self)@
            }),
            mail::folder_views(kept@) == (match old(self)@.folders {
                Some(known) => known,
                None => mail::folder_views(folders@),
            }),
    {
        match &self.folders {
            Some(known) => mail::clone_folders(known),
            None => {
                let kept = mail::clone_folders(&folders);
                self.folders = Some(folders);
                kept
            },
        }
    }

    /// The conversations of a folder, where they are kept.
    pub fn conversations(&self, folder_id: &FolderId) -> (rows: Option<Vec<ConversationSummary>>)
        ensures
            match rows {
                Some(rows) => self@.conversations.contains_key(folder_id@) && mail::summaries(rows@)
                    == self@.conversations[folder_id@],
                None => !self@.conversations.contains_key(folder_id@),
            },
    {
        match self.conversations.get(folder_id) {
            Some(rows) => Some(mail::clone_summaries(rows)),
            None => None,
        }
    }

    /// The conversations of a folder, or the revision at which they have to be read.
    pub fn begin_conversation_load(&self, folder_id: &FolderId) -> (load: ConversationLoad)
        ensures
            match load {
                ConversationLoad::Cached(rows) => self@.conversations.contains_key(folder_id@)
                    && mail::summaries(rows@) == self@.conversations[folder_id@],
                ConversationLoad::Required { revision } => !self@.conversations.contains_key(
                    folder_id@,
                ) && revision == self@.revision,
            },
    {
        match self.conversations.get(folder_id) {
            Some(rows) => ConversationLoad::Cached(mail::clone_summaries(rows)),
            None => ConversationLoad::Required { revision: self.local_revision },
        }
    }

    fn refresh_folder_counts(&mut self)
        ensures
            final(self)@ == (CacheView {
                folders: counted_opt(old(self)@.folders, old(self)@.conversations),
                ..old(self)@
            }),
    {
        let counted = match &self.folders {
            Some(folders) => Some(count_unread(folders, &self.conversations)),
            None => None,
        };
        self.folders = counted;
    }

    fn mark_local_change(&mut self)
        ensures
            final(self)@ == changed(old(self)@, old(self)@.conversations),
    {
        self.local_revision = self.local_revision.wrapping_add(1);
        self.refresh_folder_counts();
    }

    /// Keeps the conversations of a folder, which were read at `expected_revision`. Where
    /// they are kept already, those stay.
    pub fn publish_conversations(
        &mut self,
        route: &EdsAccountBinding,
        folder_id: &FolderId,
        expected_revision: u64,
        conversations: Vec<ConversationSummary>,
        actions: &MessageActionQueue,
    ) -> (publication: ConversationPublication)
        ensures
            match publication {
                ConversationPublication::Stale => {
                    &&& old(self)@.revision != expected_revision
                    &&& final(self)@ == old(self)@
                },
                ConversationPublication::Published(rows) => {
                    &&& old(self)@.revision == expected_revision
                    &&& final(self)@ == with_loaded(
                        old(self)@,
                        folder_id@,
                        mail::summaries(conversations@),
                        actions::actions_of(actions@, route@),
                    )
                    &&& final(self)@.conversations.contains_key(folder_id@)
                    &&& mail::summaries(rows@) == final(self)@.conversations[folder_id@]
                },
            },
    {
        if self.local_revision != expected_revision {
            return ConversationPublication::Stale;
        }
        if !self.conversations.contains_folder(folder_id) {
            self.conversations.insert(folder_id.clone(), conversations);
        }
        let ghost map = self.conversations@;
        let ghost order = self.conversations.order();
        let _ = actions.apply_to_projection(route, &mut self.conversations);
        proof {
            lemma_overlaid_folders(map, order, actions::actions_of(actions@, route@), folder_id@);
        }
        self.refresh_folder_counts();
        let rows = match self.conversations.get(folder_id) {
            Some(rows) => mail::clone_summaries(rows),
            None => Vec::new(),
        };
        ConversationPublication::Published(rows)
    }

    /// The conversations that a query finds among those that are kept.
    pub fn matching_conversations(&self, query: &str) -> (found: Vec<ConversationSummary>)
        ensures
            mail::summaries(found@) == found_rows(
                all_rows(self@.conversations, self@.order),
                query@,
            ),
    {
        let ids = self.conversations.folder_ids();
        let ghost map = self.conversations@;
        let ghost order = self.conversations.order();
        let mut found: Vec<ConversationSummary> = Vec::new();
        let mut i: usize = 0;
        assert(order.take(0) =~= Seq::empty());
        assert(mail::summaries(found@) =~= Seq::empty());
        while i < ids.len()
            invariant
                i <= ids.len(),
                map == self.conversations@,
                order == self.conversations.order(),
                ids@.len() == order.len(),
                forall|j: int| 0 <= j < ids@.len() ==> (#[trigger] ids@[j])@ == order[j],
                forall|id: Seq<char>| #[trigger] map.contains_key(id) <==> order.contains(id),
                mail::summaries(found@) == found_rows(all_rows(map, order.take(i as int)), query@),
            decreases ids.len() - i,
        {
            proof {
                assert(order.take(i + 1).drop_last() =~= order.take(i as int));
                assert(order.take(i + 1).last() == order[i as int]);
                assert(order.contains(order[i as int]));
                assert(map.contains_key(order[i as int]));
            }
            let ghost before = all_rows(map, order.take(i as int));
            if let Some(rows) = self.conversations.get(&ids[i]) {
                let ghost added = mail::summaries(rows@);
                let mut k: usize = 0;
                assert(before + added.take(0) =~= before);
                while k < rows.len()
                    invariant
                        k <= rows.len(),
                        added == mail::summaries(rows@),
                        mail::summaries(found@) == found_rows(
                            before + added.take(k as int),
                            query@,
                        ),
                    decreases rows.len() - k,
                {
                    let ghost listed = mail::summaries(found@);
                    proof {
                        assert((before + added.take(k + 1)).drop_last() =~= before + added.take(
                            k as int,
                        ));
                        assert((before + added.take(k + 1)).last() == rows@[k as int]@);
                    }
                    if backend::summary_contains_query(&rows[k], query) {
                        found.push(rows[k].clone());
                        assert(mail::summaries(found@) =~= listed.push(rows@[k as int]@));
                    }
                    k += 1;
                }
                assert(added.take(k as int) =~= added);
            }
            i += 1;
        }
        assert(order.take(i as int) =~= order);
        found
    }

    /// Shows the mailbox as it is once everything on `route` was carried out. Where
    /// something is left to carry out, that is a local change.
    pub fn apply_action_projection(
        &mut self,
        route: &EdsAccountBinding,
        actions: &MessageActionQueue,
    )
        ensures
            final(self)@ == (if actions::actions_of(actions@, route@).is_empty() {
                old(self)@
            } else {
                changed(
                    old(self)@,
                    actions::overlaid(
                        old(self)@.conversations,
                        old(self)@.order,
                        actions::actions_of(actions@, route@),
                    ),
                )
            }),
    {
        let ghost map = self.conversations@;
        let ghost order = self.conversations.order();
        if !actions.apply_to_projection(route, &mut self.conversations) {
            proof {
                lemma_nothing_overlaid(map, order, actions::actions_of(actions@, route@));
            }
            return ;
        }
        self.mark_local_change();
    }

    /// Changes what is kept of a message. That is a local change, whether or not a row is
    /// kept of the message.
    pub fn record_message_change(
        &mut self,
        conversation_id: &ConversationId,
        change: MessageFlagChange,
    )
        ensures
            final(self)@ == changed(
                old(self)@,
                with_change(
                    old(self)@.conversations,
                    old(self)@.order,
                    conversation_id@,
                    change,
                ),
            ),
    {
        match self.conversations.locate(conversation_id) {
            None => {},
            Some((folder, at)) => {
                let mut rows = match self.conversations.get(&folder) {
                    Some(rows) => mail::clone_summaries(rows),
                    None => Vec::new(),
                };
                let ghost before = mail::summaries(rows@);
                assert(before.len() == rows@.len());
                let summary = backend::with_flag_change(&rows[at], change);
                let ghost value = summary@;
                rows.set(at, summary);
                assert(mail::summaries(rows@) =~= before.update(at as int, value));
                self.conversations.insert(folder, rows);
            },
        }
        self.mark_local_change();
    }

    /// The revision of the mailbox.
    pub fn revision(&self) -> (revision: u64)
        ensures
            revision == self@.revision,
    {
        self.local_revision
    }

    /// Keeps what the provider has, which was read at `expected_local_revision`.
    pub fn publish_remote(
        &mut self,
        route: &EdsAccountBinding,
        expected_local_revision: u64,
        folders: Vec<MailFolder>,
        conversations: MailboxConversations,
        actions: &MessageActionQueue,
    ) -> (publication: RemotePublication)
        ensures
            publication == (if old(self)@.revision == expected_local_revision {
                RemotePublication::Published
            } else {
                RemotePublication::Stale
            }),
            final(self)@ == (if old(self)@.revision == expected_local_revision {
                published(
                    mail::folder_views(folders@),
                    actions::overlaid(
                        conversations@,
                        conversations.order(),
                        actions::actions_of(actions@, route@),
                    ),
                    conversations.order(),
                    old(self)@.revision,
                )
            } else {
                old(self)@
            }),
    {
        if self.local_revision != expected_local_revision {
            return RemotePublication::Stale;
        }
        let mut conversations = conversations;
        let _ = actions.apply_to_projection(route, &mut conversations);
        self.folders = Some(folders);
        self.conversations = conversations;
        self.refresh_folder_counts();
        RemotePublication::Published
    }

    /// Forgets what is kept of local folders, which have to be read again. That is a local
    /// change. Gives the folders in which they are shown, each once and in order.
    pub fn invalidate_local(
        &mut self,
        mailbox: &LocalMailbox<'_>,
        local_folders: &Vec<LocalFolder>,
    ) -> (ids: Vec<FolderId>)
        ensures
            final(self)@.revision == next_revision(old(self)@.revision),
            match old(self)@.folders {
                None => {
                    &&& ids@.len() == 0
                    &&& final(self)@.folders is None
                    &&& final(self)@.conversations == old(self)@.conversations
                    &&& final(self)@.order == old(self)@.order
                },
                Some(folders) => {
                    let left = invalidated(
                        InvalidationView {
                            folders,
                            conversations: old(self)@.conversations,
                            order: old(self)@.order,
                            ids: Seq::empty(),
                        },
                        mailbox.parent(),
                        mailbox.names,
                        local_folders@,
                    );
                    &&& final(self)@.folders == Some(left.folders)
                    &&& final(self)@.conversations == left.conversations
                    &&& final(self)@.order == left.order
                    &&& text::ordered(folder_names(ids@))
                    &&& forall|id: Seq<char>| #[trigger]
                        folder_names(ids@).contains(id) <==> left.ids.contains(id)
                },
            },
    {
        self.local_revision = self.local_revision.wrapping_add(1);
        let ghost start = InvalidationView {
            folders: match self@.folders {
                Some(folders) => folders,
                None => Seq::empty(),
            },
            conversations: self@.conversations,
            order: self@.order,
            ids: Seq::empty(),
        };
        let mut taken: Option<Vec<MailFolder>> = None;
        std::mem::swap(&mut taken, &mut self.folders);
        let mut folders = match taken {
            None => return Vec::new(),
            Some(folders) => folders,
        };
        let mut names: Vec<String> = Vec::new();
        let mut i: usize = 0;
        assert(local_folders@.take(0) =~= Seq::empty());
        assert(text::views(names@) =~= Seq::empty());
        while i < local_folders.len()
            invariant
                i <= local_folders.len(),
                ({
                    let left = invalidated(
                        start,
                        mailbox.parent(),
                        mailbox.names,
                        local_folders@.take(i as int),
                    );
                    &&& mail::folder_views(folders@) == left.folders
                    &&& self.conversations@ == left.conversations
                    &&& self.conversations.order() == left.order
                    &&& text::ordered(text::views(names@))
                    &&& forall|id: Seq<char>| #[trigger]
                        text::views(names@).contains(id) <==> left.ids.contains(id)
                }),
                self.local_revision == next_revision(old(self)@.revision),
            decreases local_folders.len() - i,
        {
            let ghost before = invalidated(
                start,
                mailbox.parent(),
                mailbox.names,
                local_folders@.take(i as int),
            );
            proof {
                assert(local_folders@.take(i + 1).drop_last() =~= local_folders@.take(i as int));
                assert(local_folders@.take(i + 1).last() == local_folders@[i as int]);
            }
            let id = mailbox.ensure_projection_folder(&mut folders, local_folders[i]);
            self.conversations.remove(&id);
            local::update_unread_count(&mut folders, &id, &self.conversations);
            proof {
                assert(local::rows_of(self.conversations@, id@) =~= Seq::empty());
                assert(local::unread_sum(Seq::empty()) == 0);
            }
            text::insert_ordered(&mut names, id.0.as_str());
            proof {
                let ids = before.ids.push(id@);
                assert forall|other: Seq<char>| #[trigger]
                    text::views(names@).contains(other) <==> ids.contains(other) by {
                    if before.ids.contains(other) {
                        let k = choose|k: int| 0 <= k < before.ids.len() && before.ids[k] == other;
                        assert(ids[k] == other);
                    }
                    if other == id@ {
                        assert(ids[before.ids.len() as int] == other);
                    }
                    if ids.contains(other) && other != id@ {
                        let k = choose|k: int| 0 <= k < ids.len() && ids[k] == other;
                        assert(before.ids[k] == other);
                    }
                }
            }
            i += 1;
        }
        assert(local_folders@.take(i as int) =~= local_folders@);
        self.folders = Some(folders);
        let ghost sorted = text::views(names@);
        let mut ids: Vec<FolderId> = Vec::new();
        assert(folder_names(ids@) =~= sorted.take(0));
        for name in it: names
            invariant
                sorted == text::views(it.seq()),
                folder_names(ids@) == sorted.take(it.index()),
        {
            let ghost before = folder_names(ids@);
            let ghost value = name@;
            ids.push(FolderId(name));
            proof {
                assert(folder_names(ids@) =~= before.push(value));
                assert(sorted.take(it.index() + 1) =~= before.push(value));
            }
        }
        assert(sorted.take(sorted.len() as int) =~= sorted);
        ids
    }

    /// Finds where a message is to be moved, and what is known of it.
    pub fn resolve_move(&self, conversation_id: &ConversationId, folder_id: &FolderId) -> (result:
        Result<(FolderId, ConversationSummary), MoveError>)
        ensures
            match (result, move_target(self@, conversation_id@, folder_id@)) {
                (Ok((destination, summary)), Ok(expected)) => destination@ == expected.0
                    && summary@ == expected.1,
                (Err(error), Err(expected)) => error@ == expected,
                _ => false,
            },
    {
        match &self.folders {
            None => Err(MoveError::NoFolders),
            Some(folders) => resolve_move_request(
                folders,
                &self.conversations,
                conversation_id,
                folder_id,
            ),
        }
    }
}

/// Where a message is to be moved, and what is known of it.
pub open spec fn move_target(cache: CacheView, id: Seq<char>, folder: Seq<char>) -> Result<
    (Seq<char>, SummaryView),
    MoveErrorView,
> {
    match cache.folders {
        None => Err(MoveErrorView::NoFolders),
        Some(folders) => resolved_move(folders, cache.conversations, cache.order, id, folder),
    }
}

/// The names of folders.
pub open spec fn folder_names(list: Seq<FolderId>) -> Seq<Seq<char>> {
    list.map_values(|id: FolderId| id@)
}

proof fn lemma_moved_folders(
    map: Map<Seq<char>, Seq<SummaryView>>,
    order: Seq<Seq<char>>,
    moves: Seq<actions::MoveView>,
    folder: Seq<char>,
)
    requires
        map.contains_key(folder),
    ensures
        actions::moved_all(map, order, moves).contains_key(folder),
    decreases moves.len(),
{
    if moves.len() > 0 {
        lemma_moved_folders(map, order, moves.drop_last(), folder);
    }
}

proof fn lemma_overlaid_folders(
    map: Map<Seq<char>, Seq<SummaryView>>,
    order: Seq<Seq<char>>,
    left: actions::RouteView,
    folder: Seq<char>,
)
    requires
        map.contains_key(folder),
    ensures
        actions::overlaid(map, order, left).contains_key(folder),
{
    lemma_moved_folders(map, order, left.moves, folder);
}

proof fn lemma_nothing_overlaid(
    map: Map<Seq<char>, Seq<SummaryView>>,
    order: Seq<Seq<char>>,
    left: actions::RouteView,
)
    requires
        left.is_empty(),
    ensures
        actions::overlaid(map, order, left) == map,
{
    assert forall|folder: Seq<char>| map.contains_key(folder) implies actions::flagged(
        map[folder],
        left.flags,
    ) == map[folder] by {
        assert(actions::flagged(map[folder], left.flags) =~= map[folder]);
    }
    assert(actions::overlaid(map, order, left) =~= map);
}

/// Whether each row is shown in the folder that lists it.
spec fn rows_in_place(map: Map<Seq<char>, Seq<SummaryView>>) -> bool {
    forall|folder: Seq<char>, i: int|
        #![trigger map[folder][i]]
        map.contains_key(folder) && 0 <= i < map[folder].len() ==> map[folder][i].folder_id
            == folder
}

proof fn lemma_unique_parts(a: Seq<SummaryView>, b: Seq<SummaryView>)
    ensures
        mail::unique_ids(a + b) <==> mail::unique_ids(a) && mail::unique_ids(b) && (forall|
            id: Seq<char>,
        |
            #![trigger mail::has_id(a, id), mail::has_id(b, id)]
            !(mail::has_id(a, id) && mail::has_id(b, id))),
{
    let all = a + b;
    if mail::unique_ids(all) {
        assert forall|i: int, j: int|
            #![trigger a[i], a[j]]
            0 <= i < j < a.len() implies a[i].id != a[j].id by {
            assert(all[i].id != all[j].id);
        }
        assert forall|i: int, j: int|
            #![trigger b[i], b[j]]
            0 <= i < j < b.len() implies b[i].id != b[j].id by {
            assert(all[a.len() + i].id != all[a.len() + j].id);
        }
        assert forall|id: Seq<char>|
            #![trigger mail::has_id(a, id), mail::has_id(b, id)]
            !(mail::has_id(a, id) && mail::has_id(b, id)) by {
            if mail::has_id(a, id) && mail::has_id(b, id) {
                let i = choose|i: int| 0 <= i < a.len() && #[trigger] a[i].id == id;
                let j = choose|j: int| 0 <= j < b.len() && #[trigger] b[j].id == id;
                assert(all[i].id != all[a.len() + j].id);
            }
        }
    } else if mail::unique_ids(a) && mail::unique_ids(b) {
        let (i, j) = choose|i: int, j: int|
            #![trigger all[i], all[j]]
            0 <= i < j < all.len() && all[i].id == all[j].id;
        if j < a.len() {
            assert(a[i].id != a[j].id);
        } else if i >= a.len() {
            assert(b[i - a.len()].id != b[j - a.len()].id);
        } else {
            assert(a[i].id == all[i].id);
            assert(b[j - a.len()].id == all[i].id);
            assert(mail::has_id(a, all[i].id));
            assert(mail::has_id(b, all[i].id));
        }
    }
}

/// Whether no message is listed by two folders or twice by one, as far as the first `n`
/// folders go.
spec fn listed_once(
    map: Map<Seq<char>, Seq<SummaryView>>,
    order: Seq<Seq<char>>,
    n: int,
) -> bool {
    &&& forall|j: int| 0 <= j < n ==> mail::unique_ids(map[#[trigger] order[j]])
    &&& forall|j: int, k: int, id: Seq<char>|
        #![trigger mail::has_id(map[order[j]], id), mail::has_id(map[order[k]], id)]
        0 <= j < k < n ==> !(mail::has_id(map[order[j]], id) && mail::has_id(map[order[k]], id))
}

proof fn lemma_all_rows(
    map: Map<Seq<char>, Seq<SummaryView>>,
    order: Seq<Seq<char>>,
    n: int,
)
    requires
        0 <= n <= order.len(),
    ensures
        mail::unique_ids(all_rows(map, order.take(n))) <==> listed_once(map, order, n),
        forall|id: Seq<char>| #[trigger]
            mail::has_id(all_rows(map, order.take(n)), id) <==> exists|j: int|
                0 <= j < n && mail::has_id(map[#[trigger] order[j]], id),
    decreases n,
{
    if n > 0 {
        let before = all_rows(map, order.take(n - 1));
        let added = map[order[n - 1]];
        let all = all_rows(map, order.take(n));
        lemma_all_rows(map, order, n - 1);
        assert(order.take(n).drop_last() =~= order.take(n - 1));
        assert(order.take(n).last() == order[n - 1]);
        assert(all == before + added);
        assert forall|id: Seq<char>| #[trigger] mail::has_id(all, id) <==> exists|j: int|
            0 <= j < n && mail::has_id(map[#[trigger] order[j]], id) by {
            projection::lemma_has_id_concat(before, added, id);
            if mail::has_id(before, id) {
                let j = choose|j: int| 0 <= j < n - 1 && mail::has_id(map[#[trigger] order[j]], id);
                assert(mail::has_id(map[order[j]], id));
            }
            if exists|j: int| 0 <= j < n && mail::has_id(map[#[trigger] order[j]], id) {
                let j = choose|j: int| 0 <= j < n && mail::has_id(map[#[trigger] order[j]], id);
                if j < n - 1 {
                    assert(mail::has_id(map[order[j]], id));
                    assert(mail::has_id(before, id));
                }
            }
        }
        lemma_unique_parts(before, added);
        if mail::unique_ids(all) {
            assert forall|j: int| 0 <= j < n implies mail::unique_ids(map[#[trigger] order[j]]) by {}
            assert forall|j: int, k: int, id: Seq<char>|
                #![trigger mail::has_id(map[order[j]], id), mail::has_id(map[order[k]], id)]
                0 <= j < k < n implies !(mail::has_id(map[order[j]], id) && mail::has_id(
                map[order[k]],
                id,
            )) by {
                if k == n - 1 && mail::has_id(map[order[j]], id) {
                    assert(mail::has_id(before, id));
                }
            }
        }
        if listed_once(map, order, n) {
            assert(listed_once(map, order, n - 1));
            assert(mail::unique_ids(map[order[n - 1]]));
            assert forall|id: Seq<char>|
                #![trigger mail::has_id(before, id), mail::has_id(added, id)]
                !(mail::has_id(before, id) && mail::has_id(added, id)) by {
                if mail::has_id(before, id) && mail::has_id(added, id) {
                    let j = choose|j: int|
                        0 <= j < n - 1 && mail::has_id(map[#[trigger] order[j]], id);
                    assert(mail::has_id(map[order[j]], id) && mail::has_id(map[order[n - 1]], id));
                }
            }
        }
    }
}

proof fn lemma_consistent_rows(map: Map<Seq<char>, Seq<SummaryView>>, order: Seq<Seq<char>>)
    requires
        mailbox::ordered_by(map, order),
        forall|i: int, j: int|
            #![trigger order[i], order[j]]
            0 <= i < j < order.len() ==> order[i] != order[j],
    ensures
        mailbox::consistent(map) <==> rows_in_place(map) && mail::unique_ids(all_rows(map, order)),
{
    let n = order.len() as int;
    lemma_all_rows(map, order, n);
    assert(order.take(n) =~= order);
    if mailbox::consistent(map) {
        assert forall|j: int| 0 <= j < n implies mail::unique_ids(map[#[trigger] order[j]]) by {
            assert(order.contains(order[j]));
            assert(map.contains_key(order[j]));
        }
        assert forall|j: int, k: int, id: Seq<char>|
            #![trigger mail::has_id(map[order[j]], id), mail::has_id(map[order[k]], id)]
            0 <= j < k < n implies !(mail::has_id(map[order[j]], id) && mail::has_id(
            map[order[k]],
            id,
        )) by {
            assert(order.contains(order[j]) && order.contains(order[k]));
            assert(map.contains_key(order[j]) && map.contains_key(order[k]));
            assert(order[j] != order[k]);
        }
    }
    if rows_in_place(map) && listed_once(map, order, n) {
        assert forall|folder: Seq<char>| #[trigger]
            map.contains_key(folder) implies mail::unique_ids(map[folder]) by {
            assert(order.contains(folder));
            let j = choose|j: int| 0 <= j < order.len() && order[j] == folder;
            assert(mail::unique_ids(map[order[j]]));
        }
        assert forall|folder: Seq<char>, other: Seq<char>, id: Seq<char>|
            #![trigger mail::has_id(map[folder], id), mail::has_id(map[other], id)]
            map.contains_key(folder) && map.contains_key(other) && mail::has_id(map[folder], id)
                && mail::has_id(map[other], id) implies folder == other by {
            assert(order.contains(folder) && order.contains(other));
            let j = choose|j: int| 0 <= j < order.len() && order[j] == folder;
            let k = choose|k: int| 0 <= k < order.len() && order[k] == other;
            assert(mail::has_id(map[order[j]], id) && mail::has_id(map[order[k]], id));
            if j < k {
                assert(!(mail::has_id(map[order[j]], id) && mail::has_id(map[order[k]], id)));
            } else if k < j {
                assert(!(mail::has_id(map[order[k]], id) && mail::has_id(map[order[j]], id)));
            }
        }
    }
}

proof fn lemma_rows_of_more_folders(
    map: Map<Seq<char>, Seq<SummaryView>>,
    order: Seq<Seq<char>>,
    n: int,
)
    requires
        0 <= n <= order.len(),
        !mail::unique_ids(all_rows(map, order.take(n))),
    ensures
        !mail::unique_ids(all_rows(map, order)),
{
    lemma_all_rows(map, order, n);
    lemma_all_rows(map, order, order.len() as int);
    assert(order.take(order.len() as int) =~= order);
    if listed_once(map, order, order.len() as int) {
        assert(listed_once(map, order, n));
    }
}

/// Whether the folders fit together: each conversation is shown in the folder that lists
/// it, and none is listed twice.
pub fn conversation_projection_is_consistent(conversations: &MailboxConversations) -> (r: bool)
    ensures
        r == mailbox::consistent(conversations@),
{
    let ids = conversations.folder_ids();
    let ghost map = conversations@;
    let ghost order = conversations.order();
    proof {
        assert(mailbox::ordered_by(map, order));
        lemma_consistent_rows(map, order);
    }
    let mut seen: Vec<ConversationSummary> = Vec::new();
    let mut i: usize = 0;
    assert(order.take(0) =~= Seq::empty());
    assert(mail::summaries(seen@) =~= Seq::empty());
    while i < ids.len()
        invariant
            i <= ids.len(),
            map == conversations@,
            order == conversations.order(),
            ids@.len() == order.len(),
            forall|j: int| 0 <= j < ids@.len() ==> (#[trigger] ids@[j])@ == order[j],
            mailbox::ordered_by(map, order),
            mailbox::consistent(map) <==> rows_in_place(map) && mail::unique_ids(
                all_rows(map, order),
            ),
            mail::summaries(seen@) == all_rows(map, order.take(i as int)),
            mail::unique_ids(mail::summaries(seen@)),
            forall|j: int, k: int|
                #![trigger map[order[j]][k]]
                0 <= j < i && 0 <= k < map[order[j]].len() ==> map[order[j]][k].folder_id
                    == order[j],
        decreases ids.len() - i,
    {
        proof {
            assert(order.take(i + 1).drop_last() =~= order.take(i as int));
            assert(order.take(i + 1).last() == order[i as int]);
            assert(order.contains(order[i as int]));
            assert(map.contains_key(order[i as int]));
        }
        let ghost before = mail::summaries(seen@);
        if let Some(rows) = conversations.get(&ids[i]) {
            let ghost added = mail::summaries(rows@);
            let mut k: usize = 0;
            assert(before + added.take(0) =~= before);
            while k < rows.len()
                invariant
                    k <= rows.len(),
                    i < ids.len(),
                    map == conversations@,
                    ids@.len() == order.len(),
                    ids@[i as int]@ == order[i as int],
                    map.contains_key(order[i as int]),
                    before == all_rows(map, order.take(i as int)),
                    order.take(i + 1).drop_last() == order.take(i as int),
                    order.take(i + 1).last() == order[i as int],
                    mailbox::consistent(map) <==> rows_in_place(map) && mail::unique_ids(
                        all_rows(map, order),
                    ),
                    added == mail::summaries(rows@),
                    added == map[order[i as int]],
                    mail::summaries(seen@) == before + added.take(k as int),
                    mail::unique_ids(mail::summaries(seen@)),
                    forall|j: int| 0 <= j < k ==> (#[trigger] added[j]).folder_id == order[i as int],
                decreases rows.len() - k,
            {
                let ghost listed = mail::summaries(seen@);
                let row = &rows[k];
                proof {
                    assert(row@ == map[order[i as int]][k as int]);
                }
                if row.folder_id.0 != ids[i].0 {
                    assert(!rows_in_place(map));
                    return false;
                }
                if mail::contains_id(&seen, &row.id) {
                    proof {
                        let all = before + added;
                        assert(all == all_rows(map, order.take(i + 1)));
                        let j = choose|j: int|
                            0 <= j < listed.len() && #[trigger] listed[j].id == row@.id;
                        assert(all[j].id == listed[j].id);
                        assert(all[before.len() + k as int].id == row@.id);
                        assert(!mail::unique_ids(all));
                        lemma_rows_of_more_folders(map, order, i + 1);
                    }
                    return false;
                }
                seen.push(row.clone());
                proof {
                    assert(mail::summaries(seen@) =~= listed.push(row@));
                    assert(before + added.take(k + 1) =~= listed.push(row@));
                    projection::lemma_unique_push(listed, row@);
                }
                k += 1;
            }
            assert(added.take(k as int) =~= added);
            proof {
                assert forall|j: int, m: int|
                    #![trigger map[order[j]][m]]
                    0 <= j < i + 1 && 0 <= m < map[order[j]].len() implies map[order[j]][m].folder_id
                    == order[j] by {
                    if j == i as int {
                        assert(added[m].folder_id == order[i as int]);
                    }
                }
            }
        }
        i += 1;
    }
    proof {
        assert(order.take(i as int) =~= order);
        assert forall|folder: Seq<char>, m: int|
            #![trigger map[folder][m]]
            map.contains_key(folder) && 0 <= m < map[folder].len() implies map[folder][m].folder_id
            == folder by {
            assert(order.contains(folder));
            let j = choose|j: int| 0 <= j < order.len() && order[j] == folder;
            assert(map[order[j]][m].folder_id == order[j]);
        }
    }
    true
}

/// The counts of the folders are those of the rows that are kept, whatever was changed or
/// published.
pub proof fn lemma_counts_follow_the_rows(
    cache: CacheView,
    folders: Seq<FolderView>,
    map: Map<Seq<char>, Seq<SummaryView>>,
    folder: Seq<char>,
    rows: Seq<SummaryView>,
    left: actions::RouteView,
)
    ensures
        counts_agree(changed(cache, map)),
        counts_agree(with_loaded(cache, folder, rows, left)),
        counts_agree(published(folders, map, cache.order, cache.revision)),
{
}

/// What was read before a local change is not published after it: the change gives the
/// mailbox another revision.
pub proof fn lemma_local_change_outdates_what_was_read(
    cache: CacheView,
    map: Map<Seq<char>, Seq<SummaryView>>,
)
    ensures
        changed(cache, map).revision != cache.revision,
{
}

/// Marking a message leaves the folders fitting together.
pub proof fn lemma_marked_folders_fit_together(
    map: Map<Seq<char>, Seq<SummaryView>>,
    order: Seq<Seq<char>>,
    id: Seq<char>,
    change: MessageFlagChange,
)
    requires
        mailbox::consistent(map),
        mailbox::ordered_by(map, order),
    ensures
        mailbox::consistent(with_change(map, order, id, change)),
        mailbox::ordered_by(with_change(map, order, id, change), order),
{
    let after = with_change(map, order, id, change);
    mailbox::lemma_holder(map, order, id);
    match mailbox::holder(map, order, id) {
        None => {},
        Some(held) => {
            assert(map.contains_key(held));
            mailbox::lemma_position(map[held], id);
            let at = mailbox::position(map[held], id);
            assert(after.dom() =~= map.dom());
            assert forall|folder: Seq<char>, other: Seq<char>| #[trigger]
                map.contains_key(folder) implies #[trigger] mail::has_id(after[folder], other)
                == mail::has_id(map[folder], other) by {
                if folder == held {
                    let rows = map[held];
                    let marked = after[held];
                    if mail::has_id(rows, other) {
                        let i = choose|i: int| 0 <= i < rows.len() && #[trigger] rows[i].id == other;
                        assert(marked[i].id == other);
                    }
                    if mail::has_id(marked, other) {
                        let i = choose|i: int|
                            0 <= i < marked.len() && #[trigger] marked[i].id == other;
                        assert(rows[i].id == other);
                    }
                }
            }
            assert forall|folder: Seq<char>, i: int|
                #![trigger after[folder][i]]
                after.contains_key(folder) && 0 <= i < after[folder].len() implies after[folder][i].folder_id
                == folder by {
                assert(map[folder][i].folder_id == folder);
                assert(map[held][at].folder_id == held);
            }
            assert forall|folder: Seq<char>| #[trigger]
                after.contains_key(folder) implies mail::unique_ids(after[folder]) by {
                assert(map.contains_key(folder));
                let rows = map[folder];
                let marked = after[folder];
                assert forall|i: int, j: int|
                    #![trigger marked[i], marked[j]]
                    0 <= i < j < marked.len() implies marked[i].id != marked[j].id by {
                    assert(rows[i].id != rows[j].id);
                }
            }
            assert forall|folder: Seq<char>, other: Seq<char>, message: Seq<char>|
                #![trigger mail::has_id(after[folder], message), mail::has_id(after[other], message)]
                after.contains_key(folder) && after.contains_key(other) && mail::has_id(
                    after[folder],
                    message,
                ) && mail::has_id(after[other], message) implies folder == other by {
                assert(map.contains_key(folder) && map.contains_key(other));
                assert(mail::has_id(map[folder], message) && mail::has_id(map[other], message));
            }
            assert forall|folder: Seq<char>| #[trigger]
                after.contains_key(folder) <==> order.contains(folder) by {
                assert(map.contains_key(folder) <==> order.contains(folder));
            }
        },
    }
}

/// Forgetting a folder leaves the others fitting together.
pub proof fn lemma_remaining_folders_fit_together(
    map: Map<Seq<char>, Seq<SummaryView>>,
    folder: Seq<char>,
)
    requires
        mailbox::consistent(map),
    ensures
        mailbox::consistent(map.remove(folder)),
{
    let after = map.remove(folder);
    assert forall|other: Seq<char>, i: int|
        #![trigger after[other][i]]
        after.contains_key(other) && 0 <= i < after[other].len() implies after[other][i].folder_id
        == other by {
        assert(map[other][i].folder_id == other);
    }
    assert forall|other: Seq<char>| #[trigger] after.contains_key(other) implies mail::unique_ids(
        after[other],
    ) by {
        assert(map.contains_key(other));
    }
    assert forall|a: Seq<char>, b: Seq<char>, id: Seq<char>|
        #![trigger mail::has_id(after[a], id), mail::has_id(after[b], id)]
        after.contains_key(a) && after.contains_key(b) && mail::has_id(after[a], id)
            && mail::has_id(after[b], id) implies a == b by {
        assert(mail::has_id(map[a], id) && mail::has_id(map[b], id));
    }
}

} // verus!
