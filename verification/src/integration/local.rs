//! Drafts, outbox and sent messages of an account in the local mail store.
use crate::integration::account::EdsAccountBinding;
use crate::integration::camel;
use crate::integration::camel::{AppendMessageRequest, MessageSyncState, SyncStateView};
use crate::integration::local::delivery::{
    CachedDeliveryProjection, DeliveryError, DeliveryErrorView, DeliveryState, OutboxSubmission,
    SubmissionPlan,
};
use crate::integration::local::draft::{DraftError, DraftErrorView, DraftPlan, DraftSet};
use crate::integration::mailbox::MailboxConversations;
use crate::model::mail;
use crate::model::mail::{
    ConversationId, ConversationSummary, FolderId, FolderKind, FolderView, MailFolder,
    PreparedMessage, SummaryView,
};
use crate::text;
use std::collections::HashSet;
use vstd::prelude::*;

pub mod delivery;
pub mod draft;

verus! {

/// The record of the message `id`.
pub open spec fn state_of(states: Seq<SyncStateView>, id: Seq<char>) -> Option<SyncStateView>
    decreases states.len(),
{
    if states.len() == 0 {
        None
    } else {
        match state_of(states.drop_last(), id) {
            Some(state) => Some(state),
            None => if states.last().conversation_id == id {
                Some(states.last())
            } else {
                None
            },
        }
    }
}

/// The first message that a record before it names already.
pub open spec fn first_duplicate(states: Seq<SyncStateView>) -> Option<Seq<char>>
    decreases states.len(),
{
    if states.len() == 0 {
        None
    } else {
        match first_duplicate(states.drop_last()) {
            Some(id) => Some(id),
            None => if state_of(states.drop_last(), states.last().conversation_id) is Some {
                Some(states.last().conversation_id)
            } else {
                None
            },
        }
    }
}

/// The first message with a record that `summaries` do not list.
pub open spec fn first_unlisted(
    states: Seq<SyncStateView>,
    summaries: Seq<SummaryView>,
) -> Option<Seq<char>>
    decreases states.len(),
{
    if states.len() == 0 {
        None
    } else {
        match first_unlisted(states.drop_last(), summaries) {
            Some(id) => Some(id),
            None => if mail::has_id(summaries, states.last().conversation_id) {
                None
            } else {
                Some(states.last().conversation_id)
            },
        }
    }
}

/// Where the record of the message `id` stands.
pub fn find_state(states: &Vec<MessageSyncState>, id: &ConversationId) -> (found: Option<usize>)
    ensures
        match found {
            Some(i) => i < states@.len() && state_of(camel::state_views(states@), id@) == Some(
                states@[i as int]@,
            ),
            None => state_of(camel::state_views(states@), id@) is None,
        },
{
    let ghost views = camel::state_views(states@);
    let mut found: Option<usize> = None;
    let mut i: usize = 0;
    while i < states.len()
        invariant
            i <= states.len(),
            views == camel::state_views(states@),
            match found {
                Some(at) => at < i && state_of(views.take(i as int), id@) == Some(
                    states@[at as int]@,
                ),
                None => state_of(views.take(i as int), id@) is None,
            },
        decreases states.len() - i,
    {
        proof {
            assert(views.take(i + 1).drop_last() =~= views.take(i as int));
            assert(views.take(i + 1).last() == states@[i as int]@);
        }
        if found.is_none() && states[i].conversation_id.0 == id.0 {
            found = Some(i);
        }
        i += 1;
    }
    assert(views.take(i as int) =~= views);
    found
}

proof fn lemma_state_of_take(states: Seq<SyncStateView>, id: Seq<char>, n: int)
    requires
        0 <= n <= states.len(),
    ensures
        state_of(states.take(n), id) is Some <==> exists|i: int|
            0 <= i < n && (#[trigger] states[i]).conversation_id == id,
    decreases n,
{
    if n > 0 {
        lemma_state_of_take(states, id, n - 1);
        assert(states.take(n).drop_last() =~= states.take(n - 1));
        assert(states.take(n).last() == states[n - 1]);
    }
}

/// The first message that a record before it names already.
pub fn find_duplicate(states: &Vec<MessageSyncState>) -> (duplicate: Option<ConversationId>)
    ensures
        match duplicate {
            Some(id) => first_duplicate(camel::state_views(states@)) == Some(id@),
            None => first_duplicate(camel::state_views(states@)) is None,
        },
{
    let ghost views = camel::state_views(states@);
    let mut i: usize = 0;
    while i < states.len()
        invariant
            i <= states.len(),
            views == camel::state_views(states@),
            first_duplicate(views.take(i as int)) is None,
        decreases states.len() - i,
    {
        proof {
            assert(views.take(i + 1).drop_last() =~= views.take(i as int));
            assert(views.take(i + 1).last() == states@[i as int]@);
            lemma_state_of_take(views, states@[i as int]@.conversation_id, i as int);
        }
        let mut k: usize = 0;
        while k < i
            invariant
                k <= i,
                i < states@.len(),
                views == camel::state_views(states@),
                views.take(i + 1).drop_last() == views.take(i as int),
                views.take(i + 1).last() == states@[i as int]@,
                first_duplicate(views.take(i as int)) is None,
                state_of(views.take(i as int), states@[i as int]@.conversation_id) is Some
                    <==> exists|j: int|
                    0 <= j < i && (#[trigger] views[j]).conversation_id
                        == states@[i as int]@.conversation_id,
                forall|j: int|
                    0 <= j < k ==> (#[trigger] views[j]).conversation_id
                        != states@[i as int]@.conversation_id,
            decreases i - k,
        {
            if states[k].conversation_id.0 == states[i].conversation_id.0 {
                proof {
                    assert(views[k as int].conversation_id == states@[i as int]@.conversation_id);
                    lemma_duplicate_stays(views, i + 1);
                }
                return Some(states[i].conversation_id.clone());
            }
            k += 1;
        }
        i += 1;
    }
    assert(views.take(i as int) =~= views);
    None
}

proof fn lemma_duplicate_stays(states: Seq<SyncStateView>, n: int)
    requires
        0 <= n <= states.len(),
        first_duplicate(states.take(n)) is Some,
    ensures
        first_duplicate(states) == first_duplicate(states.take(n)),
    decreases states.len() - n,
{
    if n < states.len() {
        assert(states.take(n + 1).drop_last() =~= states.take(n));
        lemma_duplicate_stays(states, n + 1);
    } else {
        assert(states.take(n) =~= states);
    }
}

/// The first message with a record that `summaries` do not list.
pub fn find_unlisted(
    states: &Vec<MessageSyncState>,
    summaries: &Vec<ConversationSummary>,
) -> (unlisted: Option<ConversationId>)
    ensures
        match unlisted {
            Some(id) => first_unlisted(
                camel::state_views(states@),
                mail::summaries(summaries@),
            ) == Some(id@),
            None => first_unlisted(
                camel::state_views(states@),
                mail::summaries(summaries@),
            ) is None,
        },
{
    let ghost views = camel::state_views(states@);
    let ghost listed = mail::summaries(summaries@);
    let mut i: usize = 0;
    while i < states.len()
        invariant
            i <= states.len(),
            views == camel::state_views(states@),
            listed == mail::summaries(summaries@),
            first_unlisted(views.take(i as int), listed) is None,
        decreases states.len() - i,
    {
        proof {
            assert(views.take(i + 1).drop_last() =~= views.take(i as int));
            assert(views.take(i + 1).last() == states@[i as int]@);
        }
        if !mail::contains_id(summaries, &states[i].conversation_id) {
            proof {
                lemma_unlisted_stays(views, listed, i + 1);
            }
            return Some(states[i].conversation_id.clone());
        }
        i += 1;
    }
    assert(views.take(i as int) =~= views);
    None
}

proof fn lemma_unlisted_stays(
    states: Seq<SyncStateView>,
    summaries: Seq<SummaryView>,
    n: int,
)
    requires
        0 <= n <= states.len(),
        first_unlisted(states.take(n), summaries) is Some,
    ensures
        first_unlisted(states, summaries) == first_unlisted(states.take(n), summaries),
    decreases states.len() - n,
{
    if n < states.len() {
        assert(states.take(n + 1).drop_last() =~= states.take(n));
        lemma_unlisted_stays(states, summaries, n + 1);
    } else {
        assert(states.take(n) =~= states);
    }
}

/// A folder that the local store keeps for each account.
#[derive(Debug, Clone, Copy, PartialEq, Eq, Structural)]
pub enum LocalFolder {
    Drafts,
    Outbox,
    Sent,
}

/// The name of a local folder in the store.
pub open spec fn name_of(folder: LocalFolder) -> Seq<char> {
    match folder {
        LocalFolder::Drafts => "Drafts"@,
        LocalFolder::Outbox => "Outbox"@,
        LocalFolder::Sent => "Sent"@,
    }
}

/// What a local folder is for.
pub open spec fn kind_of(folder: LocalFolder) -> FolderKind {
    match folder {
        LocalFolder::Drafts => FolderKind::Drafts,
        LocalFolder::Outbox => FolderKind::Outbox,
        LocalFolder::Sent => FolderKind::Sent,
    }
}

/// The local folder for that.
pub open spec fn folder_of_kind(kind: FolderKind) -> Option<LocalFolder> {
    match kind {
        FolderKind::Drafts => Some(LocalFolder::Drafts),
        FolderKind::Outbox => Some(LocalFolder::Outbox),
        FolderKind::Sent => Some(LocalFolder::Sent),
        _ => None,
    }
}

impl LocalFolder {
    /// The name of the folder in the store.
    pub fn name(self) -> (name: &'static str)
        ensures
            name@ == name_of(self),
    {
        match self {
            LocalFolder::Drafts => "Drafts",
            LocalFolder::Outbox => "Outbox",
            LocalFolder::Sent => "Sent",
        }
    }

    /// What the folder is for.
    pub fn kind(self) -> (kind: FolderKind)
        ensures
            kind == kind_of(self),
    {
        match self {
            LocalFolder::Drafts => FolderKind::Drafts,
            LocalFolder::Outbox => FolderKind::Outbox,
            LocalFolder::Sent => FolderKind::Sent,
        }
    }

    /// The local folder for that.
    pub fn from_kind(kind: FolderKind) -> (folder: Option<LocalFolder>)
        ensures
            folder == folder_of_kind(kind),
    {
        match kind {
            FolderKind::Drafts => Some(LocalFolder::Drafts),
            FolderKind::Outbox => Some(LocalFolder::Outbox),
            FolderKind::Sent => Some(LocalFolder::Sent),
            _ => None,
        }
    }
}

/// The names under which the local folders are shown.
#[derive(Debug)]
pub struct LocalFolderNames {
    pub drafts: String,
    pub outbox: String,
    pub sent: String,
}

impl LocalFolderNames {
    /// The name under which a folder is shown.
    pub open spec fn shown(self, folder: LocalFolder) -> Seq<char> {
        match folder {
            LocalFolder::Drafts => self.drafts@,
            LocalFolder::Outbox => self.outbox@,
            LocalFolder::Sent => self.sent@,
        }
    }

    /// The names in the language of the store.
    pub fn untranslated() -> (names: Self)
        ensures
            forall|folder: LocalFolder| #[trigger] names.shown(folder) == name_of(folder),
    {
        LocalFolderNames {
            drafts: "Drafts".to_owned(),
            outbox: "Outbox".to_owned(),
            sent: "Sent".to_owned(),
        }
    }

    /// The name under which a folder is shown.
    pub fn display_name(&self, folder: LocalFolder) -> (name: String)
        ensures
            name@ == self.shown(folder),
    {
        match folder {
            LocalFolder::Drafts => self.drafts.clone(),
            LocalFolder::Outbox => self.outbox.clone(),
            LocalFolder::Sent => self.sent.clone(),
        }
    }
}

/// The local folders of one account.
#[derive(Debug)]
pub struct LocalMailbox<'a> {
    pub binding: &'a EdsAccountBinding,
    pub names: LocalFolderNames,
}

/// The name of a local folder of the account whose sources hang on `parent`.
pub open spec fn folder_path(parent: Seq<char>, folder: LocalFolder) -> Seq<char> {
    parent + seq!['/'] + name_of(folder)
}

/// Whether a conversation is in one of the local folders of the account whose sources hang
/// on `parent`.
pub open spec fn is_local(parent: Seq<char>, id: Seq<char>) -> bool {
    exists|folder: LocalFolder|
        camel::folder_of(id) == Some(#[trigger] folder_path(parent, folder))
}

/// Whether `folders` list `id`.
pub open spec fn has_folder(folders: Seq<FolderView>, id: Seq<char>) -> bool {
    exists|i: int| 0 <= i < folders.len() && #[trigger] folders[i].id == id
}

/// The first folder of that kind.
pub open spec fn first_of_kind(folders: Seq<FolderView>, kind: FolderKind) -> Option<FolderView>
    decreases folders.len(),
{
    if folders.len() == 0 {
        None
    } else {
        match first_of_kind(folders.drop_last(), kind) {
            Some(folder) => Some(folder),
            None => if folders.last().kind == kind {
                Some(folders.last())
            } else {
                None
            },
        }
    }
}

/// The first folder of that name.
pub open spec fn first_of_id(folders: Seq<FolderView>, id: Seq<char>) -> Option<FolderView>
    decreases folders.len(),
{
    if folders.len() == 0 {
        None
    } else {
        match first_of_id(folders.drop_last(), id) {
            Some(folder) => Some(folder),
            None => if folders.last().id == id {
                Some(folders.last())
            } else {
                None
            },
        }
    }
}

/// The folder in which a local folder is shown: the one of the provider, where it has
/// one.
pub open spec fn display_id(
    folders: Seq<FolderView>,
    parent: Seq<char>,
    folder: LocalFolder,
) -> Seq<char> {
    match first_of_kind(folders, kind_of(folder)) {
        Some(shown) => shown.id,
        None => folder_path(parent, folder),
    }
}

/// The folders with a local folder, where they do not list it.
pub open spec fn with_folder(
    folders: Seq<FolderView>,
    id: Seq<char>,
    name: Seq<char>,
    kind: FolderKind,
) -> Seq<FolderView> {
    if has_folder(folders, id) {
        folders
    } else {
        folders.push(FolderView { id, name, unread_count: 0, kind })
    }
}

/// Where the folder `id` stands.
pub fn find_folder(folders: &Vec<MailFolder>, id: &FolderId) -> (found: Option<usize>)
    ensures
        match found {
            Some(at) => at < folders@.len() && folders@[at as int]@.id == id@ && first_of_id(
                mail::folder_views(folders@),
                id@,
            ) == Some(folders@[at as int]@) && (forall|j: int|
                0 <= j < at ==> (#[trigger] folders@[j])@.id != id@) && has_folder(
                mail::folder_views(folders@),
                id@,
            ),
            None => first_of_id(mail::folder_views(folders@), id@) is None && !has_folder(
                mail::folder_views(folders@),
                id@,
            ),
        },
{
    let ghost views = mail::folder_views(folders@);
    let mut found: Option<usize> = None;
    let mut i: usize = 0;
    while i < folders.len()
        invariant
            i <= folders.len(),
            views == mail::folder_views(folders@),
            match found {
                Some(at) => at < i && folders@[at as int]@.id == id@ && first_of_id(
                    views.take(i as int),
                    id@,
                ) == Some(folders@[at as int]@) && (forall|j: int|
                    0 <= j < at ==> (#[trigger] folders@[j])@.id != id@),
                None => first_of_id(views.take(i as int), id@) is None && (forall|j: int|
                    0 <= j < i ==> (#[trigger] folders@[j])@.id != id@),
            },
        decreases folders.len() - i,
    {
        proof {
            assert(views.take(i + 1).drop_last() =~= views.take(i as int));
            assert(views.take(i + 1).last() == folders@[i as int]@);
        }
        if found.is_none() && folders[i].id.0 == id.0 {
            found = Some(i);
        }
        i += 1;
    }
    proof {
        assert(views.take(i as int) =~= views);
        match found {
            Some(at) => {
                assert(views[at as int].id == id@);
            },
            None => {
                assert forall|j: int| 0 <= j < views.len() implies #[trigger] views[j].id != id@ by {
                    assert(folders@[j]@.id != id@);
                }
            },
        }
    }
    found
}

/// Where the first folder of that kind stands.
pub fn find_kind(folders: &Vec<MailFolder>, kind: FolderKind) -> (found: Option<usize>)
    ensures
        match found {
            Some(at) => at < folders@.len() && first_of_kind(mail::folder_views(folders@), kind)
                == Some(folders@[at as int]@),
            None => first_of_kind(mail::folder_views(folders@), kind) is None,
        },
{
    let ghost views = mail::folder_views(folders@);
    let mut found: Option<usize> = None;
    let mut i: usize = 0;
    while i < folders.len()
        invariant
            i <= folders.len(),
            views == mail::folder_views(folders@),
            match found {
                Some(at) => at < i && first_of_kind(views.take(i as int), kind) == Some(
                    folders@[at as int]@,
                ),
                None => first_of_kind(views.take(i as int), kind) is None,
            },
        decreases folders.len() - i,
    {
        proof {
            assert(views.take(i + 1).drop_last() =~= views.take(i as int));
            assert(views.take(i + 1).last() == folders@[i as int]@);
        }
        if found.is_none() && folders[i].kind == kind {
            found = Some(i);
        }
        i += 1;
    }
    assert(views.take(i as int) =~= views);
    found
}

/// Adds a local folder to the folders that are shown, unless they list it.
pub fn ensure_projected_folder(
    folders: &mut Vec<MailFolder>,
    folder_id: &FolderId,
    folder: LocalFolder,
    name: String,
)
    ensures
        mail::folder_views(final(folders)@) == with_folder(
            mail::folder_views(old(folders)@),
            folder_id@,
            name@,
            kind_of(folder),
        ),
{
    if find_folder(folders, folder_id).is_some() {
        return ;
    }
    let ghost before = mail::folder_views(folders@);
    let added = MailFolder { id: folder_id.clone(), name, unread_count: 0, kind: folder.kind() };
    let ghost value = added@;
    folders.push(added);
    assert(mail::folder_views(folders@) =~= before.push(value));
}

/// Whether a row stays when the rows of a local folder are replaced.
pub open spec fn stays(
    summary: SummaryView,
    projected: Seq<SummaryView>,
    local_folder: Seq<char>,
) -> bool {
    !mail::has_id(projected, summary.id) && camel::folder_of(summary.id) != Some(local_folder)
}

/// The rows that stay when the rows of a local folder are replaced.
pub open spec fn other_rows(
    current: Seq<SummaryView>,
    projected: Seq<SummaryView>,
    local_folder: Seq<char>,
) -> Seq<SummaryView>
    decreases current.len(),
{
    if current.len() == 0 {
        Seq::empty()
    } else if stays(current.last(), projected, local_folder) {
        other_rows(current.drop_last(), projected, local_folder).push(current.last())
    } else {
        other_rows(current.drop_last(), projected, local_folder)
    }
}

/// The rows with those of a local folder replaced.
pub open spec fn with_rows(
    current: Seq<SummaryView>,
    projected: Seq<SummaryView>,
    local_folder: Seq<char>,
) -> Seq<SummaryView> {
    mail::ranked(mail::first_of_each(other_rows(current, projected, local_folder) + projected))
}

/// Replaces the rows of a local folder.
pub fn replace_projected_rows(
    current: &mut Vec<ConversationSummary>,
    projected: Vec<ConversationSummary>,
    local_folder_id: &FolderId,
)
    ensures
        mail::summaries(final(current)@) == with_rows(
            mail::summaries(old(current)@),
            mail::summaries(projected@),
            local_folder_id@,
        ),
{
    let ghost rows = mail::summaries(projected@);
    let mut pending: Vec<ConversationSummary> = Vec::new();
    std::mem::swap(current, &mut pending);
    let ghost all = mail::summaries(pending@);
    assert(all.take(0) =~= Seq::empty());
    assert(mail::summaries(current@) =~= Seq::empty());
    for summary in it: pending
        invariant
            all == mail::summaries(it.seq()),
            rows == mail::summaries(projected@),
            mail::summaries(current@) == other_rows(all.take(it.index()), rows, local_folder_id@),
    {
        let ghost before = mail::summaries(current@);
        let ghost value = summary@;
        proof {
            assert(all.take(it.index() + 1).drop_last() =~= all.take(it.index()));
            assert(all.take(it.index() + 1).last() == summary@);
        }
        let local = match camel::conversation_folder_id(&summary.id) {
            Some(folder) => text::same(folder, local_folder_id.0.as_str()),
            None => false,
        };
        if !mail::contains_id(&projected, &summary.id) && !local {
            current.push(summary);
            assert(mail::summaries(current@) =~= before.push(value));
        }
    }
    assert(all.take(all.len() as int) =~= all);
    let ghost kept = mail::summaries(current@);
    assert(kept + rows.take(0) =~= kept);
    for summary in it: projected
        invariant
            rows == mail::summaries(it.seq()),
            mail::summaries(current@) == kept + rows.take(it.index()),
    {
        let ghost before = mail::summaries(current@);
        let ghost value = summary@;
        current.push(summary);
        proof {
            assert(mail::summaries(current@) =~= before.push(value));
            assert(kept + rows.take(it.index() + 1) =~= before.push(value));
        }
    }
    assert(rows.take(rows.len() as int) =~= rows);
    mail::sort_and_deduplicate_conversations(current);
}

proof fn lemma_other_rows(
    current: Seq<SummaryView>,
    projected: Seq<SummaryView>,
    local_folder: Seq<char>,
    id: Seq<char>,
)
    ensures
        mail::has_id(other_rows(current, projected, local_folder), id) <==> mail::has_id(
            current,
            id,
        ) && !mail::has_id(projected, id) && camel::folder_of(id) != Some(local_folder),
    decreases current.len(),
{
    if current.len() > 0 {
        let before = other_rows(current.drop_last(), projected, local_folder);
        let rows = other_rows(current, projected, local_folder);
        lemma_other_rows(current.drop_last(), projected, local_folder, id);
        if mail::has_id(before, id) {
            let i = choose|i: int| 0 <= i < before.len() && #[trigger] before[i].id == id;
            assert(rows[i].id == id);
        }
        if mail::has_id(current.drop_last(), id) {
            let i = choose|i: int|
                0 <= i < current.drop_last().len() && #[trigger] current.drop_last()[i].id == id;
            assert(current[i].id == id);
        }
        if mail::has_id(current, id) && !mail::has_id(current.drop_last(), id) {
            let i = choose|i: int| 0 <= i < current.len() && #[trigger] current[i].id == id;
            if i < current.len() - 1 {
                assert(current.drop_last()[i].id == id);
            }
            if stays(current.last(), projected, local_folder) {
                assert(rows[before.len() as int].id == id);
            }
        }
        if mail::has_id(rows, id) && !mail::has_id(before, id) {
            let i = choose|i: int| 0 <= i < rows.len() && #[trigger] rows[i].id == id;
            if i < before.len() {
                assert(before[i].id == id);
            }
            assert(current[current.len() - 1].id == id);
        }
    }
}

/// Replacing the rows of a local folder replaces just these: a conversation is listed
/// afterwards if it is one of the new rows, or if it was listed and belongs to another
/// folder. No conversation is listed twice, and the rows are in order.
pub proof fn lemma_replaced_rows(
    current: Seq<SummaryView>,
    projected: Seq<SummaryView>,
    local_folder: Seq<char>,
    id: Seq<char>,
)
    ensures
        mail::has_id(with_rows(current, projected, local_folder), id) <==> (mail::has_id(
            projected,
            id,
        ) || mail::has_id(current, id) && camel::folder_of(id) != Some(local_folder)),
        mail::unique_ids(with_rows(current, projected, local_folder)),
        mail::in_order(with_rows(current, projected, local_folder)),
{
    let kept = other_rows(current, projected, local_folder);
    let all = kept + projected;
    lemma_other_rows(current, projected, local_folder, id);
    mail::lemma_first_of_each_ids(all);
    mail::lemma_ranked_ids(mail::first_of_each(all));
    mail::lemma_ranked_is_a_stable_sort(mail::first_of_each(all));
    assert(mail::has_id(with_rows(current, projected, local_folder), id) == mail::has_id(
        mail::first_of_each(all),
        id,
    ));
    assert(mail::has_id(mail::first_of_each(all), id) == mail::has_id(all, id));
    if mail::has_id(kept, id) {
        let i = choose|i: int| 0 <= i < kept.len() && #[trigger] kept[i].id == id;
        assert(all[i].id == id);
    }
    if mail::has_id(projected, id) {
        let i = choose|i: int| 0 <= i < projected.len() && #[trigger] projected[i].id == id;
        assert(all[kept.len() + i].id == id);
    }
    if mail::has_id(all, id) {
        let i = choose|i: int| 0 <= i < all.len() && #[trigger] all[i].id == id;
        if i < kept.len() {
            assert(kept[i].id == id);
        } else {
            assert(projected[i - kept.len()].id == id);
        }
    }
}

/// How many messages of the conversations are unread.
pub open spec fn unread_total(list: Seq<SummaryView>) -> nat
    decreases list.len(),
{
    if list.len() == 0 {
        0
    } else {
        unread_total(list.drop_last()) + list.last().unread_count as nat
    }
}

/// How many messages of the conversations are unread, as far as the count goes.
pub open spec fn unread_sum(list: Seq<SummaryView>) -> u32 {
    (unread_total(list) % 0x1_0000_0000) as u32
}

/// The folders with the count of unread messages of the folder `id` set.
pub open spec fn with_unread(folders: Seq<FolderView>, id: Seq<char>, count: u32) -> Seq<FolderView>
    decreases folders.len(),
{
    if folders.len() == 0 {
        Seq::empty()
    } else if folders.last().id == id && !has_folder(folders.drop_last(), id) {
        with_unread(folders.drop_last(), id, count).push(
            FolderView { unread_count: count, ..folders.last() },
        )
    } else {
        with_unread(folders.drop_last(), id, count).push(folders.last())
    }
}

proof fn lemma_with_unread(folders: Seq<FolderView>, id: Seq<char>, count: u32)
    ensures
        with_unread(folders, id, count).len() == folders.len(),
        forall|i: int|
            0 <= i < folders.len() ==> #[trigger] with_unread(folders, id, count)[i] == (if
            folders[i].id == id && !has_folder(folders.take(i), id) {
                FolderView { unread_count: count, ..folders[i] }
            } else {
                folders[i]
            }),
    decreases folders.len(),
{
    if folders.len() > 0 {
        let rest = folders.drop_last();
        lemma_with_unread(rest, id, count);
        assert forall|i: int| 0 <= i < folders.len() implies #[trigger] with_unread(
            folders,
            id,
            count,
        )[i] == (if folders[i].id == id && !has_folder(folders.take(i), id) {
            FolderView { unread_count: count, ..folders[i] }
        } else {
            folders[i]
        }) by {
            if i < rest.len() {
                assert(with_unread(folders, id, count)[i] == with_unread(rest, id, count)[i]);
                assert(rest.take(i) =~= folders.take(i));
            } else {
                assert(folders.take(i) =~= rest);
            }
        }
    }
}

/// How many messages of the conversations are unread, as far as the count goes.
pub fn sum_unread(conversations: &Vec<ConversationSummary>) -> (sum: u32)
    ensures
        sum == unread_sum(mail::summaries(conversations@)),
{
    let ghost all = mail::summaries(conversations@);
    let mut sum: u32 = 0;
    let mut i: usize = 0;
    assert(all.take(0) =~= Seq::empty());
    while i < conversations.len()
        invariant
            i <= conversations.len(),
            all == mail::summaries(conversations@),
            sum == unread_total(all.take(i as int)) % 0x1_0000_0000,
        decreases conversations.len() - i,
    {
        proof {
            assert(all.take(i + 1).drop_last() =~= all.take(i as int));
            assert(all.take(i + 1).last() == conversations@[i as int]@);
        }
        sum = sum.wrapping_add(conversations[i].unread_count);
        i += 1;
    }
    assert(all.take(i as int) =~= all);
    sum
}

/// The rows of a folder, none where it was not loaded.
pub open spec fn rows_of(conversations: Map<Seq<char>, Seq<SummaryView>>, id: Seq<char>) -> Seq<
    SummaryView,
> {
    if conversations.contains_key(id) {
        conversations[id]
    } else {
        Seq::empty()
    }
}

/// Counts the unread messages of a folder again.
pub fn update_unread_count(
    folders: &mut Vec<MailFolder>,
    folder_id: &FolderId,
    conversations: &MailboxConversations,
)
    ensures
        mail::folder_views(final(folders)@) == with_unread(
            mail::folder_views(old(folders)@),
            folder_id@,
            unread_sum(rows_of(conversations@, folder_id@)),
        ),
{
    let unread_count = match conversations.get(folder_id) {
        Some(rows) => sum_unread(rows),
        None => 0,
    };
    let ghost before = mail::folder_views(folders@);
    let ghost listed = folders@;
    let found = find_folder(folders, folder_id);
    if let Some(at) = found {
        let folder = MailFolder {
            id: folders[at].id.clone(),
            name: folders[at].name.clone(),
            unread_count,
            kind: folders[at].kind,
        };
        folders.set(at, folder);
    }
    proof {
        lemma_with_unread(before, folder_id@, unread_count);
        let expected = with_unread(before, folder_id@, unread_count);
        let after = mail::folder_views(folders@);
        assert forall|i: int| 0 <= i < after.len() implies after[i] == expected[i] by {
            assert(before[i] == listed[i]@);
            match found {
                Some(at) => {
                    if i == at as int {
                        assert(before.take(i).len() == i);
                        assert forall|j: int| 0 <= j < i implies #[trigger] before.take(i)[j].id
                            != folder_id@ by {
                            assert(listed[j]@.id != folder_id@);
                        }
                    } else if i > at as int {
                        assert(before.take(i)[at as int].id == folder_id@);
                    } else {
                        assert(listed[i]@.id != folder_id@);
                    }
                },
                None => {
                    if before[i].id == folder_id@ {
                        assert(has_folder(before, folder_id@));
                    }
                },
            }
        }
        assert(after =~= expected);
    }
}

/// The rows shown in the folder `id`.
pub open spec fn shown_in(list: Seq<SummaryView>, id: Seq<char>) -> Seq<SummaryView> {
    list.map_values(|summary: SummaryView| SummaryView { folder_id: id, ..summary })
}

/// Shows rows in the folder `id`.
pub fn show_in(list: Vec<ConversationSummary>, id: &FolderId) -> (shown: Vec<ConversationSummary>)
    ensures
        mail::summaries(shown@) == shown_in(mail::summaries(list@), id@),
{
    let ghost all = mail::summaries(list@);
    let mut shown: Vec<ConversationSummary> = Vec::new();
    assert(mail::summaries(shown@) =~= shown_in(all.take(0), id@));
    for summary in it: list
        invariant
            all == mail::summaries(it.seq()),
            mail::summaries(shown@) == shown_in(all.take(it.index()), id@),
    {
        let ghost before = mail::summaries(shown@);
        let ghost value = summary@;
        let mut summary = summary;
        summary.folder_id = id.clone();
        assert(summary@ == (SummaryView { folder_id: id@, ..value }));
        let ghost new_value = summary@;
        shown.push(summary);
        proof {
            assert(mail::summaries(shown@) =~= before.push(new_value));
            assert(shown_in(all.take(it.index() + 1), id@) =~= before.push(new_value));
        }
    }
    assert(all.take(all.len() as int) =~= all);
    shown
}

/// What is shown of an account.
#[verifier::ext_equal]
pub struct MailboxView {
    pub folders: Seq<FolderView>,
    pub conversations: Map<Seq<char>, Seq<SummaryView>>,
    pub order: Seq<Seq<char>>,
}

/// What is shown once the rows of a local folder are shown, too.
pub open spec fn with_local_folder(
    shown: MailboxView,
    parent: Seq<char>,
    name: Seq<char>,
    folder: LocalFolder,
    rows: Seq<SummaryView>,
) -> MailboxView {
    let id = display_id(shown.folders, parent, folder);
    let folders = with_folder(shown.folders, id, name, kind_of(folder));
    let replaced = with_rows(
        rows_of(shown.conversations, id),
        shown_in(rows, id),
        folder_path(parent, folder),
    );
    MailboxView {
        folders: with_unread(folders, id, unread_sum(replaced)),
        conversations: shown.conversations.insert(id, replaced),
        order: if shown.conversations.contains_key(id) {
            shown.order
        } else {
            shown.order.push(id)
        },
    }
}

/// What is shown once the outbox and the sent folder are shown, too. An empty outbox is
/// not shown.
pub open spec fn with_delivery(
    shown: MailboxView,
    parent: Seq<char>,
    names: LocalFolderNames,
    outbox: Seq<SummaryView>,
    sent: Seq<SummaryView>,
) -> MailboxView {
    let with_outbox = if outbox.len() == 0 {
        shown
    } else {
        with_local_folder(
            shown,
            parent,
            names.shown(LocalFolder::Outbox),
            LocalFolder::Outbox,
            outbox,
        )
    };
    with_local_folder(
        with_outbox,
        parent,
        names.shown(LocalFolder::Sent),
        LocalFolder::Sent,
        sent,
    )
}

/// The folders with the local folders that have to be shown.
pub open spec fn with_local_folders(
    folders: Seq<FolderView>,
    parent: Seq<char>,
    names: LocalFolderNames,
    outbox_is_used: bool,
) -> Seq<FolderView> {
    let with_drafts = with_folder(
        folders,
        display_id(folders, parent, LocalFolder::Drafts),
        names.shown(LocalFolder::Drafts),
        FolderKind::Drafts,
    );
    let with_sent = with_folder(
        with_drafts,
        display_id(with_drafts, parent, LocalFolder::Sent),
        names.shown(LocalFolder::Sent),
        FolderKind::Sent,
    );
    if outbox_is_used {
        with_folder(
            with_sent,
            display_id(with_sent, parent, LocalFolder::Outbox),
            names.shown(LocalFolder::Outbox),
            FolderKind::Outbox,
        )
    } else {
        with_sent
    }
}

impl<'a> LocalMailbox<'a> {
    /// The local folders of an account, shown under the names they have in the store.
    pub fn new(binding: &'a EdsAccountBinding) -> (mailbox: Self)
        ensures
            mailbox.binding@ == binding@,
            forall|folder: LocalFolder| #[trigger] mailbox.names.shown(folder) == name_of(folder),
    {
        LocalMailbox { binding, names: LocalFolderNames::untranslated() }
    }

    /// The local folders of an account, shown under other names.
    pub fn with_names(binding: &'a EdsAccountBinding, names: LocalFolderNames) -> (mailbox: Self)
        ensures
            mailbox.binding@ == binding@,
            mailbox.names == names,
    {
        LocalMailbox { binding, names }
    }

    /// What the folders of the account hang on.
    pub open spec fn parent(&self) -> Seq<char> {
        self.binding@.account_parent_uid
    }

    /// The name of a local folder of the account.
    pub fn folder_id(&self, folder: LocalFolder) -> (id: FolderId)
        ensures
            id@ == folder_path(self.parent(), folder),
    {
        let mut path = self.binding.account_parent_uid.clone();
        path.push('/');
        path.append(folder.name());
        assert(path@ =~= folder_path(self.parent(), folder));
        FolderId(path)
    }

    /// The address of a local folder, whose encoded name is `encoded_folder`.
    pub fn folder_uri(&self, encoded_folder: &str) -> (uri: String)
        ensures
            uri@ == "folder://"@ + "local"@ + seq!['/'] + encoded_folder@,
    {
        camel::folder_uri("local", encoded_folder)
    }

    /// Whether a conversation is in one of the local folders of the account.
    pub fn contains(&self, conversation_id: &ConversationId) -> (r: bool)
        ensures
            r == is_local(self.parent(), conversation_id@),
    {
        self.contains_in(LocalFolder::Drafts, conversation_id) || self.contains_in(
            LocalFolder::Outbox,
            conversation_id,
        ) || self.contains_in(LocalFolder::Sent, conversation_id)
    }

    /// Whether a conversation is in one local folder of the account.
    pub fn contains_in(&self, folder: LocalFolder, conversation_id: &ConversationId) -> (r: bool)
        ensures
            r == (camel::folder_of(conversation_id@) == Some(
                folder_path(self.parent(), folder),
            )),
    {
        let folder_id = self.folder_id(folder);
        match camel::conversation_folder_id(conversation_id) {
            Some(candidate) => text::same(candidate, folder_id.0.as_str()),
            None => false,
        }
    }

    /// The local folder that is shown in `folder_id`.
    pub fn folder_for_projection(
        &self,
        folders: &Vec<MailFolder>,
        folder_id: &FolderId,
    ) -> (folder: Option<LocalFolder>)
        ensures
            folder == match first_of_id(mail::folder_views(folders@), folder_id@) {
                Some(shown) => folder_of_kind(shown.kind),
                None => None,
            },
    {
        match find_folder(folders, folder_id) {
            Some(at) => LocalFolder::from_kind(folders[at].kind),
            None => None,
        }
    }

    /// The folder of the provider for what a local folder is for.
    pub fn provider_folder<'b>(&self, folders: &'b Vec<MailFolder>, folder: LocalFolder) -> (found:
        Option<&'b MailFolder>)
        ensures
            match found {
                Some(shown) => first_of_kind(mail::folder_views(folders@), kind_of(folder)) == Some(
                    shown@,
                ),
                None => first_of_kind(mail::folder_views(folders@), kind_of(folder)) is None,
            },
    {
        match find_kind(folders, folder.kind()) {
            Some(at) => Some(&folders[at]),
            None => None,
        }
    }

    /// The folder in which a local folder is shown.
    pub fn projected_folder_id(&self, folders: &Vec<MailFolder>, folder: LocalFolder) -> (id:
        FolderId)
        ensures
            id@ == display_id(mail::folder_views(folders@), self.parent(), folder),
    {
        match self.provider_folder(folders, folder) {
            Some(shown) => shown.id.clone(),
            None => self.folder_id(folder),
        }
    }

    /// Makes sure that the folder in which a local folder is shown is listed.
    pub fn ensure_projection_folder(&self, folders: &mut Vec<MailFolder>, folder: LocalFolder) -> (id:
        FolderId)
        ensures
            id@ == display_id(mail::folder_views(old(folders)@), self.parent(), folder),
            mail::folder_views(final(folders)@) == with_folder(
                mail::folder_views(old(folders)@),
                id@,
                self.names.shown(folder),
                kind_of(folder),
            ),
    {
        let id = self.projected_folder_id(folders, folder);
        ensure_projected_folder(folders, &id, folder, self.names.display_name(folder));
        id
    }

    /// Makes sure that the drafts, the sent messages and, where it is used, the outbox
    /// are listed.
    pub fn ensure_projection_folders(&self, folders: &mut Vec<MailFolder>, outbox_is_used: bool)
        ensures
            mail::folder_views(final(folders)@) == with_local_folders(
                mail::folder_views(old(folders)@),
                self.parent(),
                self.names,
                outbox_is_used,
            ),
    {
        let _ = self.ensure_projection_folder(folders, LocalFolder::Drafts);
        let _ = self.ensure_projection_folder(folders, LocalFolder::Sent);
        if outbox_is_used {
            let _ = self.ensure_projection_folder(folders, LocalFolder::Outbox);
        }
    }

    /// Shows the rows of a local folder among those of the folder it is shown in.
    pub fn merge_cached_role(
        &self,
        folder: LocalFolder,
        display_folder_id: &FolderId,
        current: &mut Vec<ConversationSummary>,
        projected: Vec<ConversationSummary>,
    )
        ensures
            mail::summaries(final(current)@) == with_rows(
                mail::summaries(old(current)@),
                shown_in(mail::summaries(projected@), display_folder_id@),
                folder_path(self.parent(), folder),
            ),
    {
        replace_projected_rows(
            current,
            show_in(projected, display_folder_id),
            &self.folder_id(folder),
        );
    }

    /// Shows the rows of a local folder.
    pub fn project_folder(
        &self,
        folder: LocalFolder,
        local_conversations: Vec<ConversationSummary>,
        folders: &mut Vec<MailFolder>,
        conversations: &mut MailboxConversations,
    )
        ensures
            (MailboxView {
                folders: mail::folder_views(final(folders)@),
                conversations: final(conversations)@,
                order: final(conversations).order(),
            }) == with_local_folder(
                MailboxView {
                    folders: mail::folder_views(old(folders)@),
                    conversations: old(conversations)@,
                    order: old(conversations).order(),
                },
                self.parent(),
                self.names.shown(folder),
                folder,
                mail::summaries(local_conversations@),
            ),
    {
        let local_folder_id = self.folder_id(folder);
        let display_folder_id = self.ensure_projection_folder(folders, folder);
        let shown = show_in(local_conversations, &display_folder_id);
        let mut rows = match conversations.get(&display_folder_id) {
            Some(rows) => mail::clone_summaries(rows),
            None => Vec::new(),
        };
        assert(mail::summaries(rows@) =~= rows_of(conversations@, display_folder_id@));
        replace_projected_rows(&mut rows, shown, &local_folder_id);
        let ghost replaced = mail::summaries(rows@);
        conversations.insert(display_folder_id.clone(), rows);
        assert(rows_of(conversations@, display_folder_id@) == replaced);
        update_unread_count(folders, &display_folder_id, conversations);
    }

    /// Shows the outbox, unless it is empty, and the sent messages.
    pub fn project_delivery(
        &self,
        outbox: Vec<ConversationSummary>,
        sent: Vec<ConversationSummary>,
        folders: &mut Vec<MailFolder>,
        conversations: &mut MailboxConversations,
    )
        ensures
            (MailboxView {
                folders: mail::folder_views(final(folders)@),
                conversations: final(conversations)@,
                order: final(conversations).order(),
            }) == with_delivery(
                MailboxView {
                    folders: mail::folder_views(old(folders)@),
                    conversations: old(conversations)@,
                    order: old(conversations).order(),
                },
                self.parent(),
                self.names,
                mail::summaries(outbox@),
                mail::summaries(sent@),
            ),
    {
        if outbox.len() != 0 {
            self.project_folder(LocalFolder::Outbox, outbox, folders, conversations);
        }
        self.project_folder(LocalFolder::Sent, sent, folders, conversations);
    }
}

/// What a local folder lists: its messages with their records.
#[derive(Debug)]
pub struct FolderListing {
    pub summaries: Vec<ConversationSummary>,
    pub states: Vec<MessageSyncState>,
}

impl FolderListing {
    /// The messages, as values.
    pub open spec fn messages(self) -> Seq<SummaryView> {
        mail::summaries(self.summaries@)
    }

    /// The records, as values.
    pub open spec fn records(self) -> Seq<SyncStateView> {
        camel::state_views(self.states@)
    }
}

/// Why what the local folders hold is not known.
#[derive(Debug, PartialEq, Eq)]
pub enum LocalError {
    Draft(DraftError),
    Delivery(DeliveryError),
    /// A message that was found in the outbox has no record.
    UnknownDeliveryMatch(String),
    /// A message that was found in the sent folder has no record.
    UnknownSentMatch(String),
}

/// Why what the local folders hold is not known, as a value.
#[verifier::ext_equal]
pub enum LocalErrorView {
    Draft(DraftErrorView),
    Delivery(DeliveryErrorView),
    UnknownDeliveryMatch(Seq<char>),
    UnknownSentMatch(Seq<char>),
}

impl View for LocalError {
    type V = LocalErrorView;

    open spec fn view(&self) -> LocalErrorView {
        match self {
            LocalError::Draft(error) => LocalErrorView::Draft(error@),
            LocalError::Delivery(error) => LocalErrorView::Delivery(error@),
            LocalError::UnknownDeliveryMatch(id) => LocalErrorView::UnknownDeliveryMatch(id@),
            LocalError::UnknownSentMatch(id) => LocalErrorView::UnknownSentMatch(id@),
        }
    }
}

impl LocalErrorView {
    /// What is reported.
    pub open spec fn message(self) -> Seq<char> {
        match self {
            LocalErrorView::Draft(error) => error.message(),
            LocalErrorView::Delivery(error) => error.message(),
            LocalErrorView::UnknownDeliveryMatch(id) => "local delivery search result '"@ + id
                + "' has no Camel synchronization state"@,
            LocalErrorView::UnknownSentMatch(id) => "local Sent search result '"@ + id
                + "' has no Camel synchronization state"@,
        }
    }
}

impl LocalError {
    /// What is reported.
    pub fn message(&self) -> (message: String)
        ensures
            message@ == self@.message(),
    {
        match self {
            LocalError::Draft(error) => error.message(),
            LocalError::Delivery(error) => error.message(),
            LocalError::UnknownDeliveryMatch(id) => text::enclosed(
                "local delivery search result '",
                id.as_str(),
                "' has no Camel synchronization state",
            ),
            LocalError::UnknownSentMatch(id) => text::enclosed(
                "local Sent search result '",
                id.as_str(),
                "' has no Camel synchronization state",
            ),
        }
    }
}

/// The drafts that are shown.
pub open spec fn shown_drafts(messages: Seq<SummaryView>, records: Seq<SyncStateView>) -> Result<
    Seq<SummaryView>,
    DraftErrorView,
> {
    match draft::drafts_of(records) {
        Err(error) => Err(error),
        Ok(revisions) => draft::complete_drafts(revisions, messages),
    }
}

/// The messages of the outbox folder that wait (`waiting`), or that were delivered.
pub open spec fn shown_outbox(
    messages: Seq<SummaryView>,
    records: Seq<SyncStateView>,
    waiting: bool,
) -> Result<Seq<SummaryView>, DeliveryErrorView> {
    match delivery::delivery_records_of(messages, records, DeliveryState::Queued) {
        Err(error) => Err(error),
        Ok(list) => Ok(delivery::placed_summaries(list, waiting)),
    }
}

/// The messages that are shown as sent: those of the outbox folder that were delivered,
/// then those of the sent folder.
pub open spec fn shown_sent(
    delivered: Seq<SummaryView>,
    messages: Seq<SummaryView>,
    records: Seq<SyncStateView>,
) -> Result<Seq<SummaryView>, DeliveryErrorView> {
    match delivery::delivery_records_of(messages, records, DeliveryState::NeedsRemoteCopy) {
        Err(error) => Err(error),
        Ok(list) => Ok(delivered + delivery::record_summaries(list)),
    }
}

/// The drafts that are shown.
pub fn load_drafts(listing: FolderListing) -> (result: Result<Vec<ConversationSummary>, DraftError>)
    ensures
        match (result, shown_drafts(listing.messages(), listing.records())) {
            (Ok(drafts), Ok(expected)) => mail::summaries(drafts@) == expected,
            (Err(error), Err(expected)) => error@ == expected,
            _ => false,
        },
{
    match DraftSet::from_states(&listing.states) {
        Err(error) => Err(error),
        Ok(drafts) => drafts.project_complete(listing.summaries),
    }
}

/// What the outbox folder holds: the messages that wait, and those that were delivered
/// and not moved yet.
pub fn load_outbox_projection(listing: FolderListing) -> (result: Result<
    CachedDeliveryProjection,
    DeliveryError,
>)
    ensures
        match (
            result,
            shown_outbox(listing.messages(), listing.records(), true),
            shown_outbox(listing.messages(), listing.records(), false),
        ) {
            (Ok(projection), Ok(outbox), Ok(sent)) => mail::summaries(projection.outbox@) == outbox
                && mail::summaries(projection.sent@) == sent,
            (Err(error), Err(expected), _) => error@ == expected,
            _ => false,
        },
{
    match delivery::outbox_delivery_records(listing.summaries, &listing.states) {
        Err(error) => Err(error),
        Ok(records) => Ok(delivery::project_outbox(records)),
    }
}

/// The messages that are shown as sent; `delivered` are those of the outbox folder that
/// were delivered.
pub fn load_sent_projection(
    delivered: Vec<ConversationSummary>,
    listing: FolderListing,
) -> (result: Result<Vec<ConversationSummary>, DeliveryError>)
    ensures
        match (
            result,
            shown_sent(mail::summaries(delivered@), listing.messages(), listing.records()),
        ) {
            (Ok(sent), Ok(expected)) => mail::summaries(sent@) == expected,
            (Err(error), Err(expected)) => error@ == expected,
            _ => false,
        },
{
    match delivery::sent_delivery_records(listing.summaries, &listing.states) {
        Err(error) => Err(error),
        Ok(records) => {
            let mut sent = delivered;
            append_summaries(&mut sent, delivery::summaries_of(records));
            Ok(sent)
        },
    }
}

/// Adds `more` to the end of `list`.
pub fn append_summaries(list: &mut Vec<ConversationSummary>, more: Vec<ConversationSummary>)
    ensures
        mail::summaries(final(list)@) == mail::summaries(old(list)@) + mail::summaries(more@),
{
    let ghost start = mail::summaries(list@);
    let ghost added = mail::summaries(more@);
    assert(start + added.take(0) =~= start);
    for summary in it: more
        invariant
            added == mail::summaries(it.seq()),
            mail::summaries(list@) == start + added.take(it.index()),
    {
        let ghost before = mail::summaries(list@);
        let ghost value = summary@;
        list.push(summary);
        proof {
            assert(mail::summaries(list@) =~= before.push(value));
            assert(start + added.take(it.index() + 1) =~= before.push(value));
        }
    }
    assert(added.take(added.len() as int) =~= added);
}

/// The messages found in the outbox folder, each shown where it belongs, or the first of
/// which too little is known.
pub open spec fn outbox_matches(
    matches: Seq<SummaryView>,
    records: Seq<SyncStateView>,
    outbox: Seq<char>,
    sent: Seq<char>,
) -> Result<Seq<SummaryView>, LocalErrorView>
    decreases matches.len(),
{
    if matches.len() == 0 {
        Ok(Seq::empty())
    } else {
        match outbox_matches(matches.drop_last(), records, outbox, sent) {
            Err(error) => Err(error),
            Ok(before) => match state_of(records, matches.last().id) {
                None => Err(LocalErrorView::UnknownDeliveryMatch(matches.last().id)),
                Some(state) => match delivery::metadata_of(state, DeliveryState::Queued) {
                    Err(error) => Err(LocalErrorView::Delivery(error)),
                    Ok((placed, _)) => Ok(
                        before.push(
                            SummaryView {
                                folder_id: if delivery::waits(placed) {
                                    outbox
                                } else {
                                    sent
                                },
                                ..matches.last()
                            },
                        ),
                    ),
                },
            },
        }
    }
}

/// The messages found in the sent folder, or the first of which too little is known.
pub open spec fn sent_matches(
    matches: Seq<SummaryView>,
    records: Seq<SyncStateView>,
    sent: Seq<char>,
) -> Result<Seq<SummaryView>, LocalErrorView>
    decreases matches.len(),
{
    if matches.len() == 0 {
        Ok(Seq::empty())
    } else {
        match sent_matches(matches.drop_last(), records, sent) {
            Err(error) => Err(error),
            Ok(before) => match state_of(records, matches.last().id) {
                None => Err(LocalErrorView::UnknownSentMatch(matches.last().id)),
                Some(state) => match delivery::metadata_of(
                    state,
                    DeliveryState::NeedsRemoteCopy,
                ) {
                    Err(error) => Err(LocalErrorView::Delivery(error)),
                    Ok(_) => Ok(
                        before.push(SummaryView { folder_id: sent, ..matches.last() }),
                    ),
                },
            },
        }
    }
}

/// The drafts among the messages found in the drafts folder.
pub open spec fn draft_matches(
    matches: Seq<SummaryView>,
    records: Seq<SyncStateView>,
    drafts: Seq<char>,
) -> Result<Seq<SummaryView>, LocalErrorView> {
    match draft::drafts_of(records) {
        Err(error) => Err(LocalErrorView::Draft(error)),
        Ok(revisions) => match draft::matching_drafts(revisions, matches) {
            Err(error) => Err(LocalErrorView::Draft(error)),
            Ok(found) => Ok(shown_in(found, drafts)),
        },
    }
}

/// What is found in the local folders: drafts, then messages of the outbox folder, then
/// messages of the sent folder.
pub open spec fn local_matches(
    folders: Seq<FolderView>,
    parent: Seq<char>,
    drafts: FolderListing,
    outbox: FolderListing,
    sent: FolderListing,
) -> Result<Seq<SummaryView>, LocalErrorView> {
    let drafts_id = display_id(folders, parent, LocalFolder::Drafts);
    let outbox_id = display_id(folders, parent, LocalFolder::Outbox);
    let sent_id = display_id(folders, parent, LocalFolder::Sent);
    match draft_matches(drafts.messages(), drafts.records(), drafts_id) {
        Err(error) => Err(error),
        Ok(found_drafts) => match first_duplicate(outbox.records()) {
            Some(id) => Err(LocalErrorView::Delivery(DeliveryErrorView::DuplicateState(id))),
            None => match outbox_matches(
                outbox.messages(),
                outbox.records(),
                outbox_id,
                sent_id,
            ) {
                Err(error) => Err(error),
                Ok(found_outbox) => match first_duplicate(sent.records()) {
                    Some(id) => Err(
                        LocalErrorView::Delivery(DeliveryErrorView::DuplicateState(id)),
                    ),
                    None => match sent_matches(sent.messages(), sent.records(), sent_id) {
                        Err(error) => Err(error),
                        Ok(found_sent) => Ok(found_drafts + found_outbox + found_sent),
                    },
                },
            },
        },
    }
}

proof fn lemma_outbox_match_error_stays(
    matches: Seq<SummaryView>,
    records: Seq<SyncStateView>,
    outbox: Seq<char>,
    sent: Seq<char>,
    n: int,
)
    requires
        0 <= n <= matches.len(),
        outbox_matches(matches.take(n), records, outbox, sent) is Err,
    ensures
        outbox_matches(matches, records, outbox, sent) == outbox_matches(
            matches.take(n),
            records,
            outbox,
            sent,
        ),
    decreases matches.len() - n,
{
    if n < matches.len() {
        assert(matches.take(n + 1).drop_last() =~= matches.take(n));
        lemma_outbox_match_error_stays(matches, records, outbox, sent, n + 1);
    } else {
        assert(matches.take(n) =~= matches);
    }
}

proof fn lemma_sent_match_error_stays(
    matches: Seq<SummaryView>,
    records: Seq<SyncStateView>,
    sent: Seq<char>,
    n: int,
)
    requires
        0 <= n <= matches.len(),
        sent_matches(matches.take(n), records, sent) is Err,
    ensures
        sent_matches(matches, records, sent) == sent_matches(matches.take(n), records, sent),
    decreases matches.len() - n,
{
    if n < matches.len() {
        assert(matches.take(n + 1).drop_last() =~= matches.take(n));
        lemma_sent_match_error_stays(matches, records, sent, n + 1);
    } else {
        assert(matches.take(n) =~= matches);
    }
}

fn shown_as(summary: &ConversationSummary, folder: &FolderId) -> (shown: ConversationSummary)
    ensures
        shown@ == (SummaryView { folder_id: folder@, ..summary@ }),
{
    let mut shown = summary.clone();
    shown.folder_id = folder.clone();
    shown
}

fn place_outbox_matches(listing: &FolderListing, outbox: &FolderId, sent: &FolderId) -> (result:
    Result<Vec<ConversationSummary>, LocalError>)
    ensures
        match (result, outbox_matches(listing.messages(), listing.records(), outbox@, sent@)) {
            (Ok(found), Ok(expected)) => mail::summaries(found@) == expected,
            (Err(error), Err(expected)) => error@ == expected,
            _ => false,
        },
{
    let ghost all = listing.messages();
    let ghost known = listing.records();
    let mut found: Vec<ConversationSummary> = Vec::new();
    let mut i: usize = 0;
    assert(all.take(0) =~= Seq::empty());
    assert(mail::summaries(found@) =~= Seq::empty());
    while i < listing.summaries.len()
        invariant
            i <= listing.summaries.len(),
            all == listing.messages(),
            known == listing.records(),
            outbox_matches(all.take(i as int), known, outbox@, sent@) == Ok::<
                Seq<SummaryView>,
                LocalErrorView,
            >(mail::summaries(found@)),
        decreases listing.summaries.len() - i,
    {
        let ghost before = mail::summaries(found@);
        proof {
            assert(all.take(i + 1).drop_last() =~= all.take(i as int));
            assert(all.take(i + 1).last() == listing.summaries@[i as int]@);
        }
        let summary = &listing.summaries[i];
        match find_state(&listing.states, &summary.id) {
            None => {
                proof {
                    lemma_outbox_match_error_stays(all, known, outbox@, sent@, i + 1);
                }
                return Err(LocalError::UnknownDeliveryMatch(summary.id.0.clone()));
            },
            Some(at) => match delivery::outbox_delivery_metadata(&listing.states[at]) {
                Err(error) => {
                    proof {
                        lemma_outbox_match_error_stays(all, known, outbox@, sent@, i + 1);
                    }
                    return Err(LocalError::Delivery(error));
                },
                Ok((state, _)) => {
                    let shown = if state.belongs_in_outbox() {
                        shown_as(summary, outbox)
                    } else {
                        shown_as(summary, sent)
                    };
                    let ghost value = shown@;
                    found.push(shown);
                    assert(mail::summaries(found@) =~= before.push(value));
                },
            },
        }
        i += 1;
    }
    assert(all.take(i as int) =~= all);
    Ok(found)
}

fn place_sent_matches(listing: &FolderListing, sent: &FolderId) -> (result: Result<
    Vec<ConversationSummary>,
    LocalError,
>)
    ensures
        match (result, sent_matches(listing.messages(), listing.records(), sent@)) {
            (Ok(found), Ok(expected)) => mail::summaries(found@) == expected,
            (Err(error), Err(expected)) => error@ == expected,
            _ => false,
        },
{
    let ghost all = listing.messages();
    let ghost known = listing.records();
    let mut found: Vec<ConversationSummary> = Vec::new();
    let mut i: usize = 0;
    assert(all.take(0) =~= Seq::empty());
    assert(mail::summaries(found@) =~= Seq::empty());
    while i < listing.summaries.len()
        invariant
            i <= listing.summaries.len(),
            all == listing.messages(),
            known == listing.records(),
            sent_matches(all.take(i as int), known, sent@) == Ok::<
                Seq<SummaryView>,
                LocalErrorView,
            >(mail::summaries(found@)),
        decreases listing.summaries.len() - i,
    {
        let ghost before = mail::summaries(found@);
        proof {
            assert(all.take(i + 1).drop_last() =~= all.take(i as int));
            assert(all.take(i + 1).last() == listing.summaries@[i as int]@);
        }
        let summary = &listing.summaries[i];
        match find_state(&listing.states, &summary.id) {
            None => {
                proof {
                    lemma_sent_match_error_stays(all, known, sent@, i + 1);
                }
                return Err(LocalError::UnknownSentMatch(summary.id.0.clone()));
            },
            Some(at) => match delivery::sent_delivery_metadata(&listing.states[at]) {
                Err(error) => {
                    proof {
                        lemma_sent_match_error_stays(all, known, sent@, i + 1);
                    }
                    return Err(LocalError::Delivery(error));
                },
                Ok(_) => {
                    let shown = shown_as(summary, sent);
                    let ghost value = shown@;
                    found.push(shown);
                    assert(mail::summaries(found@) =~= before.push(value));
                },
            },
        }
        i += 1;
    }
    assert(all.take(i as int) =~= all);
    Ok(found)
}

impl<'a> LocalMailbox<'a> {
    /// What is found in the local folders, each message shown in the folder it belongs
    /// to. The listings hold what was found, and the records of the whole folders.
    pub fn search(
        &self,
        visible_folders: &Vec<MailFolder>,
        drafts: FolderListing,
        outbox: FolderListing,
        sent: FolderListing,
    ) -> (result: Result<Vec<ConversationSummary>, LocalError>)
        ensures
            match (
                result,
                local_matches(
                    mail::folder_views(visible_folders@),
                    self.parent(),
                    drafts,
                    outbox,
                    sent,
                ),
            ) {
                (Ok(found), Ok(expected)) => mail::summaries(found@) == expected,
                (Err(error), Err(expected)) => error@ == expected,
                _ => false,
            },
    {
        let visible_drafts = self.projected_folder_id(visible_folders, LocalFolder::Drafts);
        let visible_outbox = self.projected_folder_id(visible_folders, LocalFolder::Outbox);
        let visible_sent = self.projected_folder_id(visible_folders, LocalFolder::Sent);
        let revisions = match DraftSet::from_states(&drafts.states) {
            Err(error) => return Err(LocalError::Draft(error)),
            Ok(revisions) => revisions,
        };
        let mut results = match revisions.project_matches(drafts.summaries) {
            Err(error) => return Err(LocalError::Draft(error)),
            Ok(found) => show_in(found, &visible_drafts),
        };
        if let Some(id) = find_duplicate(&outbox.states) {
            return Err(LocalError::Delivery(DeliveryError::DuplicateState(id.0)));
        }
        match place_outbox_matches(&outbox, &visible_outbox, &visible_sent) {
            Err(error) => return Err(error),
            Ok(found) => append_summaries(&mut results, found),
        }
        if let Some(id) = find_duplicate(&sent.states) {
            return Err(LocalError::Delivery(DeliveryError::DuplicateState(id.0)));
        }
        match place_sent_matches(&sent, &visible_sent) {
            Err(error) => return Err(error),
            Ok(found) => append_summaries(&mut results, found),
        }
        Ok(results)
    }

    /// Decides how to bring the drafts in line with the provider: `local` are the records
    /// of the drafts here, `remote` those at the provider, where it has a folder for them.
    pub fn replay_drafts(
        &self,
        local: &Vec<MessageSyncState>,
        remote: Option<&Vec<MessageSyncState>>,
        delivered_message_id_hashes: &HashSet<u64>,
    ) -> (result: Result<DraftPlan, DraftError>)
        ensures
            match (result, draft::drafts_of(camel::state_views(local@))) {
                (Ok(plan), Ok(revisions)) => {
                    &&& draft::step_views(plan.steps@) == draft::replay_steps(
                        draft::pending_drafts(revisions, delivered_message_id_hashes@),
                        draft::delivered_ids(revisions, delivered_message_id_hashes@),
                        draft::remote_views(remote),
                        delivered_message_id_hashes@,
                    )
                    &&& plan.remote_changed == draft::any_changes_remote(
                        draft::step_views(plan.steps@),
                    )
                },
                (Err(error), Err(expected)) => error@ == expected,
                _ => false,
            },
    {
        match DraftSet::from_states(local) {
            Err(error) => Err(error),
            Ok(drafts) => {
                let replay = drafts.into_replay(delivered_message_id_hashes);
                Ok(replay.plan(remote, delivered_message_id_hashes))
            },
        }
    }

    /// Decides what has to be done with the messages of the outbox.
    pub fn submit_outbox(&self, outbox: FolderListing) -> (result: Result<
        SubmissionPlan,
        DeliveryError,
    >)
        ensures
            match (
                result,
                delivery::delivery_records_of(
                    outbox.messages(),
                    outbox.records(),
                    DeliveryState::Queued,
                ),
            ) {
                (Ok(plan), Ok(records)) => {
                    &&& mail::id_views(plan.finished@) == delivery::ids_to_finish(records)
                    &&& mail::id_views(plan.submissions@) == delivery::ids_to_submit(records)
                    &&& plan.delivered_message_id_hashes@ == delivery::hashes_to_deliver(records)
                },
                (Err(error), Err(expected)) => error@ == expected,
                _ => false,
            },
    {
        match delivery::outbox_delivery_records(outbox.summaries, &outbox.states) {
            Err(error) => Err(error),
            Ok(records) => Ok(delivery::plan_submission(&records)),
        }
    }

    /// What is left of the outbox once the plan was carried out; `remaining` is what the
    /// outbox folder holds then.
    pub fn finish_submission(&self, plan: SubmissionPlan, remaining: FolderListing) -> (result:
        Result<OutboxSubmission, DeliveryError>)
        ensures
            match (
                result,
                delivery::delivery_records_of(
                    remaining.messages(),
                    remaining.records(),
                    DeliveryState::Queued,
                ),
            ) {
                (Ok(submission), Ok(records)) => {
                    &&& mail::summaries(submission.outbox@) == delivery::record_summaries(records)
                    &&& submission.delivered_message_id_hashes == plan.delivered_message_id_hashes
                },
                (Err(error), Err(expected)) => error@ == expected,
                _ => false,
            },
    {
        match delivery::outbox_delivery_records(remaining.summaries, &remaining.states) {
            Err(error) => Err(error),
            Ok(records) => Ok(
                OutboxSubmission {
                    outbox: delivery::summaries_of(records),
                    delivered_message_id_hashes: plan.delivered_message_id_hashes,
                },
            ),
        }
    }
}

/// Why a message was not saved.
#[derive(Debug, Clone, Copy, PartialEq, Eq, Structural)]
pub enum SaveFailure {
    /// The draft that it replaces could not be marked.
    Marker,
    /// It could not be stored.
    Append,
    /// It was stored as a draft, and could not be moved to the outbox.
    Transition,
}

/// What has to be done next to save a message.
#[derive(Debug, Clone, Copy, PartialEq, Eq, Structural)]
pub enum SaveStep {
    /// Mark the draft that it replaces as superseded.
    MarkSuperseded,
    /// Store the message as a draft.
    Append,
    /// Make sure that the outbox folder exists.
    EnsureOutbox,
    /// Take the draft flag off the message.
    ClearDraft,
    /// Move the message to the outbox folder.
    MoveToOutbox,
    /// Delete the draft that it replaces.
    RetireSuperseded,
    /// Delete the message that was stored.
    DeleteStaged,
    /// Take the marker off the draft that it replaces.
    UnmarkSuperseded(SaveFailure),
    /// The message was saved.
    Saved,
    /// The message was not saved.
    Failed(SaveFailure),
}

/// How a message is saved: whether it replaces a draft, and whether it has to be sent.
#[derive(Debug, Clone, Copy, PartialEq, Eq, Structural)]
pub struct SaveMode {
    pub replaces: bool,
    pub deliver: bool,
}

impl SaveMode {
    /// What has to be done first.
    pub open spec fn start(self) -> SaveStep {
        if self.replaces {
            SaveStep::MarkSuperseded
        } else {
            SaveStep::Append
        }
    }

    /// What is left to do once the message is where it belongs.
    pub open spec fn wind_up(self) -> SaveStep {
        if self.replaces {
            SaveStep::RetireSuperseded
        } else {
            SaveStep::Saved
        }
    }

    /// What is left to do once the message that was stored is gone.
    pub open spec fn undo(self, failure: SaveFailure) -> SaveStep {
        if self.replaces {
            SaveStep::UnmarkSuperseded(failure)
        } else {
            SaveStep::Failed(failure)
        }
    }

    /// What has to be done after that.
    pub open spec fn after(self, step: SaveStep, succeeded: bool) -> SaveStep {
        match step {
            SaveStep::MarkSuperseded => if succeeded {
                SaveStep::Append
            } else {
                SaveStep::Failed(SaveFailure::Marker)
            },
            SaveStep::Append => if !succeeded {
                self.undo(SaveFailure::Append)
            } else if self.deliver {
                SaveStep::EnsureOutbox
            } else {
                self.wind_up()
            },
            SaveStep::EnsureOutbox => if succeeded {
                SaveStep::ClearDraft
            } else {
                SaveStep::DeleteStaged
            },
            SaveStep::ClearDraft => if succeeded {
                SaveStep::MoveToOutbox
            } else {
                SaveStep::DeleteStaged
            },
            SaveStep::MoveToOutbox => if succeeded {
                self.wind_up()
            } else {
                SaveStep::DeleteStaged
            },
            SaveStep::DeleteStaged => if succeeded {
                self.undo(SaveFailure::Transition)
            } else {
                SaveStep::Failed(SaveFailure::Transition)
            },
            SaveStep::UnmarkSuperseded(failure) => SaveStep::Failed(failure),
            SaveStep::RetireSuperseded => SaveStep::Saved,
            SaveStep::Saved => SaveStep::Saved,
            SaveStep::Failed(failure) => SaveStep::Failed(failure),
        }
    }

    /// What has to be done first.
    pub fn first_step(self) -> (step: SaveStep)
        ensures
            step == self.start(),
    {
        if self.replaces {
            SaveStep::MarkSuperseded
        } else {
            SaveStep::Append
        }
    }

    /// What has to be done after that.
    pub fn next_step(self, step: SaveStep, succeeded: bool) -> (next: SaveStep)
        ensures
            next == self.after(step, succeeded),
    {
        let wind_up = if self.replaces {
            SaveStep::RetireSuperseded
        } else {
            SaveStep::Saved
        };
        match step {
            SaveStep::MarkSuperseded => if succeeded {
                SaveStep::Append
            } else {
                SaveStep::Failed(SaveFailure::Marker)
            },
            SaveStep::Append => if !succeeded {
                if self.replaces {
                    SaveStep::UnmarkSuperseded(SaveFailure::Append)
                } else {
                    SaveStep::Failed(SaveFailure::Append)
                }
            } else if self.deliver {
                SaveStep::EnsureOutbox
            } else {
                wind_up
            },
            SaveStep::EnsureOutbox => if succeeded {
                SaveStep::ClearDraft
            } else {
                SaveStep::DeleteStaged
            },
            SaveStep::ClearDraft => if succeeded {
                SaveStep::MoveToOutbox
            } else {
                SaveStep::DeleteStaged
            },
            SaveStep::MoveToOutbox => if succeeded {
                wind_up
            } else {
                SaveStep::DeleteStaged
            },
            SaveStep::DeleteStaged => if !succeeded {
                SaveStep::Failed(SaveFailure::Transition)
            } else if self.replaces {
                SaveStep::UnmarkSuperseded(SaveFailure::Transition)
            } else {
                SaveStep::Failed(SaveFailure::Transition)
            },
            SaveStep::UnmarkSuperseded(failure) => SaveStep::Failed(failure),
            SaveStep::RetireSuperseded => SaveStep::Saved,
            SaveStep::Saved => SaveStep::Saved,
            SaveStep::Failed(failure) => SaveStep::Failed(failure),
        }
    }
}

/// What the store holds while a message is saved.
pub struct SaveState {
    /// The draft that is replaced is there.
    pub replaced_is_there: bool,
    /// The draft that is replaced is marked as superseded.
    pub replaced_is_marked: bool,
    /// The message is stored.
    pub stored: bool,
    /// An undoing step failed.
    pub undo_failed: bool,
}

/// What the store holds before the first step.
pub open spec fn before_save(mode: SaveMode) -> SaveState {
    SaveState {
        replaced_is_there: mode.replaces,
        replaced_is_marked: false,
        stored: false,
        undo_failed: false,
    }
}

/// What the store holds after a step. A step that fails changes nothing.
pub open spec fn store_after(state: SaveState, step: SaveStep, succeeded: bool) -> SaveState {
    match step {
        SaveStep::MarkSuperseded => if succeeded {
            SaveState { replaced_is_marked: true, ..state }
        } else {
            state
        },
        SaveStep::Append => if succeeded {
            SaveState { stored: true, ..state }
        } else {
            state
        },
        SaveStep::RetireSuperseded => if succeeded {
            SaveState { replaced_is_there: false, ..state }
        } else {
            state
        },
        SaveStep::DeleteStaged => if succeeded {
            SaveState { stored: false, ..state }
        } else {
            SaveState { undo_failed: true, ..state }
        },
        SaveStep::UnmarkSuperseded(_) => if succeeded {
            SaveState { replaced_is_marked: false, ..state }
        } else {
            SaveState { undo_failed: true, ..state }
        },
        _ => state,
    }
}

/// Whether `step` can be next where the store holds `state`.
pub open spec fn can_be_next(mode: SaveMode, step: SaveStep, state: SaveState) -> bool {
    match step {
        SaveStep::MarkSuperseded => mode.replaces && state == before_save(mode),
        SaveStep::Append => state == (SaveState {
            replaced_is_marked: mode.replaces,
            ..before_save(mode)
        }),
        SaveStep::EnsureOutbox | SaveStep::ClearDraft | SaveStep::MoveToOutbox
        | SaveStep::DeleteStaged => mode.deliver && state == (SaveState {
            replaced_is_marked: mode.replaces,
            stored: true,
            ..before_save(mode)
        }),
        SaveStep::UnmarkSuperseded(_) => mode.replaces && state == (SaveState {
            replaced_is_marked: true,
            ..before_save(mode)
        }),
        SaveStep::RetireSuperseded => mode.replaces && state == (SaveState {
            replaced_is_marked: true,
            stored: true,
            ..before_save(mode)
        }),
        SaveStep::Saved => state.stored && (state.replaced_is_there ==> mode.replaces
            && state.replaced_is_marked),
        SaveStep::Failed(_) => state.replaced_is_there == mode.replaces && (state.undo_failed
            || state == before_save(mode)),
    }
}

/// Saving a message never loses one: the draft that it replaces is deleted only once the
/// message is stored; and where saving fails, the store holds what it held before,
/// unless undoing failed as well, which leaves the draft that is replaced in place.
pub proof fn lemma_saving_loses_no_message(
    mode: SaveMode,
    step: SaveStep,
    state: SaveState,
    succeeded: bool,
)
    ensures
        can_be_next(mode, mode.start(), before_save(mode)),
        can_be_next(mode, step, state) ==> can_be_next(
            mode,
            mode.after(step, succeeded),
            store_after(state, step, succeeded),
        ),
        can_be_next(mode, step, state) && !state.stored ==> state.replaced_is_there
            == mode.replaces,
        can_be_next(mode, step, state) && step is Failed && !state.undo_failed ==> state
            == before_save(mode),
{
}

/// The message that is reported where a message was not moved to the outbox.
pub const NOT_MOVED_TO_OUTBOX: &'static str =
    "could not move the staged draft into local Outbox";

/// Whether a message is to be stored as the request says.
pub open spec fn requests(
    request: camel::AppendMessageRequest,
    message: PreparedMessage,
    folder: Seq<char>,
) -> bool {
    &&& request.message_id is Some <==> message.message_id is Some
    &&& message.message_id is Some ==> request.message_id->0@ == message.message_id->0@
    &&& request.folder_id@ == folder
    &&& request.from@ == message.from@
    &&& text::view_opt(request.reply_to) == text::view_opt(message.reply_to)
    &&& text::views(request.to@) == text::views(message.to@)
    &&& text::views(request.cc@) == text::views(message.cc@)
    &&& text::views(request.bcc@) == text::views(message.bcc@)
    &&& request.subject@ == message.subject@
    &&& request.html_body@ == message.body@.html
    &&& request.plain_body@ == message.body@.text
    &&& text::views(request.attachment_uris@) == text::views(message.attachment_uris@)
    &&& request.is_draft
}

impl<'a> LocalMailbox<'a> {
    /// What is handed to the store to save a message as a draft.
    pub fn draft_request(&self, message: &PreparedMessage) -> (request: AppendMessageRequest)
        ensures
            requests(request, *message, folder_path(self.parent(), LocalFolder::Drafts)),
    {
        AppendMessageRequest {
            message_id: match &message.message_id {
                Some(id) => Some(id.0.clone()),
                None => None,
            },
            folder_id: self.folder_id(LocalFolder::Drafts),
            from: message.from.clone(),
            reply_to: text::clone_opt(&message.reply_to),
            to: text::clone_texts(&message.to),
            cc: text::clone_texts(&message.cc),
            bcc: text::clone_texts(&message.bcc),
            subject: message.subject.clone(),
            html_body: message.body.html().to_owned(),
            plain_body: message.body.text().to_owned(),
            attachment_uris: text::clone_texts(&message.attachment_uris),
            is_draft: true,
        }
    }

    /// The draft that a message replaces: the one it was made from, if that is a local
    /// draft of the account.
    pub fn superseded_draft(&self, message: &PreparedMessage) -> (superseded: Option<
        ConversationId,
    >)
        ensures
            superseded is Some <==> message.conversation_id is Some && camel::folder_of(
                message.conversation_id->0@,
            ) == Some(folder_path(self.parent(), LocalFolder::Drafts)),
            superseded is Some ==> superseded->0@ == message.conversation_id->0@,
    {
        match &message.conversation_id {
            Some(previous) => if self.contains_in(LocalFolder::Drafts, previous) {
                Some(previous.clone())
            } else {
                None
            },
            None => None,
        }
    }

    /// What is reported where a message could not be stored.
    pub fn append_failure(&self) -> (message: String)
        ensures
            message@ == "EDS local message append failed for folder '"@ + folder_path(
                self.parent(),
                LocalFolder::Drafts,
            ) + "'"@,
    {
        text::enclosed(
            "EDS local message append failed for folder '",
            self.folder_id(LocalFolder::Drafts).0.as_str(),
            "'",
        )
    }
}

/// The folder that has to be refreshed before a conversation is read, if it names one.
pub fn refresh_target(conversation_id: &ConversationId) -> (folder: Option<FolderId>)
    ensures
        match folder {
            Some(folder) => camel::folder_of(conversation_id@) == Some(folder@),
            None => camel::folder_of(conversation_id@) is None,
        },
{
    match camel::conversation_folder_id(conversation_id) {
        Some(folder) => Some(FolderId(folder.to_owned())),
        None => None,
    }
}

} // verus!
