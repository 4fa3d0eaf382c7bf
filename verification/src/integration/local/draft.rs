//! The revisions of drafts that the local store holds.
use crate::integration::camel;
use crate::integration::camel::{MessageSyncState, SyncStateView};
use crate::integration::local;
use crate::model::mail;
use crate::model::mail::{ConversationId, ConversationSummary, SummaryView};
use crate::text;
use std::collections::HashSet;
use vstd::prelude::*;

verus! {

/// A draft with the revisions that it replaced.
#[derive(Debug)]
pub struct DraftRevision {
    pub conversation_id: ConversationId,
    pub message_id_hash: u64,
    pub synced: bool,
    pub recover_superseded_marker: bool,
    pub obsolete: Vec<ConversationId>,
}

/// A draft with the revisions that it replaced, as a value.
#[verifier::ext_equal]
pub struct RevisionView {
    pub conversation_id: Seq<char>,
    pub message_id_hash: u64,
    pub synced: bool,
    pub recover_superseded_marker: bool,
    pub obsolete: Seq<Seq<char>>,
}

impl View for DraftRevision {
    type V = RevisionView;

    open spec fn view(&self) -> RevisionView {
        RevisionView {
            conversation_id: self.conversation_id@,
            message_id_hash: self.message_id_hash,
            synced: self.synced,
            recover_superseded_marker: self.recover_superseded_marker,
            obsolete: mail::id_views(self.obsolete@),
        }
    }
}

/// The values of a list of revisions.
pub open spec fn revision_views(list: Seq<DraftRevision>) -> Seq<RevisionView> {
    list.map_values(|revision: DraftRevision| revision@)
}

/// The drafts of an account.
#[derive(Debug)]
pub struct DraftSet {
    pub revisions: Vec<DraftRevision>,
}

/// What has to be done with the drafts of an account.
#[derive(Debug)]
pub struct DraftReplay {
    pub pending: Vec<DraftRevision>,
    pub delivered: Vec<ConversationId>,
}

/// Why the drafts are not known.
#[derive(Debug, PartialEq, Eq)]
pub enum DraftError {
    /// Two records name one message.
    DuplicateState(String),
    /// The record is that of a message that is being sent.
    DeliveryState(String),
    /// The draft has no identity.
    NoMessageId(String),
    /// No revision, or more than one, is the current one.
    NoUniqueCurrent(u64),
    /// Two summaries name one message.
    DuplicateSummary(String),
    /// A record has no message.
    NoSummary(String),
    /// A message has no record.
    NoState(String),
    /// A message that was found has no record.
    UnknownMatch(String),
}

/// Why the drafts are not known, as a value.
#[verifier::ext_equal]
pub enum DraftErrorView {
    DuplicateState(Seq<char>),
    DeliveryState(Seq<char>),
    NoMessageId(Seq<char>),
    NoUniqueCurrent(u64),
    DuplicateSummary(Seq<char>),
    NoSummary(Seq<char>),
    NoState(Seq<char>),
    UnknownMatch(Seq<char>),
}

impl View for DraftError {
    type V = DraftErrorView;

    open spec fn view(&self) -> DraftErrorView {
        match self {
            DraftError::DuplicateState(id) => DraftErrorView::DuplicateState(id@),
            DraftError::DeliveryState(id) => DraftErrorView::DeliveryState(id@),
            DraftError::NoMessageId(id) => DraftErrorView::NoMessageId(id@),
            DraftError::NoUniqueCurrent(hash) => DraftErrorView::NoUniqueCurrent(*hash),
            DraftError::DuplicateSummary(id) => DraftErrorView::DuplicateSummary(id@),
            DraftError::NoSummary(id) => DraftErrorView::NoSummary(id@),
            DraftError::NoState(id) => DraftErrorView::NoState(id@),
            DraftError::UnknownMatch(id) => DraftErrorView::UnknownMatch(id@),
        }
    }
}

impl DraftErrorView {
    /// What is reported.
    pub open spec fn message(self) -> Seq<char> {
        match self {
            DraftErrorView::DuplicateState(id) => "local message '"@ + id
                + "' has duplicate Camel synchronization state"@,
            DraftErrorView::DeliveryState(id) => "local draft '"@ + id
                + "' contains delivery synchronization state"@,
            DraftErrorView::NoMessageId(id) => "local draft '"@ + id
                + "' has no Message-ID hash"@,
            DraftErrorView::NoUniqueCurrent(hash) => "local draft Message-ID hash "@
                + text::decimal_of(hash as nat) + " has no unique current revision"@,
            DraftErrorView::DuplicateSummary(id) => "local draft '"@ + id
                + "' has duplicate message summaries"@,
            DraftErrorView::NoSummary(id) => "local draft synchronization state '"@ + id
                + "' has no message summary"@,
            DraftErrorView::NoState(id) => "local draft '"@ + id
                + "' has no Camel synchronization state"@,
            DraftErrorView::UnknownMatch(id) => "local draft search result '"@ + id
                + "' has no Camel synchronization state"@,
        }
    }
}

impl DraftError {
    /// What is reported.
    pub fn message(&self) -> (message: String)
        ensures
            message@ == self@.message(),
    {
        match self {
            DraftError::DuplicateState(id) => text::enclosed(
                "local message '",
                id.as_str(),
                "' has duplicate Camel synchronization state",
            ),
            DraftError::DeliveryState(id) => text::enclosed(
                "local draft '",
                id.as_str(),
                "' contains delivery synchronization state",
            ),
            DraftError::NoMessageId(id) => text::enclosed(
                "local draft '",
                id.as_str(),
                "' has no Message-ID hash",
            ),
            DraftError::NoUniqueCurrent(hash) => text::enclosed(
                "local draft Message-ID hash ",
                text::decimal(*hash).as_str(),
                " has no unique current revision",
            ),
            DraftError::DuplicateSummary(id) => text::enclosed(
                "local draft '",
                id.as_str(),
                "' has duplicate message summaries",
            ),
            DraftError::NoSummary(id) => text::enclosed(
                "local draft synchronization state '",
                id.as_str(),
                "' has no message summary",
            ),
            DraftError::NoState(id) => text::enclosed(
                "local draft '",
                id.as_str(),
                "' has no Camel synchronization state",
            ),
            DraftError::UnknownMatch(id) => text::enclosed(
                "local draft search result '",
                id.as_str(),
                "' has no Camel synchronization state",
            ),
        }
    }
}

/// Why a record is not that of a draft.
pub open spec fn state_error(state: SyncStateView) -> Option<DraftErrorView> {
    if state.delivery_state is Some {
        Some(DraftErrorView::DeliveryState(state.conversation_id))
    } else if state.message_id_hash == 0 {
        Some(DraftErrorView::NoMessageId(state.conversation_id))
    } else {
        None
    }
}

/// Why the first record that is not that of a draft is not.
pub open spec fn first_state_error(states: Seq<SyncStateView>) -> Option<DraftErrorView>
    decreases states.len(),
{
    if states.len() == 0 {
        None
    } else {
        match first_state_error(states.drop_last()) {
            Some(error) => Some(error),
            None => state_error(states.last()),
        }
    }
}

/// The identities of the drafts, in the order in which they come up.
pub open spec fn draft_hashes(states: Seq<SyncStateView>) -> Seq<u64>
    decreases states.len(),
{
    if states.len() == 0 {
        Seq::empty()
    } else {
        let before = draft_hashes(states.drop_last());
        if before.contains(states.last().message_id_hash) {
            before
        } else {
            before.push(states.last().message_id_hash)
        }
    }
}

/// The revisions of one draft that are marked as superseded, or that are not.
pub open spec fn group(states: Seq<SyncStateView>, hash: u64, superseded: bool) -> Seq<
    SyncStateView,
>
    decreases states.len(),
{
    if states.len() == 0 {
        Seq::empty()
    } else if states.last().message_id_hash == hash && states.last().draft_superseded
        == superseded {
        group(states.drop_last(), hash, superseded).push(states.last())
    } else {
        group(states.drop_last(), hash, superseded)
    }
}

/// The messages of a list of records.
pub open spec fn state_ids(states: Seq<SyncStateView>) -> Seq<Seq<char>> {
    states.map_values(|state: SyncStateView| state.conversation_id)
}

/// The draft with the identity `hash`. The current revision is the one that is not
/// marked as superseded; where there is none and a single one is left, that one is.
pub open spec fn revision_of(states: Seq<SyncStateView>, hash: u64) -> Option<RevisionView> {
    let current = group(states, hash, false);
    let superseded = group(states, hash, true);
    if current.len() == 1 {
        Some(
            RevisionView {
                conversation_id: current[0].conversation_id,
                message_id_hash: hash,
                synced: current[0].draft_synced,
                recover_superseded_marker: false,
                obsolete: state_ids(superseded),
            },
        )
    } else if current.len() == 0 && superseded.len() == 1 {
        Some(
            RevisionView {
                conversation_id: superseded[0].conversation_id,
                message_id_hash: hash,
                synced: superseded[0].draft_synced,
                recover_superseded_marker: true,
                obsolete: Seq::empty(),
            },
        )
    } else {
        None
    }
}

/// The drafts with those identities, or the first identity without a current revision.
pub open spec fn revisions_of(states: Seq<SyncStateView>, hashes: Seq<u64>) -> Result<
    Seq<RevisionView>,
    u64,
>
    decreases hashes.len(),
{
    if hashes.len() == 0 {
        Ok(Seq::empty())
    } else {
        match revisions_of(states, hashes.drop_last()) {
            Err(hash) => Err(hash),
            Ok(before) => match revision_of(states, hashes.last()) {
                None => Err(hashes.last()),
                Some(revision) => Ok(before.push(revision)),
            },
        }
    }
}

/// The drafts that the records describe.
pub open spec fn drafts_of(states: Seq<SyncStateView>) -> Result<
    Seq<RevisionView>,
    DraftErrorView,
> {
    match local::first_duplicate(states) {
        Some(id) => Err(DraftErrorView::DuplicateState(id)),
        None => match first_state_error(states) {
            Some(error) => Err(error),
            None => match revisions_of(states, draft_hashes(states)) {
                Err(hash) => Err(DraftErrorView::NoUniqueCurrent(hash)),
                Ok(revisions) => Ok(revisions),
            },
        },
    }
}

proof fn lemma_state_error_stays(states: Seq<SyncStateView>, n: int)
    requires
        0 <= n <= states.len(),
        first_state_error(states.take(n)) is Some,
    ensures
        first_state_error(states) == first_state_error(states.take(n)),
    decreases states.len() - n,
{
    if n < states.len() {
        assert(states.take(n + 1).drop_last() =~= states.take(n));
        lemma_state_error_stays(states, n + 1);
    } else {
        assert(states.take(n) =~= states);
    }
}

fn find_state_error(states: &Vec<MessageSyncState>) -> (found: Option<DraftError>)
    ensures
        match found {
            Some(error) => first_state_error(camel::state_views(states@)) == Some(error@),
            None => first_state_error(camel::state_views(states@)) is None,
        },
{
    let ghost all = camel::state_views(states@);
    let mut i: usize = 0;
    assert(all.take(0) =~= Seq::empty());
    while i < states.len()
        invariant
            i <= states.len(),
            all == camel::state_views(states@),
            first_state_error(all.take(i as int)) is None,
        decreases states.len() - i,
    {
        proof {
            assert(all.take(i + 1).drop_last() =~= all.take(i as int));
            assert(all.take(i + 1).last() == states@[i as int]@);
        }
        let state = &states[i];
        if state.delivery_state.is_some() {
            proof {
                lemma_state_error_stays(all, i + 1);
            }
            return Some(DraftError::DeliveryState(state.conversation_id.0.clone()));
        }
        if state.message_id_hash == 0 {
            proof {
                lemma_state_error_stays(all, i + 1);
            }
            return Some(DraftError::NoMessageId(state.conversation_id.0.clone()));
        }
        i += 1;
    }
    assert(all.take(i as int) =~= all);
    None
}

fn contains_hash(hashes: &Vec<u64>, hash: u64) -> (r: bool)
    ensures
        r == hashes@.contains(hash),
{
    let mut i: usize = 0;
    while i < hashes.len()
        invariant
            i <= hashes.len(),
            forall|j: int| 0 <= j < i ==> hashes@[j] != hash,
        decreases hashes.len() - i,
    {
        if hashes[i] == hash {
            return true;
        }
        i += 1;
    }
    false
}

fn collect_hashes(states: &Vec<MessageSyncState>) -> (hashes: Vec<u64>)
    ensures
        hashes@ == draft_hashes(camel::state_views(states@)),
{
    let ghost all = camel::state_views(states@);
    let mut hashes: Vec<u64> = Vec::new();
    let mut i: usize = 0;
    assert(all.take(0) =~= Seq::empty());
    while i < states.len()
        invariant
            i <= states.len(),
            all == camel::state_views(states@),
            hashes@ == draft_hashes(all.take(i as int)),
        decreases states.len() - i,
    {
        proof {
            assert(all.take(i + 1).drop_last() =~= all.take(i as int));
            assert(all.take(i + 1).last() == states@[i as int]@);
        }
        if !contains_hash(&hashes, states[i].message_id_hash) {
            hashes.push(states[i].message_id_hash);
        }
        i += 1;
    }
    assert(all.take(i as int) =~= all);
    hashes
}

/// Where the revisions of one draft stand.
fn collect_group(states: &Vec<MessageSyncState>, hash: u64, superseded: bool) -> (positions: Vec<
    usize,
>)
    ensures
        positions@.len() == group(camel::state_views(states@), hash, superseded).len(),
        forall|k: int|
            0 <= k < positions@.len() ==> (#[trigger] positions@[k]) < states@.len()
                && states@[positions@[k] as int]@ == group(
                camel::state_views(states@),
                hash,
                superseded,
            )[k],
{
    let ghost all = camel::state_views(states@);
    let mut positions: Vec<usize> = Vec::new();
    let mut i: usize = 0;
    assert(all.take(0) =~= Seq::empty());
    while i < states.len()
        invariant
            i <= states.len(),
            all == camel::state_views(states@),
            positions@.len() == group(all.take(i as int), hash, superseded).len(),
            forall|k: int|
                0 <= k < positions@.len() ==> (#[trigger] positions@[k]) < states@.len()
                    && states@[positions@[k] as int]@ == group(
                    all.take(i as int),
                    hash,
                    superseded,
                )[k],
        decreases states.len() - i,
    {
        proof {
            assert(all.take(i + 1).drop_last() =~= all.take(i as int));
            assert(all.take(i + 1).last() == states@[i as int]@);
        }
        if states[i].message_id_hash == hash && states[i].draft_superseded == superseded {
            positions.push(i);
        }
        i += 1;
    }
    assert(all.take(i as int) =~= all);
    positions
}

fn collect_revision(states: &Vec<MessageSyncState>, hash: u64) -> (revision: Option<DraftRevision>)
    ensures
        match revision {
            Some(revision) => revision_of(camel::state_views(states@), hash) == Some(revision@),
            None => revision_of(camel::state_views(states@), hash) is None,
        },
{
    let current = collect_group(states, hash, false);
    let superseded = collect_group(states, hash, true);
    let ghost old_states = group(camel::state_views(states@), hash, true);
    if current.len() == 1 {
        let state = &states[current[0]];
        let mut obsolete: Vec<ConversationId> = Vec::new();
        let mut i: usize = 0;
        assert(mail::id_views(obsolete@) =~= state_ids(old_states).take(0));
        while i < superseded.len()
            invariant
                i <= superseded.len(),
                superseded@.len() == old_states.len(),
                forall|k: int|
                    0 <= k < superseded@.len() ==> (#[trigger] superseded@[k]) < states@.len()
                        && states@[superseded@[k] as int]@ == old_states[k],
                mail::id_views(obsolete@) == state_ids(old_states).take(i as int),
            decreases superseded.len() - i,
        {
            let ghost before = mail::id_views(obsolete@);
            let at = superseded[i];
            obsolete.push(states[at].conversation_id.clone());
            proof {
                assert(states@[superseded@[i as int] as int]@ == old_states[i as int]);
                assert(mail::id_views(obsolete@) =~= before.push(
                    old_states[i as int].conversation_id,
                ));
                assert(state_ids(old_states).take(i + 1) =~= before.push(
                    old_states[i as int].conversation_id,
                ));
            }
            i += 1;
        }
        proof {
            assert(state_ids(old_states).take(i as int) =~= state_ids(old_states));
            assert(states@[current@[0] as int]@ == group(
                camel::state_views(states@),
                hash,
                false,
            )[0]);
        }
        Some(
            DraftRevision {
                conversation_id: state.conversation_id.clone(),
                message_id_hash: hash,
                synced: state.draft_synced,
                recover_superseded_marker: false,
                obsolete,
            },
        )
    } else if current.len() == 0 && superseded.len() == 1 {
        let state = &states[superseded[0]];
        let obsolete: Vec<ConversationId> = Vec::new();
        proof {
            assert(states@[superseded@[0] as int]@ == old_states[0]);
            assert(mail::id_views(obsolete@) =~= Seq::empty());
        }
        Some(
            DraftRevision {
                conversation_id: state.conversation_id.clone(),
                message_id_hash: hash,
                synced: state.draft_synced,
                recover_superseded_marker: true,
                obsolete,
            },
        )
    } else {
        None
    }
}

proof fn lemma_revision_error_stays(states: Seq<SyncStateView>, hashes: Seq<u64>, n: int)
    requires
        0 <= n <= hashes.len(),
        revisions_of(states, hashes.take(n)) is Err,
    ensures
        revisions_of(states, hashes) == revisions_of(states, hashes.take(n)),
    decreases hashes.len() - n,
{
    if n < hashes.len() {
        assert(hashes.take(n + 1).drop_last() =~= hashes.take(n));
        lemma_revision_error_stays(states, hashes, n + 1);
    } else {
        assert(hashes.take(n) =~= hashes);
    }
}

/// The messages of all revisions: of each draft the current one, then those that it
/// replaced.
pub open spec fn known_ids(revisions: Seq<RevisionView>) -> Seq<Seq<char>>
    decreases revisions.len(),
{
    if revisions.len() == 0 {
        Seq::empty()
    } else {
        known_ids(revisions.drop_last()).push(revisions.last().conversation_id)
            + revisions.last().obsolete
    }
}

/// The messages of the current revisions.
pub open spec fn current_ids(revisions: Seq<RevisionView>) -> Seq<Seq<char>> {
    revisions.map_values(|revision: RevisionView| revision.conversation_id)
}

/// The summaries of the messages in `ids`.
pub open spec fn with_ids(list: Seq<SummaryView>, ids: Seq<Seq<char>>) -> Seq<SummaryView>
    decreases list.len(),
{
    if list.len() == 0 {
        Seq::empty()
    } else if ids.contains(list.last().id) {
        with_ids(list.drop_last(), ids).push(list.last())
    } else {
        with_ids(list.drop_last(), ids)
    }
}

/// The first message that a summary before it names already.
pub open spec fn first_repeated(list: Seq<SummaryView>) -> Option<Seq<char>>
    decreases list.len(),
{
    if list.len() == 0 {
        None
    } else {
        match first_repeated(list.drop_last()) {
            Some(id) => Some(id),
            None => if mail::has_id(list.drop_last(), list.last().id) {
                Some(list.last().id)
            } else {
                None
            },
        }
    }
}

/// The first of `ids` without a summary.
pub open spec fn first_absent(ids: Seq<Seq<char>>, list: Seq<SummaryView>) -> Option<Seq<char>>
    decreases ids.len(),
{
    if ids.len() == 0 {
        None
    } else {
        match first_absent(ids.drop_last(), list) {
            Some(id) => Some(id),
            None => if mail::has_id(list, ids.last()) {
                None
            } else {
                Some(ids.last())
            },
        }
    }
}

/// The first summary of a message that is not in `ids`.
pub open spec fn first_unknown(list: Seq<SummaryView>, ids: Seq<Seq<char>>) -> Option<Seq<char>>
    decreases list.len(),
{
    if list.len() == 0 {
        None
    } else {
        match first_unknown(list.drop_last(), ids) {
            Some(id) => Some(id),
            None => if ids.contains(list.last().id) {
                None
            } else {
                Some(list.last().id)
            },
        }
    }
}

/// The summaries of the current revisions, where each revision has one summary.
pub open spec fn complete_drafts(revisions: Seq<RevisionView>, list: Seq<SummaryView>) -> Result<
    Seq<SummaryView>,
    DraftErrorView,
> {
    match first_repeated(list) {
        Some(id) => Err(DraftErrorView::DuplicateSummary(id)),
        None => match first_absent(known_ids(revisions), list) {
            Some(id) => Err(DraftErrorView::NoSummary(id)),
            None => match first_unknown(list, known_ids(revisions)) {
                Some(id) => Err(DraftErrorView::NoState(id)),
                None => Ok(with_ids(list, current_ids(revisions))),
            },
        },
    }
}

/// Those of the messages that were found that are current revisions.
pub open spec fn matching_drafts(revisions: Seq<RevisionView>, list: Seq<SummaryView>) -> Result<
    Seq<SummaryView>,
    DraftErrorView,
> {
    match first_unknown(list, known_ids(revisions)) {
        Some(id) => Err(DraftErrorView::UnknownMatch(id)),
        None => Ok(with_ids(list, current_ids(revisions))),
    }
}

fn find_repeated(list: &Vec<ConversationSummary>) -> (found: Option<ConversationId>)
    ensures
        match found {
            Some(id) => first_repeated(mail::summaries(list@)) == Some(id@),
            None => first_repeated(mail::summaries(list@)) is None,
        },
{
    let ghost all = mail::summaries(list@);
    let mut seen: Vec<ConversationSummary> = Vec::new();
    let mut i: usize = 0;
    assert(all.take(0) =~= Seq::empty());
    while i < list.len()
        invariant
            i <= list.len(),
            all == mail::summaries(list@),
            mail::summaries(seen@) == all.take(i as int),
            first_repeated(all.take(i as int)) is None,
        decreases list.len() - i,
    {
        proof {
            assert(all.take(i + 1).drop_last() =~= all.take(i as int));
            assert(all.take(i + 1).last() == list@[i as int]@);
        }
        if mail::contains_id(&seen, &list[i].id) {
            proof {
                lemma_repeat_stays(all, i + 1);
            }
            return Some(list[i].id.clone());
        }
        let ghost before = mail::summaries(seen@);
        seen.push(list[i].clone());
        assert(mail::summaries(seen@) =~= before.push(all[i as int]));
        assert(all.take(i + 1) =~= before.push(all[i as int]));
        i += 1;
    }
    assert(all.take(i as int) =~= all);
    None
}

proof fn lemma_repeat_stays(list: Seq<SummaryView>, n: int)
    requires
        0 <= n <= list.len(),
        first_repeated(list.take(n)) is Some,
    ensures
        first_repeated(list) == first_repeated(list.take(n)),
    decreases list.len() - n,
{
    if n < list.len() {
        assert(list.take(n + 1).drop_last() =~= list.take(n));
        lemma_repeat_stays(list, n + 1);
    } else {
        assert(list.take(n) =~= list);
    }
}

fn find_absent(ids: &Vec<ConversationId>, list: &Vec<ConversationSummary>) -> (found: Option<
    ConversationId,
>)
    ensures
        match found {
            Some(id) => first_absent(mail::id_views(ids@), mail::summaries(list@)) == Some(id@),
            None => first_absent(mail::id_views(ids@), mail::summaries(list@)) is None,
        },
{
    let ghost all = mail::id_views(ids@);
    let ghost listed = mail::summaries(list@);
    let mut i: usize = 0;
    assert(all.take(0) =~= Seq::empty());
    while i < ids.len()
        invariant
            i <= ids.len(),
            all == mail::id_views(ids@),
            listed == mail::summaries(list@),
            first_absent(all.take(i as int), listed) is None,
        decreases ids.len() - i,
    {
        proof {
            assert(all.take(i + 1).drop_last() =~= all.take(i as int));
            assert(all.take(i + 1).last() == ids@[i as int]@);
        }
        if !mail::contains_id(list, &ids[i]) {
            proof {
                lemma_absence_stays(all, listed, i + 1);
            }
            return Some(ids[i].clone());
        }
        i += 1;
    }
    assert(all.take(i as int) =~= all);
    None
}

proof fn lemma_absence_stays(ids: Seq<Seq<char>>, list: Seq<SummaryView>, n: int)
    requires
        0 <= n <= ids.len(),
        first_absent(ids.take(n), list) is Some,
    ensures
        first_absent(ids, list) == first_absent(ids.take(n), list),
    decreases ids.len() - n,
{
    if n < ids.len() {
        assert(ids.take(n + 1).drop_last() =~= ids.take(n));
        lemma_absence_stays(ids, list, n + 1);
    } else {
        assert(ids.take(n) =~= ids);
    }
}

fn find_unknown(list: &Vec<ConversationSummary>, ids: &Vec<ConversationId>) -> (found: Option<
    ConversationId,
>)
    ensures
        match found {
            Some(id) => first_unknown(mail::summaries(list@), mail::id_views(ids@)) == Some(id@),
            None => first_unknown(mail::summaries(list@), mail::id_views(ids@)) is None,
        },
{
    let ghost all = mail::summaries(list@);
    let ghost known = mail::id_views(ids@);
    let mut i: usize = 0;
    assert(all.take(0) =~= Seq::empty());
    while i < list.len()
        invariant
            i <= list.len(),
            all == mail::summaries(list@),
            known == mail::id_views(ids@),
            first_unknown(all.take(i as int), known) is None,
        decreases list.len() - i,
    {
        proof {
            assert(all.take(i + 1).drop_last() =~= all.take(i as int));
            assert(all.take(i + 1).last() == list@[i as int]@);
        }
        if !mail::lists_id(ids, &list[i].id) {
            proof {
                lemma_unknown_stays(all, known, i + 1);
            }
            return Some(list[i].id.clone());
        }
        i += 1;
    }
    assert(all.take(i as int) =~= all);
    None
}

proof fn lemma_unknown_stays(list: Seq<SummaryView>, ids: Seq<Seq<char>>, n: int)
    requires
        0 <= n <= list.len(),
        first_unknown(list.take(n), ids) is Some,
    ensures
        first_unknown(list, ids) == first_unknown(list.take(n), ids),
    decreases list.len() - n,
{
    if n < list.len() {
        assert(list.take(n + 1).drop_last() =~= list.take(n));
        lemma_unknown_stays(list, ids, n + 1);
    } else {
        assert(list.take(n) =~= list);
    }
}

fn retain_ids(list: Vec<ConversationSummary>, ids: &Vec<ConversationId>) -> (kept: Vec<
    ConversationSummary,
>)
    ensures
        mail::summaries(kept@) == with_ids(mail::summaries(list@), mail::id_views(ids@)),
{
    let ghost all = mail::summaries(list@);
    let mut kept: Vec<ConversationSummary> = Vec::new();
    assert(all.take(0) =~= Seq::empty());
    assert(mail::summaries(kept@) =~= Seq::empty());
    for summary in it: list
        invariant
            all == mail::summaries(it.seq()),
            mail::summaries(kept@) == with_ids(all.take(it.index()), mail::id_views(ids@)),
    {
        let ghost before = mail::summaries(kept@);
        let ghost value = summary@;
        proof {
            assert(all.take(it.index() + 1).drop_last() =~= all.take(it.index()));
            assert(all.take(it.index() + 1).last() == summary@);
        }
        if mail::lists_id(ids, &summary.id) {
            kept.push(summary);
            assert(mail::summaries(kept@) =~= before.push(value));
        }
    }
    assert(all.take(all.len() as int) =~= all);
    kept
}

/// Adds copies of `ids` to the end of `list`.
fn append_ids(list: &mut Vec<ConversationId>, ids: &Vec<ConversationId>)
    ensures
        mail::id_views(final(list)@) == mail::id_views(old(list)@) + mail::id_views(ids@),
{
    let ghost start = mail::id_views(list@);
    let mut i: usize = 0;
    assert(start + mail::id_views(ids@).take(0) =~= start);
    while i < ids.len()
        invariant
            i <= ids.len(),
            mail::id_views(list@) == start + mail::id_views(ids@).take(i as int),
        decreases ids.len() - i,
    {
        let ghost before = mail::id_views(list@);
        list.push(ids[i].clone());
        proof {
            assert(mail::id_views(list@) =~= before.push(ids@[i as int]@));
            assert(start + mail::id_views(ids@).take(i + 1) =~= before.push(ids@[i as int]@));
        }
        i += 1;
    }
    assert(mail::id_views(ids@).take(i as int) =~= mail::id_views(ids@));
}

impl DraftSet {
    /// The drafts that the records describe. A record that two messages share, one of a
    /// message that is being sent, one without an identity, and a draft without a single
    /// current revision are refused.
    pub fn from_states(states: &Vec<MessageSyncState>) -> (result: Result<Self, DraftError>)
        ensures
            match (result, drafts_of(camel::state_views(states@))) {
                (Ok(drafts), Ok(expected)) => revision_views(drafts.revisions@) == expected,
                (Err(error), Err(expected)) => error@ == expected,
                _ => false,
            },
    {
        let ghost all = camel::state_views(states@);
        if let Some(id) = local::find_duplicate(states) {
            return Err(DraftError::DuplicateState(id.0));
        }
        if let Some(error) = find_state_error(states) {
            return Err(error);
        }
        let hashes = collect_hashes(states);
        let mut revisions: Vec<DraftRevision> = Vec::new();
        let mut i: usize = 0;
        assert(hashes@.take(0) =~= Seq::empty());
        assert(revision_views(revisions@) =~= Seq::empty());
        while i < hashes.len()
            invariant
                i <= hashes.len(),
                all == camel::state_views(states@),
                local::first_duplicate(all) is None,
                first_state_error(all) is None,
                hashes@ == draft_hashes(all),
                revisions_of(all, hashes@.take(i as int)) == Ok::<Seq<RevisionView>, u64>(
                    revision_views(revisions@),
                ),
            decreases hashes.len() - i,
        {
            let ghost before = revision_views(revisions@);
            proof {
                assert(hashes@.take(i + 1).drop_last() =~= hashes@.take(i as int));
            }
            match collect_revision(states, hashes[i]) {
                None => {
                    proof {
                        lemma_revision_error_stays(all, hashes@, i + 1);
                    }
                    return Err(DraftError::NoUniqueCurrent(hashes[i]));
                },
                Some(revision) => {
                    let ghost value = revision@;
                    revisions.push(revision);
                    assert(revision_views(revisions@) =~= before.push(value));
                },
            }
            i += 1;
        }
        assert(hashes@.take(i as int) =~= hashes@);
        Ok(DraftSet { revisions })
    }

    /// The messages of all revisions.
    pub fn all_ids(&self) -> (ids: Vec<ConversationId>)
        ensures
            mail::id_views(ids@) == known_ids(revision_views(self.revisions@)),
    {
        let ghost all = revision_views(self.revisions@);
        let mut ids: Vec<ConversationId> = Vec::new();
        let mut i: usize = 0;
        assert(all.take(0) =~= Seq::empty());
        assert(mail::id_views(ids@) =~= Seq::empty());
        while i < self.revisions.len()
            invariant
                i <= self.revisions.len(),
                all == revision_views(self.revisions@),
                mail::id_views(ids@) == known_ids(all.take(i as int)),
            decreases self.revisions.len() - i,
        {
            let ghost before = mail::id_views(ids@);
            proof {
                assert(all.take(i + 1).drop_last() =~= all.take(i as int));
                assert(all.take(i + 1).last() == self.revisions@[i as int]@);
            }
            ids.push(self.revisions[i].conversation_id.clone());
            assert(mail::id_views(ids@) =~= before.push(all[i as int].conversation_id));
            append_ids(&mut ids, &self.revisions[i].obsolete);
            i += 1;
        }
        assert(all.take(i as int) =~= all);
        ids
    }

    /// The messages of the current revisions.
    pub fn current_ids(&self) -> (ids: Vec<ConversationId>)
        ensures
            mail::id_views(ids@) == current_ids(revision_views(self.revisions@)),
    {
        let ghost all = current_ids(revision_views(self.revisions@));
        let mut ids: Vec<ConversationId> = Vec::new();
        let mut i: usize = 0;
        assert(mail::id_views(ids@) =~= all.take(0));
        while i < self.revisions.len()
            invariant
                i <= self.revisions.len(),
                all == current_ids(revision_views(self.revisions@)),
                mail::id_views(ids@) == all.take(i as int),
            decreases self.revisions.len() - i,
        {
            let ghost before = mail::id_views(ids@);
            ids.push(self.revisions[i].conversation_id.clone());
            proof {
                assert(mail::id_views(ids@) =~= before.push(all[i as int]));
                assert(all.take(i + 1) =~= before.push(all[i as int]));
            }
            i += 1;
        }
        assert(all.take(i as int) =~= all);
        ids
    }

    /// The summaries of the current revisions. Each revision must have one summary, and
    /// each summary must be that of a revision.
    pub fn project_complete(&self, summaries: Vec<ConversationSummary>) -> (result: Result<
        Vec<ConversationSummary>,
        DraftError,
    >)
        ensures
            match (
                result,
                complete_drafts(revision_views(self.revisions@), mail::summaries(summaries@)),
            ) {
                (Ok(drafts), Ok(expected)) => mail::summaries(drafts@) == expected,
                (Err(error), Err(expected)) => error@ == expected,
                _ => false,
            },
    {
        if let Some(id) = find_repeated(&summaries) {
            return Err(DraftError::DuplicateSummary(id.0));
        }
        let known = self.all_ids();
        if let Some(id) = find_absent(&known, &summaries) {
            return Err(DraftError::NoSummary(id.0));
        }
        if let Some(id) = find_unknown(&summaries, &known) {
            return Err(DraftError::NoState(id.0));
        }
        Ok(retain_ids(summaries, &self.current_ids()))
    }

    /// Those of the messages that were found that are current revisions. Each must be
    /// that of a revision.
    pub fn project_matches(&self, summaries: Vec<ConversationSummary>) -> (result: Result<
        Vec<ConversationSummary>,
        DraftError,
    >)
        ensures
            match (
                result,
                matching_drafts(revision_views(self.revisions@), mail::summaries(summaries@)),
            ) {
                (Ok(drafts), Ok(expected)) => mail::summaries(drafts@) == expected,
                (Err(error), Err(expected)) => error@ == expected,
                _ => false,
            },
    {
        let known = self.all_ids();
        if let Some(id) = find_unknown(&summaries, &known) {
            return Err(DraftError::UnknownMatch(id.0));
        }
        Ok(retain_ids(summaries, &self.current_ids()))
    }
}

/// Whether no identity comes up twice.
pub open spec fn distinct_hashes(hashes: Seq<u64>) -> bool {
    forall|i: int, j: int|
        #![trigger hashes[i], hashes[j]]
        0 <= i < j < hashes.len() ==> hashes[i] != hashes[j]
}

proof fn lemma_draft_hashes(states: Seq<SyncStateView>)
    ensures
        distinct_hashes(draft_hashes(states)),
        forall|i: int|
            0 <= i < states.len() ==> draft_hashes(states).contains(
                (#[trigger] states[i]).message_id_hash,
            ),
    decreases states.len(),
{
    if states.len() > 0 {
        let before = draft_hashes(states.drop_last());
        let hashes = draft_hashes(states);
        lemma_draft_hashes(states.drop_last());
        assert forall|i: int| 0 <= i < states.len() implies hashes.contains(
            (#[trigger] states[i]).message_id_hash,
        ) by {
            if i < states.len() - 1 {
                assert(states.drop_last()[i] == states[i]);
                let k = choose|k: int| 0 <= k < before.len() && before[k] == states[i].message_id_hash;
                assert(hashes[k] == states[i].message_id_hash);
            } else if !before.contains(states.last().message_id_hash) {
                assert(hashes[before.len() as int] == states.last().message_id_hash);
            }
        }
    }
}

/// There is one revision for each identity, in the order of the identities.
pub proof fn lemma_revisions_follow_the_hashes(states: Seq<SyncStateView>, hashes: Seq<u64>)
    requires
        revisions_of(states, hashes) is Ok,
    ensures
        revisions_of(states, hashes)->Ok_0.len() == hashes.len(),
        forall|i: int|
            0 <= i < hashes.len() ==> revision_of(states, hashes[i]) == Some(
                #[trigger] revisions_of(states, hashes)->Ok_0[i],
            ),
    decreases hashes.len(),
{
    if hashes.len() > 0 {
        lemma_revisions_follow_the_hashes(states, hashes.drop_last());
        let before = revisions_of(states, hashes.drop_last())->Ok_0;
        let revisions = revisions_of(states, hashes)->Ok_0;
        assert forall|i: int| 0 <= i < hashes.len() implies revision_of(states, hashes[i]) == Some(
            #[trigger] revisions[i],
        ) by {
            if i < hashes.len() - 1 {
                assert(revisions[i] == before[i]);
                assert(hashes.drop_last()[i] == hashes[i]);
            }
        }
    }
}

/// Two drafts have different identities.
pub proof fn lemma_drafts_have_different_identities(states: Seq<SyncStateView>, i: int, j: int)
    requires
        drafts_of(states) is Ok,
        0 <= i < j < drafts_of(states)->Ok_0.len(),
    ensures
        drafts_of(states)->Ok_0[i].message_id_hash != drafts_of(states)->Ok_0[j].message_id_hash,
{
    let hashes = draft_hashes(states);
    lemma_draft_hashes(states);
    lemma_revisions_follow_the_hashes(states, hashes);
    assert(revision_of(states, hashes[i]) == Some(drafts_of(states)->Ok_0[i]));
    assert(revision_of(states, hashes[j]) == Some(drafts_of(states)->Ok_0[j]));
}

/// A record is one of those of its draft.
pub proof fn lemma_group_holds(states: Seq<SyncStateView>, i: int)
    requires
        0 <= i < states.len(),
    ensures
        group(states, states[i].message_id_hash, states[i].draft_superseded).contains(states[i]),
    decreases states.len(),
{
    let hash = states[i].message_id_hash;
    let superseded = states[i].draft_superseded;
    let before = group(states.drop_last(), hash, superseded);
    let all = group(states, hash, superseded);
    if i == states.len() - 1 {
        assert(all[before.len() as int] == states[i]);
    } else {
        assert(states.drop_last()[i] == states[i]);
        lemma_group_holds(states.drop_last(), i);
        let k = choose|k: int| 0 <= k < before.len() && before[k] == states[i];
        assert(all[k] == states[i]);
    }
}

/// The records of a draft are among all records.
pub proof fn lemma_group_is_listed(states: Seq<SyncStateView>, hash: u64, superseded: bool, k: int)
    requires
        0 <= k < group(states, hash, superseded).len(),
    ensures
        states.contains(group(states, hash, superseded)[k]),
    decreases states.len(),
{
    if states.len() > 0 {
        let before = group(states.drop_last(), hash, superseded);
        if k < before.len() {
            lemma_group_is_listed(states.drop_last(), hash, superseded, k);
            let i = choose|i: int|
                0 <= i < states.drop_last().len() && states.drop_last()[i] == before[k];
            assert(states[i] == before[k]);
        } else {
            assert(states[states.len() - 1] == group(states, hash, superseded)[k]);
        }
    }
}

proof fn lemma_known_id(revisions: Seq<RevisionView>, i: int, id: Seq<char>)
    requires
        0 <= i < revisions.len(),
        revisions[i].conversation_id == id || revisions[i].obsolete.contains(id),
    ensures
        known_ids(revisions).contains(id),
    decreases revisions.len(),
{
    let before = known_ids(revisions.drop_last());
    let all = known_ids(revisions);
    if i == revisions.len() - 1 {
        if revisions[i].conversation_id == id {
            assert(all[before.len() as int] == id);
        } else {
            let k = choose|k: int|
                0 <= k < revisions[i].obsolete.len() && revisions[i].obsolete[k] == id;
            assert(all[before.len() as int + 1 + k] == id);
        }
    } else {
        assert(revisions.drop_last()[i] == revisions[i]);
        lemma_known_id(revisions.drop_last(), i, id);
        let k = choose|k: int| 0 <= k < before.len() && before[k] == id;
        assert(all[k] == id);
    }
}

proof fn lemma_known_id_has_revision(revisions: Seq<RevisionView>, id: Seq<char>)
    requires
        known_ids(revisions).contains(id),
    ensures
        exists|i: int|
            0 <= i < revisions.len() && ((#[trigger] revisions[i]).conversation_id == id
                || revisions[i].obsolete.contains(id)),
    decreases revisions.len(),
{
    if revisions.len() > 0 {
        let before = known_ids(revisions.drop_last());
        let all = known_ids(revisions);
        let last = revisions[revisions.len() - 1];
        let k = choose|k: int| 0 <= k < all.len() && all[k] == id;
        if k < before.len() {
            assert(before[k] == id);
            lemma_known_id_has_revision(revisions.drop_last(), id);
            let i = choose|i: int|
                0 <= i < revisions.drop_last().len() && ((
                #[trigger] revisions.drop_last()[i]).conversation_id == id
                    || revisions.drop_last()[i].obsolete.contains(id));
            assert(revisions[i] == revisions.drop_last()[i]);
        } else if k == before.len() {
            assert(last.conversation_id == id);
        } else {
            assert(last.obsolete[k - before.len() - 1] == id);
            assert(last.obsolete.contains(id));
        }
    }
}

/// No revision is lost and none is made up: the messages of the drafts are those that
/// the records name.
pub proof fn lemma_drafts_hold_every_revision(states: Seq<SyncStateView>, id: Seq<char>)
    requires
        drafts_of(states) is Ok,
    ensures
        known_ids(drafts_of(states)->Ok_0).contains(id) <==> state_ids(states).contains(id),
{
    let revisions = drafts_of(states)->Ok_0;
    let hashes = draft_hashes(states);
    lemma_draft_hashes(states);
    lemma_revisions_follow_the_hashes(states, hashes);
    if state_ids(states).contains(id) {
        let i = choose|i: int| 0 <= i < state_ids(states).len() && state_ids(states)[i] == id;
        let state = states[i];
        assert(state.conversation_id == id);
        let hash = state.message_id_hash;
        lemma_group_holds(states, i);
        assert(hashes.contains(states[i].message_id_hash));
        let h = choose|h: int| 0 <= h < hashes.len() && hashes[h] == hash;
        assert(revision_of(states, hashes[h]) == Some(revisions[h]));
        let members = group(states, hash, state.draft_superseded);
        let k = choose|k: int| 0 <= k < members.len() && members[k] == state;
        if state.draft_superseded && !revisions[h].recover_superseded_marker {
            assert(revisions[h].obsolete[k] == id);
        }
        lemma_known_id(revisions, h, id);
    }
    if known_ids(revisions).contains(id) {
        lemma_known_id_has_revision(revisions, id);
        let h = choose|h: int|
            0 <= h < revisions.len() && ((#[trigger] revisions[h]).conversation_id == id
                || revisions[h].obsolete.contains(id));
        let hash = hashes[h];
        assert(revision_of(states, hashes[h]) == Some(revisions[h]));
        let state = if revisions[h].conversation_id == id {
            if revisions[h].recover_superseded_marker {
                lemma_group_is_listed(states, hash, true, 0);
                group(states, hash, true)[0]
            } else {
                lemma_group_is_listed(states, hash, false, 0);
                group(states, hash, false)[0]
            }
        } else {
            let k = choose|k: int|
                0 <= k < revisions[h].obsolete.len() && revisions[h].obsolete[k] == id;
            lemma_group_is_listed(states, hash, true, k);
            group(states, hash, true)[k]
        };
        let i = choose|i: int| 0 <= i < states.len() && states[i] == state;
        assert(state_ids(states)[i] == id);
    }
}

/// The drafts that were not sent.
pub open spec fn pending_drafts(revisions: Seq<RevisionView>, delivered: Set<u64>) -> Seq<
    RevisionView,
>
    decreases revisions.len(),
{
    if revisions.len() == 0 {
        Seq::empty()
    } else if delivered.contains(revisions.last().message_id_hash) {
        pending_drafts(revisions.drop_last(), delivered)
    } else {
        pending_drafts(revisions.drop_last(), delivered).push(revisions.last())
    }
}

/// The messages of the drafts that were sent: of each draft the revisions that it
/// replaced, then the current one.
pub open spec fn delivered_ids(revisions: Seq<RevisionView>, delivered: Set<u64>) -> Seq<Seq<char>>
    decreases revisions.len(),
{
    if revisions.len() == 0 {
        Seq::empty()
    } else if delivered.contains(revisions.last().message_id_hash) {
        (delivered_ids(revisions.drop_last(), delivered) + revisions.last().obsolete).push(
            revisions.last().conversation_id,
        )
    } else {
        delivered_ids(revisions.drop_last(), delivered)
    }
}

impl DraftSet {
    /// Parts the drafts by whether they were sent.
    pub fn into_replay(self, delivered_message_id_hashes: &HashSet<u64>) -> (replay: DraftReplay)
        ensures
            revision_views(replay.pending@) == pending_drafts(
                revision_views(self.revisions@),
                delivered_message_id_hashes@,
            ),
            mail::id_views(replay.delivered@) == delivered_ids(
                revision_views(self.revisions@),
                delivered_message_id_hashes@,
            ),
    {
        let ghost all = revision_views(self.revisions@);
        let mut pending: Vec<DraftRevision> = Vec::new();
        let mut delivered: Vec<ConversationId> = Vec::new();
        assert(all.take(0) =~= Seq::empty());
        assert(revision_views(pending@) =~= Seq::empty());
        assert(mail::id_views(delivered@) =~= Seq::empty());
        for revision in it: self.revisions
            invariant
                all == revision_views(it.seq()),
                revision_views(pending@) == pending_drafts(
                    all.take(it.index()),
                    delivered_message_id_hashes@,
                ),
                mail::id_views(delivered@) == delivered_ids(
                    all.take(it.index()),
                    delivered_message_id_hashes@,
                ),
        {
            let ghost pending_before = revision_views(pending@);
            let ghost value = revision@;
            proof {
                assert(all.take(it.index() + 1).drop_last() =~= all.take(it.index()));
                assert(all.take(it.index() + 1).last() == revision@);
            }
            if delivered_message_id_hashes.contains(&revision.message_id_hash) {
                append_ids(&mut delivered, &revision.obsolete);
                let ghost before = mail::id_views(delivered@);
                delivered.push(revision.conversation_id);
                assert(mail::id_views(delivered@) =~= before.push(value.conversation_id));
            } else {
                pending.push(revision);
                assert(revision_views(pending@) =~= pending_before.push(value));
            }
        }
        assert(all.take(all.len() as int) =~= all);
        DraftReplay { pending, delivered }
    }
}

/// One step of bringing the drafts in line with the provider.
#[derive(Debug, PartialEq, Eq)]
pub enum DraftStep {
    /// Delete a message at the provider.
    DeleteRemote(ConversationId),
    /// Delete a message in the local store.
    DeleteLocal(ConversationId),
    /// Take the superseded marker off a draft.
    ClearSuperseded(ConversationId),
    /// Store a draft at the provider.
    AppendRemote(ConversationId),
    /// Mark a draft as stored at the provider.
    MarkSynced(ConversationId),
}

/// One step of bringing the drafts in line with the provider, as a value.
#[verifier::ext_equal]
pub enum DraftStepView {
    DeleteRemote(Seq<char>),
    DeleteLocal(Seq<char>),
    ClearSuperseded(Seq<char>),
    AppendRemote(Seq<char>),
    MarkSynced(Seq<char>),
}

impl View for DraftStep {
    type V = DraftStepView;

    open spec fn view(&self) -> DraftStepView {
        match self {
            DraftStep::DeleteRemote(id) => DraftStepView::DeleteRemote(id@),
            DraftStep::DeleteLocal(id) => DraftStepView::DeleteLocal(id@),
            DraftStep::ClearSuperseded(id) => DraftStepView::ClearSuperseded(id@),
            DraftStep::AppendRemote(id) => DraftStepView::AppendRemote(id@),
            DraftStep::MarkSynced(id) => DraftStepView::MarkSynced(id@),
        }
    }
}

/// The values of a list of steps.
pub open spec fn step_views(list: Seq<DraftStep>) -> Seq<DraftStepView> {
    list.map_values(|step: DraftStep| step@)
}

/// The steps that delete messages in the local store.
pub open spec fn local_deletions(ids: Seq<Seq<char>>) -> Seq<DraftStepView> {
    ids.map_values(|id: Seq<char>| DraftStepView::DeleteLocal(id))
}

/// The steps that delete messages at the provider.
pub open spec fn remote_deletions(ids: Seq<Seq<char>>) -> Seq<DraftStepView> {
    ids.map_values(|id: Seq<char>| DraftStepView::DeleteRemote(id))
}

/// The drafts at the provider that were sent.
pub open spec fn sent_remote_ids(states: Seq<SyncStateView>, delivered: Set<u64>) -> Seq<Seq<char>>
    decreases states.len(),
{
    if states.len() == 0 {
        Seq::empty()
    } else if states.last().message_id_hash != 0 && delivered.contains(
        states.last().message_id_hash,
    ) {
        sent_remote_ids(states.drop_last(), delivered).push(states.last().conversation_id)
    } else {
        sent_remote_ids(states.drop_last(), delivered)
    }
}

/// The copies of one draft at the provider.
pub open spec fn remote_copies(states: Seq<SyncStateView>, hash: u64) -> Seq<Seq<char>>
    decreases states.len(),
{
    if states.len() == 0 {
        Seq::empty()
    } else if hash != 0 && states.last().message_id_hash == hash {
        remote_copies(states.drop_last(), hash).push(states.last().conversation_id)
    } else {
        remote_copies(states.drop_last(), hash)
    }
}

/// The steps for one draft. A draft that the provider has not got is stored there, in
/// the place of its copies, before it is deleted here.
pub open spec fn revision_steps(
    revision: RevisionView,
    remote: Option<Seq<SyncStateView>>,
) -> Seq<DraftStepView> {
    let id = revision.conversation_id;
    let recovery = if revision.recover_superseded_marker {
        seq![DraftStepView::ClearSuperseded(id)]
    } else {
        Seq::empty()
    };
    let tidied = recovery + local_deletions(revision.obsolete);
    if revision.synced {
        tidied.push(DraftStepView::DeleteLocal(id))
    } else {
        match remote {
            None => tidied,
            Some(states) => (tidied + remote_deletions(
                remote_copies(states, revision.message_id_hash),
            )).push(DraftStepView::AppendRemote(id)).push(DraftStepView::MarkSynced(id)).push(
                DraftStepView::DeleteLocal(id),
            ),
        }
    }
}

/// The steps for the drafts that were not sent.
pub open spec fn pending_steps(
    revisions: Seq<RevisionView>,
    remote: Option<Seq<SyncStateView>>,
) -> Seq<DraftStepView>
    decreases revisions.len(),
{
    if revisions.len() == 0 {
        Seq::empty()
    } else {
        pending_steps(revisions.drop_last(), remote) + revision_steps(revisions.last(), remote)
    }
}

/// All steps: drafts that were sent are deleted at the provider, then here; then the
/// others are brought in line.
pub open spec fn replay_steps(
    pending: Seq<RevisionView>,
    delivered: Seq<Seq<char>>,
    remote: Option<Seq<SyncStateView>>,
    delivered_hashes: Set<u64>,
) -> Seq<DraftStepView> {
    let retired = match remote {
        None => Seq::empty(),
        Some(states) => remote_deletions(sent_remote_ids(states, delivered_hashes)),
    };
    retired + local_deletions(delivered) + pending_steps(pending, remote)
}

/// Whether a step changes what the provider has.
pub open spec fn changes_remote(step: DraftStepView) -> bool {
    step is DeleteRemote || step is AppendRemote
}

/// Whether one of the steps changes what the provider has.
pub open spec fn any_changes_remote(steps: Seq<DraftStepView>) -> bool {
    exists|i: int| 0 <= i < steps.len() && changes_remote(#[trigger] steps[i])
}

fn push_local_deletions(steps: &mut Vec<DraftStep>, ids: &Vec<ConversationId>)
    ensures
        step_views(final(steps)@) == step_views(old(steps)@) + local_deletions(
            mail::id_views(ids@),
        ),
{
    let ghost start = step_views(steps@);
    let ghost added = local_deletions(mail::id_views(ids@));
    let mut i: usize = 0;
    assert(start + added.take(0) =~= start);
    while i < ids.len()
        invariant
            i <= ids.len(),
            added == local_deletions(mail::id_views(ids@)),
            step_views(steps@) == start + added.take(i as int),
        decreases ids.len() - i,
    {
        let ghost before = step_views(steps@);
        steps.push(DraftStep::DeleteLocal(ids[i].clone()));
        proof {
            assert(step_views(steps@) =~= before.push(added[i as int]));
            assert(start + added.take(i + 1) =~= before.push(added[i as int]));
        }
        i += 1;
    }
    assert(added.take(i as int) =~= added);
}

fn push_remote_deletions(steps: &mut Vec<DraftStep>, ids: &Vec<ConversationId>)
    ensures
        step_views(final(steps)@) == step_views(old(steps)@) + remote_deletions(
            mail::id_views(ids@),
        ),
{
    let ghost start = step_views(steps@);
    let ghost added = remote_deletions(mail::id_views(ids@));
    let mut i: usize = 0;
    assert(start + added.take(0) =~= start);
    while i < ids.len()
        invariant
            i <= ids.len(),
            added == remote_deletions(mail::id_views(ids@)),
            step_views(steps@) == start + added.take(i as int),
        decreases ids.len() - i,
    {
        let ghost before = step_views(steps@);
        steps.push(DraftStep::DeleteRemote(ids[i].clone()));
        proof {
            assert(step_views(steps@) =~= before.push(added[i as int]));
            assert(start + added.take(i + 1) =~= before.push(added[i as int]));
        }
        i += 1;
    }
    assert(added.take(i as int) =~= added);
}

fn push_step(steps: &mut Vec<DraftStep>, step: DraftStep)
    ensures
        step_views(final(steps)@) == step_views(old(steps)@).push(step@),
{
    let ghost before = step_views(steps@);
    let ghost value = step@;
    steps.push(step);
    assert(step_views(steps@) =~= before.push(value));
}

fn collect_sent_remote(states: &Vec<MessageSyncState>, delivered: &HashSet<u64>) -> (ids: Vec<
    ConversationId,
>)
    ensures
        mail::id_views(ids@) == sent_remote_ids(camel::state_views(states@), delivered@),
{
    let ghost all = camel::state_views(states@);
    let mut ids: Vec<ConversationId> = Vec::new();
    let mut i: usize = 0;
    assert(all.take(0) =~= Seq::empty());
    assert(mail::id_views(ids@) =~= Seq::empty());
    while i < states.len()
        invariant
            i <= states.len(),
            all == camel::state_views(states@),
            mail::id_views(ids@) == sent_remote_ids(all.take(i as int), delivered@),
        decreases states.len() - i,
    {
        let ghost before = mail::id_views(ids@);
        proof {
            assert(all.take(i + 1).drop_last() =~= all.take(i as int));
            assert(all.take(i + 1).last() == states@[i as int]@);
        }
        let state = &states[i];
        if state.message_id_hash != 0 && delivered.contains(&state.message_id_hash) {
            ids.push(state.conversation_id.clone());
            assert(mail::id_views(ids@) =~= before.push(state@.conversation_id));
        }
        i += 1;
    }
    assert(all.take(i as int) =~= all);
    ids
}

fn collect_remote_copies(states: &Vec<MessageSyncState>, hash: u64) -> (ids: Vec<ConversationId>)
    ensures
        mail::id_views(ids@) == remote_copies(camel::state_views(states@), hash),
{
    let ghost all = camel::state_views(states@);
    let mut ids: Vec<ConversationId> = Vec::new();
    let mut i: usize = 0;
    assert(all.take(0) =~= Seq::empty());
    assert(mail::id_views(ids@) =~= Seq::empty());
    while i < states.len()
        invariant
            i <= states.len(),
            all == camel::state_views(states@),
            mail::id_views(ids@) == remote_copies(all.take(i as int), hash),
        decreases states.len() - i,
    {
        let ghost before = mail::id_views(ids@);
        proof {
            assert(all.take(i + 1).drop_last() =~= all.take(i as int));
            assert(all.take(i + 1).last() == states@[i as int]@);
        }
        if hash != 0 && states[i].message_id_hash == hash {
            ids.push(states[i].conversation_id.clone());
            assert(mail::id_views(ids@) =~= before.push(states@[i as int]@.conversation_id));
        }
        i += 1;
    }
    assert(all.take(i as int) =~= all);
    ids
}

/// The records of the drafts at the provider, as values.
pub open spec fn remote_views(remote: Option<&Vec<MessageSyncState>>) -> Option<
    Seq<SyncStateView>,
> {
    match remote {
        Some(states) => Some(camel::state_views(states@)),
        None => None,
    }
}

fn push_revision_steps(
    steps: &mut Vec<DraftStep>,
    revision: &DraftRevision,
    remote: Option<&Vec<MessageSyncState>>,
)
    ensures
        step_views(final(steps)@) == step_views(old(steps)@) + revision_steps(
            revision@,
            remote_views(remote),
        ),
{
    let ghost start = step_views(steps@);
    let ghost id = revision.conversation_id@;
    if revision.recover_superseded_marker {
        push_step(steps, DraftStep::ClearSuperseded(revision.conversation_id.clone()));
    }
    push_local_deletions(steps, &revision.obsolete);
    let ghost recovery = if revision.recover_superseded_marker {
        seq![DraftStepView::ClearSuperseded(id)]
    } else {
        Seq::empty()
    };
    let ghost tidied = recovery + local_deletions(revision@.obsolete);
    assert(step_views(steps@) =~= start + tidied);
    if revision.synced {
        push_step(steps, DraftStep::DeleteLocal(revision.conversation_id.clone()));
        assert(step_views(steps@) =~= start + tidied.push(DraftStepView::DeleteLocal(id)));
        return ;
    }
    match remote {
        None => {},
        Some(states) => {
            let copies = collect_remote_copies(states, revision.message_id_hash);
            push_remote_deletions(steps, &copies);
            push_step(steps, DraftStep::AppendRemote(revision.conversation_id.clone()));
            push_step(steps, DraftStep::MarkSynced(revision.conversation_id.clone()));
            push_step(steps, DraftStep::DeleteLocal(revision.conversation_id.clone()));
            assert(step_views(steps@) =~= start + revision_steps(revision@, remote_views(remote)));
        },
    }
}

/// What has to be done to bring the drafts in line with the provider.
#[derive(Debug)]
pub struct DraftPlan {
    pub steps: Vec<DraftStep>,
    pub remote_changed: bool,
}

impl DraftReplay {
    /// What has to be done to bring the drafts in line with the provider, whose drafts
    /// are `remote`; `None` where the provider has no folder for them.
    pub fn plan(
        self,
        remote: Option<&Vec<MessageSyncState>>,
        delivered_message_id_hashes: &HashSet<u64>,
    ) -> (plan: DraftPlan)
        ensures
            step_views(plan.steps@) == replay_steps(
                revision_views(self.pending@),
                mail::id_views(self.delivered@),
                remote_views(remote),
                delivered_message_id_hashes@,
            ),
            plan.remote_changed == any_changes_remote(step_views(plan.steps@)),
    {
        let mut steps: Vec<DraftStep> = Vec::new();
        assert(step_views(steps@) =~= Seq::empty());
        let ghost retired = match remote_views(remote) {
            None => Seq::empty(),
            Some(states) => remote_deletions(
                sent_remote_ids(states, delivered_message_id_hashes@),
            ),
        };
        match remote {
            None => {},
            Some(states) => {
                let sent = collect_sent_remote(states, delivered_message_id_hashes);
                push_remote_deletions(&mut steps, &sent);
            },
        }
        assert(step_views(steps@) =~= retired);
        push_local_deletions(&mut steps, &self.delivered);
        let ghost start = step_views(steps@);
        let ghost all = revision_views(self.pending@);
        let mut i: usize = 0;
        assert(all.take(0) =~= Seq::empty());
        assert(start + pending_steps(all.take(0), remote_views(remote)) =~= start);
        while i < self.pending.len()
            invariant
                i <= self.pending.len(),
                all == revision_views(self.pending@),
                step_views(steps@) == start + pending_steps(
                    all.take(i as int),
                    remote_views(remote),
                ),
            decreases self.pending.len() - i,
        {
            let ghost before = pending_steps(all.take(i as int), remote_views(remote));
            proof {
                assert(all.take(i + 1).drop_last() =~= all.take(i as int));
                assert(all.take(i + 1).last() == self.pending@[i as int]@);
            }
            push_revision_steps(&mut steps, &self.pending[i], remote);
            assert((start + before) + revision_steps(all[i as int], remote_views(remote)) =~= start
                + (before + revision_steps(all[i as int], remote_views(remote))));
            i += 1;
        }
        assert(all.take(i as int) =~= all);
        let mut remote_changed = false;
        let mut k: usize = 0;
        let ghost views = step_views(steps@);
        while k < steps.len()
            invariant
                k <= steps.len(),
                views == step_views(steps@),
                remote_changed == (exists|j: int|
                    0 <= j < k && changes_remote(#[trigger] views[j])),
            decreases steps.len() - k,
        {
            let ghost before = remote_changed;
            match &steps[k] {
                DraftStep::DeleteRemote(_) | DraftStep::AppendRemote(_) => {
                    remote_changed = true;
                    assert(changes_remote(views[k as int]));
                },
                _ => {
                    assert(!changes_remote(views[k as int]));
                },
            }
            k += 1;
        }
        DraftPlan { steps, remote_changed }
    }
}

/// A draft that the provider has not got is deleted here only behind the steps that store
/// it there; without a folder at the provider, it is not deleted.
pub proof fn lemma_unsynced_draft_is_stored_before_it_is_deleted(
    revision: RevisionView,
    remote: Option<Seq<SyncStateView>>,
    i: int,
)
    requires
        !revision.synced,
        !revision.obsolete.contains(revision.conversation_id),
        0 <= i < revision_steps(revision, remote).len(),
        revision_steps(revision, remote)[i] == DraftStepView::DeleteLocal(revision.conversation_id),
    ensures
        remote is Some,
        i == revision_steps(revision, remote).len() - 1,
        i >= 2,
        revision_steps(revision, remote)[i - 2] == DraftStepView::AppendRemote(
            revision.conversation_id,
        ),
        revision_steps(revision, remote)[i - 1] == DraftStepView::MarkSynced(
            revision.conversation_id,
        ),
{
    let id = revision.conversation_id;
    let recovery = if revision.recover_superseded_marker {
        seq![DraftStepView::ClearSuperseded(id)]
    } else {
        Seq::empty()
    };
    let tidied = recovery + local_deletions(revision.obsolete);
    let steps = revision_steps(revision, remote);
    if i < tidied.len() {
        assert(steps[i] == tidied[i]);
        if i >= recovery.len() {
            assert(tidied[i] == local_deletions(revision.obsolete)[i - recovery.len()]);
            assert(revision.obsolete[i - recovery.len()] == id);
        }
    }
}

/// What came of bringing the drafts in line with the provider.
#[derive(Debug, Clone, Copy, PartialEq, Eq, Structural)]
pub struct DraftReplayOutcome {
    pub remote_changed: bool,
    pub convergence_incomplete: bool,
}

impl DraftReplayOutcome {
    /// What is reported once the steps were done: `remaining` drafts are left here, and
    /// `remote` says whether the provider has a folder for drafts.
    pub fn new(plan: &DraftPlan, remote: bool, remaining: usize) -> (outcome: Self)
        ensures
            outcome.remote_changed == plan.remote_changed,
            outcome.convergence_incomplete == (remote && remaining != 0),
    {
        DraftReplayOutcome {
            remote_changed: plan.remote_changed,
            convergence_incomplete: remote && remaining != 0,
        }
    }
}

/// Whether `id` is a message of the draft: its current revision or one that it replaced.
pub open spec fn holds_message(revision: RevisionView, id: Seq<char>) -> bool {
    revision.conversation_id == id || revision.obsolete.contains(id)
}

/// Whether each message is that of one draft, and there one revision.
pub open spec fn separate(revisions: Seq<RevisionView>) -> bool {
    &&& forall|h: int|
        0 <= h < revisions.len() ==> (#[trigger] revisions[h]).obsolete.no_duplicates()
            && !revisions[h].obsolete.contains(revisions[h].conversation_id)
    &&& forall|g: int, h: int, id: Seq<char>|
        #![trigger holds_message(revisions[g], id), holds_message(revisions[h], id)]
        0 <= g < h < revisions.len() ==> !(holds_message(revisions[g], id) && holds_message(
            revisions[h],
            id,
        ))
}

/// Whether `id` is a message of a draft that was sent, or of one that was not.
pub open spec fn part_holds(
    revisions: Seq<RevisionView>,
    delivered: Set<u64>,
    sent: bool,
    id: Seq<char>,
) -> bool {
    exists|h: int|
        0 <= h < revisions.len() && delivered.contains(
            (#[trigger] revisions[h]).message_id_hash,
        ) == sent && holds_message(revisions[h], id)
}

proof fn lemma_records_differ(states: Seq<SyncStateView>)
    requires
        local::first_duplicate(states) is None,
    ensures
        forall|i: int, j: int|
            #![trigger states[i], states[j]]
            0 <= i < j < states.len() ==> states[i].conversation_id != states[j].conversation_id,
    decreases states.len(),
{
    if states.len() > 0 {
        let rest = states.drop_last();
        let n = states.len() - 1;
        lemma_records_differ(rest);
        local::lemma_state_of_take(states, states.last().conversation_id, n);
        assert(states.take(n) =~= rest);
        assert forall|i: int, j: int|
            #![trigger states[i], states[j]]
            0 <= i < j < states.len() implies states[i].conversation_id
            != states[j].conversation_id by {
            assert(rest[i] == states[i]);
            if j < n {
                assert(rest[j] == states[j]);
            }
        }
    }
}

proof fn lemma_group_members(states: Seq<SyncStateView>, hash: u64, superseded: bool)
    requires
        local::first_duplicate(states) is None,
    ensures
        ({
            let members = group(states, hash, superseded);
            &&& forall|k: int|
                0 <= k < members.len() ==> (#[trigger] members[k]).message_id_hash == hash
                    && members[k].draft_superseded == superseded && states.contains(members[k])
            &&& forall|k: int, l: int|
                #![trigger members[k], members[l]]
                0 <= k < l < members.len() ==> members[k].conversation_id
                    != members[l].conversation_id
        }),
    decreases states.len(),
{
    if states.len() > 0 {
        let rest = states.drop_last();
        let last = states.last();
        let before = group(rest, hash, superseded);
        let members = group(states, hash, superseded);
        lemma_group_members(rest, hash, superseded);
        lemma_records_differ(states);
        assert(states[states.len() - 1] == last);
        assert forall|k: int| 0 <= k < members.len() implies (
        #[trigger] members[k]).message_id_hash == hash && members[k].draft_superseded
            == superseded && states.contains(members[k]) by {
            if k < before.len() {
                assert(members[k] == before[k]);
                let i = choose|i: int| 0 <= i < rest.len() && rest[i] == before[k];
                assert(states[i] == before[k]);
            }
        }
        assert forall|k: int, l: int|
            #![trigger members[k], members[l]]
            0 <= k < l < members.len() implies members[k].conversation_id
            != members[l].conversation_id by {
            assert(members[k] == before[k]);
            if l < before.len() {
                assert(members[l] == before[l]);
            } else {
                let i = choose|i: int| 0 <= i < rest.len() && rest[i] == before[k];
                assert(states[i].conversation_id != states[states.len() - 1].conversation_id);
            }
        }
    }
}

proof fn lemma_message_has_a_record(states: Seq<SyncStateView>, h: int, id: Seq<char>)
    requires
        drafts_of(states) is Ok,
        0 <= h < drafts_of(states)->Ok_0.len(),
        holds_message(drafts_of(states)->Ok_0[h], id),
    ensures
        exists|i: int|
            0 <= i < states.len() && (#[trigger] states[i]).conversation_id == id
                && states[i].message_id_hash == drafts_of(states)->Ok_0[h].message_id_hash,
{
    let revision = drafts_of(states)->Ok_0[h];
    let hashes = draft_hashes(states);
    let hash = hashes[h];
    lemma_revisions_follow_the_hashes(states, hashes);
    assert(revision_of(states, hashes[h]) == Some(revision));
    lemma_group_members(states, hash, true);
    lemma_group_members(states, hash, false);
    let state = if revision.conversation_id == id {
        if revision.recover_superseded_marker {
            group(states, hash, true)[0]
        } else {
            group(states, hash, false)[0]
        }
    } else {
        let k = choose|k: int| 0 <= k < revision.obsolete.len() && revision.obsolete[k] == id;
        group(states, hash, true)[k]
    };
    assert(states.contains(state));
    let i = choose|i: int| 0 <= i < states.len() && states[i] == state;
    assert(states[i].conversation_id == id);
}

proof fn lemma_record_has_a_draft(states: Seq<SyncStateView>, i: int)
    requires
        drafts_of(states) is Ok,
        0 <= i < states.len(),
    ensures
        exists|h: int|
            0 <= h < drafts_of(states)->Ok_0.len() && (
            #[trigger] drafts_of(states)->Ok_0[h]).message_id_hash == states[i].message_id_hash
                && holds_message(drafts_of(states)->Ok_0[h], states[i].conversation_id),
{
    let revisions = drafts_of(states)->Ok_0;
    let hashes = draft_hashes(states);
    let state = states[i];
    lemma_draft_hashes(states);
    lemma_revisions_follow_the_hashes(states, hashes);
    lemma_group_holds(states, i);
    assert(hashes.contains(states[i].message_id_hash));
    let h = choose|h: int| 0 <= h < hashes.len() && hashes[h] == state.message_id_hash;
    assert(revision_of(states, hashes[h]) == Some(revisions[h]));
    let members = group(states, state.message_id_hash, state.draft_superseded);
    let k = choose|k: int| 0 <= k < members.len() && members[k] == state;
    if state.draft_superseded && !revisions[h].recover_superseded_marker {
        assert(revisions[h].obsolete[k] == state.conversation_id);
    }
    assert(holds_message(revisions[h], state.conversation_id));
}

proof fn lemma_drafts_are_separate(states: Seq<SyncStateView>)
    requires
        drafts_of(states) is Ok,
    ensures
        separate(drafts_of(states)->Ok_0),
{
    let revisions = drafts_of(states)->Ok_0;
    let hashes = draft_hashes(states);
    lemma_records_differ(states);
    lemma_revisions_follow_the_hashes(states, hashes);
    assert forall|h: int| 0 <= h < revisions.len() implies (
    #[trigger] revisions[h]).obsolete.no_duplicates() && !revisions[h].obsolete.contains(
        revisions[h].conversation_id,
    ) by {
        let revision = revisions[h];
        let hash = hashes[h];
        assert(revision_of(states, hashes[h]) == Some(revision));
        let current = group(states, hash, false);
        let superseded = group(states, hash, true);
        lemma_group_members(states, hash, true);
        lemma_group_members(states, hash, false);
        if current.len() == 1 {
            assert forall|k: int, l: int|
                0 <= k < revision.obsolete.len() && 0 <= l < revision.obsolete.len() && k
                    != l implies revision.obsolete[k] != revision.obsolete[l] by {
                if k < l {
                    assert(superseded[k].conversation_id != superseded[l].conversation_id);
                } else {
                    assert(superseded[l].conversation_id != superseded[k].conversation_id);
                }
            }
            if revision.obsolete.contains(revision.conversation_id) {
                let k = choose|k: int|
                    0 <= k < revision.obsolete.len() && revision.obsolete[k]
                        == revision.conversation_id;
                assert(states.contains(superseded[k]));
                assert(states.contains(current[0]));
                let i = choose|i: int| 0 <= i < states.len() && states[i] == superseded[k];
                let j = choose|j: int| 0 <= j < states.len() && states[j] == current[0];
                if i < j {
                    assert(states[i].conversation_id != states[j].conversation_id);
                } else if j < i {
                    assert(states[j].conversation_id != states[i].conversation_id);
                }
            }
        }
    }
    assert forall|g: int, h: int, id: Seq<char>|
        #![trigger holds_message(revisions[g], id), holds_message(revisions[h], id)]
        0 <= g < h < revisions.len() implies !(holds_message(revisions[g], id) && holds_message(
        revisions[h],
        id,
    )) by {
        if holds_message(revisions[g], id) && holds_message(revisions[h], id) {
            lemma_drafts_have_different_identities(states, g, h);
            lemma_message_has_a_record(states, g, id);
            lemma_message_has_a_record(states, h, id);
            let i = choose|i: int|
                0 <= i < states.len() && (#[trigger] states[i]).conversation_id == id
                    && states[i].message_id_hash == revisions[g].message_id_hash;
            let j = choose|j: int|
                0 <= j < states.len() && (#[trigger] states[j]).conversation_id == id
                    && states[j].message_id_hash == revisions[h].message_id_hash;
            if i < j {
                assert(states[i].conversation_id != states[j].conversation_id);
            } else if j < i {
                assert(states[j].conversation_id != states[i].conversation_id);
            }
        }
    }
}

proof fn lemma_part_grows(
    revisions: Seq<RevisionView>,
    delivered: Set<u64>,
    sent: bool,
    id: Seq<char>,
)
    requires
        revisions.len() > 0,
    ensures
        part_holds(revisions, delivered, sent, id) <==> part_holds(
            revisions.drop_last(),
            delivered,
            sent,
            id,
        ) || (delivered.contains(revisions.last().message_id_hash) == sent && holds_message(
            revisions.last(),
            id,
        )),
{
    let rest = revisions.drop_last();
    let n = revisions.len() - 1;
    if part_holds(revisions, delivered, sent, id) {
        let h = choose|h: int|
            0 <= h < revisions.len() && delivered.contains(
                (#[trigger] revisions[h]).message_id_hash,
            ) == sent && holds_message(revisions[h], id);
        if h < n {
            assert(rest[h] == revisions[h]);
        }
    }
    if part_holds(rest, delivered, sent, id) {
        let h = choose|h: int|
            0 <= h < rest.len() && delivered.contains((#[trigger] rest[h]).message_id_hash)
                == sent && holds_message(rest[h], id);
        assert(revisions[h] == rest[h]);
    }
    assert(revisions[n] == revisions.last());
}

proof fn lemma_joined_ids(before: Seq<Seq<char>>, first: Seq<Seq<char>>, id: Seq<char>)
    ensures
        (before + first).contains(id) <==> before.contains(id) || first.contains(id),
{
    let all = before + first;
    if before.contains(id) {
        let k = choose|k: int| 0 <= k < before.len() && before[k] == id;
        assert(all[k] == id);
    }
    if first.contains(id) {
        let k = choose|k: int| 0 <= k < first.len() && first[k] == id;
        assert(all[before.len() + k] == id);
    }
    if all.contains(id) {
        let k = choose|k: int| 0 <= k < all.len() && all[k] == id;
        if k < before.len() {
            assert(before[k] == id);
        } else {
            assert(first[k - before.len()] == id);
        }
    }
}

proof fn lemma_joined_without_repeats(before: Seq<Seq<char>>, first: Seq<Seq<char>>)
    requires
        before.no_duplicates(),
        first.no_duplicates(),
        forall|id: Seq<char>| !(#[trigger] before.contains(id) && first.contains(id)),
    ensures
        (before + first).no_duplicates(),
{
    let all = before + first;
    assert forall|k: int, l: int|
        0 <= k < all.len() && 0 <= l < all.len() && k != l implies all[k] != all[l] by {
        let (k, l) = if k < l {
            (k, l)
        } else {
            (l, k)
        };
        if l < before.len() {
            assert(before[k] != before[l]);
        } else if k >= before.len() {
            assert(first[k - before.len()] != first[l - before.len()]);
        } else if before[k] == first[l - before.len()] {
            assert(before.contains(before[k]));
            assert(first.contains(before[k]));
        }
    }
}

proof fn lemma_separate_rest(revisions: Seq<RevisionView>)
    requires
        separate(revisions),
        revisions.len() > 0,
    ensures
        separate(revisions.drop_last()),
{
    let rest = revisions.drop_last();
    assert forall|h: int| 0 <= h < rest.len() implies (
    #[trigger] rest[h]).obsolete.no_duplicates() && !rest[h].obsolete.contains(
        rest[h].conversation_id,
    ) by {
        assert(rest[h] == revisions[h]);
    }
    assert forall|g: int, h: int, id: Seq<char>|
        #![trigger holds_message(rest[g], id), holds_message(rest[h], id)]
        0 <= g < h < rest.len() implies !(holds_message(rest[g], id) && holds_message(
        rest[h],
        id,
    )) by {
        assert(holds_message(revisions[g], id) == holds_message(rest[g], id));
        assert(holds_message(revisions[h], id) == holds_message(rest[h], id));
    }
}

proof fn lemma_parts(revisions: Seq<RevisionView>, delivered: Set<u64>)
    requires
        separate(revisions),
    ensures
        delivered_ids(revisions, delivered).no_duplicates(),
        known_ids(pending_drafts(revisions, delivered)).no_duplicates(),
        forall|id: Seq<char>| #[trigger]
            delivered_ids(revisions, delivered).contains(id) <==> part_holds(
                revisions,
                delivered,
                true,
                id,
            ),
        forall|id: Seq<char>| #[trigger]
            known_ids(pending_drafts(revisions, delivered)).contains(id) <==> part_holds(
                revisions,
                delivered,
                false,
                id,
            ),
    decreases revisions.len(),
{
    let sent_ids = delivered_ids(revisions, delivered);
    let pending_ids = known_ids(pending_drafts(revisions, delivered));
    if revisions.len() > 0 {
        let rest = revisions.drop_last();
        let last = revisions.last();
        let n = revisions.len() - 1;
        assert(revisions[n] == last);
        lemma_separate_rest(revisions);
        lemma_parts(rest, delivered);
        let before = delivered_ids(rest, delivered);
        let waiting = pending_drafts(rest, delivered);
        let kept = known_ids(waiting);
        let one = seq![last.conversation_id];
        assert forall|id: Seq<char>| holds_message(last, id) implies !part_holds(
            rest,
            delivered,
            true,
            id,
        ) && !part_holds(rest, delivered, false, id) by {
            if part_holds(rest, delivered, true, id) {
                let h = choose|h: int|
                    0 <= h < rest.len() && delivered.contains(
                        (#[trigger] rest[h]).message_id_hash,
                    ) == true && holds_message(rest[h], id);
                assert(holds_message(revisions[h], id));
                assert(holds_message(revisions[n], id));
            }
            if part_holds(rest, delivered, false, id) {
                let h = choose|h: int|
                    0 <= h < rest.len() && delivered.contains(
                        (#[trigger] rest[h]).message_id_hash,
                    ) == false && holds_message(rest[h], id);
                assert(holds_message(revisions[h], id));
                assert(holds_message(revisions[n], id));
            }
        }
        let base = if delivered.contains(last.message_id_hash) {
            before
        } else {
            kept
        };
        assert forall|id: Seq<char>| holds_message(last, id) implies !base.contains(id) by {}
        if delivered.contains(last.message_id_hash) {
            assert(sent_ids =~= (before + last.obsolete) + one);
            assert forall|id: Seq<char>| !(#[trigger] before.contains(id)
                && last.obsolete.contains(id)) by {
                assert(last.obsolete.contains(id) ==> holds_message(last, id));
            }
            lemma_joined_without_repeats(before, last.obsolete);
            assert forall|id: Seq<char>| !(#[trigger] (before + last.obsolete).contains(id)
                && one.contains(id)) by {
                lemma_joined_ids(before, last.obsolete, id);
                if one.contains(id) {
                    assert(id == last.conversation_id);
                    assert(holds_message(last, id));
                }
            }
            lemma_joined_without_repeats(before + last.obsolete, one);
        } else {
            assert(pending_drafts(revisions, delivered).drop_last() =~= waiting);
            assert(pending_ids =~= (kept + one) + last.obsolete);
            assert forall|id: Seq<char>| !(#[trigger] kept.contains(id) && one.contains(id)) by {
                if one.contains(id) {
                    assert(id == last.conversation_id);
                    assert(holds_message(last, id));
                }
            }
            lemma_joined_without_repeats(kept, one);
            assert forall|id: Seq<char>| !(#[trigger] (kept + one).contains(id)
                && last.obsolete.contains(id)) by {
                lemma_joined_ids(kept, one, id);
                assert(last.obsolete.contains(id) ==> holds_message(last, id));
                if one.contains(id) {
                    assert(id == last.conversation_id);
                }
            }
            lemma_joined_without_repeats(kept + one, last.obsolete);
        }
        assert forall|id: Seq<char>|
            sent_ids.contains(id) <==> part_holds(revisions, delivered, true, id) by {
            lemma_part_grows(revisions, delivered, true, id);
            if delivered.contains(last.message_id_hash) {
                lemma_joined_ids(before, last.obsolete, id);
                lemma_joined_ids(before + last.obsolete, one, id);
                assert(one[0] == last.conversation_id);
                assert(one.contains(id) <==> id == last.conversation_id);
            }
        }
        assert forall|id: Seq<char>|
            pending_ids.contains(id) <==> part_holds(revisions, delivered, false, id) by {
            lemma_part_grows(revisions, delivered, false, id);
            if !delivered.contains(last.message_id_hash) {
                lemma_joined_ids(kept, one, id);
                lemma_joined_ids(kept + one, last.obsolete, id);
                assert(one[0] == last.conversation_id);
                assert(one.contains(id) <==> id == last.conversation_id);
            }
        }
    }
}

proof fn lemma_pending_drafts(revisions: Seq<RevisionView>, delivered: Set<u64>, draft: RevisionView)
    ensures
        pending_drafts(revisions, delivered).contains(draft) <==> revisions.contains(draft)
            && !delivered.contains(draft.message_id_hash),
    decreases revisions.len(),
{
    if revisions.len() > 0 {
        let rest = revisions.drop_last();
        let last = revisions.last();
        let before = pending_drafts(rest, delivered);
        let all = pending_drafts(revisions, delivered);
        lemma_pending_drafts(rest, delivered, draft);
        assert(revisions[revisions.len() - 1] == last);
        if rest.contains(draft) {
            let k = choose|k: int| 0 <= k < rest.len() && rest[k] == draft;
            assert(revisions[k] == draft);
        }
        if revisions.contains(draft) && draft != last {
            let k = choose|k: int| 0 <= k < revisions.len() && revisions[k] == draft;
            assert(rest[k] == draft);
        }
        if before.contains(draft) {
            let k = choose|k: int| 0 <= k < before.len() && before[k] == draft;
            assert(all[k] == draft);
        }
        if all.contains(draft) && draft != last {
            let k = choose|k: int| 0 <= k < all.len() && all[k] == draft;
            assert(before[k] == draft);
        }
        if !delivered.contains(last.message_id_hash) {
            assert(all[before.len() as int] == last);
        }
    }
}

/// Each message that the records name is in exactly one of the two parts of a replay, and
/// there once: it is delivered where its draft was sent, the revisions that the draft
/// replaced included, and it is pending where its draft was not.
pub proof fn lemma_replay_parts_the_records(states: Seq<SyncStateView>, delivered: Set<u64>)
    requires
        drafts_of(states) is Ok,
    ensures
        ({
            let drafts = drafts_of(states)->Ok_0;
            let pending = pending_drafts(drafts, delivered);
            let retired = delivered_ids(drafts, delivered);
            &&& forall|draft: RevisionView| #[trigger]
                pending.contains(draft) <==> drafts.contains(draft) && !delivered.contains(
                    draft.message_id_hash,
                )
            &&& forall|i: int|
                0 <= i < states.len() ==> retired.contains((#[trigger] states[i]).conversation_id)
                    == delivered.contains(states[i].message_id_hash)
            &&& forall|i: int|
                0 <= i < states.len() ==> known_ids(pending).contains(
                    (#[trigger] states[i]).conversation_id,
                ) == !delivered.contains(states[i].message_id_hash)
            &&& forall|id: Seq<char>|
                retired.contains(id) || known_ids(pending).contains(id)
                    <==> #[trigger] state_ids(states).contains(id)
            &&& retired.no_duplicates()
            &&& known_ids(pending).no_duplicates()
        }),
{
    let drafts = drafts_of(states)->Ok_0;
    let pending = pending_drafts(drafts, delivered);
    let retired = delivered_ids(drafts, delivered);
    lemma_drafts_are_separate(states);
    lemma_records_differ(states);
    lemma_parts(drafts, delivered);
    assert forall|draft: RevisionView| #[trigger]
        pending.contains(draft) <==> drafts.contains(draft) && !delivered.contains(
            draft.message_id_hash,
        ) by {
        lemma_pending_drafts(drafts, delivered, draft);
    }
    assert forall|i: int, sent: bool|
        #![trigger part_holds(drafts, delivered, sent, states[i].conversation_id)]
        0 <= i < states.len() implies part_holds(
        drafts,
        delivered,
        sent,
        states[i].conversation_id,
    ) == (delivered.contains(states[i].message_id_hash) == sent) by {
        let id = states[i].conversation_id;
        lemma_record_has_a_draft(states, i);
        let h = choose|h: int|
            0 <= h < drafts.len() && (#[trigger] drafts[h]).message_id_hash
                == states[i].message_id_hash && holds_message(drafts[h], id);
        if part_holds(drafts, delivered, sent, id) {
            let g = choose|g: int|
                0 <= g < drafts.len() && delivered.contains(
                    (#[trigger] drafts[g]).message_id_hash,
                ) == sent && holds_message(drafts[g], id);
            if g < h {
                assert(!(holds_message(drafts[g], id) && holds_message(drafts[h], id)));
            } else if h < g {
                assert(!(holds_message(drafts[h], id) && holds_message(drafts[g], id)));
            }
        }
    }
    assert forall|id: Seq<char>|
        retired.contains(id) || known_ids(pending).contains(id) <==> #[trigger] state_ids(
            states,
        ).contains(id) by {
        if state_ids(states).contains(id) {
            let i = choose|i: int| 0 <= i < state_ids(states).len() && state_ids(states)[i] == id;
            assert(states[i].conversation_id == id);
            let sent = delivered.contains(states[i].message_id_hash);
            assert(part_holds(drafts, delivered, sent, states[i].conversation_id));
        }
        if retired.contains(id) || known_ids(pending).contains(id) {
            let sent = retired.contains(id);
            assert(part_holds(drafts, delivered, sent, id));
            let h = choose|h: int|
                0 <= h < drafts.len() && delivered.contains(
                    (#[trigger] drafts[h]).message_id_hash,
                ) == sent && holds_message(drafts[h], id);
            lemma_message_has_a_record(states, h, id);
            let i = choose|i: int|
                0 <= i < states.len() && (#[trigger] states[i]).conversation_id == id
                    && states[i].message_id_hash == drafts[h].message_id_hash;
            assert(state_ids(states)[i] == id);
        }
    }
    assert forall|i: int| 0 <= i < states.len() implies retired.contains(
        (#[trigger] states[i]).conversation_id,
    ) == delivered.contains(states[i].message_id_hash) by {
        assert(part_holds(drafts, delivered, true, states[i].conversation_id) == (
        delivered.contains(states[i].message_id_hash) == true));
    }
    assert forall|i: int| 0 <= i < states.len() implies known_ids(pending).contains(
        (#[trigger] states[i]).conversation_id,
    ) == !delivered.contains(states[i].message_id_hash) by {
        assert(part_holds(drafts, delivered, false, states[i].conversation_id) == (
        delivered.contains(states[i].message_id_hash) == false));
    }
}

proof fn lemma_none_is_repeated(list: Seq<SummaryView>)
    ensures
        first_repeated(list) is None <==> mail::unique_ids(list),
    decreases list.len(),
{
    if list.len() > 0 {
        let rest = list.drop_last();
        let n = list.len() - 1;
        lemma_none_is_repeated(rest);
        if mail::unique_ids(list) {
            assert forall|i: int, j: int|
                #![trigger rest[i], rest[j]]
                0 <= i < j < rest.len() implies rest[i].id != rest[j].id by {
                assert(list[i].id != list[j].id);
            }
            if mail::has_id(rest, list.last().id) {
                let i = choose|i: int| 0 <= i < rest.len() && #[trigger] rest[i].id == list.last().id;
                assert(list[i].id != list[n].id);
            }
        }
        if mail::unique_ids(rest) && !mail::has_id(rest, list.last().id) {
            assert forall|i: int, j: int|
                #![trigger list[i], list[j]]
                0 <= i < j < list.len() implies list[i].id != list[j].id by {
                assert(rest[i].id == list[i].id);
                if j < n {
                    assert(rest[j].id == list[j].id);
                }
            }
        }
    }
}

proof fn lemma_none_is_absent(ids: Seq<Seq<char>>, list: Seq<SummaryView>)
    ensures
        first_absent(ids, list) is None <==> forall|id: Seq<char>| #[trigger]
            ids.contains(id) ==> mail::has_id(list, id),
    decreases ids.len(),
{
    if ids.len() > 0 {
        let rest = ids.drop_last();
        lemma_none_is_absent(rest, list);
        assert forall|id: Seq<char>| ids.contains(id) <==> #[trigger] rest.contains(id) || id
            == ids.last() by {
            if rest.contains(id) {
                let k = choose|k: int| 0 <= k < rest.len() && rest[k] == id;
                assert(ids[k] == id);
            }
            if ids.contains(id) && id != ids.last() {
                let k = choose|k: int| 0 <= k < ids.len() && ids[k] == id;
                assert(rest[k] == id);
            }
            assert(ids[ids.len() - 1] == ids.last());
        }
        assert(ids.contains(ids.last()));
        if first_absent(ids, list) is None {
            assert forall|id: Seq<char>| #[trigger] ids.contains(id) implies mail::has_id(
                list,
                id,
            ) by {
                assert(rest.contains(id) || id == ids.last());
            }
        }
        if forall|id: Seq<char>| #[trigger] ids.contains(id) ==> mail::has_id(list, id) {
            assert forall|id: Seq<char>| #[trigger] rest.contains(id) implies mail::has_id(
                list,
                id,
            ) by {
                assert(ids.contains(id));
            }
        }
    }
}

proof fn lemma_none_is_unknown(list: Seq<SummaryView>, ids: Seq<Seq<char>>)
    ensures
        first_unknown(list, ids) is None <==> forall|i: int|
            0 <= i < list.len() ==> ids.contains((#[trigger] list[i]).id),
    decreases list.len(),
{
    if list.len() > 0 {
        let rest = list.drop_last();
        let n = list.len() - 1;
        lemma_none_is_unknown(rest, ids);
        assert(list[n] == list.last());
        if first_unknown(list, ids) is None {
            assert forall|i: int| 0 <= i < list.len() implies ids.contains(
                (#[trigger] list[i]).id,
            ) by {
                if i < n {
                    assert(rest[i] == list[i]);
                }
            }
        }
        if forall|i: int| 0 <= i < list.len() ==> ids.contains((#[trigger] list[i]).id) {
            assert forall|i: int| 0 <= i < rest.len() implies ids.contains(
                (#[trigger] rest[i]).id,
            ) by {
                assert(rest[i] == list[i]);
            }
            assert(ids.contains(list[n].id));
        }
    }
}

proof fn lemma_rows_with_ids(list: Seq<SummaryView>, ids: Seq<Seq<char>>)
    requires
        mail::unique_ids(list),
    ensures
        mail::unique_ids(with_ids(list, ids)),
        forall|row: SummaryView| #[trigger]
            with_ids(list, ids).contains(row) <==> list.contains(row) && ids.contains(row.id),
    decreases list.len(),
{
    if list.len() > 0 {
        let rest = list.drop_last();
        let last = list.last();
        let n = list.len() - 1;
        let before = with_ids(rest, ids);
        let all = with_ids(list, ids);
        assert(list[n] == last);
        assert forall|i: int, j: int|
            #![trigger rest[i], rest[j]]
            0 <= i < j < rest.len() implies rest[i].id != rest[j].id by {
            assert(list[i].id != list[j].id);
        }
        lemma_rows_with_ids(rest, ids);
        assert forall|row: SummaryView| #[trigger]
            all.contains(row) <==> list.contains(row) && ids.contains(row.id) by {
            assert(before.contains(row) <==> rest.contains(row) && ids.contains(row.id));
            if rest.contains(row) {
                let k = choose|k: int| 0 <= k < rest.len() && rest[k] == row;
                assert(list[k] == row);
            }
            if list.contains(row) && row != last {
                let k = choose|k: int| 0 <= k < list.len() && list[k] == row;
                assert(rest[k] == row);
            }
            if before.contains(row) {
                let k = choose|k: int| 0 <= k < before.len() && before[k] == row;
                assert(all[k] == row);
            }
            if all.contains(row) && row != last {
                let k = choose|k: int| 0 <= k < all.len() && all[k] == row;
                assert(before[k] == row);
            }
            if ids.contains(last.id) {
                assert(all[before.len() as int] == last);
            }
        }
        if ids.contains(last.id) {
            assert forall|i: int, j: int|
                #![trigger all[i], all[j]]
                0 <= i < j < all.len() implies all[i].id != all[j].id by {
                assert(all[i] == before[i]);
                if j < before.len() {
                    assert(all[j] == before[j]);
                } else {
                    assert(before.contains(before[i]));
                    let k = choose|k: int| 0 <= k < rest.len() && rest[k] == before[i];
                    assert(list[k].id != list[n].id);
                }
            }
        }
    }
}

/// Whether `states[i]` is the record of the current revision of its draft.
pub open spec fn is_current(states: Seq<SyncStateView>, i: int) -> bool {
    revision_of(states, states[i].message_id_hash) matches Some(draft) && draft.conversation_id
        == states[i].conversation_id
}

proof fn lemma_current_messages(states: Seq<SyncStateView>, i: int)
    requires
        drafts_of(states) is Ok,
        0 <= i < states.len(),
    ensures
        current_ids(drafts_of(states)->Ok_0).contains(states[i].conversation_id) <==> is_current(
            states,
            i,
        ),
{
    let drafts = drafts_of(states)->Ok_0;
    let hashes = draft_hashes(states);
    let id = states[i].conversation_id;
    lemma_draft_hashes(states);
    lemma_revisions_follow_the_hashes(states, hashes);
    lemma_drafts_are_separate(states);
    lemma_record_has_a_draft(states, i);
    let h = choose|h: int|
        0 <= h < drafts.len() && (#[trigger] drafts[h]).message_id_hash
            == states[i].message_id_hash && holds_message(drafts[h], id);
    assert(revision_of(states, hashes[h]) == Some(drafts[h]));
    if current_ids(drafts).contains(id) {
        let g = choose|g: int| 0 <= g < current_ids(drafts).len() && current_ids(drafts)[g] == id;
        assert(holds_message(drafts[g], id));
        if g < h {
            assert(!(holds_message(drafts[g], id) && holds_message(drafts[h], id)));
        } else if h < g {
            assert(!(holds_message(drafts[h], id) && holds_message(drafts[g], id)));
        }
    }
    if is_current(states, i) {
        assert(current_ids(drafts)[h] == id);
    }
}

/// A list of drafts is complete where its summaries, none of them twice, are those of the
/// messages that the records name. What is shown of it is the current revision of each
/// draft, in the order of the list: one row for each identity, and no revision that was
/// replaced.
pub proof fn lemma_complete_drafts_follow_the_records(
    states: Seq<SyncStateView>,
    list: Seq<SummaryView>,
)
    requires
        drafts_of(states) is Ok,
    ensures
        ({
            let drafts = drafts_of(states)->Ok_0;
            &&& complete_drafts(drafts, list) is Ok <==> mail::unique_ids(list) && forall|
                id: Seq<char>,
            | #[trigger]
                mail::has_id(list, id) <==> state_ids(states).contains(id)
            &&& complete_drafts(drafts, list) matches Ok(rows) ==> {
                &&& rows == with_ids(list, current_ids(drafts))
                &&& mail::unique_ids(rows)
                &&& forall|i: int|
                    0 <= i < states.len() ==> mail::has_id(
                        rows,
                        (#[trigger] states[i]).conversation_id,
                    ) == is_current(states, i)
                &&& forall|row: SummaryView| #[trigger]
                    rows.contains(row) ==> list.contains(row) && state_ids(states).contains(row.id)
                &&& rows.len() == draft_hashes(states).len()
                &&& forall|hash: u64| #[trigger]
                    draft_hashes(states).contains(hash) ==> exists|i: int|
                        0 <= i < states.len() && (#[trigger] states[i]).message_id_hash == hash
                            && mail::has_id(rows, states[i].conversation_id)
                &&& forall|i: int, j: int|
                    #![trigger states[i], states[j]]
                    0 <= i < j < states.len() && states[i].message_id_hash
                        == states[j].message_id_hash ==> !(mail::has_id(
                        rows,
                        states[i].conversation_id,
                    ) && mail::has_id(rows, states[j].conversation_id))
            }
        }),
{
    let drafts = drafts_of(states)->Ok_0;
    let known = known_ids(drafts);
    let current = current_ids(drafts);
    let hashes = draft_hashes(states);
    lemma_none_is_repeated(list);
    lemma_none_is_absent(known, list);
    lemma_none_is_unknown(list, known);
    assert forall|id: Seq<char>| #[trigger] known.contains(id) <==> state_ids(states).contains(
        id,
    ) by {
        lemma_drafts_hold_every_revision(states, id);
    }
    if complete_drafts(drafts, list) is Ok {
        assert forall|id: Seq<char>| #[trigger]
            mail::has_id(list, id) <==> state_ids(states).contains(id) by {
            assert(known.contains(id) <==> state_ids(states).contains(id));
            if mail::has_id(list, id) {
                let k = choose|k: int| 0 <= k < list.len() && #[trigger] list[k].id == id;
                assert(known.contains(list[k].id));
            }
        }
    }
    if mail::unique_ids(list) && forall|id: Seq<char>| #[trigger]
        mail::has_id(list, id) <==> state_ids(states).contains(id) {
        assert forall|id: Seq<char>| #[trigger] known.contains(id) implies mail::has_id(
            list,
            id,
        ) by {}
        assert forall|k: int| 0 <= k < list.len() implies known.contains(
            (#[trigger] list[k]).id,
        ) by {
            assert(mail::has_id(list, list[k].id));
            assert(known.contains(list[k].id) <==> state_ids(states).contains(list[k].id));
        }
    }
    if complete_drafts(drafts, list) is Ok {
        let rows = complete_drafts(drafts, list)->Ok_0;
        lemma_rows_with_ids(list, current);
        lemma_draft_hashes(states);
        lemma_revisions_follow_the_hashes(states, hashes);
        lemma_drafts_are_separate(states);
        lemma_records_differ(states);
        assert forall|id: Seq<char>| #[trigger]
            mail::has_id(rows, id) <==> current.contains(id) by {
            if mail::has_id(rows, id) {
                let k = choose|k: int| 0 <= k < rows.len() && #[trigger] rows[k].id == id;
                assert(rows.contains(rows[k]));
            }
            if current.contains(id) {
                let h = choose|h: int| 0 <= h < current.len() && current[h] == id;
                lemma_known_id(drafts, h, id);
                assert(mail::has_id(list, id));
                let k = choose|k: int| 0 <= k < list.len() && #[trigger] list[k].id == id;
                assert(list.contains(list[k]));
                assert(rows.contains(list[k]));
                let r = choose|r: int| 0 <= r < rows.len() && rows[r] == list[k];
                assert(rows[r].id == id);
            }
        }
        assert forall|i: int| 0 <= i < states.len() implies mail::has_id(
            rows,
            (#[trigger] states[i]).conversation_id,
        ) == is_current(states, i) by {
            lemma_current_messages(states, i);
        }
        assert forall|row: SummaryView| #[trigger] rows.contains(row) implies list.contains(row)
            && state_ids(states).contains(row.id) by {
            let k = choose|k: int| 0 <= k < list.len() && list[k] == row;
            assert(mail::has_id(list, list[k].id));
        }
        assert forall|hash: u64| #[trigger] hashes.contains(hash) implies exists|i: int|
            0 <= i < states.len() && (#[trigger] states[i]).message_id_hash == hash
                && mail::has_id(rows, states[i].conversation_id) by {
            let h = choose|h: int| 0 <= h < hashes.len() && hashes[h] == hash;
            assert(revision_of(states, hashes[h]) == Some(drafts[h]));
            let id = drafts[h].conversation_id;
            assert(holds_message(drafts[h], id));
            lemma_message_has_a_record(states, h, id);
            let i = choose|i: int|
                0 <= i < states.len() && (#[trigger] states[i]).conversation_id == id
                    && states[i].message_id_hash == drafts[h].message_id_hash;
            assert(current[h] == id);
            assert(current.contains(id));
            assert(mail::has_id(rows, states[i].conversation_id));
        }
        assert forall|i: int, j: int|
            #![trigger states[i], states[j]]
            0 <= i < j < states.len() && states[i].message_id_hash
                == states[j].message_id_hash implies !(mail::has_id(
            rows,
            states[i].conversation_id,
        ) && mail::has_id(rows, states[j].conversation_id)) by {
            assert(mail::has_id(rows, states[i].conversation_id) == is_current(states, i));
            assert(mail::has_id(rows, states[j].conversation_id) == is_current(states, j));
        }
        let names = rows.map_values(|row: SummaryView| row.id);
        assert(names.no_duplicates()) by {
            assert forall|k: int, l: int|
                0 <= k < names.len() && 0 <= l < names.len() && k != l implies names[k]
                != names[l] by {
                if k < l {
                    assert(rows[k].id != rows[l].id);
                } else {
                    assert(rows[l].id != rows[k].id);
                }
            }
        }
        assert(current.no_duplicates()) by {
            assert forall|k: int, l: int|
                0 <= k < current.len() && 0 <= l < current.len() && k != l implies current[k]
                != current[l] by {
                assert(holds_message(drafts[k], current[k]));
                assert(holds_message(drafts[l], current[l]));
                if k < l {
                    assert(!(holds_message(drafts[k], current[k]) && holds_message(
                        drafts[l],
                        current[k],
                    )));
                } else {
                    assert(!(holds_message(drafts[l], current[k]) && holds_message(
                        drafts[k],
                        current[k],
                    )));
                }
            }
        }
        assert(names.to_set() =~= current.to_set()) by {
            assert forall|id: Seq<char>| names.to_set().contains(id) <==> current.to_set().contains(
                id,
            ) by {
                assert(mail::has_id(rows, id) <==> current.contains(id));
                if names.contains(id) {
                    let k = choose|k: int| 0 <= k < names.len() && names[k] == id;
                    assert(rows[k].id == id);
                }
                if mail::has_id(rows, id) {
                    let k = choose|k: int| 0 <= k < rows.len() && #[trigger] rows[k].id == id;
                    assert(names[k] == id);
                }
            }
        }
        names.unique_seq_to_set();
        current.unique_seq_to_set();
    }
}

} // verus!
