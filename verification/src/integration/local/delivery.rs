//! What becomes of messages that are being sent.
use crate::integration::camel;
use crate::integration::camel::{MessageSyncState, SyncStateView};
use crate::integration::local;
use crate::model::mail;
use crate::model::mail::{ConversationId, ConversationSummary, SummaryView};
use crate::text;
use std::collections::{HashMap, HashSet};
use vstd::prelude::*;

verus! {

/// How far a message got on its way.
#[derive(Debug, Clone, Copy, PartialEq, Eq, Structural)]
pub enum DeliveryState {
    /// It was not handed to the transport yet.
    Queued,
    /// It was handed to the transport, and it is not known what became of it.
    SubmissionUncertain,
    /// It was delivered, and the provider stores the copy.
    ProviderCopyExpected,
    /// It was delivered, and the copy has still to be stored.
    NeedsRemoteCopy,
}

/// Where a message belongs.
#[derive(Debug, Clone, Copy, PartialEq, Eq, Structural)]
pub enum DeliveryPlacement {
    Outbox,
    Held,
    Sent,
    Retire,
}

/// The state that a marker stands for; `None` where it stands for none.
pub open spec fn state_of_marker(marker: Option<Seq<char>>, unmarked: DeliveryState) -> Option<
    DeliveryState,
> {
    match marker {
        None => Some(unmarked),
        Some(marker) => if marker == camel::DELIVERY_SUBMITTING@ {
            Some(DeliveryState::SubmissionUncertain)
        } else if marker == camel::DELIVERY_PROVIDER_COPY@ {
            Some(DeliveryState::ProviderCopyExpected)
        } else if marker == camel::DELIVERY_COPY_REQUIRED@ {
            Some(DeliveryState::NeedsRemoteCopy)
        } else {
            None
        },
    }
}

/// A marker that stands for no state.
#[derive(Debug, PartialEq, Eq)]
pub struct UnknownMarker(pub String);

impl DeliveryState {
    /// The state that a marker stands for.
    pub fn from_marker(marker: Option<&str>, unmarked: Self) -> (result: Result<Self, UnknownMarker>)
        ensures
            ({
                let view = match marker {
                    Some(marker) => Some(marker@),
                    None => None,
                };
                match result {
                    Ok(state) => state_of_marker(view, unmarked) == Some(state),
                    Err(unknown) => state_of_marker(view, unmarked) is None && view == Some(
                        unknown.0@,
                    ),
                }
            }),
    {
        match marker {
            None => Ok(unmarked),
            Some(marker) => if text::same(marker, camel::DELIVERY_SUBMITTING) {
                Ok(DeliveryState::SubmissionUncertain)
            } else if text::same(marker, camel::DELIVERY_PROVIDER_COPY) {
                Ok(DeliveryState::ProviderCopyExpected)
            } else if text::same(marker, camel::DELIVERY_COPY_REQUIRED) {
                Ok(DeliveryState::NeedsRemoteCopy)
            } else {
                Err(UnknownMarker(marker.to_owned()))
            },
        }
    }

    /// Whether the user sees the message in the outbox.
    pub fn belongs_in_outbox(self) -> (r: bool)
        ensures
            r == (self is Queued || self is SubmissionUncertain),
    {
        self == DeliveryState::Queued || self == DeliveryState::SubmissionUncertain
    }
}

/// Once a message is marked as delivered, its marker says so whatever else is known.
pub proof fn lemma_delivery_marker_is_delivery_evidence(
    provider_copy_expected: bool,
    unmarked: DeliveryState,
)
    ensures
        state_of_marker(Some(camel::delivered_marker(provider_copy_expected)), unmarked) == Some(
            if provider_copy_expected {
                DeliveryState::ProviderCopyExpected
            } else {
                DeliveryState::NeedsRemoteCopy
            },
        ),
{
    reveal_strlit("submitting");
    reveal_strlit("provider-copy");
    reveal_strlit("copy-required");
    assert(camel::DELIVERY_SUBMITTING@.len() == 10);
    assert(camel::DELIVERY_PROVIDER_COPY@[0] == 'p');
    assert(camel::DELIVERY_COPY_REQUIRED@[0] == 'c');
}

/// How many copies the provider has of a message that no local copy was matched with.
pub open spec fn count_of(counts: Map<u64, usize>, hash: u64) -> nat {
    if counts.contains_key(hash) {
        counts[hash] as nat
    } else {
        0
    }
}

/// Where a message belongs, where the provider has `counts` unmatched copies.
pub open spec fn placement(
    state: DeliveryState,
    hash: u64,
    counts: Map<u64, usize>,
) -> DeliveryPlacement {
    if state !is Queued && count_of(counts, hash) > 0 {
        DeliveryPlacement::Retire
    } else {
        match state {
            DeliveryState::Queued => DeliveryPlacement::Outbox,
            DeliveryState::SubmissionUncertain => DeliveryPlacement::Held,
            _ => DeliveryPlacement::Sent,
        }
    }
}

/// The copies that are left unmatched behind that message.
pub open spec fn claimed(
    state: DeliveryState,
    hash: u64,
    counts: Map<u64, usize>,
) -> Map<u64, usize> {
    if placement(state, hash, counts) is Retire {
        counts.insert(hash, (counts[hash] - 1) as usize)
    } else {
        counts
    }
}

/// Where a message belongs. A copy at the provider retires one local copy.
pub fn classify_delivery(
    state: DeliveryState,
    message_id_hash: u64,
    unclaimed_remote_sent: &mut HashMap<u64, usize>,
) -> (placed: DeliveryPlacement)
    ensures
        placed == placement(state, message_id_hash, old(unclaimed_remote_sent)@),
        final(unclaimed_remote_sent)@ == claimed(
            state,
            message_id_hash,
            old(unclaimed_remote_sent)@,
        ),
{
    let count: usize = match unclaimed_remote_sent.get(&message_id_hash) {
        Some(count) => *count,
        None => 0,
    };
    match state {
        DeliveryState::Queued => DeliveryPlacement::Outbox,
        _ => {
            if count > 0 {
                let _ = unclaimed_remote_sent.insert(message_id_hash, count - 1);
                DeliveryPlacement::Retire
            } else if state == DeliveryState::SubmissionUncertain {
                DeliveryPlacement::Held
            } else {
                DeliveryPlacement::Sent
            }
        },
    }
}

/// The copies that the provider has of sent messages.
#[derive(Debug)]
pub struct RemoteSentEvidence {
    pub unclaimed: HashMap<u64, usize>,
}

/// How many of `states` are the message `hash`.
pub open spec fn hash_count(states: Seq<SyncStateView>, hash: u64) -> nat
    decreases states.len(),
{
    if states.len() == 0 {
        0
    } else if states.last().message_id_hash == hash {
        hash_count(states.drop_last(), hash) + 1
    } else {
        hash_count(states.drop_last(), hash)
    }
}

proof fn lemma_hash_count_bound(states: Seq<SyncStateView>, hash: u64)
    ensures
        hash_count(states, hash) <= states.len(),
    decreases states.len(),
{
    if states.len() > 0 {
        lemma_hash_count_bound(states.drop_last(), hash);
    }
}

impl RemoteSentEvidence {
    /// Nothing is known of the provider's copies.
    pub fn none() -> (evidence: Self)
        ensures
            evidence.unclaimed@ == Map::<u64, usize>::empty(),
    {
        RemoteSentEvidence { unclaimed: HashMap::new() }
    }

    /// Counts the copies of each message. A message without an identity counts as none.
    pub fn from_states(states: &Vec<MessageSyncState>) -> (evidence: Self)
        ensures
            forall|hash: u64| #[trigger]
                count_of(evidence.unclaimed@, hash) == (if hash == 0 {
                    0
                } else {
                    hash_count(camel::state_views(states@), hash)
                }),
    {
        let ghost views = camel::state_views(states@);
        let mut unclaimed: HashMap<u64, usize> = HashMap::new();
        let length: usize = states.len();
        let mut i: usize = 0;
        assert(views.take(0) =~= Seq::empty());
        while i < length
            invariant
                i <= length,
                length == states@.len(),
                views == camel::state_views(states@),
                forall|hash: u64| #[trigger]
                    count_of(unclaimed@, hash) == (if hash == 0 {
                        0
                    } else {
                        hash_count(views.take(i as int), hash)
                    }),
            decreases length - i,
        {
            let ghost before = unclaimed@;
            let hash = states[i].message_id_hash;
            proof {
                assert(views.take(i + 1).drop_last() =~= views.take(i as int));
                assert(views.take(i + 1).last() == states@[i as int]@);
                lemma_hash_count_bound(views.take(i as int), hash);
                assert(count_of(before, hash) == (if hash == 0 {
                    0
                } else {
                    hash_count(views.take(i as int), hash)
                }));
            }
            if hash != 0 {
                let count: usize = match unclaimed.get(&hash) {
                    Some(count) => *count,
                    None => 0,
                };
                let _ = unclaimed.insert(hash, count + 1);
            }
            proof {
                assert forall|other: u64| #[trigger]
                    count_of(unclaimed@, other) == (if other == 0 {
                        0
                    } else {
                        hash_count(views.take(i + 1), other)
                    }) by {
                    assert(count_of(before, other) == (if other == 0 {
                        0
                    } else {
                        hash_count(views.take(i as int), other)
                    }));
                }
            }
            i += 1;
        }
        assert(views.take(i as int) =~= views);
        RemoteSentEvidence { unclaimed }
    }
}

/// A message that is being sent.
#[derive(Debug)]
pub struct DeliveryRecord {
    pub summary: ConversationSummary,
    pub message_id_hash: u64,
    pub state: DeliveryState,
}

/// A message that is being sent, as a value.
#[verifier::ext_equal]
pub struct DeliveryRecordView {
    pub summary: SummaryView,
    pub message_id_hash: u64,
    pub state: DeliveryState,
}

impl View for DeliveryRecord {
    type V = DeliveryRecordView;

    open spec fn view(&self) -> DeliveryRecordView {
        DeliveryRecordView {
            summary: self.summary@,
            message_id_hash: self.message_id_hash,
            state: self.state,
        }
    }
}

/// The values of a list of messages that are being sent.
pub open spec fn record_views(list: Seq<DeliveryRecord>) -> Seq<DeliveryRecordView> {
    list.map_values(|record: DeliveryRecord| record@)
}

/// Why it is not known what becomes of the messages that are being sent.
#[derive(Debug, PartialEq, Eq)]
pub enum DeliveryError {
    /// Two records name one message.
    DuplicateState(String),
    /// A message has no record.
    NoState(String),
    /// A record has no message.
    NoSummary(String),
    /// The record is that of a draft.
    DraftState(String),
    /// The record has a marker that stands for no state.
    UnknownMarker { conversation_id: String, marker: String },
    /// The message has no identity.
    NoMessageId(String),
}

/// Why it is not known what becomes of messages, as a value.
#[verifier::ext_equal]
pub enum DeliveryErrorView {
    DuplicateState(Seq<char>),
    NoState(Seq<char>),
    NoSummary(Seq<char>),
    DraftState(Seq<char>),
    UnknownMarker { conversation_id: Seq<char>, marker: Seq<char> },
    NoMessageId(Seq<char>),
}

impl View for DeliveryError {
    type V = DeliveryErrorView;

    open spec fn view(&self) -> DeliveryErrorView {
        match self {
            DeliveryError::DuplicateState(id) => DeliveryErrorView::DuplicateState(id@),
            DeliveryError::NoState(id) => DeliveryErrorView::NoState(id@),
            DeliveryError::NoSummary(id) => DeliveryErrorView::NoSummary(id@),
            DeliveryError::DraftState(id) => DeliveryErrorView::DraftState(id@),
            DeliveryError::UnknownMarker { conversation_id, marker } =>
                DeliveryErrorView::UnknownMarker {
                conversation_id: conversation_id@,
                marker: marker@,
            },
            DeliveryError::NoMessageId(id) => DeliveryErrorView::NoMessageId(id@),
        }
    }
}

impl DeliveryErrorView {
    /// What is reported.
    pub open spec fn message(self) -> Seq<char> {
        match self {
            DeliveryErrorView::DuplicateState(id) => "local message '"@ + id
                + "' has duplicate Camel synchronization state"@,
            DeliveryErrorView::NoState(id) => "local delivery '"@ + id
                + "' has no Camel synchronization state"@,
            DeliveryErrorView::NoSummary(id) => "local delivery synchronization state '"@ + id
                + "' has no message summary"@,
            DeliveryErrorView::DraftState(id) => "local delivery '"@ + id
                + "' contains draft synchronization state"@,
            DeliveryErrorView::UnknownMarker { conversation_id, marker } => "local delivery '"@
                + conversation_id + "': unknown local delivery state '"@ + marker + "'"@,
            DeliveryErrorView::NoMessageId(id) => "local delivery '"@ + id
                + "' has no Message-ID hash"@,
        }
    }
}

impl DeliveryError {
    /// What is reported.
    pub fn message(&self) -> (message: String)
        ensures
            message@ == self@.message(),
    {
        match self {
            DeliveryError::DuplicateState(id) => text::enclosed(
                "local message '",
                id.as_str(),
                "' has duplicate Camel synchronization state",
            ),
            DeliveryError::NoState(id) => text::enclosed(
                "local delivery '",
                id.as_str(),
                "' has no Camel synchronization state",
            ),
            DeliveryError::NoSummary(id) => text::enclosed(
                "local delivery synchronization state '",
                id.as_str(),
                "' has no message summary",
            ),
            DeliveryError::DraftState(id) => text::enclosed(
                "local delivery '",
                id.as_str(),
                "' contains draft synchronization state",
            ),
            DeliveryError::UnknownMarker { conversation_id, marker } => {
                let mut message = text::enclosed(
                    "local delivery '",
                    conversation_id.as_str(),
                    "': unknown local delivery state '",
                );
                message.append(marker.as_str());
                message.append("'");
                message
            },
            DeliveryError::NoMessageId(id) => text::enclosed(
                "local delivery '",
                id.as_str(),
                "' has no Message-ID hash",
            ),
        }
    }
}

/// What a record says of the message that is being sent.
pub open spec fn metadata_of(state: SyncStateView, unmarked: DeliveryState) -> Result<
    (DeliveryState, u64),
    DeliveryErrorView,
> {
    if state.draft_synced || state.draft_superseded {
        Err(DeliveryErrorView::DraftState(state.conversation_id))
    } else {
        match state_of_marker(state.delivery_state, unmarked) {
            None => Err(
                DeliveryErrorView::UnknownMarker {
                    conversation_id: state.conversation_id,
                    marker: state.delivery_state->0,
                },
            ),
            Some(delivery_state) => if state.message_id_hash == 0 {
                Err(DeliveryErrorView::NoMessageId(state.conversation_id))
            } else {
                Ok((delivery_state, state.message_id_hash))
            },
        }
    }
}

fn delivery_metadata(state: &MessageSyncState, unmarked: DeliveryState) -> (result: Result<
    (DeliveryState, u64),
    DeliveryError,
>)
    ensures
        match (result, metadata_of(state@, unmarked)) {
            (Ok(metadata), Ok(expected)) => metadata == expected,
            (Err(error), Err(expected)) => error@ == expected,
            _ => false,
        },
{
    if state.draft_synced || state.draft_superseded {
        return Err(DeliveryError::DraftState(state.conversation_id.0.clone()));
    }
    let marker = match &state.delivery_state {
        Some(marker) => Some(marker.as_str()),
        None => None,
    };
    match DeliveryState::from_marker(marker, unmarked) {
        Err(unknown) => Err(
            DeliveryError::UnknownMarker {
                conversation_id: state.conversation_id.0.clone(),
                marker: unknown.0,
            },
        ),
        Ok(delivery_state) => if state.message_id_hash == 0 {
            Err(DeliveryError::NoMessageId(state.conversation_id.0.clone()))
        } else {
            Ok((delivery_state, state.message_id_hash))
        },
    }
}

/// What a record says of a message in the outbox: one without a marker is queued.
pub fn outbox_delivery_metadata(state: &MessageSyncState) -> (result: Result<
    (DeliveryState, u64),
    DeliveryError,
>)
    ensures
        match (result, metadata_of(state@, DeliveryState::Queued)) {
            (Ok(metadata), Ok(expected)) => metadata == expected,
            (Err(error), Err(expected)) => error@ == expected,
            _ => false,
        },
{
    delivery_metadata(state, DeliveryState::Queued)
}

/// What a record says of a message in the sent folder: one without a marker was
/// delivered.
pub fn sent_delivery_metadata(state: &MessageSyncState) -> (result: Result<
    (DeliveryState, u64),
    DeliveryError,
>)
    ensures
        match (result, metadata_of(state@, DeliveryState::NeedsRemoteCopy)) {
            (Ok(metadata), Ok(expected)) => metadata == expected,
            (Err(error), Err(expected)) => error@ == expected,
            _ => false,
        },
{
    delivery_metadata(state, DeliveryState::NeedsRemoteCopy)
}

/// The messages with what their records say, or the first message of which too little
/// is known.
pub open spec fn matched_records(
    summaries: Seq<SummaryView>,
    states: Seq<SyncStateView>,
    unmarked: DeliveryState,
) -> Result<Seq<DeliveryRecordView>, DeliveryErrorView>
    decreases summaries.len(),
{
    if summaries.len() == 0 {
        Ok(Seq::empty())
    } else {
        match matched_records(summaries.drop_last(), states, unmarked) {
            Err(error) => Err(error),
            Ok(before) => {
                let summary = summaries.last();
                if mail::has_id(summaries.drop_last(), summary.id) {
                    Err(DeliveryErrorView::NoState(summary.id))
                } else {
                    match local::state_of(states, summary.id) {
                        None => Err(DeliveryErrorView::NoState(summary.id)),
                        Some(state) => match metadata_of(state, unmarked) {
                            Err(error) => Err(error),
                            Ok((delivery_state, hash)) => Ok(
                                before.push(
                                    DeliveryRecordView {
                                        summary,
                                        message_id_hash: hash,
                                        state: delivery_state,
                                    },
                                ),
                            ),
                        },
                    }
                }
            },
        }
    }
}

/// The messages with what their records say. Each message must have one record, and
/// each record one message.
pub open spec fn delivery_records_of(
    summaries: Seq<SummaryView>,
    states: Seq<SyncStateView>,
    unmarked: DeliveryState,
) -> Result<Seq<DeliveryRecordView>, DeliveryErrorView> {
    match local::first_duplicate(states) {
        Some(id) => Err(DeliveryErrorView::DuplicateState(id)),
        None => match matched_records(summaries, states, unmarked) {
            Err(error) => Err(error),
            Ok(records) => match local::first_unlisted(states, summaries) {
                Some(id) => Err(DeliveryErrorView::NoSummary(id)),
                None => Ok(records),
            },
        },
    }
}

proof fn lemma_record_error_stays(
    summaries: Seq<SummaryView>,
    states: Seq<SyncStateView>,
    unmarked: DeliveryState,
    n: int,
)
    requires
        0 <= n <= summaries.len(),
        matched_records(summaries.take(n), states, unmarked) is Err,
    ensures
        matched_records(summaries, states, unmarked) == matched_records(
            summaries.take(n),
            states,
            unmarked,
        ),
    decreases summaries.len() - n,
{
    if n < summaries.len() {
        assert(summaries.take(n + 1).drop_last() =~= summaries.take(n));
        lemma_record_error_stays(summaries, states, unmarked, n + 1);
    } else {
        assert(summaries.take(n) =~= summaries);
    }
}

fn delivery_records(
    summaries: Vec<ConversationSummary>,
    states: &Vec<MessageSyncState>,
    unmarked: DeliveryState,
) -> (result: Result<Vec<DeliveryRecord>, DeliveryError>)
    ensures
        match (
            result,
            delivery_records_of(
                mail::summaries(summaries@),
                camel::state_views(states@),
                unmarked,
            ),
        ) {
            (Ok(records), Ok(expected)) => record_views(records@) == expected,
            (Err(error), Err(expected)) => error@ == expected,
            _ => false,
        },
{
    let ghost all = mail::summaries(summaries@);
    let ghost known = camel::state_views(states@);
    if let Some(id) = local::find_duplicate(states) {
        return Err(DeliveryError::DuplicateState(id.0));
    }
    let mut records: Vec<DeliveryRecord> = Vec::new();
    let mut seen: Vec<ConversationSummary> = Vec::new();
    let length: usize = summaries.len();
    let mut i: usize = 0;
    assert(all.take(0) =~= Seq::empty());
    assert(record_views(records@) =~= Seq::empty());
    while i < length
        invariant
            i <= length,
            length == summaries@.len(),
            all == mail::summaries(summaries@),
            known == camel::state_views(states@),
            local::first_duplicate(known) is None,
            mail::summaries(seen@) == all.take(i as int),
            matched_records(all.take(i as int), known, unmarked) == Ok::<
                Seq<DeliveryRecordView>,
                DeliveryErrorView,
            >(record_views(records@)),
        decreases length - i,
    {
        let ghost before = record_views(records@);
        proof {
            assert(all.take(i + 1).drop_last() =~= all.take(i as int));
            assert(all.take(i + 1).last() == summaries@[i as int]@);
        }
        let summary = &summaries[i];
        let found = if mail::contains_id(&seen, &summary.id) {
            None
        } else {
            local::find_state(states, &summary.id)
        };
        match found {
            None => {
                proof {
                    lemma_record_error_stays(all, known, unmarked, i + 1);
                }
                return Err(DeliveryError::NoState(summary.id.0.clone()));
            },
            Some(at) => match delivery_metadata(&states[at], unmarked) {
                Err(error) => {
                    proof {
                        lemma_record_error_stays(all, known, unmarked, i + 1);
                    }
                    return Err(error);
                },
                Ok((state, message_id_hash)) => {
                    let record = DeliveryRecord { summary: summary.clone(), message_id_hash, state };
                    let ghost value = record@;
                    records.push(record);
                    assert(record_views(records@) =~= before.push(value));
                },
            },
        }
        let ghost listed = mail::summaries(seen@);
        seen.push(summary.clone());
        proof {
            assert(mail::summaries(seen@) =~= listed.push(all[i as int]));
            assert(all.take(i + 1) =~= listed.push(all[i as int]));
        }
        i += 1;
    }
    assert(all.take(i as int) =~= all);
    if let Some(id) = local::find_unlisted(states, &summaries) {
        return Err(DeliveryError::NoSummary(id.0));
    }
    Ok(records)
}

/// The messages of the outbox with what their records say.
pub fn outbox_delivery_records(
    summaries: Vec<ConversationSummary>,
    states: &Vec<MessageSyncState>,
) -> (result: Result<Vec<DeliveryRecord>, DeliveryError>)
    ensures
        match (
            result,
            delivery_records_of(
                mail::summaries(summaries@),
                camel::state_views(states@),
                DeliveryState::Queued,
            ),
        ) {
            (Ok(records), Ok(expected)) => record_views(records@) == expected,
            (Err(error), Err(expected)) => error@ == expected,
            _ => false,
        },
{
    delivery_records(summaries, states, DeliveryState::Queued)
}

/// The messages of the sent folder with what their records say.
pub fn sent_delivery_records(
    summaries: Vec<ConversationSummary>,
    states: &Vec<MessageSyncState>,
) -> (result: Result<Vec<DeliveryRecord>, DeliveryError>)
    ensures
        match (
            result,
            delivery_records_of(
                mail::summaries(summaries@),
                camel::state_views(states@),
                DeliveryState::NeedsRemoteCopy,
            ),
        ) {
            (Ok(records), Ok(expected)) => record_views(records@) == expected,
            (Err(error), Err(expected)) => error@ == expected,
            _ => false,
        },
{
    delivery_records(summaries, states, DeliveryState::NeedsRemoteCopy)
}

/// The names in a list without those in `ids`.
pub open spec fn without_ids(list: Seq<SummaryView>, ids: Seq<Seq<char>>) -> Seq<SummaryView>
    decreases list.len(),
{
    if list.len() == 0 {
        Seq::empty()
    } else if ids.contains(list.last().id) {
        without_ids(list.drop_last(), ids)
    } else {
        without_ids(list.drop_last(), ids).push(list.last())
    }
}

fn retain_others(list: Vec<ConversationSummary>, ids: &Vec<ConversationId>) -> (kept: Vec<
    ConversationSummary,
>)
    ensures
        mail::summaries(kept@) == without_ids(mail::summaries(list@), mail::id_views(ids@)),
{
    let ghost all = mail::summaries(list@);
    let mut kept: Vec<ConversationSummary> = Vec::new();
    let mut i: usize = 0;
    let length: usize = list.len();
    assert(all.take(0) =~= Seq::empty());
    assert(mail::summaries(kept@) =~= Seq::empty());
    while i < length
        invariant
            i <= length,
            length == list@.len(),
            all == mail::summaries(list@),
            mail::summaries(kept@) == without_ids(all.take(i as int), mail::id_views(ids@)),
        decreases length - i,
    {
        let ghost before = mail::summaries(kept@);
        proof {
            assert(all.take(i + 1).drop_last() =~= all.take(i as int));
            assert(all.take(i + 1).last() == list@[i as int]@);
        }
        if !mail::lists_id(ids, &list[i].id) {
            kept.push(list[i].clone());
            assert(mail::summaries(kept@) =~= before.push(list@[i as int]@));
        }
        i += 1;
    }
    assert(all.take(i as int) =~= all);
    kept
}

/// The local side of the outbox and of the sent folder.
#[derive(Debug)]
pub struct CachedDeliveryProjection {
    pub outbox: Vec<ConversationSummary>,
    pub sent: Vec<ConversationSummary>,
}

/// Whether the user sees a message of that state in the outbox.
pub open spec fn waits(state: DeliveryState) -> bool {
    state is Queued || state is SubmissionUncertain
}

/// The messages that wait, where `waiting`, or those that were delivered.
pub open spec fn placed_summaries(records: Seq<DeliveryRecordView>, waiting: bool) -> Seq<
    SummaryView,
>
    decreases records.len(),
{
    if records.len() == 0 {
        Seq::empty()
    } else if waits(records.last().state) == waiting {
        placed_summaries(records.drop_last(), waiting).push(records.last().summary)
    } else {
        placed_summaries(records.drop_last(), waiting)
    }
}

/// Parts what the outbox folder holds by whether it was delivered, whatever became of
/// an interrupted move.
pub fn project_outbox(records: Vec<DeliveryRecord>) -> (projection: CachedDeliveryProjection)
    ensures
        mail::summaries(projection.outbox@) == placed_summaries(record_views(records@), true),
        mail::summaries(projection.sent@) == placed_summaries(record_views(records@), false),
{
    let ghost all = record_views(records@);
    let mut outbox: Vec<ConversationSummary> = Vec::new();
    let mut sent: Vec<ConversationSummary> = Vec::new();
    assert(all.take(0) =~= Seq::empty());
    assert(mail::summaries(outbox@) =~= Seq::empty());
    assert(mail::summaries(sent@) =~= Seq::empty());
    for record in it: records
        invariant
            all == record_views(it.seq()),
            mail::summaries(outbox@) == placed_summaries(all.take(it.index()), true),
            mail::summaries(sent@) == placed_summaries(all.take(it.index()), false),
    {
        let ghost outbox_before = mail::summaries(outbox@);
        let ghost sent_before = mail::summaries(sent@);
        proof {
            assert(all.take(it.index() + 1).drop_last() =~= all.take(it.index()));
            assert(all.take(it.index() + 1).last() == record@);
        }
        let ghost summary = record.summary@;
        if record.state.belongs_in_outbox() {
            outbox.push(record.summary);
            assert(mail::summaries(outbox@) =~= outbox_before.push(summary));
        } else {
            sent.push(record.summary);
            assert(mail::summaries(sent@) =~= sent_before.push(summary));
        }
    }
    assert(all.take(all.len() as int) =~= all);
    CachedDeliveryProjection { outbox, sent }
}

/// The messages of a list of records.
pub open spec fn record_summaries(records: Seq<DeliveryRecordView>) -> Seq<SummaryView> {
    records.map_values(|record: DeliveryRecordView| record.summary)
}

/// The messages of a list of records.
pub fn summaries_of(records: Vec<DeliveryRecord>) -> (summaries: Vec<ConversationSummary>)
    ensures
        mail::summaries(summaries@) == record_summaries(record_views(records@)),
{
    let ghost all = record_views(records@);
    let mut summaries: Vec<ConversationSummary> = Vec::new();
    assert(mail::summaries(summaries@) =~= record_summaries(all.take(0)));
    for record in it: records
        invariant
            all == record_views(it.seq()),
            mail::summaries(summaries@) == record_summaries(all.take(it.index())),
    {
        let ghost before = mail::summaries(summaries@);
        let ghost summary = record.summary@;
        summaries.push(record.summary);
        proof {
            assert(mail::summaries(summaries@) =~= before.push(summary));
            assert(record_summaries(all.take(it.index() + 1)) =~= before.push(summary));
        }
    }
    assert(all.take(all.len() as int) =~= all);
    summaries
}

/// Whether a message that waits is in the outbox, or the first record that says too
/// little.
pub open spec fn outbox_is_used(states: Seq<SyncStateView>) -> Result<bool, DeliveryErrorView>
    decreases states.len(),
{
    if states.len() == 0 {
        Ok(false)
    } else {
        match outbox_is_used(states.drop_last()) {
            Err(error) => Err(error),
            Ok(true) => Ok(true),
            Ok(false) => match metadata_of(states.last(), DeliveryState::Queued) {
                Err(error) => Err(error),
                Ok((state, _)) => Ok(waits(state)),
            },
        }
    }
}

proof fn lemma_outbox_use_is_settled(states: Seq<SyncStateView>, n: int)
    requires
        0 <= n <= states.len(),
        outbox_is_used(states.take(n)) != Ok::<bool, DeliveryErrorView>(false),
    ensures
        outbox_is_used(states) == outbox_is_used(states.take(n)),
    decreases states.len() - n,
{
    if n < states.len() {
        assert(states.take(n + 1).drop_last() =~= states.take(n));
        lemma_outbox_use_is_settled(states, n + 1);
    } else {
        assert(states.take(n) =~= states);
    }
}

/// Whether the outbox has to be shown.
pub fn has_outbox_messages(states: &Vec<MessageSyncState>) -> (result: Result<bool, DeliveryError>)
    ensures
        match (result, outbox_is_used(camel::state_views(states@))) {
            (Ok(used), Ok(expected)) => used == expected,
            (Err(error), Err(expected)) => error@ == expected,
            _ => false,
        },
{
    let ghost all = camel::state_views(states@);
    let mut i: usize = 0;
    assert(all.take(0) =~= Seq::empty());
    while i < states.len()
        invariant
            i <= states.len(),
            all == camel::state_views(states@),
            outbox_is_used(all.take(i as int)) == Ok::<bool, DeliveryErrorView>(false),
        decreases states.len() - i,
    {
        proof {
            assert(all.take(i + 1).drop_last() =~= all.take(i as int));
            assert(all.take(i + 1).last() == states@[i as int]@);
        }
        match outbox_delivery_metadata(&states[i]) {
            Err(error) => {
                proof {
                    lemma_outbox_use_is_settled(all, i + 1);
                }
                return Err(error);
            },
            Ok((state, _)) => {
                if state.belongs_in_outbox() {
                    proof {
                        lemma_outbox_use_is_settled(all, i + 1);
                    }
                    return Ok(true);
                }
            },
        }
        i += 1;
    }
    assert(all.take(i as int) =~= all);
    Ok(false)
}

/// What is left of the outbox, and which messages were delivered.
#[derive(Debug)]
pub struct OutboxSubmission {
    pub outbox: Vec<ConversationSummary>,
    pub delivered_message_id_hashes: HashSet<u64>,
}

/// What has to be done with the messages of the outbox.
#[derive(Debug)]
pub struct SubmissionPlan {
    /// Messages that were delivered and have to be moved to the sent folder.
    pub finished: Vec<ConversationId>,
    /// Messages that have to be submitted.
    pub submissions: Vec<ConversationId>,
    /// What has been delivered once all of that is done.
    pub delivered_message_id_hashes: HashSet<u64>,
}

/// The messages of one state.
pub open spec fn ids_to_finish(records: Seq<DeliveryRecordView>) -> Seq<Seq<char>>
    decreases records.len(),
{
    if records.len() == 0 {
        Seq::empty()
    } else if !waits(records.last().state) {
        ids_to_finish(records.drop_last()).push(records.last().summary.id)
    } else {
        ids_to_finish(records.drop_last())
    }
}

/// The messages that were never handed to the transport.
pub open spec fn ids_to_submit(records: Seq<DeliveryRecordView>) -> Seq<Seq<char>>
    decreases records.len(),
{
    if records.len() == 0 {
        Seq::empty()
    } else if records.last().state is Queued {
        ids_to_submit(records.drop_last()).push(records.last().summary.id)
    } else {
        ids_to_submit(records.drop_last())
    }
}

/// What has been delivered once the messages are finished and submitted.
pub open spec fn hashes_to_deliver(records: Seq<DeliveryRecordView>) -> Set<u64>
    decreases records.len(),
{
    if records.len() == 0 {
        Set::empty()
    } else if records.last().state is SubmissionUncertain {
        hashes_to_deliver(records.drop_last())
    } else {
        hashes_to_deliver(records.drop_last()).insert(records.last().message_id_hash)
    }
}

/// Decides what has to be done with the messages of the outbox. A message that was
/// handed to the transport before is not handed to it again.
pub fn plan_submission(records: &Vec<DeliveryRecord>) -> (plan: SubmissionPlan)
    ensures
        mail::id_views(plan.finished@) == ids_to_finish(record_views(records@)),
        mail::id_views(plan.submissions@) == ids_to_submit(record_views(records@)),
        plan.delivered_message_id_hashes@ == hashes_to_deliver(record_views(records@)),
{
    let ghost all = record_views(records@);
    let mut finished: Vec<ConversationId> = Vec::new();
    let mut submissions: Vec<ConversationId> = Vec::new();
    let mut delivered: HashSet<u64> = HashSet::new();
    let mut i: usize = 0;
    assert(all.take(0) =~= Seq::empty());
    assert(mail::id_views(finished@) =~= Seq::empty());
    assert(mail::id_views(submissions@) =~= Seq::empty());
    while i < records.len()
        invariant
            i <= records.len(),
            all == record_views(records@),
            mail::id_views(finished@) == ids_to_finish(all.take(i as int)),
            mail::id_views(submissions@) == ids_to_submit(all.take(i as int)),
            delivered@ == hashes_to_deliver(all.take(i as int)),
        decreases records.len() - i,
    {
        let record = &records[i];
        let ghost finished_before = mail::id_views(finished@);
        let ghost submissions_before = mail::id_views(submissions@);
        proof {
            assert(all.take(i + 1).drop_last() =~= all.take(i as int));
            assert(all.take(i + 1).last() == records@[i as int]@);
        }
        match record.state {
            DeliveryState::ProviderCopyExpected | DeliveryState::NeedsRemoteCopy => {
                let _ = delivered.insert(record.message_id_hash);
                finished.push(record.summary.id.clone());
                assert(mail::id_views(finished@) =~= finished_before.push(record.summary@.id));
            },
            DeliveryState::SubmissionUncertain => {},
            DeliveryState::Queued => {
                let _ = delivered.insert(record.message_id_hash);
                submissions.push(record.summary.id.clone());
                assert(mail::id_views(submissions@) =~= submissions_before.push(
                    record.summary@.id,
                ));
            },
        }
        i += 1;
    }
    assert(all.take(i as int) =~= all);
    SubmissionPlan { finished, submissions, delivered_message_id_hashes: delivered }
}

/// Whether each record is that of another message.
pub open spec fn distinct_records(records: Seq<DeliveryRecordView>) -> bool {
    forall|i: int, j: int|
        #![trigger records[i], records[j]]
        0 <= i < j < records.len() ==> records[i].summary.id != records[j].summary.id
}

/// The records of a folder are those of different messages.
pub proof fn lemma_delivery_records_are_distinct(
    summaries: Seq<SummaryView>,
    states: Seq<SyncStateView>,
    unmarked: DeliveryState,
)
    requires
        delivery_records_of(summaries, states, unmarked) is Ok,
    ensures
        record_summaries(delivery_records_of(summaries, states, unmarked)->Ok_0) == summaries,
        distinct_records(delivery_records_of(summaries, states, unmarked)->Ok_0),
{
    lemma_matched_records(summaries, states, unmarked);
}

proof fn lemma_matched_records(
    summaries: Seq<SummaryView>,
    states: Seq<SyncStateView>,
    unmarked: DeliveryState,
)
    requires
        matched_records(summaries, states, unmarked) is Ok,
    ensures
        record_summaries(matched_records(summaries, states, unmarked)->Ok_0) == summaries,
        distinct_records(matched_records(summaries, states, unmarked)->Ok_0),
    decreases summaries.len(),
{
    let records = matched_records(summaries, states, unmarked)->Ok_0;
    if summaries.len() == 0 {
        assert(record_summaries(records) =~= summaries);
    } else {
        lemma_matched_records(summaries.drop_last(), states, unmarked);
        let before = matched_records(summaries.drop_last(), states, unmarked)->Ok_0;
        assert(record_summaries(before).len() == before.len());
        assert(records.drop_last() =~= before);
        assert(record_summaries(records) =~= record_summaries(before).push(summaries.last()));
        assert(summaries =~= summaries.drop_last().push(summaries.last()));
        assert forall|i: int, j: int|
            #![trigger records[i], records[j]]
            0 <= i < j < records.len() implies records[i].summary.id != records[j].summary.id by {
            assert(records[i] == before[i]);
            assert(record_summaries(before)[i] == summaries.drop_last()[i]);
            if j < before.len() {
                assert(records[j] == before[j]);
            } else {
                assert(records[j].summary == summaries.last());
                assert(summaries.drop_last()[i].id == records[i].summary.id);
            }
        }
    }
}

proof fn lemma_ids_to_submit_bound(records: Seq<DeliveryRecordView>, id: Seq<char>)
    requires
        ids_to_submit(records).contains(id),
    ensures
        exists|i: int|
            0 <= i < records.len() && (#[trigger] records[i]).summary.id == id
                && records[i].state is Queued,
    decreases records.len(),
{
    if records.len() > 0 {
        let before = records.drop_last();
        let k = choose|k: int| 0 <= k < ids_to_submit(records).len() && ids_to_submit(records)[k] == id;
        if records.last().state is Queued && k == ids_to_submit(before).len() {
            assert(records[records.len() - 1].summary.id == id);
        } else {
            assert(ids_to_submit(before)[k] == id);
            lemma_ids_to_submit_bound(before, id);
            let i = choose|i: int|
                0 <= i < before.len() && (#[trigger] before[i]).summary.id == id
                    && before[i].state is Queued;
            assert(records[i] == before[i]);
        }
    }
}

/// A message whose submission was started or acknowledged is not submitted again.
pub proof fn lemma_started_submission_is_not_repeated(records: Seq<DeliveryRecordView>, i: int)
    requires
        distinct_records(records),
        0 <= i < records.len(),
        records[i].state !is Queued,
    ensures
        !ids_to_submit(records).contains(records[i].summary.id),
{
    if ids_to_submit(records).contains(records[i].summary.id) {
        lemma_ids_to_submit_bound(records, records[i].summary.id);
        let k = choose|k: int|
            0 <= k < records.len() && (#[trigger] records[k]).summary.id == records[i].summary.id
                && records[k].state is Queued;
        assert(records[i].summary.id == records[k].summary.id);
    }
}

/// What has to be done next to submit one message.
#[derive(Debug, Clone, Copy, PartialEq, Eq, Structural)]
pub enum SubmissionStep {
    /// Mark the message as being submitted.
    Begin,
    /// Hand the message to the transport.
    Send,
    /// Mark the message as delivered.
    Complete { provider_saved_copy: bool },
    /// Make sure that the sent folder exists.
    PrepareSent { provider_saved_copy: bool },
    /// Move the message to the sent folder.
    Move { provider_saved_copy: bool },
    /// The message was submitted.
    Submitted,
    /// A step failed.
    Failed,
}

/// What came of a step.
#[derive(Debug, Clone, Copy, PartialEq, Eq, Structural)]
pub enum StepOutcome {
    Succeeded,
    /// The transport took the message.
    Sent { provider_saved_copy: bool },
    Failed,
}

impl SubmissionStep {
    /// What has to be done after that.
    pub open spec fn after(self, outcome: StepOutcome) -> SubmissionStep {
        match (self, outcome) {
            (SubmissionStep::Submitted, _) => SubmissionStep::Submitted,
            (_, StepOutcome::Failed) => SubmissionStep::Failed,
            (SubmissionStep::Begin, StepOutcome::Succeeded) => SubmissionStep::Send,
            (SubmissionStep::Send, StepOutcome::Sent { provider_saved_copy }) =>
                SubmissionStep::Complete { provider_saved_copy },
            (SubmissionStep::Complete { provider_saved_copy }, StepOutcome::Succeeded) =>
                SubmissionStep::PrepareSent { provider_saved_copy },
            (SubmissionStep::PrepareSent { provider_saved_copy }, StepOutcome::Succeeded) =>
                SubmissionStep::Move { provider_saved_copy },
            (SubmissionStep::Move { .. }, StepOutcome::Succeeded) => SubmissionStep::Submitted,
            _ => SubmissionStep::Failed,
        }
    }

    /// What has to be done after that.
    pub fn next_step(self, outcome: StepOutcome) -> (next: SubmissionStep)
        ensures
            next == self.after(outcome),
    {
        match (self, outcome) {
            (SubmissionStep::Submitted, _) => SubmissionStep::Submitted,
            (_, StepOutcome::Failed) => SubmissionStep::Failed,
            (SubmissionStep::Begin, StepOutcome::Succeeded) => SubmissionStep::Send,
            (SubmissionStep::Send, StepOutcome::Sent { provider_saved_copy }) =>
                SubmissionStep::Complete { provider_saved_copy },
            (SubmissionStep::Complete { provider_saved_copy }, StepOutcome::Succeeded) =>
                SubmissionStep::PrepareSent { provider_saved_copy },
            (SubmissionStep::PrepareSent { provider_saved_copy }, StepOutcome::Succeeded) =>
                SubmissionStep::Move { provider_saved_copy },
            (SubmissionStep::Move { .. }, StepOutcome::Succeeded) => SubmissionStep::Submitted,
            _ => SubmissionStep::Failed,
        }
    }

    /// The marker that the message has while that step is done.
    pub open spec fn marker(self) -> Option<Seq<char>> {
        match self {
            SubmissionStep::Begin => None,
            SubmissionStep::Send => Some(camel::DELIVERY_SUBMITTING@),
            SubmissionStep::Complete { .. } => Some(camel::DELIVERY_SUBMITTING@),
            SubmissionStep::PrepareSent { provider_saved_copy } => Some(
                camel::delivered_marker(provider_saved_copy),
            ),
            SubmissionStep::Move { provider_saved_copy } => Some(
                camel::delivered_marker(provider_saved_copy),
            ),
            _ => None,
        }
    }
}

/// The transport gets a message only once the message is marked: where a later step is
/// interrupted, the message no longer counts as queued.
pub proof fn lemma_interrupted_submission_is_not_queued(step: SubmissionStep)
    requires
        step is Send || step is Complete || step is PrepareSent || step is Move,
    ensures
        state_of_marker(step.marker(), DeliveryState::Queued) is Some,
        state_of_marker(step.marker(), DeliveryState::Queued) != Some(DeliveryState::Queued),
{
    lemma_delivery_marker_is_delivery_evidence(true, DeliveryState::Queued);
    lemma_delivery_marker_is_delivery_evidence(false, DeliveryState::Queued);
}

/// The copies at the provider that are left unmatched behind `records`.
pub open spec fn counts_after(
    records: Seq<DeliveryRecordView>,
    counts: Map<u64, usize>,
) -> Map<u64, usize>
    decreases records.len(),
{
    if records.len() == 0 {
        counts
    } else {
        claimed(
            records.last().state,
            records.last().message_id_hash,
            counts_after(records.drop_last(), counts),
        )
    }
}

/// Where the last of `records` belongs.
pub open spec fn last_placement(
    records: Seq<DeliveryRecordView>,
    counts: Map<u64, usize>,
) -> DeliveryPlacement {
    placement(
        records.last().state,
        records.last().message_id_hash,
        counts_after(records.drop_last(), counts),
    )
}

/// The messages of which the provider has a copy.
pub open spec fn retired_ids(records: Seq<DeliveryRecordView>, counts: Map<u64, usize>) -> Seq<
    Seq<char>,
>
    decreases records.len(),
{
    if records.len() == 0 {
        Seq::empty()
    } else if last_placement(records, counts) is Retire {
        retired_ids(records.drop_last(), counts).push(records.last().summary.id)
    } else {
        retired_ids(records.drop_last(), counts)
    }
}

/// The identities of the messages of which the provider has a copy.
pub open spec fn retired_hashes(
    records: Seq<DeliveryRecordView>,
    counts: Map<u64, usize>,
) -> Set<u64>
    decreases records.len(),
{
    if records.len() == 0 {
        Set::empty()
    } else if last_placement(records, counts) is Retire {
        retired_hashes(records.drop_last(), counts).insert(records.last().message_id_hash)
    } else {
        retired_hashes(records.drop_last(), counts)
    }
}

/// How many local copies of the message `hash` are retired.
pub open spec fn retired_count(
    records: Seq<DeliveryRecordView>,
    counts: Map<u64, usize>,
    hash: u64,
) -> nat
    decreases records.len(),
{
    if records.len() == 0 {
        0
    } else if last_placement(records, counts) is Retire && records.last().message_id_hash == hash {
        retired_count(records.drop_last(), counts, hash) + 1
    } else {
        retired_count(records.drop_last(), counts, hash)
    }
}

/// Each copy at the provider retires one local copy: as many are retired as copies are
/// no longer unmatched.
pub proof fn lemma_each_remote_copy_retires_one_local_copy(
    records: Seq<DeliveryRecordView>,
    counts: Map<u64, usize>,
    hash: u64,
)
    ensures
        retired_count(records, counts, hash) + count_of(counts_after(records, counts), hash)
            == count_of(counts, hash),
    decreases records.len(),
{
    if records.len() > 0 {
        lemma_each_remote_copy_retires_one_local_copy(records.drop_last(), counts, hash);
    }
}

proof fn lemma_retired_id(records: Seq<DeliveryRecordView>, counts: Map<u64, usize>, id: Seq<char>)
    requires
        retired_ids(records, counts).contains(id),
    ensures
        exists|i: int|
            0 <= i < records.len() && (#[trigger] records[i]).summary.id == id
                && records[i].state !is Queued,
    decreases records.len(),
{
    if records.len() > 0 {
        let before = records.drop_last();
        let ids = retired_ids(records, counts);
        let k = choose|k: int| 0 <= k < ids.len() && ids[k] == id;
        if last_placement(records, counts) is Retire && k == retired_ids(before, counts).len() {
            assert(records[records.len() - 1].summary.id == id);
        } else {
            assert(retired_ids(before, counts)[k] == id);
            lemma_retired_id(before, counts, id);
            let i = choose|i: int|
                0 <= i < before.len() && (#[trigger] before[i]).summary.id == id
                    && before[i].state !is Queued;
            assert(records[i] == before[i]);
        }
    }
}

/// A message that was not submitted stays, whatever copies the provider has.
pub proof fn lemma_queued_delivery_is_never_retired(
    records: Seq<DeliveryRecordView>,
    counts: Map<u64, usize>,
    i: int,
)
    requires
        distinct_records(records),
        0 <= i < records.len(),
        records[i].state is Queued,
    ensures
        !retired_ids(records, counts).contains(records[i].summary.id),
{
    let id = records[i].summary.id;
    if retired_ids(records, counts).contains(id) {
        lemma_retired_id(records, counts, id);
        let k = choose|k: int|
            0 <= k < records.len() && (#[trigger] records[k]).summary.id == id
                && records[k].state !is Queued;
        assert(records[i].summary.id == records[k].summary.id);
    }
}

impl OutboxSubmission {
    /// Finds the messages of the outbox of which the provider has a copy: they have to be
    /// deleted, and they were delivered.
    pub fn resolve(
        &mut self,
        records: &Vec<DeliveryRecord>,
        evidence: &mut RemoteSentEvidence,
    ) -> (retired: Vec<ConversationId>)
        ensures
            mail::id_views(retired@) == retired_ids(
                record_views(records@),
                old(evidence).unclaimed@,
            ),
            final(evidence).unclaimed@ == counts_after(
                record_views(records@),
                old(evidence).unclaimed@,
            ),
            final(self).delivered_message_id_hashes@ == old(
                self,
            ).delivered_message_id_hashes@.union(
                retired_hashes(record_views(records@), old(evidence).unclaimed@),
            ),
            mail::summaries(final(self).outbox@) == without_ids(
                mail::summaries(old(self).outbox@),
                retired_ids(record_views(records@), old(evidence).unclaimed@),
            ),
    {
        let ghost all = record_views(records@);
        let ghost counts = evidence.unclaimed@;
        let ghost delivered = self.delivered_message_id_hashes@;
        let ghost outbox = mail::summaries(self.outbox@);
        let mut retired: Vec<ConversationId> = Vec::new();
        let mut i: usize = 0;
        assert(all.take(0) =~= Seq::empty());
        assert(mail::id_views(retired@) =~= Seq::empty());
        assert(delivered.union(Set::empty()) =~= delivered);
        while i < records.len()
            invariant
                i <= records.len(),
                all == record_views(records@),
                mail::summaries(self.outbox@) == outbox,
                mail::id_views(retired@) == retired_ids(all.take(i as int), counts),
                evidence.unclaimed@ == counts_after(all.take(i as int), counts),
                self.delivered_message_id_hashes@ == delivered.union(
                    retired_hashes(all.take(i as int), counts),
                ),
            decreases records.len() - i,
        {
            let record = &records[i];
            let ghost ids_before = mail::id_views(retired@);
            let ghost hashes_before = retired_hashes(all.take(i as int), counts);
            proof {
                assert(all.take(i + 1).drop_last() =~= all.take(i as int));
                assert(all.take(i + 1).last() == records@[i as int]@);
            }
            if classify_delivery(record.state, record.message_id_hash, &mut evidence.unclaimed)
                == DeliveryPlacement::Retire {
                retired.push(record.summary.id.clone());
                let _ = self.delivered_message_id_hashes.insert(record.message_id_hash);
                proof {
                    assert(mail::id_views(retired@) =~= ids_before.push(record.summary@.id));
                    assert(delivered.union(hashes_before).insert(record.message_id_hash)
                        =~= delivered.union(hashes_before.insert(record.message_id_hash)));
                }
            }
            i += 1;
        }
        assert(all.take(i as int) =~= all);
        let mut summaries: Vec<ConversationSummary> = Vec::new();
        std::mem::swap(&mut summaries, &mut self.outbox);
        self.outbox = retain_others(summaries, &retired);
        retired
    }
}

/// What has to be done with a message of the sent folder.
#[derive(Debug, PartialEq, Eq)]
pub enum SentStep {
    /// The provider has a copy: delete the message.
    Retire(ConversationId),
    /// Store a copy at the provider, then delete the message.
    Upload(ConversationId),
}

/// What has to be done with a message of the sent folder, as a value.
#[verifier::ext_equal]
pub enum SentStepView {
    Retire(Seq<char>),
    Upload(Seq<char>),
}

impl View for SentStep {
    type V = SentStepView;

    open spec fn view(&self) -> SentStepView {
        match self {
            SentStep::Retire(id) => SentStepView::Retire(id@),
            SentStep::Upload(id) => SentStepView::Upload(id@),
        }
    }
}

/// The values of a list of steps.
pub open spec fn sent_step_views(list: Seq<SentStep>) -> Seq<SentStepView> {
    list.map_values(|step: SentStep| step@)
}

/// What has to be done with the messages of the sent folder.
#[derive(Debug)]
pub struct SentReconciliation {
    pub steps: Vec<SentStep>,
    pub uploaded: usize,
    pub awaiting_provider: usize,
}

/// The steps for the messages of the sent folder. Without a sent folder at the provider
/// (`remote`), nothing is uploaded.
pub open spec fn sent_steps(
    records: Seq<DeliveryRecordView>,
    counts: Map<u64, usize>,
    remote: bool,
) -> Seq<SentStepView>
    decreases records.len(),
{
    if records.len() == 0 {
        Seq::empty()
    } else {
        let before = sent_steps(records.drop_last(), counts, remote);
        let last = records.last();
        if last_placement(records, counts) is Retire {
            before.push(SentStepView::Retire(last.summary.id))
        } else if last.state is NeedsRemoteCopy && remote {
            before.push(SentStepView::Upload(last.summary.id))
        } else {
            before
        }
    }
}

/// How many messages of the sent folder are uploaded.
pub open spec fn upload_count(
    records: Seq<DeliveryRecordView>,
    counts: Map<u64, usize>,
    remote: bool,
) -> nat
    decreases records.len(),
{
    if records.len() == 0 {
        0
    } else {
        let before = upload_count(records.drop_last(), counts, remote);
        if last_placement(records, counts) !is Retire && records.last().state is NeedsRemoteCopy
            && remote {
            before + 1
        } else {
            before
        }
    }
}

/// How many messages of the sent folder wait for a copy that the provider stores.
pub open spec fn awaiting_count(
    records: Seq<DeliveryRecordView>,
    counts: Map<u64, usize>,
    remote: bool,
) -> nat
    decreases records.len(),
{
    if records.len() == 0 {
        0
    } else {
        let before = awaiting_count(records.drop_last(), counts, remote);
        if last_placement(records, counts) !is Retire && records.last().state
            is ProviderCopyExpected && remote {
            before + 1
        } else {
            before
        }
    }
}

/// The identities of all of `records`.
pub open spec fn record_hashes(records: Seq<DeliveryRecordView>) -> Set<u64>
    decreases records.len(),
{
    if records.len() == 0 {
        Set::empty()
    } else {
        record_hashes(records.drop_last()).insert(records.last().message_id_hash)
    }
}

impl OutboxSubmission {
    /// Decides what has to be done with the messages of the sent folder: they were all
    /// delivered.
    pub fn reconcile_sent(
        &mut self,
        records: &Vec<DeliveryRecord>,
        evidence: &mut RemoteSentEvidence,
        remote: bool,
    ) -> (reconciliation: SentReconciliation)
        ensures
            sent_step_views(reconciliation.steps@) == sent_steps(
                record_views(records@),
                old(evidence).unclaimed@,
                remote,
            ),
            reconciliation.uploaded == upload_count(
                record_views(records@),
                old(evidence).unclaimed@,
                remote,
            ),
            reconciliation.awaiting_provider == awaiting_count(
                record_views(records@),
                old(evidence).unclaimed@,
                remote,
            ),
            final(evidence).unclaimed@ == counts_after(
                record_views(records@),
                old(evidence).unclaimed@,
            ),
            final(self).delivered_message_id_hashes@ == old(
                self,
            ).delivered_message_id_hashes@.union(record_hashes(record_views(records@))),
            final(self).outbox == old(self).outbox,
    {
        let ghost all = record_views(records@);
        let ghost counts = evidence.unclaimed@;
        let ghost delivered = self.delivered_message_id_hashes@;
        let ghost outbox = self.outbox;
        let mut steps: Vec<SentStep> = Vec::new();
        let mut uploaded: usize = 0;
        let mut awaiting_provider: usize = 0;
        let length: usize = records.len();
        let mut i: usize = 0;
        assert(all.take(0) =~= Seq::empty());
        assert(sent_step_views(steps@) =~= Seq::empty());
        assert(delivered.union(Set::empty()) =~= delivered);
        while i < length
            invariant
                i <= length,
                length == records@.len(),
                uploaded <= i,
                awaiting_provider <= i,
                all == record_views(records@),
                self.outbox == outbox,
                sent_step_views(steps@) == sent_steps(all.take(i as int), counts, remote),
                uploaded == upload_count(all.take(i as int), counts, remote),
                awaiting_provider == awaiting_count(all.take(i as int), counts, remote),
                evidence.unclaimed@ == counts_after(all.take(i as int), counts),
                self.delivered_message_id_hashes@ == delivered.union(
                    record_hashes(all.take(i as int)),
                ),
            decreases length - i,
        {
            let record = &records[i];
            let ghost before = sent_step_views(steps@);
            let ghost hashes_before = record_hashes(all.take(i as int));
            proof {
                assert(all.take(i + 1).drop_last() =~= all.take(i as int));
                assert(all.take(i + 1).last() == records@[i as int]@);
                assert(delivered.union(hashes_before).insert(record.message_id_hash)
                    =~= delivered.union(hashes_before.insert(record.message_id_hash)));
            }
            let _ = self.delivered_message_id_hashes.insert(record.message_id_hash);
            if classify_delivery(record.state, record.message_id_hash, &mut evidence.unclaimed)
                == DeliveryPlacement::Retire {
                let step = SentStep::Retire(record.summary.id.clone());
                let ghost value = step@;
                steps.push(step);
                assert(sent_step_views(steps@) =~= before.push(value));
            } else if record.state == DeliveryState::NeedsRemoteCopy && remote {
                let step = SentStep::Upload(record.summary.id.clone());
                let ghost value = step@;
                steps.push(step);
                assert(sent_step_views(steps@) =~= before.push(value));
                uploaded += 1;
            } else if record.state == DeliveryState::ProviderCopyExpected && remote {
                awaiting_provider += 1;
            }
            i += 1;
        }
        assert(all.take(i as int) =~= all);
        SentReconciliation { steps, uploaded, awaiting_provider }
    }
}

/// What the outbox and the sent folder hold once they were brought in line with the
/// provider.
#[derive(Debug)]
pub struct DeliverySynchronization {
    pub outbox: Vec<ConversationSummary>,
    pub sent: Vec<ConversationSummary>,
    pub delivered_message_id_hashes: HashSet<u64>,
    pub remote_changed: bool,
    pub convergence_incomplete: bool,
}

impl DeliverySynchronization {
    /// What is reported once the steps for the sent folder were done; `sent` is what the
    /// sent folder holds then.
    pub fn new(
        submission: OutboxSubmission,
        reconciliation: &SentReconciliation,
        sent: Vec<DeliveryRecord>,
    ) -> (synchronization: Self)
        ensures
            synchronization.outbox == submission.outbox,
            mail::summaries(synchronization.sent@) == record_summaries(record_views(sent@)),
            synchronization.delivered_message_id_hashes == submission.delivered_message_id_hashes,
            synchronization.remote_changed == (reconciliation.uploaded != 0),
            synchronization.convergence_incomplete == (reconciliation.awaiting_provider != 0),
    {
        DeliverySynchronization {
            outbox: submission.outbox,
            sent: summaries_of(sent),
            delivered_message_id_hashes: submission.delivered_message_id_hashes,
            remote_changed: reconciliation.uploaded != 0,
            convergence_incomplete: reconciliation.awaiting_provider != 0,
        }
    }
}

} // verus!
