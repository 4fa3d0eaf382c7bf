//! What becomes of messages that are saved and sent.
use crate::integration::camel;
use crate::integration::camel::{AppendMessageRequest, SyncStateView};
use crate::integration::local;
use crate::integration::local::delivery;
use crate::integration::local::delivery::{
    DeliveryRecordView, DeliveryState, SentStepView, StepOutcome, SubmissionStep,
};
use crate::integration::local::{SaveFailure, SaveMode, SaveStep};
use crate::laws::lists::lemma_pushed;
use crate::model::mail::{PreparedMessage, SummaryView};
use crate::text;
use vstd::prelude::*;

verus! {

/// The `n`th step of saving a message, where `outcomes` tell which of the steps before it
/// succeeded.
pub open spec fn save_step(mode: SaveMode, outcomes: Seq<bool>, n: int) -> SaveStep
    decreases n,
{
    if n <= 0 {
        mode.start()
    } else {
        mode.after(save_step(mode, outcomes, n - 1), outcomes[n - 1])
    }
}

/// Whether `step` was taken and succeeded before the `n`th step.
pub open spec fn save_did(mode: SaveMode, outcomes: Seq<bool>, n: int, step: SaveStep) -> bool {
    exists|k: int| 0 <= k < n && #[trigger] save_step(mode, outcomes, k) == step && outcomes[k]
}

/// Whether `step` was taken before the `n`th step.
pub open spec fn save_tried(mode: SaveMode, outcomes: Seq<bool>, n: int, step: SaveStep) -> bool {
    exists|k: int| 0 <= k < n && #[trigger] save_step(mode, outcomes, k) == step
}

proof fn lemma_save_grows(mode: SaveMode, outcomes: Seq<bool>, n: int, step: SaveStep)
    requires
        n > 0,
    ensures
        save_did(mode, outcomes, n, step) <==> save_did(mode, outcomes, n - 1, step) || (save_step(
            mode,
            outcomes,
            n - 1,
        ) == step && outcomes[n - 1]),
        save_tried(mode, outcomes, n, step) <==> save_tried(mode, outcomes, n - 1, step)
            || save_step(mode, outcomes, n - 1) == step,
{
    if save_did(mode, outcomes, n, step) {
        let k = choose|k: int|
            0 <= k < n && #[trigger] save_step(mode, outcomes, k) == step && outcomes[k];
        assert(save_step(mode, outcomes, k) == step);
    }
    if save_tried(mode, outcomes, n, step) {
        let k = choose|k: int| 0 <= k < n && #[trigger] save_step(mode, outcomes, k) == step;
        assert(save_step(mode, outcomes, k) == step);
    }
    if save_did(mode, outcomes, n - 1, step) {
        let k = choose|k: int|
            0 <= k < n - 1 && #[trigger] save_step(mode, outcomes, k) == step && outcomes[k];
        assert(save_step(mode, outcomes, k) == step);
    }
    if save_tried(mode, outcomes, n - 1, step) {
        let k = choose|k: int| 0 <= k < n - 1 && #[trigger] save_step(mode, outcomes, k) == step;
        assert(save_step(mode, outcomes, k) == step);
    }
}

proof fn lemma_save_runs(mode: SaveMode, outcomes: Seq<bool>, n: int)
    requires
        0 <= n <= outcomes.len(),
    ensures
        ({
            let step = save_step(mode, outcomes, n);
            let marked = save_did(mode, outcomes, n, SaveStep::MarkSuperseded);
            let stored = save_did(mode, outcomes, n, SaveStep::Append);
            let ensured = save_did(mode, outcomes, n, SaveStep::EnsureOutbox);
            let cleared = save_did(mode, outcomes, n, SaveStep::ClearDraft);
            let moved = save_did(mode, outcomes, n, SaveStep::MoveToOutbox);
            let undone = save_did(mode, outcomes, n, SaveStep::DeleteStaged);
            let retired = save_tried(mode, outcomes, n, SaveStep::RetireSuperseded);
            match step {
                SaveStep::MarkSuperseded => mode.replaces && !marked && !stored && !moved
                    && !retired && !undone,
                SaveStep::Append => marked == mode.replaces && !stored && !moved && !retired
                    && !undone,
                SaveStep::EnsureOutbox => mode.deliver && marked == mode.replaces && stored
                    && !moved && !retired && !undone,
                SaveStep::ClearDraft => mode.deliver && marked == mode.replaces && stored && ensured
                    && !moved && !retired && !undone,
                SaveStep::MoveToOutbox => mode.deliver && marked == mode.replaces && stored
                    && ensured && cleared && !moved && !retired && !undone,
                SaveStep::RetireSuperseded => mode.replaces && marked && stored && (mode.deliver
                    ==> ensured && cleared && moved) && (!mode.deliver ==> !moved) && !undone,
                SaveStep::Saved => stored && marked == mode.replaces && (mode.deliver ==> ensured
                    && cleared && moved) && (!mode.deliver ==> !moved) && retired == mode.replaces
                    && !undone,
                SaveStep::DeleteStaged => mode.deliver && marked == mode.replaces && stored
                    && !moved && !retired && !undone,
                SaveStep::UnmarkSuperseded(failure) => mode.replaces && marked && !moved && !retired
                    && match failure {
                    SaveFailure::Marker => false,
                    SaveFailure::Append => !stored,
                    SaveFailure::Transition => stored && undone,
                },
                SaveStep::Failed(failure) => !moved && !retired && match failure {
                    SaveFailure::Marker => mode.replaces && !marked && !stored,
                    SaveFailure::Append => !stored && marked == mode.replaces && (mode.replaces
                        ==> save_tried(
                        mode,
                        outcomes,
                        n,
                        SaveStep::UnmarkSuperseded(failure),
                    )),
                    SaveFailure::Transition => stored && save_tried(
                        mode,
                        outcomes,
                        n,
                        SaveStep::DeleteStaged,
                    ) && (undone && mode.replaces ==> save_tried(
                        mode,
                        outcomes,
                        n,
                        SaveStep::UnmarkSuperseded(failure),
                    )),
                },
            }
        }),
    decreases n,
{
    if n > 0 {
        lemma_save_runs(mode, outcomes, n - 1);
        lemma_save_grows(mode, outcomes, n, SaveStep::MarkSuperseded);
        lemma_save_grows(mode, outcomes, n, SaveStep::Append);
        lemma_save_grows(mode, outcomes, n, SaveStep::EnsureOutbox);
        lemma_save_grows(mode, outcomes, n, SaveStep::ClearDraft);
        lemma_save_grows(mode, outcomes, n, SaveStep::MoveToOutbox);
        lemma_save_grows(mode, outcomes, n, SaveStep::DeleteStaged);
        lemma_save_grows(mode, outcomes, n, SaveStep::RetireSuperseded);
        lemma_save_grows(mode, outcomes, n, SaveStep::UnmarkSuperseded(SaveFailure::Append));
        lemma_save_grows(mode, outcomes, n, SaveStep::UnmarkSuperseded(SaveFailure::Transition));
    }
}

/// A message counts as saved only once it was stored and, where it has to be sent, once it
/// was moved to the outbox, its draft flag taken off; where it does not have to be sent, it
/// is not moved. The draft that it replaces was marked before, and is deleted only then.
pub proof fn lemma_saved_message_is_where_it_belongs(mode: SaveMode, outcomes: Seq<bool>, n: int)
    requires
        0 <= n <= outcomes.len(),
        save_step(mode, outcomes, n) is Saved || save_step(mode, outcomes, n) is RetireSuperseded,
    ensures
        save_did(mode, outcomes, n, SaveStep::Append),
        save_did(mode, outcomes, n, SaveStep::MoveToOutbox) == mode.deliver,
        mode.deliver ==> save_did(mode, outcomes, n, SaveStep::EnsureOutbox),
        mode.deliver ==> save_did(mode, outcomes, n, SaveStep::ClearDraft),
        save_did(mode, outcomes, n, SaveStep::MarkSuperseded) == mode.replaces,
        !save_did(mode, outcomes, n, SaveStep::DeleteStaged),
        save_step(mode, outcomes, n) is Saved ==> save_tried(
            mode,
            outcomes,
            n,
            SaveStep::RetireSuperseded,
        ) == mode.replaces,
{
    lemma_save_runs(mode, outcomes, n);
}

/// A message that was not saved was not moved to the outbox, and the draft that it should
/// replace is left. What was stored of it is deleted again, and the draft loses its mark.
pub proof fn lemma_failed_save_is_undone(
    mode: SaveMode,
    outcomes: Seq<bool>,
    n: int,
    failure: SaveFailure,
)
    requires
        0 <= n <= outcomes.len(),
        save_step(mode, outcomes, n) == SaveStep::Failed(failure),
    ensures
        !save_did(mode, outcomes, n, SaveStep::MoveToOutbox),
        !save_tried(mode, outcomes, n, SaveStep::RetireSuperseded),
        save_did(mode, outcomes, n, SaveStep::Append) ==> failure is Transition && save_tried(
            mode,
            outcomes,
            n,
            SaveStep::DeleteStaged,
        ),
        mode.replaces && save_did(mode, outcomes, n, SaveStep::MarkSuperseded) && (save_did(
            mode,
            outcomes,
            n,
            SaveStep::Append,
        ) ==> save_did(mode, outcomes, n, SaveStep::DeleteStaged)) ==> save_tried(
            mode,
            outcomes,
            n,
            SaveStep::UnmarkSuperseded(failure),
        ),
{
    lemma_save_runs(mode, outcomes, n);
}

/// How many steps are left at most.
spec fn steps_left(step: SaveStep) -> int {
    match step {
        SaveStep::MarkSuperseded => 7,
        SaveStep::Append => 6,
        SaveStep::EnsureOutbox => 5,
        SaveStep::ClearDraft => 4,
        SaveStep::MoveToOutbox => 3,
        SaveStep::RetireSuperseded => 2,
        SaveStep::DeleteStaged => 2,
        SaveStep::UnmarkSuperseded(_) => 1,
        SaveStep::Saved => 0,
        SaveStep::Failed(_) => 0,
    }
}

proof fn lemma_save_ends(mode: SaveMode, outcomes: Seq<bool>, n: int)
    requires
        0 <= n <= outcomes.len(),
    ensures
        steps_left(save_step(mode, outcomes, n)) <= 7 - n || steps_left(
            save_step(mode, outcomes, n),
        ) == 0,
        (forall|k: int| 0 <= k < n ==> #[trigger] outcomes[k]) ==> !(save_step(mode, outcomes, n)
            is Failed) && !(save_step(mode, outcomes, n) is UnmarkSuperseded) && !(save_step(
            mode,
            outcomes,
            n,
        ) is DeleteStaged),
        forall|k: int|
            #![trigger save_step(mode, outcomes, k)]
            0 <= k < n && !outcomes[k] && !(save_step(mode, outcomes, k) is RetireSuperseded)
                && !(save_step(mode, outcomes, k) is Saved) ==> {
                ||| save_step(mode, outcomes, n) is DeleteStaged
                ||| save_step(mode, outcomes, n) is UnmarkSuperseded
                ||| save_step(mode, outcomes, n) is Failed
            },
    decreases n,
{
    if n > 0 {
        lemma_save_ends(mode, outcomes, n - 1);
        let before = save_step(mode, outcomes, n - 1);
        let step = save_step(mode, outcomes, n);
        assert(step == mode.after(before, outcomes[n - 1]));
        if forall|k: int| 0 <= k < n ==> #[trigger] outcomes[k] {
            assert(outcomes[n - 1]);
        }
        assert forall|k: int|
            #![trigger save_step(mode, outcomes, k)]
            0 <= k < n && !outcomes[k] && !(save_step(mode, outcomes, k) is RetireSuperseded)
                && !(save_step(mode, outcomes, k) is Saved) implies {
            ||| step is DeleteStaged
            ||| step is UnmarkSuperseded
            ||| step is Failed
        } by {
            if k < n - 1 {
                assert(before is DeleteStaged || before is UnmarkSuperseded || before is Failed);
            }
        }
    }
}

/// Saving a message takes seven steps at most. Where every step succeeds, the message is
/// saved. Where a step fails, it is not, unless the step was the deletion of the draft
/// that it replaces.
pub proof fn lemma_saving_ends(mode: SaveMode, outcomes: Seq<bool>, n: int)
    requires
        7 <= n <= outcomes.len(),
    ensures
        save_step(mode, outcomes, n) is Saved || save_step(mode, outcomes, n) is Failed,
        (forall|k: int| 0 <= k < n ==> #[trigger] outcomes[k]) ==> save_step(mode, outcomes, n)
            is Saved,
        forall|k: int|
            #![trigger save_step(mode, outcomes, k)]
            0 <= k < n && !outcomes[k] && !(save_step(mode, outcomes, k) is RetireSuperseded)
                && !(save_step(mode, outcomes, k) is Saved) ==> save_step(
                mode,
                outcomes,
                n,
            ) is Failed,
{
    lemma_save_ends(mode, outcomes, n);
}

/// What is handed to the store to save a message is the message: its recipients, its
/// subject, both forms of its body and its attachments, as a draft of that folder.
pub proof fn lemma_request_is_the_message(
    request: AppendMessageRequest,
    message: PreparedMessage,
    folder: Seq<char>,
)
    requires
        local::requests(request, message, folder),
    ensures
        request.folder_id@ == folder,
        request.from@ == message.from@,
        request.subject@ == message.subject@,
        text::views(request.to@) == text::views(message.to@),
        text::views(request.cc@) == text::views(message.cc@),
        text::views(request.bcc@) == text::views(message.bcc@),
        text::view_opt(request.reply_to) == text::view_opt(message.reply_to),
        request.html_body@ == message.body@.html,
        request.plain_body@ == message.body@.text,
        text::views(request.attachment_uris@) == text::views(message.attachment_uris@),
        match (request.message_id, message.message_id) {
            (Some(stored), Some(own)) => stored@ == own@,
            (None, None) => true,
            _ => false,
        },
        request.is_draft,
{
}

/// The `n`th step of submitting a message.
pub open spec fn submission_step(outcomes: Seq<StepOutcome>, n: int) -> SubmissionStep
    decreases n,
{
    if n <= 0 {
        SubmissionStep::Begin
    } else {
        submission_step(outcomes, n - 1).after(outcomes[n - 1])
    }
}

proof fn lemma_submission_runs(outcomes: Seq<StepOutcome>, n: int)
    requires
        0 <= n <= outcomes.len(),
    ensures
        match submission_step(outcomes, n) {
            SubmissionStep::Begin => n == 0,
            SubmissionStep::Send => n == 1 && outcomes[0] is Succeeded,
            SubmissionStep::Complete { provider_saved_copy } => n == 2 && outcomes[0] is Succeeded
                && outcomes[1] == (StepOutcome::Sent { provider_saved_copy }),
            SubmissionStep::PrepareSent { provider_saved_copy } => n == 3 && outcomes[0]
                is Succeeded && outcomes[1] == (StepOutcome::Sent { provider_saved_copy })
                && outcomes[2] is Succeeded,
            SubmissionStep::Move { provider_saved_copy } => n == 4 && outcomes[0] is Succeeded
                && outcomes[1] == (StepOutcome::Sent { provider_saved_copy }) && outcomes[2]
                is Succeeded && outcomes[3] is Succeeded,
            SubmissionStep::Submitted => n >= 5 && outcomes[0] is Succeeded && outcomes[1] is Sent
                && outcomes[2] is Succeeded && outcomes[3] is Succeeded && outcomes[4]
                is Succeeded,
            SubmissionStep::Failed => true,
        },
    decreases n,
{
    if n > 0 {
        lemma_submission_runs(outcomes, n - 1);
    }
}

/// A message counts as submitted only where it was marked, then taken by the transport,
/// then marked as delivered, and then moved to the sent folder, in that order; and it does
/// where all of that succeeded. Whether the provider keeps a copy is what the transport
/// said.
pub proof fn lemma_submitted_message_was_sent(outcomes: Seq<StepOutcome>)
    requires
        outcomes.len() >= 5,
    ensures
        submission_step(outcomes, 0) is Begin,
        submission_step(outcomes, 5) is Submitted <==> outcomes[0] is Succeeded && outcomes[1]
            is Sent && outcomes[2] is Succeeded && outcomes[3] is Succeeded && outcomes[4]
            is Succeeded,
        submission_step(outcomes, 5) is Submitted || submission_step(outcomes, 5) is Failed,
        outcomes[0] is Succeeded <==> submission_step(outcomes, 1) is Send,
        outcomes[0] is Succeeded && outcomes[1] is Sent ==> submission_step(outcomes, 2) == (
        SubmissionStep::Complete {
            provider_saved_copy: outcomes[1]->provider_saved_copy,
        }),
        outcomes[0] is Succeeded && outcomes[1] is Sent && outcomes[2] is Succeeded
            ==> submission_step(outcomes, 3) == (SubmissionStep::PrepareSent {
            provider_saved_copy: outcomes[1]->provider_saved_copy,
        }),
        outcomes[0] is Succeeded && outcomes[1] is Sent && outcomes[2] is Succeeded && outcomes[3]
            is Succeeded ==> submission_step(outcomes, 4) == (SubmissionStep::Move {
            provider_saved_copy: outcomes[1]->provider_saved_copy,
        }),
{
    reveal_with_fuel(submission_step, 6);
    lemma_submission_runs(outcomes, 1);
    lemma_submission_runs(outcomes, 5);
    assert(submission_step(outcomes, 1) == submission_step(outcomes, 0).after(outcomes[0]));
    assert(submission_step(outcomes, 2) == submission_step(outcomes, 1).after(outcomes[1]));
    assert(submission_step(outcomes, 3) == submission_step(outcomes, 2).after(outcomes[2]));
    assert(submission_step(outcomes, 4) == submission_step(outcomes, 3).after(outcomes[3]));
    assert(submission_step(outcomes, 5) == submission_step(outcomes, 4).after(outcomes[4]));
}

/// The markers of a message that is sent are told apart: one says that the transport may
/// have it, the two others that it was delivered, and any other says nothing.
pub proof fn lemma_markers_are_told_apart(unmarked: DeliveryState, marker: Seq<char>)
    ensures
        delivery::state_of_marker(None, unmarked) == Some(unmarked),
        delivery::state_of_marker(Some("submitting"@), unmarked) == Some(
            DeliveryState::SubmissionUncertain,
        ),
        delivery::state_of_marker(Some("provider-copy"@), unmarked) == Some(
            DeliveryState::ProviderCopyExpected,
        ),
        delivery::state_of_marker(Some("copy-required"@), unmarked) == Some(
            DeliveryState::NeedsRemoteCopy,
        ),
        marker != "submitting"@ && marker != "provider-copy"@ && marker != "copy-required"@
            ==> delivery::state_of_marker(Some(marker), unmarked) is None,
        camel::delivered_marker(true) == "provider-copy"@,
        camel::delivered_marker(false) == "copy-required"@,
{
    reveal_strlit("submitting");
    reveal_strlit("provider-copy");
    reveal_strlit("copy-required");
    assert("submitting"@.len() == 10);
    assert("provider-copy"@[0] == 'p');
    assert("copy-required"@[0] == 'c');
}

/// The record of a message that is sent names its identity and its state; that of a draft,
/// and one without an identity, is none.
pub proof fn lemma_delivery_metadata(state: SyncStateView, unmarked: DeliveryState)
    ensures
        delivery::metadata_of(state, unmarked) matches Ok(metadata) ==> {
            &&& metadata.1 == state.message_id_hash
            &&& metadata.1 != 0
            &&& !state.draft_synced
            &&& !state.draft_superseded
            &&& delivery::state_of_marker(state.delivery_state, unmarked) == Some(metadata.0)
        },
        !state.draft_synced && !state.draft_superseded && state.message_id_hash != 0
            && delivery::state_of_marker(state.delivery_state, unmarked) is Some
            ==> delivery::metadata_of(state, unmarked) is Ok,
{
}

proof fn lemma_state_of(states: Seq<SyncStateView>, id: Seq<char>)
    ensures
        local::state_of(states, id) matches Some(state) ==> states.contains(state)
            && state.conversation_id == id,
    decreases states.len(),
{
    if states.len() > 0 {
        lemma_state_of(states.drop_last(), id);
        if local::state_of(states.drop_last(), id) is Some {
            let state = local::state_of(states.drop_last(), id)->0;
            let k = choose|k: int|
                0 <= k < states.drop_last().len() && states.drop_last()[k] == state;
            assert(states[k] == state);
        } else {
            assert(states[states.len() - 1] == states.last());
        }
    }
}

proof fn lemma_matched(
    summaries: Seq<SummaryView>,
    states: Seq<SyncStateView>,
    unmarked: DeliveryState,
)
    requires
        delivery::matched_records(summaries, states, unmarked) is Ok,
    ensures
        ({
            let records = delivery::matched_records(summaries, states, unmarked)->Ok_0;
            &&& records.len() == summaries.len()
            &&& forall|i: int|
                0 <= i < records.len() ==> (#[trigger] records[i]).summary == summaries[i]
                    && exists|k: int|
                    0 <= k < states.len() && (#[trigger] states[k]).conversation_id
                        == summaries[i].id && states[k].message_id_hash
                        == records[i].message_id_hash && states[k].message_id_hash != 0
                        && delivery::state_of_marker(states[k].delivery_state, unmarked) == Some(
                        records[i].state,
                    )
        }),
    decreases summaries.len(),
{
    if summaries.len() > 0 {
        let rest = summaries.drop_last();
        let id = summaries.last().id;
        let records = delivery::matched_records(summaries, states, unmarked)->Ok_0;
        let before = delivery::matched_records(rest, states, unmarked)->Ok_0;
        lemma_matched(rest, states, unmarked);
        lemma_state_of(states, id);
        let state = local::state_of(states, id)->0;
        lemma_delivery_metadata(state, unmarked);
        assert(states.contains(state));
        let at = choose|k: int| 0 <= k < states.len() && states[k] == state;
        assert forall|i: int| 0 <= i < records.len() implies (#[trigger] records[i]).summary
            == summaries[i] && exists|k: int|
            0 <= k < states.len() && (#[trigger] states[k]).conversation_id == summaries[i].id
                && states[k].message_id_hash == records[i].message_id_hash
                && states[k].message_id_hash != 0 && delivery::state_of_marker(
                states[k].delivery_state,
                unmarked,
            ) == Some(records[i].state) by {
            if i < rest.len() {
                assert(records[i] == before[i]);
                assert(rest[i] == summaries[i]);
            } else {
                assert(states[at].conversation_id == summaries[i].id);
            }
        }
    }
}

/// What is known of the messages of a folder is what their own records say: each message
/// keeps its row, and its identity and its state are those of the record that names it.
pub proof fn lemma_deliveries_follow_their_records(
    summaries: Seq<SummaryView>,
    states: Seq<SyncStateView>,
    unmarked: DeliveryState,
)
    requires
        delivery::delivery_records_of(summaries, states, unmarked) is Ok,
    ensures
        ({
            let records = delivery::delivery_records_of(summaries, states, unmarked)->Ok_0;
            &&& records.len() == summaries.len()
            &&& forall|i: int|
                0 <= i < records.len() ==> (#[trigger] records[i]).summary == summaries[i]
                    && exists|k: int|
                    0 <= k < states.len() && (#[trigger] states[k]).conversation_id
                        == summaries[i].id && states[k].message_id_hash
                        == records[i].message_id_hash && states[k].message_id_hash != 0
                        && delivery::state_of_marker(states[k].delivery_state, unmarked) == Some(
                        records[i].state,
                    )
        }),
{
    lemma_matched(summaries, states, unmarked);
}

/// A message of the outbox is submitted where it was never handed to the transport, moved to
/// the sent folder where it was delivered, and left alone where it is not known what became
/// of it; the identities of the first two count as delivered.
pub proof fn lemma_outbox_is_worked_off(records: Seq<DeliveryRecordView>)
    ensures
        forall|i: int|
            0 <= i < records.len() && (#[trigger] records[i]).state is Queued
                ==> delivery::ids_to_submit(records).contains(records[i].summary.id)
                && delivery::hashes_to_deliver(records).contains(records[i].message_id_hash),
        forall|i: int|
            0 <= i < records.len() && ((#[trigger] records[i]).state is ProviderCopyExpected
                || records[i].state is NeedsRemoteCopy) ==> delivery::ids_to_finish(
                records,
            ).contains(records[i].summary.id) && delivery::hashes_to_deliver(records).contains(
                records[i].message_id_hash,
            ),
        forall|id: Seq<char>| #[trigger]
            delivery::ids_to_submit(records).contains(id) ==> exists|i: int|
                0 <= i < records.len() && (#[trigger] records[i]).summary.id == id
                    && records[i].state is Queued,
        forall|id: Seq<char>| #[trigger]
            delivery::ids_to_finish(records).contains(id) ==> exists|i: int|
                0 <= i < records.len() && (#[trigger] records[i]).summary.id == id && (
                records[i].state is ProviderCopyExpected || records[i].state is NeedsRemoteCopy),
        forall|hash: u64| #[trigger]
            delivery::hashes_to_deliver(records).contains(hash) ==> exists|i: int|
                0 <= i < records.len() && (#[trigger] records[i]).message_id_hash == hash
                    && records[i].state !is SubmissionUncertain,
    decreases records.len(),
{
    if records.len() > 0 {
        let rest = records.drop_last();
        let last = records.last();
        let n = records.len() - 1;
        assert(records[n] == last);
        lemma_outbox_is_worked_off(rest);
        assert forall|i: int|
            0 <= i < records.len() && (#[trigger] records[i]).state
                is Queued implies delivery::ids_to_submit(records).contains(records[i].summary.id)
            && delivery::hashes_to_deliver(records).contains(records[i].message_id_hash) by {
            lemma_pushed(delivery::ids_to_submit(rest), last.summary.id, records[i].summary.id);
            if i < n {
                assert(rest[i] == records[i]);
            }
        }
        assert forall|i: int|
            0 <= i < records.len() && ((#[trigger] records[i]).state is ProviderCopyExpected
                || records[i].state is NeedsRemoteCopy) implies delivery::ids_to_finish(
            records,
        ).contains(records[i].summary.id) && delivery::hashes_to_deliver(records).contains(
            records[i].message_id_hash,
        ) by {
            lemma_pushed(delivery::ids_to_finish(rest), last.summary.id, records[i].summary.id);
            if i < n {
                assert(rest[i] == records[i]);
            }
        }
        assert forall|id: Seq<char>| #[trigger]
            delivery::ids_to_submit(records).contains(id) implies exists|i: int|
            0 <= i < records.len() && (#[trigger] records[i]).summary.id == id && records[i].state
                is Queued by {
            lemma_pushed(delivery::ids_to_submit(rest), last.summary.id, id);
            if delivery::ids_to_submit(rest).contains(id) {
                let i = choose|i: int|
                    0 <= i < rest.len() && (#[trigger] rest[i]).summary.id == id && rest[i].state
                        is Queued;
                assert(records[i] == rest[i]);
            } else {
                assert(records[n].summary.id == id);
            }
        }
        assert forall|id: Seq<char>| #[trigger]
            delivery::ids_to_finish(records).contains(id) implies exists|i: int|
            0 <= i < records.len() && (#[trigger] records[i]).summary.id == id && (
            records[i].state is ProviderCopyExpected || records[i].state is NeedsRemoteCopy) by {
            lemma_pushed(delivery::ids_to_finish(rest), last.summary.id, id);
            if delivery::ids_to_finish(rest).contains(id) {
                let i = choose|i: int|
                    0 <= i < rest.len() && (#[trigger] rest[i]).summary.id == id && (rest[i].state
                        is ProviderCopyExpected || rest[i].state is NeedsRemoteCopy);
                assert(records[i] == rest[i]);
            } else {
                assert(records[n].summary.id == id);
            }
        }
        assert forall|hash: u64| #[trigger]
            delivery::hashes_to_deliver(records).contains(hash) implies exists|i: int|
            0 <= i < records.len() && (#[trigger] records[i]).message_id_hash == hash
                && records[i].state !is SubmissionUncertain by {
            if delivery::hashes_to_deliver(rest).contains(hash) {
                let i = choose|i: int|
                    0 <= i < rest.len() && (#[trigger] rest[i]).message_id_hash == hash
                        && rest[i].state !is SubmissionUncertain;
                assert(records[i] == rest[i]);
            } else {
                assert(records[n].message_id_hash == hash);
            }
        }
    }
}

/// The user sees in the outbox the messages that wait, and among the sent ones those that
/// were delivered.
pub proof fn lemma_messages_are_shown_where_they_belong(records: Seq<DeliveryRecordView>)
    ensures
        forall|i: int|
            0 <= i < records.len() && ((#[trigger] records[i]).state is Queued || records[i].state
                is SubmissionUncertain) ==> delivery::placed_summaries(records, true).contains(
                records[i].summary,
            ),
        forall|i: int|
            0 <= i < records.len() && ((#[trigger] records[i]).state is ProviderCopyExpected
                || records[i].state is NeedsRemoteCopy) ==> delivery::placed_summaries(
                records,
                false,
            ).contains(records[i].summary),
        forall|row: SummaryView| #[trigger]
            delivery::placed_summaries(records, true).contains(row) ==> exists|i: int|
                0 <= i < records.len() && (#[trigger] records[i]).summary == row && (
                records[i].state is Queued || records[i].state is SubmissionUncertain),
        forall|row: SummaryView| #[trigger]
            delivery::placed_summaries(records, false).contains(row) ==> exists|i: int|
                0 <= i < records.len() && (#[trigger] records[i]).summary == row && (
                records[i].state is ProviderCopyExpected || records[i].state is NeedsRemoteCopy),
        delivery::placed_summaries(records, true).len() + delivery::placed_summaries(
            records,
            false,
        ).len() == records.len(),
    decreases records.len(),
{
    if records.len() > 0 {
        let rest = records.drop_last();
        let last = records.last();
        let n = records.len() - 1;
        assert(records[n] == last);
        lemma_messages_are_shown_where_they_belong(rest);
        assert forall|i: int|
            0 <= i < records.len() && ((#[trigger] records[i]).state is Queued || records[i].state
                is SubmissionUncertain) implies delivery::placed_summaries(
            records,
            true,
        ).contains(records[i].summary) by {
            lemma_pushed(
                delivery::placed_summaries(rest, true),
                last.summary,
                records[i].summary,
            );
            if i < n {
                assert(rest[i] == records[i]);
            }
        }
        assert forall|i: int|
            0 <= i < records.len() && ((#[trigger] records[i]).state is ProviderCopyExpected
                || records[i].state is NeedsRemoteCopy) implies delivery::placed_summaries(
            records,
            false,
        ).contains(records[i].summary) by {
            lemma_pushed(
                delivery::placed_summaries(rest, false),
                last.summary,
                records[i].summary,
            );
            if i < n {
                assert(rest[i] == records[i]);
            }
        }
        assert forall|row: SummaryView| #[trigger]
            delivery::placed_summaries(records, true).contains(row) implies exists|i: int|
            0 <= i < records.len() && (#[trigger] records[i]).summary == row && (records[i].state
                is Queued || records[i].state is SubmissionUncertain) by {
            lemma_pushed(delivery::placed_summaries(rest, true), last.summary, row);
            if delivery::placed_summaries(rest, true).contains(row) {
                let i = choose|i: int|
                    0 <= i < rest.len() && (#[trigger] rest[i]).summary == row && (rest[i].state
                        is Queued || rest[i].state is SubmissionUncertain);
                assert(records[i] == rest[i]);
            } else {
                assert(records[n].summary == row);
            }
        }
        assert forall|row: SummaryView| #[trigger]
            delivery::placed_summaries(records, false).contains(row) implies exists|i: int|
            0 <= i < records.len() && (#[trigger] records[i]).summary == row && (records[i].state
                is ProviderCopyExpected || records[i].state is NeedsRemoteCopy) by {
            lemma_pushed(delivery::placed_summaries(rest, false), last.summary, row);
            if delivery::placed_summaries(rest, false).contains(row) {
                let i = choose|i: int|
                    0 <= i < rest.len() && (#[trigger] rest[i]).summary == row && (rest[i].state
                        is ProviderCopyExpected || rest[i].state is NeedsRemoteCopy);
                assert(records[i] == rest[i]);
            } else {
                assert(records[n].summary == row);
            }
        }
    }
}

/// How many of `records` are the message `hash` and were handed to the transport.
pub open spec fn submitted_count(records: Seq<DeliveryRecordView>, hash: u64) -> nat
    decreases records.len(),
{
    if records.len() == 0 {
        0
    } else {
        submitted_count(records.drop_last(), hash) + if records.last().message_id_hash == hash
            && records.last().state !is Queued {
            1nat
        } else {
            0
        }
    }
}

/// Of the local copies of a message that was handed to the transport, as many are retired as
/// the provider has copies, and no more than there are; the provider's copies of a message
/// are used up by nothing else.
pub proof fn lemma_copies_are_matched(
    records: Seq<DeliveryRecordView>,
    counts: Map<u64, usize>,
    hash: u64,
)
    ensures
        delivery::retired_count(records, counts, hash) == (if submitted_count(records, hash)
            <= delivery::count_of(counts, hash) {
            submitted_count(records, hash)
        } else {
            delivery::count_of(counts, hash)
        }),
        delivery::count_of(delivery::counts_after(records, counts), hash) == delivery::count_of(
            counts,
            hash,
        ) - delivery::retired_count(records, counts, hash),
    decreases records.len(),
{
    if records.len() > 0 {
        lemma_copies_are_matched(records.drop_last(), counts, hash);
        lemma_copies_are_matched(records.drop_last(), counts, records.last().message_id_hash);
    }
}

/// A local copy is retired exactly where the provider has a copy that no local copy before it
/// was matched with; then its identity counts as delivered.
pub proof fn lemma_retired_copies(
    records: Seq<DeliveryRecordView>,
    counts: Map<u64, usize>,
    i: int,
)
    requires
        0 <= i < records.len(),
        records[i].state !is Queued,
        submitted_count(records.take(i), records[i].message_id_hash) < delivery::count_of(
            counts,
            records[i].message_id_hash,
        ),
    ensures
        delivery::retired_ids(records, counts).contains(records[i].summary.id),
        delivery::retired_hashes(records, counts).contains(records[i].message_id_hash),
        forall|remote: bool| #[trigger]
            delivery::sent_steps(records, counts, remote).contains(
                SentStepView::Retire(records[i].summary.id),
            ),
    decreases records.len(),
{
    let rest = records.drop_last();
    let last = records.last();
    let n = records.len() - 1;
    if i == n {
        assert(records.take(i) =~= rest);
        lemma_copies_are_matched(rest, counts, last.message_id_hash);
        lemma_pushed(delivery::retired_ids(rest, counts), last.summary.id, last.summary.id);
        assert forall|remote: bool| #[trigger]
            delivery::sent_steps(records, counts, remote).contains(
                SentStepView::Retire(records[i].summary.id),
            ) by {
            lemma_pushed(
                delivery::sent_steps(rest, counts, remote),
                SentStepView::Retire(last.summary.id),
                SentStepView::Retire(last.summary.id),
            );
        }
    } else {
        assert(rest.take(i) =~= records.take(i));
        assert(rest[i] == records[i]);
        lemma_retired_copies(rest, counts, i);
        lemma_pushed(delivery::retired_ids(rest, counts), last.summary.id, records[i].summary.id);
        assert forall|remote: bool| #[trigger]
            delivery::sent_steps(records, counts, remote).contains(
                SentStepView::Retire(records[i].summary.id),
            ) by {
            assert(delivery::sent_steps(rest, counts, remote).contains(
                SentStepView::Retire(rest[i].summary.id),
            ));
            lemma_pushed(
                delivery::sent_steps(rest, counts, remote),
                SentStepView::Retire(last.summary.id),
                SentStepView::Retire(records[i].summary.id),
            );
            lemma_pushed(
                delivery::sent_steps(rest, counts, remote),
                SentStepView::Upload(last.summary.id),
                SentStepView::Retire(records[i].summary.id),
            );
        }
    }
}

/// A sent message of which the provider has no copy is stored there, where the provider does
/// not do so by itself and has a folder for sent messages. Nothing else is stored there, and
/// nothing is retired of which the provider has no copy.
pub proof fn lemma_sent_messages_are_stored_once(
    records: Seq<DeliveryRecordView>,
    counts: Map<u64, usize>,
    remote: bool,
)
    ensures
        forall|i: int|
            0 <= i < records.len() && (#[trigger] records[i]).state is NeedsRemoteCopy && remote
                && delivery::count_of(counts, records[i].message_id_hash) == 0
                ==> delivery::sent_steps(records, counts, remote).contains(
                SentStepView::Upload(records[i].summary.id),
            ),
        forall|id: Seq<char>| #[trigger]
            delivery::sent_steps(records, counts, remote).contains(SentStepView::Upload(id))
                ==> remote && exists|i: int|
                0 <= i < records.len() && (#[trigger] records[i]).summary.id == id
                    && records[i].state is NeedsRemoteCopy,
        forall|id: Seq<char>| #[trigger]
            delivery::sent_steps(records, counts, remote).contains(SentStepView::Retire(id))
                ==> exists|i: int|
                0 <= i < records.len() && (#[trigger] records[i]).summary.id == id
                    && records[i].state !is Queued && delivery::count_of(
                    counts,
                    records[i].message_id_hash,
                ) > 0,
        delivery::upload_count(records, counts, remote) > 0 <==> exists|id: Seq<char>| #[trigger]
            delivery::sent_steps(records, counts, remote).contains(SentStepView::Upload(id)),
        delivery::awaiting_count(records, counts, remote) > 0 ==> remote && exists|i: int|
            0 <= i < records.len() && (#[trigger] records[i]).state is ProviderCopyExpected,
        forall|i: int|
            0 <= i < records.len() && (#[trigger] records[i]).state is ProviderCopyExpected
                && remote && delivery::count_of(counts, records[i].message_id_hash) == 0
                ==> delivery::awaiting_count(records, counts, remote) > 0,
        forall|i: int|
            0 <= i < records.len() ==> delivery::record_hashes(records).contains(
                (#[trigger] records[i]).message_id_hash,
            ),
        forall|hash: u64| #[trigger]
            delivery::record_hashes(records).contains(hash) ==> exists|i: int|
                0 <= i < records.len() && (#[trigger] records[i]).message_id_hash == hash,
    decreases records.len(),
{
    if records.len() > 0 {
        let rest = records.drop_last();
        let last = records.last();
        let n = records.len() - 1;
        assert(records[n] == last);
        assert forall|i: int| 0 <= i < n implies #[trigger] rest[i] == records[i] by {}
        lemma_sent_messages_are_stored_once(rest, counts, remote);
        lemma_copies_are_matched(rest, counts, last.message_id_hash);
        let before = delivery::sent_steps(rest, counts, remote);
        let all = delivery::sent_steps(records, counts, remote);
        let added = if delivery::last_placement(records, counts) is Retire {
            SentStepView::Retire(last.summary.id)
        } else {
            SentStepView::Upload(last.summary.id)
        };
        assert forall|step: SentStepView| #[trigger] before.contains(step) implies all.contains(
            step,
        ) by {
            lemma_pushed(before, added, step);
        }
        assert forall|step: SentStepView| #[trigger] all.contains(step) implies before.contains(
            step,
        ) || (all == before.push(added) && step == added) by {
            lemma_pushed(before, added, step);
        }
        if all == before.push(added) {
            lemma_pushed(before, added, added);
        }
        assert forall|i: int|
            0 <= i < records.len() && (#[trigger] records[i]).state is NeedsRemoteCopy && remote
                && delivery::count_of(counts, records[i].message_id_hash) == 0 implies all.contains(
            SentStepView::Upload(records[i].summary.id),
        ) by {
            if i < n {
                assert(rest[i] == records[i]);
                assert(before.contains(SentStepView::Upload(rest[i].summary.id)));
            }
        }
        assert forall|id: Seq<char>| #[trigger]
            all.contains(SentStepView::Upload(id)) implies remote && exists|i: int|
            0 <= i < records.len() && (#[trigger] records[i]).summary.id == id && records[i].state
                is NeedsRemoteCopy by {
            if before.contains(SentStepView::Upload(id)) {
                let i = choose|i: int|
                    0 <= i < rest.len() && (#[trigger] rest[i]).summary.id == id && rest[i].state
                        is NeedsRemoteCopy;
                assert(records[i] == rest[i]);
            } else {
                assert(records[n].summary.id == id);
            }
        }
        assert forall|id: Seq<char>| #[trigger]
            all.contains(SentStepView::Retire(id)) implies exists|i: int|
            0 <= i < records.len() && (#[trigger] records[i]).summary.id == id && records[i].state
                !is Queued && delivery::count_of(counts, records[i].message_id_hash) > 0 by {
            if before.contains(SentStepView::Retire(id)) {
                let i = choose|i: int|
                    0 <= i < rest.len() && (#[trigger] rest[i]).summary.id == id && rest[i].state
                        !is Queued && delivery::count_of(counts, rest[i].message_id_hash) > 0;
                assert(records[i] == rest[i]);
            } else {
                assert(records[n].summary.id == id);
            }
        }
        if delivery::upload_count(records, counts, remote) > 0 {
            if delivery::upload_count(rest, counts, remote) > 0 {
                let id = choose|id: Seq<char>| #[trigger]
                    before.contains(SentStepView::Upload(id));
                assert(all.contains(SentStepView::Upload(id)));
            } else {
                assert(all.contains(SentStepView::Upload(last.summary.id)));
            }
        }
        if exists|id: Seq<char>| #[trigger] all.contains(SentStepView::Upload(id)) {
            let id = choose|id: Seq<char>| #[trigger] all.contains(SentStepView::Upload(id));
            if before.contains(SentStepView::Upload(id)) {
            }
        }
        if delivery::awaiting_count(records, counts, remote) > 0 {
            if delivery::awaiting_count(rest, counts, remote) > 0 {
                let i = choose|i: int|
                    0 <= i < rest.len() && (#[trigger] rest[i]).state is ProviderCopyExpected;
                assert(records[i] == rest[i]);
            } else {
                assert(records[n].state is ProviderCopyExpected);
            }
        }
        assert forall|i: int|
            0 <= i < records.len() && (#[trigger] records[i]).state is ProviderCopyExpected
                && remote && delivery::count_of(counts, records[i].message_id_hash)
                == 0 implies delivery::awaiting_count(records, counts, remote) > 0 by {
            if i < n {
                assert(rest[i] == records[i]);
            }
        }
        assert forall|i: int| 0 <= i < records.len() implies delivery::record_hashes(
            records,
        ).contains((#[trigger] records[i]).message_id_hash) by {
            if i < n {
                assert(rest[i] == records[i]);
            }
        }
        assert forall|hash: u64| #[trigger]
            delivery::record_hashes(records).contains(hash) implies exists|i: int|
            0 <= i < records.len() && (#[trigger] records[i]).message_id_hash == hash by {
            if delivery::record_hashes(rest).contains(hash) {
                let i = choose|i: int|
                    0 <= i < rest.len() && (#[trigger] rest[i]).message_id_hash == hash;
                assert(records[i] == rest[i]);
            } else {
                assert(records[n].message_id_hash == hash);
            }
        }
    } else {
        assert(forall|id: Seq<char>|
            !(#[trigger] delivery::sent_steps(records, counts, remote).contains(
                SentStepView::Upload(id),
            )));
    }
}

/// Where a message belongs: one that was never handed to the transport in the outbox, whatever
/// the provider has; any other nowhere once the provider has a copy; and else, one that was
/// delivered among the sent ones, and one that may have been where it is.
pub proof fn lemma_placement(state: DeliveryState, hash: u64, counts: Map<u64, usize>)
    ensures
        state is Queued ==> delivery::placement(state, hash, counts) is Outbox,
        state !is Queued && counts.contains_key(hash) && counts[hash] > 0 ==> delivery::placement(
            state,
            hash,
            counts,
        ) is Retire,
        !(counts.contains_key(hash) && counts[hash] > 0) && state is SubmissionUncertain
            ==> delivery::placement(state, hash, counts) is Held,
        !(counts.contains_key(hash) && counts[hash] > 0) && (state is ProviderCopyExpected || state
            is NeedsRemoteCopy) ==> delivery::placement(state, hash, counts) is Sent,
{
}

/// The provider's copies of a message are counted one by one.
pub proof fn lemma_copies_are_counted(states: Seq<SyncStateView>, hash: u64)
    ensures
        delivery::hash_count(states, hash) > 0 <==> exists|i: int|
            0 <= i < states.len() && (#[trigger] states[i]).message_id_hash == hash,
        forall|state: SyncStateView|
            #[trigger] delivery::hash_count(states.push(state), hash) == delivery::hash_count(
                states,
                hash,
            ) + (if state.message_id_hash == hash {
                1nat
            } else {
                0
            }),
    decreases states.len(),
{
    assert forall|state: SyncStateView| #[trigger]
        delivery::hash_count(states.push(state), hash) == delivery::hash_count(states, hash) + (
        if state.message_id_hash == hash {
            1nat
        } else {
            0
        }) by {
        assert(states.push(state).drop_last() =~= states);
    }
    if states.len() > 0 {
        let rest = states.drop_last();
        lemma_copies_are_counted(rest, hash);
        assert(states[states.len() - 1] == states.last());
        if exists|i: int| 0 <= i < rest.len() && (#[trigger] rest[i]).message_id_hash == hash {
            let i = choose|i: int|
                0 <= i < rest.len() && (#[trigger] rest[i]).message_id_hash == hash;
            assert(states[i] == rest[i]);
        }
        if exists|i: int| 0 <= i < states.len() && (#[trigger] states[i]).message_id_hash == hash {
            let i = choose|i: int|
                0 <= i < states.len() && (#[trigger] states[i]).message_id_hash == hash;
            if i < rest.len() {
                assert(rest[i] == states[i]);
            }
        }
    }
}

/// The outbox has to be shown just where its records are all in order up to one of a message
/// that waits.
pub proof fn lemma_outbox_use(states: Seq<SyncStateView>)
    ensures
        delivery::outbox_is_used(states) == Ok::<bool, delivery::DeliveryErrorView>(true)
            ==> exists|i: int|
            0 <= i < states.len() && (delivery::metadata_of(
                #[trigger] states[i],
                DeliveryState::Queued,
            ) matches Ok(metadata) && (metadata.0 is Queued || metadata.0 is SubmissionUncertain)),
        delivery::outbox_is_used(states) == Ok::<bool, delivery::DeliveryErrorView>(false)
            ==> forall|i: int|
            0 <= i < states.len() ==> (delivery::metadata_of(
                #[trigger] states[i],
                DeliveryState::Queued,
            ) matches Ok(metadata) && !(metadata.0 is Queued || metadata.0
                is SubmissionUncertain)),
    decreases states.len(),
{
    if states.len() > 0 {
        let rest = states.drop_last();
        let n = states.len() - 1;
        lemma_outbox_use(rest);
        assert(states[n] == states.last());
        if delivery::outbox_is_used(states) == Ok::<bool, delivery::DeliveryErrorView>(true) {
            if delivery::outbox_is_used(rest) == Ok::<bool, delivery::DeliveryErrorView>(true) {
                let i = choose|i: int|
                    0 <= i < rest.len() && (delivery::metadata_of(
                        #[trigger] rest[i],
                        DeliveryState::Queued,
                    ) matches Ok(metadata) && (metadata.0 is Queued || metadata.0
                        is SubmissionUncertain));
                assert(states[i] == rest[i]);
            } else {
                assert(delivery::metadata_of(states[n], DeliveryState::Queued) is Ok);
            }
        }
        if delivery::outbox_is_used(states) == Ok::<bool, delivery::DeliveryErrorView>(false) {
            assert forall|i: int| 0 <= i < states.len() implies (delivery::metadata_of(
                #[trigger] states[i],
                DeliveryState::Queued,
            ) matches Ok(metadata) && !(metadata.0 is Queued || metadata.0
                is SubmissionUncertain)) by {
                if i < n {
                    assert(rest[i] == states[i]);
                }
            }
        }
    }
}

proof fn lemma_without_ids(list: Seq<SummaryView>, ids: Seq<Seq<char>>, row: SummaryView)
    ensures
        delivery::without_ids(list, ids).contains(row) <==> list.contains(row) && !ids.contains(
            row.id,
        ),
    decreases list.len(),
{
    if list.len() > 0 {
        let rest = list.drop_last();
        lemma_without_ids(rest, ids, row);
        lemma_pushed(delivery::without_ids(rest, ids), list.last(), row);
        lemma_pushed(rest, list.last(), row);
        assert(rest.push(list.last()) =~= list);
    }
}

/// The outbox keeps the messages that were not retired, and only those.
pub proof fn lemma_outbox_keeps_the_others(
    outbox: Seq<SummaryView>,
    records: Seq<DeliveryRecordView>,
    counts: Map<u64, usize>,
    row: SummaryView,
)
    ensures
        delivery::without_ids(outbox, delivery::retired_ids(records, counts)).contains(row)
            <==> outbox.contains(row) && !delivery::retired_ids(records, counts).contains(row.id),
{
    lemma_without_ids(outbox, delivery::retired_ids(records, counts), row);
}

} // verus!
