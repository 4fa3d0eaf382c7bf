//! What becomes of drafts.
use crate::integration::camel::SyncStateView;
use crate::integration::local::draft;
use crate::integration::local::draft::{DraftStepView, RevisionView};
use crate::laws::lists::{lemma_in_either, lemma_pushed};
use vstd::prelude::*;

verus! {

proof fn lemma_sent_remote_ids(states: Seq<SyncStateView>, delivered: Set<u64>, id: Seq<char>)
    ensures
        draft::sent_remote_ids(states, delivered).contains(id) <==> exists|i: int|
            0 <= i < states.len() && (#[trigger] states[i]).conversation_id == id
                && states[i].message_id_hash != 0 && delivered.contains(states[i].message_id_hash),
    decreases states.len(),
{
    if states.len() > 0 {
        let rest = states.drop_last();
        lemma_sent_remote_ids(rest, delivered, id);
        lemma_pushed(
            draft::sent_remote_ids(rest, delivered),
            states.last().conversation_id,
            id,
        );
        assert(states[states.len() - 1] == states.last());
        assert forall|i: int| 0 <= i < rest.len() implies rest[i] == states[i] by {}
        if exists|i: int|
            0 <= i < rest.len() && (#[trigger] rest[i]).conversation_id == id
                && rest[i].message_id_hash != 0 && delivered.contains(rest[i].message_id_hash) {
            let i = choose|i: int|
                0 <= i < rest.len() && (#[trigger] rest[i]).conversation_id == id
                    && rest[i].message_id_hash != 0 && delivered.contains(rest[i].message_id_hash);
            assert(states[i].conversation_id == id);
        }
        if exists|i: int|
            0 <= i < states.len() && (#[trigger] states[i]).conversation_id == id
                && states[i].message_id_hash != 0 && delivered.contains(
                states[i].message_id_hash,
            ) {
            let i = choose|i: int|
                0 <= i < states.len() && (#[trigger] states[i]).conversation_id == id
                    && states[i].message_id_hash != 0 && delivered.contains(
                    states[i].message_id_hash,
                );
            if i < rest.len() {
                assert(rest[i].conversation_id == id);
            }
        }
    }
}

proof fn lemma_remote_copies(states: Seq<SyncStateView>, hash: u64, id: Seq<char>)
    ensures
        draft::remote_copies(states, hash).contains(id) <==> exists|i: int|
            0 <= i < states.len() && (#[trigger] states[i]).conversation_id == id
                && states[i].message_id_hash == hash && hash != 0,
    decreases states.len(),
{
    if states.len() > 0 {
        let rest = states.drop_last();
        lemma_remote_copies(rest, hash, id);
        lemma_pushed(draft::remote_copies(rest, hash), states.last().conversation_id, id);
        assert(states[states.len() - 1] == states.last());
        if exists|i: int|
            0 <= i < rest.len() && (#[trigger] rest[i]).conversation_id == id
                && rest[i].message_id_hash == hash && hash != 0 {
            let i = choose|i: int|
                0 <= i < rest.len() && (#[trigger] rest[i]).conversation_id == id
                    && rest[i].message_id_hash == hash && hash != 0;
            assert(states[i] == rest[i]);
        }
        if exists|i: int|
            0 <= i < states.len() && (#[trigger] states[i]).conversation_id == id
                && states[i].message_id_hash == hash && hash != 0 {
            let i = choose|i: int|
                0 <= i < states.len() && (#[trigger] states[i]).conversation_id == id
                    && states[i].message_id_hash == hash && hash != 0;
            if i < rest.len() {
                assert(rest[i] == states[i]);
            }
        }
    }
}

proof fn lemma_remote_deletions(ids: Seq<Seq<char>>, step: DraftStepView)
    ensures
        draft::remote_deletions(ids).contains(step) <==> step is DeleteRemote && ids.contains(
            step->DeleteRemote_0,
        ),
{
    let steps = draft::remote_deletions(ids);
    if steps.contains(step) {
        let k = choose|k: int| 0 <= k < steps.len() && steps[k] == step;
        assert(ids[k] == step->DeleteRemote_0);
    }
    if step is DeleteRemote && ids.contains(step->DeleteRemote_0) {
        let k = choose|k: int| 0 <= k < ids.len() && ids[k] == step->DeleteRemote_0;
        assert(steps[k] == step);
    }
}

proof fn lemma_local_deletions(ids: Seq<Seq<char>>, step: DraftStepView)
    ensures
        draft::local_deletions(ids).contains(step) <==> step is DeleteLocal && ids.contains(
            step->DeleteLocal_0,
        ),
{
    let steps = draft::local_deletions(ids);
    if steps.contains(step) {
        let k = choose|k: int| 0 <= k < steps.len() && steps[k] == step;
        assert(ids[k] == step->DeleteLocal_0);
    }
    if step is DeleteLocal && ids.contains(step->DeleteLocal_0) {
        let k = choose|k: int| 0 <= k < ids.len() && ids[k] == step->DeleteLocal_0;
        assert(steps[k] == step);
    }
}

/// What one draft that was not sent asks for. The revisions that it replaced go here; where
/// the provider has it, it goes here, too; where the provider lacks it and has a folder for
/// drafts, its copies there go, it is stored there, marked as stored, and goes here.
pub open spec fn draft_asks_for(
    revision: RevisionView,
    remote: Option<Seq<SyncStateView>>,
    step: DraftStepView,
) -> bool {
    let uploads = !revision.synced && remote is Some;
    match step {
        DraftStepView::ClearSuperseded(id) => revision.recover_superseded_marker && id
            == revision.conversation_id,
        DraftStepView::DeleteLocal(id) => revision.obsolete.contains(id) || (id
            == revision.conversation_id && (revision.synced || uploads)),
        DraftStepView::DeleteRemote(id) => uploads && exists|i: int|
            0 <= i < remote->0.len() && (#[trigger] remote->0[i]).conversation_id == id
                && remote->0[i].message_id_hash == revision.message_id_hash
                && revision.message_id_hash != 0,
        DraftStepView::AppendRemote(id) => uploads && id == revision.conversation_id,
        DraftStepView::MarkSynced(id) => uploads && id == revision.conversation_id,
    }
}

proof fn lemma_revision_steps(
    revision: RevisionView,
    remote: Option<Seq<SyncStateView>>,
    step: DraftStepView,
)
    ensures
        draft::revision_steps(revision, remote).contains(step) <==> draft_asks_for(
            revision,
            remote,
            step,
        ),
{
    let id = revision.conversation_id;
    let recovery = if revision.recover_superseded_marker {
        seq![DraftStepView::ClearSuperseded(id)]
    } else {
        Seq::empty()
    };
    let tidied = recovery + draft::local_deletions(revision.obsolete);
    lemma_in_either(recovery, draft::local_deletions(revision.obsolete), step);
    lemma_local_deletions(revision.obsolete, step);
    if revision.recover_superseded_marker {
        assert(recovery[0] == DraftStepView::ClearSuperseded(id));
    }
    assert(recovery.contains(step) <==> revision.recover_superseded_marker && step
        == DraftStepView::ClearSuperseded(id));
    if revision.synced {
        lemma_pushed(tidied, DraftStepView::DeleteLocal(id), step);
    } else if remote is Some {
        let copies = draft::remote_copies(remote->0, revision.message_id_hash);
        let deletions = draft::remote_deletions(copies);
        let a = tidied + deletions;
        let b = a.push(DraftStepView::AppendRemote(id));
        let c = b.push(DraftStepView::MarkSynced(id));
        lemma_in_either(tidied, deletions, step);
        lemma_remote_deletions(copies, step);
        if step is DeleteRemote {
            lemma_remote_copies(remote->0, revision.message_id_hash, step->DeleteRemote_0);
        }
        lemma_pushed(a, DraftStepView::AppendRemote(id), step);
        lemma_pushed(b, DraftStepView::MarkSynced(id), step);
        lemma_pushed(c, DraftStepView::DeleteLocal(id), step);
    }
}

proof fn lemma_pending_steps(
    revisions: Seq<RevisionView>,
    remote: Option<Seq<SyncStateView>>,
    step: DraftStepView,
)
    ensures
        draft::pending_steps(revisions, remote).contains(step) <==> exists|h: int|
            0 <= h < revisions.len() && draft_asks_for(#[trigger] revisions[h], remote, step),
    decreases revisions.len(),
{
    if revisions.len() > 0 {
        let rest = revisions.drop_last();
        lemma_pending_steps(rest, remote, step);
        lemma_revision_steps(revisions.last(), remote, step);
        lemma_in_either(
            draft::pending_steps(rest, remote),
            draft::revision_steps(revisions.last(), remote),
            step,
        );
        assert(revisions[revisions.len() - 1] == revisions.last());
        if exists|h: int|
            0 <= h < rest.len() && draft_asks_for(#[trigger] rest[h], remote, step) {
            let h = choose|h: int|
                0 <= h < rest.len() && draft_asks_for(#[trigger] rest[h], remote, step);
            assert(revisions[h] == rest[h]);
        }
        if exists|h: int|
            0 <= h < revisions.len() && draft_asks_for(#[trigger] revisions[h], remote, step) {
            let h = choose|h: int|
                0 <= h < revisions.len() && draft_asks_for(#[trigger] revisions[h], remote, step);
            if h < rest.len() {
                assert(rest[h] == revisions[h]);
            }
        }
    }
}

proof fn lemma_replay_step(
    pending: Seq<RevisionView>,
    delivered: Seq<Seq<char>>,
    remote: Option<Seq<SyncStateView>>,
    hashes: Set<u64>,
    step: DraftStepView,
)
    ensures
        draft::replay_steps(pending, delivered, remote, hashes).contains(step) <==> {
            ||| step is DeleteRemote && remote is Some && exists|i: int|
                0 <= i < remote->0.len() && (#[trigger] remote->0[i]).conversation_id
                    == step->DeleteRemote_0 && remote->0[i].message_id_hash != 0
                    && hashes.contains(remote->0[i].message_id_hash)
            ||| step is DeleteLocal && delivered.contains(step->DeleteLocal_0)
            ||| exists|h: int|
                0 <= h < pending.len() && draft_asks_for(#[trigger] pending[h], remote, step)
        },
{
    let retired = match remote {
        None => Seq::empty(),
        Some(states) => draft::remote_deletions(draft::sent_remote_ids(states, hashes)),
    };
    let local = draft::local_deletions(delivered);
    let rest = draft::pending_steps(pending, remote);
    lemma_in_either(retired, local, step);
    lemma_in_either(retired + local, rest, step);
    lemma_pending_steps(pending, remote, step);
    lemma_local_deletions(delivered, step);
    if remote is Some {
        lemma_remote_deletions(draft::sent_remote_ids(remote->0, hashes), step);
        if step is DeleteRemote {
            lemma_sent_remote_ids(remote->0, hashes, step->DeleteRemote_0);
        }
    }
}

/// A draft at the provider whose message was sent is deleted there. No other is, unless it
/// is a copy of a draft here that the provider lacks; and nothing is done at a provider
/// without a folder for drafts.
pub proof fn lemma_sent_drafts_go_from_the_provider(
    pending: Seq<RevisionView>,
    delivered: Seq<Seq<char>>,
    remote: Seq<SyncStateView>,
    hashes: Set<u64>,
)
    ensures
        forall|i: int|
            0 <= i < remote.len() && (#[trigger] remote[i]).message_id_hash != 0
                && hashes.contains(remote[i].message_id_hash) ==> draft::replay_steps(
                pending,
                delivered,
                Some(remote),
                hashes,
            ).contains(DraftStepView::DeleteRemote(remote[i].conversation_id)),
        forall|id: Seq<char>| #[trigger]
            draft::replay_steps(pending, delivered, Some(remote), hashes).contains(
                DraftStepView::DeleteRemote(id),
            ) ==> exists|i: int|
                0 <= i < remote.len() && (#[trigger] remote[i]).conversation_id == id
                    && remote[i].message_id_hash != 0 && (hashes.contains(
                    remote[i].message_id_hash,
                ) || exists|h: int|
                    0 <= h < pending.len() && (#[trigger] pending[h]).message_id_hash
                        == remote[i].message_id_hash && !pending[h].synced),
        forall|id: Seq<char>|
            !(#[trigger] draft::replay_steps(pending, delivered, None, hashes).contains(
                DraftStepView::DeleteRemote(id),
            )),
        forall|id: Seq<char>|
            !(#[trigger] draft::replay_steps(pending, delivered, None, hashes).contains(
                DraftStepView::AppendRemote(id),
            )),
{
    let steps = draft::replay_steps(pending, delivered, Some(remote), hashes);
    assert forall|i: int|
        0 <= i < remote.len() && (#[trigger] remote[i]).message_id_hash != 0 && hashes.contains(
            remote[i].message_id_hash,
        ) implies steps.contains(DraftStepView::DeleteRemote(remote[i].conversation_id)) by {
        lemma_replay_step(
            pending,
            delivered,
            Some(remote),
            hashes,
            DraftStepView::DeleteRemote(remote[i].conversation_id),
        );
    }
    assert forall|id: Seq<char>| #[trigger]
        steps.contains(DraftStepView::DeleteRemote(id)) implies exists|i: int|
        0 <= i < remote.len() && (#[trigger] remote[i]).conversation_id == id
            && remote[i].message_id_hash != 0 && (hashes.contains(remote[i].message_id_hash)
            || exists|h: int|
            0 <= h < pending.len() && (#[trigger] pending[h]).message_id_hash
                == remote[i].message_id_hash && !pending[h].synced) by {
        let step = DraftStepView::DeleteRemote(id);
        lemma_replay_step(pending, delivered, Some(remote), hashes, step);
        if exists|h: int|
            0 <= h < pending.len() && draft_asks_for(#[trigger] pending[h], Some(remote), step) {
            let h = choose|h: int|
                0 <= h < pending.len() && draft_asks_for(
                    #[trigger] pending[h],
                    Some(remote),
                    step,
                );
            let i = choose|i: int|
                0 <= i < remote.len() && (#[trigger] remote[i]).conversation_id == id
                    && remote[i].message_id_hash == pending[h].message_id_hash
                    && pending[h].message_id_hash != 0;
            assert(pending[h].message_id_hash == remote[i].message_id_hash && !pending[h].synced);
        }
    }
    assert forall|id: Seq<char>|
        !(#[trigger] draft::replay_steps(pending, delivered, None, hashes).contains(
            DraftStepView::DeleteRemote(id),
        )) by {
        lemma_replay_step(pending, delivered, None, hashes, DraftStepView::DeleteRemote(id));
    }
    assert forall|id: Seq<char>|
        !(#[trigger] draft::replay_steps(pending, delivered, None, hashes).contains(
            DraftStepView::AppendRemote(id),
        )) by {
        lemma_replay_step(pending, delivered, None, hashes, DraftStepView::AppendRemote(id));
    }
}

/// A draft here whose message was sent is deleted here, and so is each revision that a
/// draft replaced. A draft that the provider lacks is stored there and marked, where the
/// provider has a folder for drafts, and stays here where it has none. A draft is stored at
/// the provider only where the provider lacks it.
pub proof fn lemma_local_drafts_settle(
    pending: Seq<RevisionView>,
    delivered: Seq<Seq<char>>,
    remote: Option<Seq<SyncStateView>>,
    hashes: Set<u64>,
)
    ensures
        ({
            let steps = draft::replay_steps(pending, delivered, remote, hashes);
            &&& forall|id: Seq<char>| #[trigger]
                delivered.contains(id) ==> steps.contains(DraftStepView::DeleteLocal(id))
            &&& forall|h: int, id: Seq<char>|
                #![trigger pending[h].obsolete.contains(id)]
                0 <= h < pending.len() && pending[h].obsolete.contains(id) ==> steps.contains(
                    DraftStepView::DeleteLocal(id),
                )
            &&& forall|h: int|
                0 <= h < pending.len() && (#[trigger] pending[h]).synced ==> steps.contains(
                    DraftStepView::DeleteLocal(pending[h].conversation_id),
                )
            &&& forall|h: int|
                0 <= h < pending.len() && !(#[trigger] pending[h]).synced && remote is Some
                    ==> steps.contains(DraftStepView::AppendRemote(pending[h].conversation_id))
                    && steps.contains(DraftStepView::MarkSynced(pending[h].conversation_id))
                    && steps.contains(DraftStepView::DeleteLocal(pending[h].conversation_id))
            &&& forall|h: int|
                0 <= h < pending.len() && (#[trigger] pending[h]).recover_superseded_marker
                    ==> steps.contains(
                    DraftStepView::ClearSuperseded(pending[h].conversation_id),
                )
            &&& forall|id: Seq<char>| #[trigger]
                steps.contains(DraftStepView::AppendRemote(id)) ==> exists|h: int|
                    0 <= h < pending.len() && (#[trigger] pending[h]).conversation_id == id
                        && !pending[h].synced
            &&& forall|id: Seq<char>| #[trigger]
                steps.contains(DraftStepView::DeleteLocal(id)) ==> delivered.contains(id)
                    || exists|h: int|
                    0 <= h < pending.len() && ((#[trigger] pending[h]).obsolete.contains(id) || (
                    pending[h].conversation_id == id && (pending[h].synced || remote is Some)))
            &&& forall|id: Seq<char>| #[trigger]
                steps.contains(DraftStepView::MarkSynced(id)) ==> steps.contains(
                    DraftStepView::AppendRemote(id),
                )
        }),
{
    let steps = draft::replay_steps(pending, delivered, remote, hashes);
    assert forall|step: DraftStepView| #[trigger]
        steps.contains(step) <==> {
            ||| step is DeleteRemote && remote is Some && exists|i: int|
                0 <= i < remote->0.len() && (#[trigger] remote->0[i]).conversation_id
                    == step->DeleteRemote_0 && remote->0[i].message_id_hash != 0
                    && hashes.contains(remote->0[i].message_id_hash)
            ||| step is DeleteLocal && delivered.contains(step->DeleteLocal_0)
            ||| exists|h: int|
                0 <= h < pending.len() && draft_asks_for(#[trigger] pending[h], remote, step)
        } by {
        lemma_replay_step(pending, delivered, remote, hashes, step);
    }
    assert forall|h: int, id: Seq<char>|
        #![trigger pending[h].obsolete.contains(id)]
        0 <= h < pending.len() && pending[h].obsolete.contains(id) implies steps.contains(
        DraftStepView::DeleteLocal(id),
    ) by {
        assert(draft_asks_for(pending[h], remote, DraftStepView::DeleteLocal(id)));
    }
    assert forall|h: int|
        0 <= h < pending.len() && (#[trigger] pending[h]).synced implies steps.contains(
        DraftStepView::DeleteLocal(pending[h].conversation_id),
    ) by {
        assert(draft_asks_for(
            pending[h],
            remote,
            DraftStepView::DeleteLocal(pending[h].conversation_id),
        ));
    }
    assert forall|h: int|
        0 <= h < pending.len() && !(#[trigger] pending[h]).synced
            && remote is Some implies steps.contains(
        DraftStepView::AppendRemote(pending[h].conversation_id),
    ) && steps.contains(DraftStepView::MarkSynced(pending[h].conversation_id))
        && steps.contains(DraftStepView::DeleteLocal(pending[h].conversation_id)) by {
        let id = pending[h].conversation_id;
        assert(draft_asks_for(pending[h], remote, DraftStepView::AppendRemote(id)));
        assert(draft_asks_for(pending[h], remote, DraftStepView::MarkSynced(id)));
        assert(draft_asks_for(pending[h], remote, DraftStepView::DeleteLocal(id)));
    }
    assert forall|h: int|
        0 <= h < pending.len() && (
        #[trigger] pending[h]).recover_superseded_marker implies steps.contains(
        DraftStepView::ClearSuperseded(pending[h].conversation_id),
    ) by {
        assert(draft_asks_for(
            pending[h],
            remote,
            DraftStepView::ClearSuperseded(pending[h].conversation_id),
        ));
    }
    assert forall|id: Seq<char>| #[trigger]
        steps.contains(DraftStepView::MarkSynced(id)) implies steps.contains(
        DraftStepView::AppendRemote(id),
    ) by {
        let h = choose|h: int|
            0 <= h < pending.len() && draft_asks_for(
                #[trigger] pending[h],
                remote,
                DraftStepView::MarkSynced(id),
            );
        assert(draft_asks_for(pending[h], remote, DraftStepView::AppendRemote(id)));
    }
}

/// A draft is stored at the provider behind the deletion of its copies there, then it is
/// marked, and then it goes here.
pub proof fn lemma_upload_runs_in_order(revision: RevisionView, remote: Seq<SyncStateView>, i: int)
    requires
        !revision.synced,
        0 <= i < remote.len(),
        remote[i].message_id_hash == revision.message_id_hash,
        revision.message_id_hash != 0,
    ensures
        ({
            let steps = draft::revision_steps(revision, Some(remote));
            let n = steps.len() as int;
            &&& n >= 4
            &&& steps[n - 3] == DraftStepView::AppendRemote(revision.conversation_id)
            &&& steps[n - 2] == DraftStepView::MarkSynced(revision.conversation_id)
            &&& steps[n - 1] == DraftStepView::DeleteLocal(revision.conversation_id)
            &&& exists|k: int|
                0 <= k < n - 3 && #[trigger] steps[k] == DraftStepView::DeleteRemote(
                    remote[i].conversation_id,
                )
        }),
{
    let steps = draft::revision_steps(revision, Some(remote));
    let step = DraftStepView::DeleteRemote(remote[i].conversation_id);
    assert(draft_asks_for(revision, Some(remote), step));
    lemma_revision_steps(revision, Some(remote), step);
    let k = choose|k: int| 0 <= k < steps.len() && steps[k] == step;
    assert(steps[k] == step);
}

/// Bringing the drafts in line counts as a change at the provider just where a draft is
/// deleted or stored there.
pub proof fn lemma_changes_at_the_provider(steps: Seq<DraftStepView>)
    ensures
        draft::any_changes_remote(steps) <==> (exists|id: Seq<char>| #[trigger]
            steps.contains(DraftStepView::DeleteRemote(id))) || (exists|id: Seq<char>| #[trigger]
            steps.contains(DraftStepView::AppendRemote(id))),
{
    if draft::any_changes_remote(steps) {
        let k = choose|k: int| 0 <= k < steps.len() && draft::changes_remote(#[trigger] steps[k]);
        assert(steps.contains(steps[k]));
        match steps[k] {
            DraftStepView::DeleteRemote(id) => {
                assert(steps.contains(DraftStepView::DeleteRemote(id)));
            },
            DraftStepView::AppendRemote(id) => {
                assert(steps.contains(DraftStepView::AppendRemote(id)));
            },
            _ => {},
        }
    }
    if exists|id: Seq<char>| #[trigger] steps.contains(DraftStepView::DeleteRemote(id)) {
        let id = choose|id: Seq<char>| #[trigger] steps.contains(DraftStepView::DeleteRemote(id));
        let k = choose|k: int| 0 <= k < steps.len() && steps[k] == DraftStepView::DeleteRemote(id);
        assert(draft::changes_remote(steps[k]));
    }
    if exists|id: Seq<char>| #[trigger] steps.contains(DraftStepView::AppendRemote(id)) {
        let id = choose|id: Seq<char>| #[trigger] steps.contains(DraftStepView::AppendRemote(id));
        let k = choose|k: int| 0 <= k < steps.len() && steps[k] == DraftStepView::AppendRemote(id);
        assert(draft::changes_remote(steps[k]));
    }
}

} // verus!
