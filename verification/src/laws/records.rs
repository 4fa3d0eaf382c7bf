//! What holds of what is found in the local folders.
use crate::integration::backend;
use crate::integration::camel::SyncStateView;
use crate::integration::local;
use crate::integration::local::delivery;
use crate::integration::local::delivery::DeliveryState;
use crate::integration::local::draft;
use crate::integration::local::draft::RevisionView;
use crate::integration::local::{FolderListing, LocalFolder, LocalFolderNames, MailboxView};
use crate::laws::lists::lemma_pushed;
use crate::model::mail;
use crate::model::mail::{FolderKind, FolderView, SummaryView};
use vstd::prelude::*;

verus! {

proof fn lemma_group_kind(states: Seq<SyncStateView>, hash: u64, superseded: bool, k: int)
    requires
        0 <= k < draft::group(states, hash, superseded).len(),
    ensures
        draft::group(states, hash, superseded)[k].message_id_hash == hash,
        draft::group(states, hash, superseded)[k].draft_superseded == superseded,
        states.contains(draft::group(states, hash, superseded)[k]),
    decreases states.len(),
{
    draft::lemma_group_is_listed(states, hash, superseded, k);
    if states.len() > 0 {
        let rest = states.drop_last();
        let before = draft::group(rest, hash, superseded);
        if k < before.len() {
            lemma_group_kind(rest, hash, superseded, k);
            assert(draft::group(states, hash, superseded)[k] == before[k]);
        }
    }
}

/// A draft is the message that its record names, in the state that the record gives. It is
/// one that was not replaced, unless all that is left of it was; the messages that it
/// replaced are the others with its identity.
pub proof fn lemma_draft_is_what_its_record_says(states: Seq<SyncStateView>, k: int)
    requires
        draft::drafts_of(states) is Ok,
        0 <= k < draft::drafts_of(states)->Ok_0.len(),
    ensures
        ({
            let revision = draft::drafts_of(states)->Ok_0[k];
            &&& exists|i: int|
                {
                    &&& 0 <= i < states.len()
                    &&& (#[trigger] states[i]).conversation_id == revision.conversation_id
                    &&& states[i].message_id_hash == revision.message_id_hash
                    &&& states[i].draft_synced == revision.synced
                    &&& states[i].draft_superseded == revision.recover_superseded_marker
                }
            &&& forall|i: int|
                0 <= i < states.len() && (#[trigger] states[i]).message_id_hash
                    == revision.message_id_hash && states[i].draft_superseded
                    && !revision.recover_superseded_marker ==> revision.obsolete.contains(
                    states[i].conversation_id,
                )
            &&& forall|n: int|
                0 <= n < revision.obsolete.len() ==> exists|i: int|
                    0 <= i < states.len() && (#[trigger] states[i]).conversation_id
                        == #[trigger] revision.obsolete[n] && states[i].message_id_hash
                        == revision.message_id_hash && states[i].draft_superseded
            &&& revision.recover_superseded_marker ==> forall|i: int|
                0 <= i < states.len() && (#[trigger] states[i]).message_id_hash
                    == revision.message_id_hash ==> states[i].draft_superseded
        }),
{
    let hashes = draft::draft_hashes(states);
    draft::lemma_revisions_follow_the_hashes(states, hashes);
    let hash = hashes[k];
    let revision = draft::drafts_of(states)->Ok_0[k];
    assert(draft::revision_of(states, hash) == Some(revision));
    let current = draft::group(states, hash, false);
    let superseded = draft::group(states, hash, true);
    if current.len() == 1 {
        lemma_group_kind(states, hash, false, 0);
        let i = choose|i: int| 0 <= i < states.len() && states[i] == current[0];
        assert(states[i].conversation_id == revision.conversation_id);
    } else {
        lemma_group_kind(states, hash, true, 0);
        let i = choose|i: int| 0 <= i < states.len() && states[i] == superseded[0];
        assert(states[i].conversation_id == revision.conversation_id);
    }
    assert forall|i: int|
        0 <= i < states.len() && (#[trigger] states[i]).message_id_hash == revision.message_id_hash
            && states[i].draft_superseded
            && !revision.recover_superseded_marker implies revision.obsolete.contains(
        states[i].conversation_id,
    ) by {
        draft::lemma_group_holds(states, i);
        let n = choose|n: int| 0 <= n < superseded.len() && superseded[n] == states[i];
        assert(revision.obsolete[n] == states[i].conversation_id);
    }
    assert forall|n: int| 0 <= n < revision.obsolete.len() implies exists|i: int|
        0 <= i < states.len() && (#[trigger] states[i]).conversation_id
            == #[trigger] revision.obsolete[n] && states[i].message_id_hash
            == revision.message_id_hash && states[i].draft_superseded by {
        lemma_group_kind(states, hash, true, n);
        let i = choose|i: int| 0 <= i < states.len() && states[i] == superseded[n];
        assert(states[i].conversation_id == revision.obsolete[n]);
    }
    if revision.recover_superseded_marker {
        assert forall|i: int|
            0 <= i < states.len() && (#[trigger] states[i]).message_id_hash
                == revision.message_id_hash implies states[i].draft_superseded by {
            draft::lemma_group_holds(states, i);
            if !states[i].draft_superseded {
                let n = choose|n: int| 0 <= n < current.len() && current[n] == states[i];
            }
        }
    }
}

/// Records are those of drafts only where each has an identity, none tells of a delivery,
/// and no two are of one message.
pub proof fn lemma_records_of_drafts(states: Seq<SyncStateView>)
    requires
        draft::drafts_of(states) is Ok,
    ensures
        forall|i: int|
            0 <= i < states.len() ==> (#[trigger] states[i]).message_id_hash != 0
                && states[i].delivery_state is None,
        forall|i: int, j: int|
            #![trigger states[i], states[j]]
            0 <= i < j < states.len() ==> states[i].conversation_id != states[j].conversation_id,
{
    lemma_no_state_error(states);
    lemma_no_duplicate(states);
}

proof fn lemma_no_state_error(states: Seq<SyncStateView>)
    requires
        draft::first_state_error(states) is None,
    ensures
        forall|i: int|
            0 <= i < states.len() ==> (#[trigger] states[i]).message_id_hash != 0
                && states[i].delivery_state is None,
    decreases states.len(),
{
    if states.len() > 0 {
        let rest = states.drop_last();
        lemma_no_state_error(rest);
        assert forall|i: int| 0 <= i < states.len() implies (#[trigger] states[i]).message_id_hash
            != 0 && states[i].delivery_state is None by {
            if i < rest.len() {
                assert(rest[i] == states[i]);
            }
        }
    }
}

proof fn lemma_state_is_found(states: Seq<SyncStateView>, i: int)
    requires
        0 <= i < states.len(),
    ensures
        local::state_of(states, states[i].conversation_id) is Some,
    decreases states.len(),
{
    let rest = states.drop_last();
    if i < rest.len() {
        assert(rest[i] == states[i]);
        lemma_state_is_found(rest, i);
    }
}

proof fn lemma_no_duplicate(states: Seq<SyncStateView>)
    requires
        local::first_duplicate(states) is None,
    ensures
        forall|i: int, j: int|
            #![trigger states[i], states[j]]
            0 <= i < j < states.len() ==> states[i].conversation_id != states[j].conversation_id,
    decreases states.len(),
{
    if states.len() > 0 {
        let rest = states.drop_last();
        lemma_no_duplicate(rest);
        assert forall|i: int, j: int|
            #![trigger states[i], states[j]]
            0 <= i < j < states.len() implies states[i].conversation_id
            != states[j].conversation_id by {
            assert(rest[i] == states[i]);
            if j < rest.len() {
                assert(rest[j] == states[j]);
            } else if states[i].conversation_id == states[j].conversation_id {
                lemma_state_is_found(rest, i);
            }
        }
    }
}

proof fn lemma_with_ids(list: Seq<SummaryView>, ids: Seq<Seq<char>>, row: SummaryView)
    ensures
        draft::with_ids(list, ids).contains(row) <==> list.contains(row) && ids.contains(row.id),
    decreases list.len(),
{
    if list.len() > 0 {
        let rest = list.drop_last();
        lemma_with_ids(rest, ids, row);
        assert(list =~= rest.push(list.last()));
        lemma_pushed(rest, list.last(), row);
        lemma_pushed(draft::with_ids(rest, ids), list.last(), row);
    }
}

/// Of the drafts that a search finds those are shown that were not replaced.
pub proof fn lemma_found_drafts_are_current(
    revisions: Seq<RevisionView>,
    found: Seq<SummaryView>,
    row: SummaryView,
)
    ensures
        draft::matching_drafts(revisions, found) matches Ok(rows) ==> (rows.contains(row) <==> (
        found.contains(row) && exists|k: int|
            0 <= k < revisions.len() && (#[trigger] revisions[k]).conversation_id == row.id)),
{
    let ids = draft::current_ids(revisions);
    lemma_with_ids(found, ids, row);
    if ids.contains(row.id) {
        let k = choose|k: int| 0 <= k < ids.len() && ids[k] == row.id;
        assert(revisions[k].conversation_id == row.id);
    }
    if exists|k: int|
        0 <= k < revisions.len() && (#[trigger] revisions[k]).conversation_id == row.id {
        let k = choose|k: int|
            0 <= k < revisions.len() && (#[trigger] revisions[k]).conversation_id == row.id;
        assert(ids[k] == row.id);
    }
}

/// What a search finds in the outbox is shown, message by message: in the outbox where it
/// waits or may have been submitted, among the sent messages where it was delivered.
pub proof fn lemma_found_outbox_messages_are_shown(
    found: Seq<SummaryView>,
    records: Seq<SyncStateView>,
    outbox: Seq<char>,
    sent: Seq<char>,
)
    ensures
        local::outbox_matches(found, records, outbox, sent) matches Ok(rows) ==> rows.len()
            == found.len() && forall|i: int|
            0 <= i < found.len() ==> {
                &&& (#[trigger] rows[i]).id == found[i].id
                &&& rows[i].subject == found[i].subject
                &&& rows[i].unread_count == found[i].unread_count
                &&& local::state_of(records, found[i].id) is Some
                &&& match delivery::metadata_of(
                    local::state_of(records, found[i].id)->0,
                    DeliveryState::Queued,
                ) {
                    Ok((DeliveryState::Queued, _)) => rows[i].folder_id == outbox,
                    Ok((DeliveryState::SubmissionUncertain, _)) => rows[i].folder_id == outbox,
                    Ok((DeliveryState::ProviderCopyExpected, _)) => rows[i].folder_id == sent,
                    Ok((DeliveryState::NeedsRemoteCopy, _)) => rows[i].folder_id == sent,
                    Err(_) => false,
                }
            },
    decreases found.len(),
{
    if found.len() > 0 {
        let rest = found.drop_last();
        lemma_found_outbox_messages_are_shown(rest, records, outbox, sent);
        if let Ok(rows) = local::outbox_matches(found, records, outbox, sent) {
            let before = local::outbox_matches(rest, records, outbox, sent)->Ok_0;
            assert forall|i: int| 0 <= i < found.len() implies {
                &&& (#[trigger] rows[i]).id == found[i].id
                &&& rows[i].subject == found[i].subject
                &&& rows[i].unread_count == found[i].unread_count
                &&& local::state_of(records, found[i].id) is Some
                &&& match delivery::metadata_of(
                    local::state_of(records, found[i].id)->0,
                    DeliveryState::Queued,
                ) {
                    Ok((DeliveryState::Queued, _)) => rows[i].folder_id == outbox,
                    Ok((DeliveryState::SubmissionUncertain, _)) => rows[i].folder_id == outbox,
                    Ok((DeliveryState::ProviderCopyExpected, _)) => rows[i].folder_id == sent,
                    Ok((DeliveryState::NeedsRemoteCopy, _)) => rows[i].folder_id == sent,
                    Err(_) => false,
                }
            } by {
                if i < rest.len() {
                    assert(rows[i] == before[i]);
                    assert(rest[i] == found[i]);
                } else {
                    assert(found[i] == found.last());
                }
            }
        }
    }
}

/// What a search finds among the messages that were sent from here is shown among the sent
/// messages, message by message.
pub proof fn lemma_found_sent_messages_are_shown(
    found: Seq<SummaryView>,
    records: Seq<SyncStateView>,
    sent: Seq<char>,
)
    ensures
        local::sent_matches(found, records, sent) matches Ok(rows) ==> rows.len() == found.len()
            && forall|i: int|
            0 <= i < found.len() ==> {
                &&& (#[trigger] rows[i]).id == found[i].id
                &&& rows[i].folder_id == sent
                &&& rows[i].subject == found[i].subject
                &&& rows[i].unread_count == found[i].unread_count
            },
    decreases found.len(),
{
    if found.len() > 0 {
        let rest = found.drop_last();
        lemma_found_sent_messages_are_shown(rest, records, sent);
        if let Ok(rows) = local::sent_matches(found, records, sent) {
            let before = local::sent_matches(rest, records, sent)->Ok_0;
            assert forall|i: int| 0 <= i < found.len() implies {
                &&& (#[trigger] rows[i]).id == found[i].id
                &&& rows[i].folder_id == sent
                &&& rows[i].subject == found[i].subject
                &&& rows[i].unread_count == found[i].unread_count
            } by {
                if i < rest.len() {
                    assert(rows[i] == before[i]);
                    assert(rest[i] == found[i]);
                }
            }
        }
    }
}

/// A search of the local folders shows what was found in each of the three, and nothing
/// else: drafts in the drafts folder, the rest in the outbox or among the sent messages.
pub proof fn lemma_local_search_covers_the_folders(
    folders: Seq<FolderView>,
    parent: Seq<char>,
    drafts: FolderListing,
    outbox: FolderListing,
    sent: FolderListing,
    id: Seq<char>,
)
    ensures
        local::local_matches(folders, parent, drafts, outbox, sent) matches Ok(rows) ==> {
            &&& mail::has_id(outbox.messages(), id) ==> mail::has_id(rows, id)
            &&& mail::has_id(sent.messages(), id) ==> mail::has_id(rows, id)
            &&& mail::has_id(rows, id) ==> mail::has_id(drafts.messages(), id) || mail::has_id(
                outbox.messages(),
                id,
            ) || mail::has_id(sent.messages(), id)
            &&& draft::drafts_of(drafts.records()) matches Ok(revisions) ==> (mail::has_id(
                drafts.messages(),
                id,
            ) && (exists|k: int|
                0 <= k < revisions.len() && (#[trigger] revisions[k]).conversation_id == id)
                ==> mail::has_id(rows, id))
        },
{
    let drafts_id = local::display_id(folders, parent, LocalFolder::Drafts);
    let outbox_id = local::display_id(folders, parent, LocalFolder::Outbox);
    let sent_id = local::display_id(folders, parent, LocalFolder::Sent);
    if let Ok(rows) = local::local_matches(folders, parent, drafts, outbox, sent) {
        let first = local::draft_matches(drafts.messages(), drafts.records(), drafts_id)->Ok_0;
        let second = local::outbox_matches(
            outbox.messages(),
            outbox.records(),
            outbox_id,
            sent_id,
        )->Ok_0;
        let third = local::sent_matches(sent.messages(), sent.records(), sent_id)->Ok_0;
        backend::projection::lemma_has_id_concat(first + second, third, id);
        backend::projection::lemma_has_id_concat(first, second, id);
        lemma_found_outbox_messages_are_shown(
            outbox.messages(),
            outbox.records(),
            outbox_id,
            sent_id,
        );
        lemma_found_sent_messages_are_shown(sent.messages(), sent.records(), sent_id);
        lemma_same_ids(outbox.messages(), second, id);
        lemma_same_ids(sent.messages(), third, id);
        let revisions = draft::drafts_of(drafts.records())->Ok_0;
        let kept = draft::matching_drafts(revisions, drafts.messages())->Ok_0;
        assert(first == local::shown_in(kept, drafts_id));
        lemma_same_ids(kept, first, id);
        if mail::has_id(kept, id) {
            let i = choose|i: int| 0 <= i < kept.len() && #[trigger] kept[i].id == id;
            lemma_found_drafts_are_current(revisions, drafts.messages(), kept[i]);
            assert(kept.contains(kept[i]));
            let j = choose|j: int|
                0 <= j < drafts.messages().len() && drafts.messages()[j] == kept[i];
            assert(drafts.messages()[j].id == id);
        }
        if mail::has_id(drafts.messages(), id) && (exists|k: int|
            0 <= k < revisions.len() && (#[trigger] revisions[k]).conversation_id == id) {
            let j = choose|j: int|
                0 <= j < drafts.messages().len() && #[trigger] drafts.messages()[j].id == id;
            let row = drafts.messages()[j];
            assert(drafts.messages().contains(row));
            lemma_found_drafts_are_current(revisions, drafts.messages(), row);
            let i = choose|i: int| 0 <= i < kept.len() && kept[i] == row;
            assert(kept[i].id == id);
        }
    }
}

proof fn lemma_same_ids(left: Seq<SummaryView>, right: Seq<SummaryView>, id: Seq<char>)
    requires
        left.len() == right.len(),
        forall|i: int| 0 <= i < left.len() ==> (#[trigger] right[i]).id == left[i].id,
    ensures
        mail::has_id(left, id) == mail::has_id(right, id),
{
    if mail::has_id(left, id) {
        let i = choose|i: int| 0 <= i < left.len() && #[trigger] left[i].id == id;
        assert(right[i].id == id);
    }
    if mail::has_id(right, id) {
        let i = choose|i: int| 0 <= i < right.len() && #[trigger] right[i].id == id;
        assert(left[i].id == id);
    }
}

/// The folders that are listed have one for drafts and one for sent messages, and one for
/// the outbox where something waits in it; those of the provider stay, in their order, and
/// no outbox is made up where nothing waits.
pub proof fn lemma_listed_folders_hold_the_local_ones(
    folders: Seq<FolderView>,
    parent: Seq<char>,
    names: LocalFolderNames,
    outbox_is_used: bool,
)
    ensures
        ({
            let after = local::with_local_folders(folders, parent, names, outbox_is_used);
            &&& folders.len() <= after.len() <= folders.len() + 3
            &&& forall|i: int| 0 <= i < folders.len() ==> (#[trigger] after[i]) == folders[i]
            &&& local::has_folder(
                after,
                local::display_id(folders, parent, LocalFolder::Drafts),
            )
            &&& forall|i: int|
                folders.len() <= i < after.len() ==> (#[trigger] after[i]).unread_count == 0 && (
                after[i].kind == FolderKind::Drafts || after[i].kind == FolderKind::Sent
                    || outbox_is_used && after[i].kind == FolderKind::Outbox)
            &&& !outbox_is_used ==> after.len() <= folders.len() + 2
        }),
{
    let drafts_id = local::display_id(folders, parent, LocalFolder::Drafts);
    let one = local::with_folder(
        folders,
        drafts_id,
        names.shown(LocalFolder::Drafts),
        FolderKind::Drafts,
    );
    if !local::has_folder(folders, drafts_id) {
        assert(one[folders.len() as int].id == drafts_id);
    }
    assert(local::has_folder(one, drafts_id));
    let at = choose|at: int| 0 <= at < one.len() && #[trigger] one[at].id == drafts_id;
    let two = local::with_folder(
        one,
        local::display_id(one, parent, LocalFolder::Sent),
        names.shown(LocalFolder::Sent),
        FolderKind::Sent,
    );
    let after = local::with_local_folders(folders, parent, names, outbox_is_used);
    assert(two[at] == one[at]);
    assert(after[at] == two[at]);
    assert(after[at].id == drafts_id);
}

/// What is shown of a mailbox has each draft, each message of the outbox and each sent
/// message in the folder in which the local folder is shown.
pub proof fn lemma_shown_drafts_are_in_their_folder(
    remote: MailboxView,
    parent: Seq<char>,
    names: LocalFolderNames,
    drafts: Seq<SummaryView>,
    id: Seq<char>,
)
    requires
        mail::has_id(drafts, id),
    ensures
        ({
            let between = local::with_local_folder(
                remote,
                parent,
                names.drafts@,
                LocalFolder::Drafts,
                drafts,
            );
            let place = local::display_id(remote.folders, parent, LocalFolder::Drafts);
            &&& mail::has_id(between.conversations[place], id)
            &&& backend::shown_mailbox(
                remote,
                parent,
                names,
                drafts,
                Seq::empty(),
                Seq::empty(),
            ) == local::with_local_folder(
                between,
                parent,
                names.sent@,
                LocalFolder::Sent,
                Seq::empty(),
            )
        }),
{
    crate::laws::folders::lemma_local_folder_is_shown(
        remote,
        parent,
        names.drafts@,
        LocalFolder::Drafts,
        drafts,
        id,
        id,
    );
}

/// The messages that were sent from here are shown with those that were delivered: all of
/// them, behind these.
pub proof fn lemma_sent_messages_are_shown(
    delivered: Seq<SummaryView>,
    messages: Seq<SummaryView>,
    records: Seq<SyncStateView>,
)
    ensures
        local::shown_sent(delivered, messages, records) matches Ok(rows) ==> rows == delivered
            + messages,
{
    if local::shown_sent(delivered, messages, records) is Ok {
        delivery::lemma_delivery_records_are_distinct(
            messages,
            records,
            DeliveryState::NeedsRemoteCopy,
        );
    }
}

/// Each message of the outbox is shown in one of the two folders, and in that one alone.
pub proof fn lemma_outbox_messages_are_shown_once(
    messages: Seq<SummaryView>,
    records: Seq<SyncStateView>,
)
    ensures
        local::shown_outbox(messages, records, true) is Ok <==> local::shown_outbox(
            messages,
            records,
            false,
        ) is Ok,
        local::shown_outbox(messages, records, true) matches Ok(waiting) ==> (local::shown_outbox(
            messages,
            records,
            false,
        ) matches Ok(done) ==> waiting.len() + done.len() == messages.len() && forall|i: int|
            0 <= i < messages.len() ==> waiting.contains(#[trigger] messages[i]) || done.contains(
                messages[i],
            )),
{
    if local::shown_outbox(messages, records, true) is Ok {
        let list = delivery::delivery_records_of(messages, records, DeliveryState::Queued)->Ok_0;
        delivery::lemma_delivery_records_are_distinct(messages, records, DeliveryState::Queued);
        crate::laws::sending::lemma_messages_are_shown_where_they_belong(list);
        assert forall|i: int| 0 <= i < messages.len() implies delivery::placed_summaries(
            list,
            true,
        ).contains(#[trigger] messages[i]) || delivery::placed_summaries(list, false).contains(
            messages[i],
        ) by {
            assert(delivery::record_summaries(list)[i] == list[i].summary);
            match list[i].state {
                DeliveryState::Queued => {},
                DeliveryState::SubmissionUncertain => {},
                DeliveryState::ProviderCopyExpected => {},
                DeliveryState::NeedsRemoteCopy => {},
            }
        }
    }
}

/// The drafts that are shown are those whose records say that they were not replaced.
pub proof fn lemma_shown_drafts_are_current(
    messages: Seq<SummaryView>,
    records: Seq<SyncStateView>,
    row: SummaryView,
)
    ensures
        local::shown_drafts(messages, records) matches Ok(rows) ==> (rows.contains(row) <==> (
        messages.contains(row) && exists|k: int|
            0 <= k < draft::drafts_of(records)->Ok_0.len() && (#[trigger] draft::drafts_of(
                records,
            )->Ok_0[k]).conversation_id == row.id)),
{
    if local::shown_drafts(messages, records) is Ok {
        let revisions = draft::drafts_of(records)->Ok_0;
        let ids = draft::current_ids(revisions);
        lemma_with_ids(messages, ids, row);
        if ids.contains(row.id) {
            let k = choose|k: int| 0 <= k < ids.len() && ids[k] == row.id;
            assert(revisions[k].conversation_id == row.id);
        }
        if exists|k: int|
            0 <= k < revisions.len() && (#[trigger] revisions[k]).conversation_id == row.id {
            let k = choose|k: int|
                0 <= k < revisions.len() && (#[trigger] revisions[k]).conversation_id == row.id;
            assert(ids[k] == row.id);
        }
    }
}

} // verus!
