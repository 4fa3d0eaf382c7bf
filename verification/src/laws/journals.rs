//! What holds of the journal of changes, and of the account that lives in memory.
use crate::integration::backend;
use crate::integration::journal;
use crate::integration::journal::{PendingFlagsView, PendingMoveView};
use crate::integration::local;
use crate::integration::stub;
use crate::integration::stub::RecordView;
use crate::laws::lists::lemma_pushed;
use crate::model::mail::{FolderKind, SummaryView};
use crate::text;
use vstd::prelude::*;

verus! {

proof fn lemma_move_position(list: Seq<PendingMoveView>, account: Seq<char>, id: Seq<char>)
    ensures
        0 <= journal::move_position(list, account, id) <= list.len(),
        journal::move_position(list, account, id) < list.len() ==> list[journal::move_position(
            list,
            account,
            id,
        )].account == account && list[journal::move_position(list, account, id)].intent.summary.id
            == id,
        forall|j: int|
            0 <= j < journal::move_position(list, account, id) ==> !((#[trigger] list[j]).account
                == account && list[j].intent.summary.id == id),
    decreases list.len(),
{
    if list.len() > 0 {
        let rest = list.drop_last();
        lemma_move_position(rest, account, id);
        assert(list[list.len() - 1] == list.last());
        assert forall|j: int| 0 <= j < journal::move_position(list, account, id) implies !((
        #[trigger] list[j]).account == account && list[j].intent.summary.id == id) by {
            if j < rest.len() {
                assert(rest[j] == list[j]);
            }
        }
    }
}

proof fn lemma_flag_position(list: Seq<PendingFlagsView>, account: Seq<char>, id: Seq<char>)
    ensures
        0 <= journal::flag_position(list, account, id) <= list.len(),
        journal::flag_position(list, account, id) < list.len() ==> list[journal::flag_position(
            list,
            account,
            id,
        )].account == account && list[journal::flag_position(
            list,
            account,
            id,
        )].flag.conversation_id == id,
        forall|j: int|
            0 <= j < journal::flag_position(list, account, id) ==> !((#[trigger] list[j]).account
                == account && list[j].flag.conversation_id == id),
    decreases list.len(),
{
    if list.len() > 0 {
        let rest = list.drop_last();
        lemma_flag_position(rest, account, id);
        assert(list[list.len() - 1] == list.last());
        assert forall|j: int| 0 <= j < journal::flag_position(list, account, id) implies !((
        #[trigger] list[j]).account == account && list[j].flag.conversation_id == id) by {
            if j < rest.len() {
                assert(rest[j] == list[j]);
            }
        }
    }
}

/// A move that is entered stands in the journal, in the place of an earlier one of the same
/// message of the account; what is entered of other messages or accounts stays.
pub proof fn lemma_entered_move_stands(
    list: Seq<PendingMoveView>,
    pending: PendingMoveView,
    other: PendingMoveView,
)
    requires
        other.account != pending.account || other.intent.summary.id != pending.intent.summary.id,
    ensures
        journal::with_move(list, pending).contains(pending),
        journal::with_move(list, pending).contains(other) <==> list.contains(other),
        (exists|i: int|
            0 <= i < list.len() && (#[trigger] list[i]).account == pending.account
                && list[i].intent.summary.id == pending.intent.summary.id) ==> journal::with_move(
            list,
            pending,
        ).len() == list.len(),
        (forall|i: int|
            0 <= i < list.len() ==> (#[trigger] list[i]).account != pending.account
                || list[i].intent.summary.id != pending.intent.summary.id) ==> journal::with_move(
            list,
            pending,
        ) == list.push(pending),
{
    let at = journal::move_position(list, pending.account, pending.intent.summary.id);
    let after = journal::with_move(list, pending);
    lemma_move_position(list, pending.account, pending.intent.summary.id);
    lemma_pushed(list, pending, pending);
    lemma_pushed(list, pending, other);
    if at < list.len() {
        assert(after[at] == pending);
        if list.contains(other) {
            let j = choose|j: int| 0 <= j < list.len() && list[j] == other;
            assert(after[j] == other);
        }
        if after.contains(other) {
            let j = choose|j: int| 0 <= j < after.len() && after[j] == other;
            assert(j != at);
            assert(list[j] == other);
        }
    }
}

/// A mark that is entered counts, kind by kind; the kind that it does not speak of stays as
/// it was entered, and so do the marks of other messages and accounts.
pub proof fn lemma_entered_mark_stands(
    list: Seq<PendingFlagsView>,
    account: Seq<char>,
    id: Seq<char>,
    read: Option<bool>,
    starred: Option<bool>,
    other: PendingFlagsView,
)
    requires
        other.account != account || other.flag.conversation_id != id,
    ensures
        ({
            let after = journal::with_flags(list, account, id, read, starred);
            &&& exists|k: int|
                {
                    &&& 0 <= k < after.len()
                    &&& (#[trigger] after[k]).account == account
                    &&& after[k].flag.conversation_id == id
                    &&& read is Some ==> after[k].flag.read == read
                    &&& starred is Some ==> after[k].flag.starred == starred
                    &&& k < list.len() ==> list[k].account == account
                        && list[k].flag.conversation_id == id && (read is None
                        ==> after[k].flag.read == list[k].flag.read) && (starred is None
                        ==> after[k].flag.starred == list[k].flag.starred)
                    &&& k >= list.len() ==> after[k].flag.read == read && after[k].flag.starred
                        == starred
                }
            &&& after.contains(other) <==> list.contains(other)
        }),
{
    let at = journal::flag_position(list, account, id);
    let after = journal::with_flags(list, account, id, read, starred);
    lemma_flag_position(list, account, id);
    if at < list.len() {
        assert(after[at].account == account);
        if list.contains(other) {
            let j = choose|j: int| 0 <= j < list.len() && list[j] == other;
            assert(after[j] == other);
        }
        if after.contains(other) {
            let j = choose|j: int| 0 <= j < after.len() && after[j] == other;
            assert(j != at);
            assert(list[j] == other);
        }
    } else {
        assert(after[list.len() as int].account == account);
        lemma_pushed(list, after[list.len() as int], other);
    }
}

/// The entries of an account are those that were entered for it.
pub proof fn lemma_entries_of_an_account(
    moves: Seq<PendingMoveView>,
    flags: Seq<PendingFlagsView>,
    account: Seq<char>,
    pending: PendingMoveView,
    mark: PendingFlagsView,
)
    ensures
        journal::account_moves(moves, account).contains(pending) <==> moves.contains(pending)
            && pending.account == account,
        journal::account_flags(flags, account).contains(mark) <==> flags.contains(mark)
            && mark.account == account,
    decreases moves.len() + flags.len(),
{
    if moves.len() > 0 {
        let rest = moves.drop_last();
        lemma_entries_of_an_account(rest, flags, account, pending, mark);
        assert(moves =~= rest.push(moves.last()));
        lemma_pushed(rest, moves.last(), pending);
        lemma_pushed(journal::account_moves(rest, account), moves.last(), pending);
    } else if flags.len() > 0 {
        let rest = flags.drop_last();
        lemma_entries_of_an_account(moves, rest, account, pending, mark);
        assert(flags =~= rest.push(flags.last()));
        lemma_pushed(rest, flags.last(), mark);
        lemma_pushed(journal::account_flags(rest, account), flags.last(), mark);
    }
}

/// Settling takes out of the journal what was carried out for the account and nothing else:
/// of moves either those that are named or those that are not, of marks those that are
/// named.
pub proof fn lemma_settled_entries(
    moves: Seq<PendingMoveView>,
    flags: Seq<PendingFlagsView>,
    account: Seq<char>,
    ids: Seq<Seq<char>>,
    kept: bool,
    pending: PendingMoveView,
    mark: PendingFlagsView,
)
    ensures
        journal::reconciled_moves(moves, account, ids, kept).contains(pending) <==> (moves.contains(
            pending,
        ) && (pending.account == account ==> ids.contains(pending.intent.summary.id) == kept)),
        journal::reconciled_flags(flags, account, ids).contains(mark) <==> (flags.contains(mark)
            && (mark.account == account ==> !ids.contains(mark.flag.conversation_id))),
    decreases moves.len() + flags.len(),
{
    if moves.len() > 0 {
        let rest = moves.drop_last();
        lemma_settled_entries(rest, flags, account, ids, kept, pending, mark);
        assert(moves =~= rest.push(moves.last()));
        lemma_pushed(rest, moves.last(), pending);
        lemma_pushed(
            journal::reconciled_moves(rest, account, ids, kept),
            moves.last(),
            pending,
        );
    } else if flags.len() > 0 {
        let rest = flags.drop_last();
        lemma_settled_entries(moves, rest, account, ids, kept, pending, mark);
        assert(flags =~= rest.push(flags.last()));
        lemma_pushed(rest, flags.last(), mark);
        lemma_pushed(journal::reconciled_flags(rest, account, ids), flags.last(), mark);
    }
}

/// A folder of the account in memory lists the messages that are in it.
pub proof fn lemma_memory_folder_lists_its_messages(
    records: Seq<RecordView>,
    folder: Seq<char>,
    row: SummaryView,
)
    ensures
        stub::summaries_in(records, folder).contains(row) <==> exists|i: int|
            0 <= i < records.len() && (#[trigger] records[i]).summary == row && row.folder_id
                == folder,
    decreases records.len(),
{
    if records.len() > 0 {
        let rest = records.drop_last();
        let last = records.len() - 1;
        lemma_memory_folder_lists_its_messages(rest, folder, row);
        lemma_pushed(stub::summaries_in(rest, folder), records.last().summary, row);
        assert(records[last] == records.last());
        if exists|i: int|
            0 <= i < rest.len() && (#[trigger] rest[i]).summary == row && row.folder_id == folder {
            let i = choose|i: int|
                0 <= i < rest.len() && (#[trigger] rest[i]).summary == row && row.folder_id
                    == folder;
            assert(records[i].summary == row);
        }
        if exists|i: int|
            0 <= i < records.len() && (#[trigger] records[i]).summary == row && row.folder_id
                == folder {
            let i = choose|i: int|
                0 <= i < records.len() && (#[trigger] records[i]).summary == row && row.folder_id
                    == folder;
            if i < last {
                assert(rest[i].summary == row);
            }
        }
    }
}

/// A search of the account in memory finds the messages whose subject, preview, people or
/// sender hold what is searched, and no other.
pub proof fn lemma_memory_search_finds(
    records: Seq<RecordView>,
    query: Seq<char>,
    row: SummaryView,
)
    ensures
        stub::found_in(records, query).contains(row) <==> exists|i: int|
            0 <= i < records.len() && (#[trigger] records[i]).summary == row && text::occurs_in(
                text::lowercase_of(
                    backend::searched_text(records[i].summary) + " "@ + records[i].detail.from,
                ),
                text::lowercase_of(query),
            ),
    decreases records.len(),
{
    reveal_strlit(" ");
    assert(" "@ =~= seq![' ']);
    if records.len() > 0 {
        let rest = records.drop_last();
        let last = records.len() - 1;
        lemma_memory_search_finds(rest, query, row);
        lemma_pushed(stub::found_in(rest, query), records.last().summary, row);
        assert(records[last] == records.last());
        if stub::found_in(rest, query).contains(row) {
            let i = choose|i: int|
                0 <= i < rest.len() && (#[trigger] rest[i]).summary == row && text::occurs_in(
                    text::lowercase_of(
                        backend::searched_text(rest[i].summary) + " "@ + rest[i].detail.from,
                    ),
                    text::lowercase_of(query),
                );
            assert(records[i] == rest[i]);
        }
        if exists|i: int|
            0 <= i < records.len() && (#[trigger] records[i]).summary == row && text::occurs_in(
                text::lowercase_of(
                    backend::searched_text(records[i].summary) + " "@ + records[i].detail.from,
                ),
                text::lowercase_of(query),
            ) {
            let i = choose|i: int|
                0 <= i < records.len() && (#[trigger] records[i]).summary == row
                    && text::occurs_in(
                    text::lowercase_of(
                        backend::searched_text(records[i].summary) + " "@
                            + records[i].detail.from,
                    ),
                    text::lowercase_of(query),
                );
            if i < last {
                assert(rest[i] == records[i]);
            }
        }
    }
}

/// The account in memory has a folder of each standard kind, with the count of what is
/// unread in it.
pub proof fn lemma_memory_folders(records: Seq<RecordView>)
    ensures
        ({
            let folders = stub::folders_of(records);
            &&& folders.len() == 5
            &&& folders[0].kind == FolderKind::Inbox && folders[0].id == "inbox"@
            &&& folders[1].kind == FolderKind::Drafts && folders[1].id == "drafts"@
            &&& folders[2].kind == FolderKind::Sent && folders[2].id == "sent"@
            &&& folders[3].kind == FolderKind::Archive && folders[3].id == "archive"@
            &&& folders[4].kind == FolderKind::Trash && folders[4].id == "trash"@
            &&& forall|i: int|
                0 <= i < 5 ==> (#[trigger] folders[i]).unread_count == local::unread_sum(
                    stub::summaries_in(records, folders[i].id),
                )
        }),
{
}

/// A message of the account in memory is found by its name, the first where two have one.
pub proof fn lemma_memory_message_is_found(records: Seq<RecordView>, i: int)
    requires
        0 <= i < records.len(),
        forall|j: int| 0 <= j < i ==> (#[trigger] records[j]).summary.id != records[i].summary.id,
    ensures
        stub::record_of(records, records[i].summary.id) == Some(records[i]),
    decreases records.len(),
{
    let rest = records.drop_last();
    let id = records[i].summary.id;
    if i < rest.len() {
        assert(rest[i] == records[i]);
        assert forall|j: int| 0 <= j < i implies (#[trigger] rest[j]).summary.id
            != rest[i].summary.id by {
            assert(rest[j] == records[j]);
        }
        lemma_memory_message_is_found(rest, i);
    } else {
        assert forall|j: int| 0 <= j < rest.len() implies (#[trigger] rest[j]).summary.id != id by {
            assert(rest[j] == records[j]);
        }
        lemma_memory_message_is_unknown(rest, id);
        assert(records.last() == records[i]);
    }
}

/// A name that no message of the account in memory has finds nothing.
pub proof fn lemma_memory_message_is_unknown(records: Seq<RecordView>, id: Seq<char>)
    requires
        forall|j: int| 0 <= j < records.len() ==> (#[trigger] records[j]).summary.id != id,
    ensures
        stub::record_of(records, id) is None,
    decreases records.len(),
{
    if records.len() > 0 {
        let rest = records.drop_last();
        assert forall|j: int| 0 <= j < rest.len() implies (#[trigger] rest[j]).summary.id != id by {
            assert(rest[j] == records[j]);
        }
        assert(records[records.len() - 1] == records.last());
        lemma_memory_message_is_unknown(rest, id);
    }
}

} // verus!
