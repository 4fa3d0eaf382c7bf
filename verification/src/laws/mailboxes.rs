//! What holds of the folders and of the rows that are shown in them.
use crate::integration::backend;
use crate::integration::backend::actions;
use crate::integration::backend::actions::RouteView;
use crate::integration::backend::cache;
use crate::integration::backend::cache::{CacheView, InvalidationView, MoveErrorView};
use crate::integration::backend::{MessageFlagChange, RefreshEvent, RefreshStep, RemoteFolders};
use crate::integration::local;
use crate::integration::local::{LocalFolder, LocalFolderNames};
use crate::integration::mailbox;
use crate::laws::lists::{lemma_in_either, lemma_pushed};
use crate::model::mail;
use crate::model::mail::{FolderView, SummaryView};
use crate::text;
use vstd::prelude::*;

verus! {

proof fn lemma_place_of(
    map: Map<Seq<char>, Seq<SummaryView>>,
    order: Seq<Seq<char>>,
    folder: Seq<char>,
    i: int,
)
    requires
        mailbox::consistent(map),
        mailbox::ordered_by(map, order),
        map.contains_key(folder),
        0 <= i < map[folder].len(),
    ensures
        mailbox::holder(map, order, map[folder][i].id) == Some(folder),
        mailbox::position(map[folder], map[folder][i].id) == i,
{
    let id = map[folder][i].id;
    assert(mail::has_id(map[folder], id));
    mailbox::lemma_holder(map, order, id);
    assert(order.contains(folder));
    let held = mailbox::holder(map, order, id)->0;
    assert(map.contains_key(held));
    assert(mail::has_id(map[held], id));
    assert(held == folder);
    mailbox::lemma_position(map[folder], id);
    let at = mailbox::position(map[folder], id);
    assert(mail::unique_ids(map[folder]));
    assert(map[folder][at].id == map[folder][i].id);
}

/// Marking a message changes its row, in its place, and no other row of any folder.
pub proof fn lemma_mark_changes_one_row(
    map: Map<Seq<char>, Seq<SummaryView>>,
    order: Seq<Seq<char>>,
    change: MessageFlagChange,
    folder: Seq<char>,
    i: int,
    other: Seq<char>,
    j: int,
)
    requires
        mailbox::consistent(map),
        mailbox::ordered_by(map, order),
        map.contains_key(folder),
        0 <= i < map[folder].len(),
        map.contains_key(other),
        0 <= j < map[other].len(),
        other != folder || j != i,
    ensures
        ({
            let after = cache::with_change(map, order, map[folder][i].id, change);
            &&& after.dom() == map.dom()
            &&& after[folder].len() == map[folder].len()
            &&& after[other].len() == map[other].len()
            &&& after[other][j] == map[other][j]
            &&& after[folder][i].id == map[folder][i].id
            &&& after[folder][i].folder_id == map[folder][i].folder_id
            &&& after[folder][i].subject == map[folder][i].subject
            &&& match change {
                MessageFlagChange::Read(read) => after[folder][i].unread_count == (if read {
                    0u32
                } else {
                    1u32
                }) && after[folder][i].starred == map[folder][i].starred,
                MessageFlagChange::Starred(starred) => after[folder][i].starred == starred
                    && after[folder][i].unread_count == map[folder][i].unread_count,
            }
        }),
{
    lemma_place_of(map, order, folder, i);
    let after = cache::with_change(map, order, map[folder][i].id, change);
    assert(after.dom() =~= map.dom());
}

/// The unread messages of a list are those of its rows together.
pub proof fn lemma_unread_messages_add_up(list: Seq<SummaryView>, row: SummaryView)
    requires
        local::unread_sum(list) + row.unread_count <= u32::MAX,
    ensures
        local::unread_sum(Seq::empty()) == 0,
        local::unread_sum(list.push(row)) == local::unread_sum(list) + row.unread_count,
{
    let total = local::unread_total(list);
    let count = row.unread_count as nat;
    assert(list.push(row).drop_last() =~= list);
    assert((total + count) % 0x1_0000_0000 == total % 0x1_0000_0000 + count) by (nonlinear_arith)
        requires
            total % 0x1_0000_0000 + count < 0x1_0000_0000,
            total >= 0,
            count >= 0,
    {
        let q = total / 0x1_0000_0000;
        let r = total % 0x1_0000_0000;
        assert(total == q * 0x1_0000_0000 + r);
        assert(total + count == q * 0x1_0000_0000 + (r + count));
    }
}

/// A folder whose rows are kept shows how many of them are unread; any other keeps its
/// count, and all keep the rest.
pub proof fn lemma_folder_counts(
    folders: Seq<FolderView>,
    map: Map<Seq<char>, Seq<SummaryView>>,
    i: int,
)
    requires
        0 <= i < folders.len(),
    ensures
        ({
            let after = cache::counted(folders, map);
            &&& after.len() == folders.len()
            &&& after[i].id == folders[i].id
            &&& after[i].name == folders[i].name
            &&& after[i].kind == folders[i].kind
            &&& map.contains_key(folders[i].id) ==> after[i].unread_count == local::unread_sum(
                map[folders[i].id],
            )
            &&& !map.contains_key(folders[i].id) ==> after[i].unread_count
                == folders[i].unread_count
        }),
{
}

/// Where nothing is left to tell, a folder that was loaded shows the rows that were read,
/// every other shows what it showed, and a folder that was loaded before keeps its rows.
pub proof fn lemma_loaded_folder_shows_its_rows(
    kept: CacheView,
    folder: Seq<char>,
    rows: Seq<SummaryView>,
    other: Seq<char>,
)
    requires
        other != folder,
    ensures
        ({
            let nothing = RouteView { moves: Seq::empty(), flags: Seq::empty() };
            let after = cache::with_loaded(kept, folder, rows, nothing);
            &&& after.conversations.contains_key(folder)
            &&& !kept.conversations.contains_key(folder) ==> after.conversations[folder] == rows
            &&& kept.conversations.contains_key(folder) ==> after.conversations[folder]
                == kept.conversations[folder]
            &&& after.conversations.contains_key(other) == kept.conversations.contains_key(other)
            &&& kept.conversations.contains_key(other) ==> after.conversations[other]
                == kept.conversations[other]
            &&& after.revision == kept.revision
            &&& !kept.conversations.contains_key(folder) ==> after.order == kept.order.push(folder)
            &&& kept.conversations.contains_key(folder) ==> after.order == kept.order
        }),
{
    let nothing = RouteView { moves: Seq::empty(), flags: Seq::empty() };
    let map = if kept.conversations.contains_key(folder) {
        kept.conversations
    } else {
        kept.conversations.insert(folder, rows)
    };
    let after = cache::with_loaded(kept, folder, rows, nothing);
    lemma_unmarked(map[folder]);
    lemma_unmarked(map[other]);
}

proof fn lemma_unmarked(list: Seq<SummaryView>)
    ensures
        actions::flagged(list, Seq::empty()) == list,
{
    let none = Seq::<actions::FlagView>::empty();
    assert(actions::flagged(list, none) =~= list) by {
        assert forall|i: int| 0 <= i < list.len() implies actions::flagged(list, none)[i]
            == list[i] by {
            assert(actions::flag_for(none, list[i].id) is None);
        }
    }
}

/// The rows that are kept are those of all folders.
pub proof fn lemma_kept_rows(
    map: Map<Seq<char>, Seq<SummaryView>>,
    order: Seq<Seq<char>>,
    row: SummaryView,
)
    ensures
        cache::all_rows(map, order).contains(row) <==> exists|i: int|
            0 <= i < order.len() && map[#[trigger] order[i]].contains(row),
    decreases order.len(),
{
    if order.len() > 0 {
        let rest = order.drop_last();
        lemma_kept_rows(map, rest, row);
        lemma_in_either(cache::all_rows(map, rest), map[order.last()], row);
        assert(order[order.len() - 1] == order.last());
        if exists|i: int| 0 <= i < rest.len() && map[#[trigger] rest[i]].contains(row) {
            let i = choose|i: int| 0 <= i < rest.len() && map[#[trigger] rest[i]].contains(row);
            assert(map[order[i]].contains(row));
        }
        if exists|i: int| 0 <= i < order.len() && map[#[trigger] order[i]].contains(row) {
            let i = choose|i: int| 0 <= i < order.len() && map[#[trigger] order[i]].contains(row);
            if i < rest.len() {
                assert(map[rest[i]].contains(row));
            }
        }
    }
}

/// Of the rows those are found that match.
pub proof fn lemma_matching_rows_are_found(
    rows: Seq<SummaryView>,
    query: Seq<char>,
    row: SummaryView,
)
    ensures
        cache::found_rows(rows, query).contains(row) <==> rows.contains(row)
            && backend::matches_query(row, query),
    decreases rows.len(),
{
    if rows.len() > 0 {
        let rest = rows.drop_last();
        lemma_matching_rows_are_found(rest, query, row);
        assert(rows =~= rest.push(rows.last()));
        lemma_pushed(rest, rows.last(), row);
        lemma_pushed(cache::found_rows(rest, query), rows.last(), row);
    }
}

/// The subject, the preview and each participant of a message are searched.
pub proof fn lemma_what_is_searched(row: SummaryView, i: int)
    ensures
        text::occurs_in(backend::searched_text(row), row.subject),
        text::occurs_in(backend::searched_text(row), row.preview),
        0 <= i < row.participants.len() ==> text::occurs_in(
            backend::searched_text(row),
            row.participants[i],
        ),
{
    let blank = seq![' '];
    let names = text::joined(row.participants, blank);
    let all = backend::searched_text(row);
    let n = row.subject.len() as int;
    let m = row.preview.len() as int;
    assert(all.subrange(0, n) =~= row.subject);
    assert(text::stands_at(all, row.subject, 0));
    assert(all.subrange(n + 1, n + 1 + m) =~= row.preview);
    assert(text::stands_at(all, row.preview, n + 1));
    if 0 <= i < row.participants.len() {
        let at = lemma_joined_part(row.participants, blank, i);
        let name = row.participants[i];
        let start = n + 1 + m + 1 + at;
        assert(all.subrange(start, start + name.len()) =~= names.subrange(at, at + name.len()));
        assert(text::stands_at(all, name, start));
    }
}

proof fn lemma_joined_part(parts: Seq<Seq<char>>, separator: Seq<char>, i: int) -> (at: int)
    requires
        0 <= i < parts.len(),
    ensures
        text::stands_at(text::joined(parts, separator), parts[i], at),
    decreases parts.len(),
{
    let all = text::joined(parts, separator);
    if parts.len() == 1 {
        assert(all.subrange(0, all.len() as int) =~= all);
        0
    } else {
        let rest = parts.drop_last();
        let before = text::joined(rest, separator);
        if i < rest.len() {
            assert(rest[i] == parts[i]);
            let at = lemma_joined_part(rest, separator, i);
            assert(all.subrange(at, at + parts[i].len()) =~= before.subrange(
                at,
                at + parts[i].len(),
            ));
            at
        } else {
            let at = (before.len() + separator.len()) as int;
            assert(all.subrange(at, at + parts[i].len()) =~= parts[i]);
            at
        }
    }
}

/// A search shows each message once that the provider, the local folders or the kept rows
/// have for it, and no other, the newest first.
pub proof fn lemma_search_shows_what_was_found(
    kept: CacheView,
    left: RouteView,
    query: Seq<char>,
    remote: Seq<SummaryView>,
    local: Seq<SummaryView>,
    id: Seq<char>,
)
    ensures
        ({
            let found = backend::search_results(kept, left, query, remote, local);
            let known = cache::found_rows(
                cache::all_rows(kept.conversations, kept.order),
                text::lowercase_of(query),
            );
            &&& mail::has_id(found, id) <==> mail::has_id(remote, id) || mail::has_id(local, id)
                || mail::has_id(known, id)
            &&& mail::unique_ids(found)
            &&& forall|i: int, j: int|
                #![trigger found[i], found[j]]
                0 <= i < j < found.len() ==> found[i].last_updated_unix_ms
                    >= found[j].last_updated_unix_ms
        }),
{
    let known = cache::found_rows(
        cache::all_rows(kept.conversations, kept.order),
        text::lowercase_of(query),
    );
    let all = remote + local + known;
    let moved = actions::redirected(all, left.moves);
    let marked = actions::flagged(moved, left.flags);
    let once = mail::first_of_each(marked);
    backend::projection::lemma_has_id_concat(remote + local, known, id);
    backend::projection::lemma_has_id_concat(remote, local, id);
    assert(mail::has_id(marked, id) == mail::has_id(all, id)) by {
        assert forall|i: int| 0 <= i < all.len() implies (#[trigger] marked[i]).id
            == all[i].id by {
            assert(moved[i].id == all[i].id);
        }
        if mail::has_id(all, id) {
            let i = choose|i: int| 0 <= i < all.len() && #[trigger] all[i].id == id;
            assert(marked[i].id == id);
        }
        if mail::has_id(marked, id) {
            let i = choose|i: int| 0 <= i < marked.len() && #[trigger] marked[i].id == id;
            assert(all[i].id == id);
        }
    }
    mail::lemma_first_of_each_ids(marked);
    assert(mail::has_id(once, id) == mail::has_id(marked, id));
    mail::lemma_ranked_ids(once);
    assert(mail::has_id(mail::ranked(once), id) == mail::has_id(once, id));
    mail::lemma_ranked_is_a_stable_sort(once);
    let found = mail::ranked(once);
    assert forall|i: int, j: int|
        #![trigger found[i], found[j]]
        0 <= i < j < found.len() implies found[i].last_updated_unix_ms
        >= found[j].last_updated_unix_ms by {
        assert(!mail::ranks_above(found[j], found[i]));
    }
}

/// A message can be moved just where it is no local message, its row is kept and the
/// folders list the one that it goes to; it is then moved to that folder.
pub proof fn lemma_which_messages_can_be_moved(
    parent: Seq<char>,
    kept: CacheView,
    folder: Seq<char>,
    from: Seq<char>,
    i: int,
)
    requires
        mailbox::consistent(kept.conversations),
        mailbox::ordered_by(kept.conversations, kept.order),
        kept.conversations.contains_key(from),
        0 <= i < kept.conversations[from].len(),
    ensures
        ({
            let row = kept.conversations[from][i];
            match backend::move_of(parent, kept, row.id, folder) {
                Ok(intent) => {
                    &&& intent.destination == folder
                    &&& intent.summary == row
                    &&& !local::is_local(parent, row.id)
                    &&& kept.folders is Some
                    &&& exists|k: int|
                        0 <= k < kept.folders->0.len() && (#[trigger] kept.folders->0[k]).id
                            == folder
                },
                Err(MoveErrorView::LocalMessage) => local::is_local(parent, row.id),
                Err(MoveErrorView::NoFolders) => kept.folders is None,
                Err(MoveErrorView::UnknownDestination(id)) => id == folder && kept.folders is Some
                    && forall|k: int|
                    0 <= k < kept.folders->0.len() ==> (#[trigger] kept.folders->0[k]).id != folder,
                Err(MoveErrorView::UnknownConversation(_)) => false,
            }
        }),
{
    lemma_place_of(kept.conversations, kept.order, from, i);
}

/// The step of a refresh after `n` steps.
pub open spec fn refresh_step(
    events: Seq<RefreshEvent>,
    remotes: Seq<RemoteFolders>,
    n: int,
) -> RefreshStep
    decreases n,
{
    if n <= 0 {
        RefreshStep::SubmitOutbox
    } else {
        refresh_step(events, remotes, n - 1).after(events[n - 1], remotes[n - 1])
    }
}

/// Whether the step `step` was among the first `n`, and did not fail.
pub open spec fn refresh_did(
    events: Seq<RefreshEvent>,
    remotes: Seq<RemoteFolders>,
    n: int,
    step: RefreshStep,
) -> bool {
    exists|k: int|
        0 <= k < n && events[k] !is Failed && #[trigger] refresh_step(events, remotes, k) == step
}

spec fn always_taken(step: RefreshStep) -> bool {
    step !is RefreshSent && step !is RefreshDrafts && step !is RelistAfterDrafts
        && step !is Refreshed && step !is Failed
}

proof fn lemma_refresh_did_all_before(
    events: Seq<RefreshEvent>,
    remotes: Seq<RemoteFolders>,
    n: int,
    step: RefreshStep,
)
    requires
        0 <= n <= events.len(),
        always_taken(step),
        refresh_step(events, remotes, n) !is Failed,
        step.rank() < refresh_step(events, remotes, n).rank(),
    ensures
        refresh_did(events, remotes, n, step),
    decreases n,
{
    if n > 0 {
        let current = refresh_step(events, remotes, n - 1);
        if current == step {
            assert(refresh_step(events, remotes, n - 1) == step);
        } else {
            lemma_refresh_did_all_before(events, remotes, n - 1, step);
            let k = choose|k: int|
                0 <= k < n - 1 && events[k] !is Failed && #[trigger] refresh_step(
                    events,
                    remotes,
                    k,
                ) == step;
            assert(refresh_step(events, remotes, k) == step);
        }
    }
}

/// A refresh that came to its end has submitted the outbox, has told the provider of the
/// marks and the moves, has read the folders again, has brought the sent messages and the
/// drafts in line, and has published what it listed. None of these steps failed.
pub proof fn lemma_refresh_does_everything(
    events: Seq<RefreshEvent>,
    remotes: Seq<RemoteFolders>,
    n: int,
)
    requires
        0 <= n <= events.len(),
        refresh_step(events, remotes, n) is Refreshed,
    ensures
        refresh_did(events, remotes, n, RefreshStep::SubmitOutbox),
        refresh_did(events, remotes, n, RefreshStep::ListFolders),
        refresh_did(events, remotes, n, RefreshStep::PrepareFolders),
        refresh_did(events, remotes, n, RefreshStep::ReplayFlags),
        refresh_did(events, remotes, n, RefreshStep::Synchronize),
        refresh_did(events, remotes, n, RefreshStep::AcknowledgeFlags),
        refresh_did(events, remotes, n, RefreshStep::FlushMoves),
        refresh_did(events, remotes, n, RefreshStep::RefreshFolders),
        refresh_did(events, remotes, n, RefreshStep::RelistFolders),
        refresh_did(events, remotes, n, RefreshStep::SynchronizeDelivery),
        refresh_did(events, remotes, n, RefreshStep::ReplayDrafts),
        refresh_did(events, remotes, n, RefreshStep::ListConversations),
        refresh_did(events, remotes, n, RefreshStep::Publish),
{
    lemma_refresh_did_all_before(events, remotes, n, RefreshStep::SubmitOutbox);
    lemma_refresh_did_all_before(events, remotes, n, RefreshStep::ListFolders);
    lemma_refresh_did_all_before(events, remotes, n, RefreshStep::PrepareFolders);
    lemma_refresh_did_all_before(events, remotes, n, RefreshStep::ReplayFlags);
    lemma_refresh_did_all_before(events, remotes, n, RefreshStep::Synchronize);
    lemma_refresh_did_all_before(events, remotes, n, RefreshStep::AcknowledgeFlags);
    lemma_refresh_did_all_before(events, remotes, n, RefreshStep::FlushMoves);
    lemma_refresh_did_all_before(events, remotes, n, RefreshStep::RefreshFolders);
    lemma_refresh_did_all_before(events, remotes, n, RefreshStep::RelistFolders);
    lemma_refresh_did_all_before(events, remotes, n, RefreshStep::SynchronizeDelivery);
    lemma_refresh_did_all_before(events, remotes, n, RefreshStep::ReplayDrafts);
    lemma_refresh_did_all_before(events, remotes, n, RefreshStep::ListConversations);
    lemma_refresh_did_all_before(events, remotes, n, RefreshStep::Publish);
}

/// Marks are settled only once the provider was told of them, moves are carried out only
/// after that, and the folders are read only after the moves; nothing is published before
/// all of this.
pub proof fn lemma_refresh_keeps_its_order(
    events: Seq<RefreshEvent>,
    remotes: Seq<RemoteFolders>,
    n: int,
)
    requires
        0 <= n <= events.len(),
    ensures
        refresh_step(events, remotes, n) is AcknowledgeFlags ==> refresh_did(
            events,
            remotes,
            n,
            RefreshStep::ReplayFlags,
        ) && refresh_did(events, remotes, n, RefreshStep::Synchronize),
        refresh_step(events, remotes, n) is FlushMoves ==> refresh_did(
            events,
            remotes,
            n,
            RefreshStep::Synchronize,
        ),
        refresh_step(events, remotes, n) is RefreshFolders ==> refresh_did(
            events,
            remotes,
            n,
            RefreshStep::FlushMoves,
        ),
        refresh_step(events, remotes, n) is SynchronizeDelivery ==> refresh_did(
            events,
            remotes,
            n,
            RefreshStep::SubmitOutbox,
        ) && refresh_did(events, remotes, n, RefreshStep::RefreshFolders),
        refresh_step(events, remotes, n) is ReplayDrafts ==> refresh_did(
            events,
            remotes,
            n,
            RefreshStep::SynchronizeDelivery,
        ),
        refresh_step(events, remotes, n) is ListConversations ==> refresh_did(
            events,
            remotes,
            n,
            RefreshStep::ReplayDrafts,
        ),
{
    match refresh_step(events, remotes, n) {
        RefreshStep::AcknowledgeFlags => {
            lemma_refresh_did_all_before(events, remotes, n, RefreshStep::ReplayFlags);
            lemma_refresh_did_all_before(events, remotes, n, RefreshStep::Synchronize);
        },
        RefreshStep::FlushMoves => {
            lemma_refresh_did_all_before(events, remotes, n, RefreshStep::Synchronize);
        },
        RefreshStep::RefreshFolders => {
            lemma_refresh_did_all_before(events, remotes, n, RefreshStep::FlushMoves);
        },
        RefreshStep::SynchronizeDelivery => {
            lemma_refresh_did_all_before(events, remotes, n, RefreshStep::SubmitOutbox);
            lemma_refresh_did_all_before(events, remotes, n, RefreshStep::RefreshFolders);
        },
        RefreshStep::ReplayDrafts => {
            lemma_refresh_did_all_before(events, remotes, n, RefreshStep::SynchronizeDelivery);
        },
        RefreshStep::ListConversations => {
            lemma_refresh_did_all_before(events, remotes, n, RefreshStep::ReplayDrafts);
        },
        _ => {},
    }
}

/// Where sent messages or drafts changed at the provider, the folder that holds them is
/// read again before anything else, if the provider has one; after drafts the folders are
/// listed again.
pub proof fn lemma_changed_folders_are_read_again(
    events: Seq<RefreshEvent>,
    remotes: Seq<RemoteFolders>,
    n: int,
)
    requires
        0 <= n,
    ensures
        refresh_step(events, remotes, n) is SynchronizeDelivery && events[n] is RemoteChanged
            && remotes[n].sent ==> refresh_step(events, remotes, n + 1) is RefreshSent,
        refresh_step(events, remotes, n) is ReplayDrafts && events[n] is RemoteChanged
            && remotes[n].drafts ==> refresh_step(events, remotes, n + 1) is RefreshDrafts,
        refresh_step(events, remotes, n) is RefreshDrafts && events[n] !is Failed ==> refresh_step(
            events,
            remotes,
            n + 1,
        ) is RelistAfterDrafts,
        refresh_step(events, remotes, n + 1) is RefreshSent ==> events[n] is RemoteChanged
            && remotes[n].sent,
        refresh_step(events, remotes, n + 1) is RefreshDrafts ==> events[n] is RemoteChanged
            && remotes[n].drafts,
{
}

/// A step that fails ends the refresh, and a refresh of which no step fails comes to its
/// end.
pub proof fn lemma_refresh_ends(events: Seq<RefreshEvent>, remotes: Seq<RemoteFolders>, n: int)
    requires
        0 <= n,
    ensures
        refresh_step(events, remotes, n) !is Refreshed && events[n] is Failed ==> refresh_step(
            events,
            remotes,
            n + 1,
        ) is Failed,
        n >= 16 && (forall|k: int| 0 <= k < n ==> (#[trigger] events[k]) !is Failed)
            ==> refresh_step(events, remotes, n) is Refreshed,
{
    if n >= 16 && (forall|k: int| 0 <= k < n ==> (#[trigger] events[k]) !is Failed) {
        lemma_refresh_advances(events, remotes, n);
    }
}

proof fn lemma_refresh_advances(events: Seq<RefreshEvent>, remotes: Seq<RemoteFolders>, n: int)
    requires
        0 <= n,
        forall|k: int| 0 <= k < n ==> (#[trigger] events[k]) !is Failed,
    ensures
        refresh_step(events, remotes, n) !is Failed,
        refresh_step(events, remotes, n) is Refreshed || refresh_step(events, remotes, n).rank()
            >= n,
    decreases n,
{
    if n > 0 {
        lemma_refresh_advances(events, remotes, n - 1);
        assert(events[n - 1] !is Failed);
    }
}

/// A local change shows the rows that it leaves, gives the mailbox another revision, and
/// keeps the folders that are listed, with the counts of these rows.
pub proof fn lemma_local_change_is_shown(
    kept: CacheView,
    map: Map<Seq<char>, Seq<SummaryView>>,
    i: int,
)
    ensures
        ({
            let after = cache::changed(kept, map);
            &&& after.conversations == map
            &&& after.order == kept.order
            &&& after.revision != kept.revision
            &&& kept.revision < u64::MAX ==> after.revision == kept.revision + 1
            &&& after.folders is Some <==> kept.folders is Some
            &&& kept.folders matches Some(folders) ==> (after.folders->0).len() == folders.len()
                && (0 <= i < folders.len() ==> (after.folders->0)[i].id == folders[i].id && (
            map.contains_key(folders[i].id) ==> (after.folders->0)[i].unread_count
                == local::unread_sum(map[folders[i].id])))
        }),
{
}

/// What is published is shown as it was listed, with the counts of the rows.
pub proof fn lemma_published_mailbox_is_shown(
    folders: Seq<FolderView>,
    map: Map<Seq<char>, Seq<SummaryView>>,
    order: Seq<Seq<char>>,
    revision: u64,
    i: int,
)
    requires
        0 <= i < folders.len(),
    ensures
        ({
            let after = cache::published(folders, map, order, revision);
            &&& after.conversations == map
            &&& after.order == order
            &&& after.revision == revision
            &&& after.folders is Some
            &&& (after.folders->0).len() == folders.len()
            &&& (after.folders->0)[i].id == folders[i].id
            &&& (after.folders->0)[i].name == folders[i].name
            &&& map.contains_key(folders[i].id) ==> (after.folders->0)[i].unread_count
                == local::unread_sum(map[folders[i].id])
        }),
{
}

/// Of the folders that have to be read again none has rows any more, and each is named.
pub proof fn lemma_outdated_folders_are_forgotten(
    start: InvalidationView,
    parent: Seq<char>,
    names: LocalFolderNames,
    folders: Seq<LocalFolder>,
    k: int,
)
    requires
        start.ids.len() <= k < start.ids.len() + folders.len(),
    ensures
        ({
            let after = cache::invalidated(start, parent, names, folders);
            &&& after.ids.len() == start.ids.len() + folders.len()
            &&& !after.conversations.contains_key(after.ids[k])
            &&& forall|id: Seq<char>| #[trigger]
                after.conversations.contains_key(id) ==> start.conversations.contains_key(id)
                    && after.conversations[id] == start.conversations[id]
        }),
    decreases folders.len(),
{
    let rest = folders.drop_last();
    let before = cache::invalidated(start, parent, names, rest);
    if rest.len() > 0 {
        if k < start.ids.len() + rest.len() {
            lemma_outdated_folders_are_forgotten(start, parent, names, rest, k);
        } else {
            lemma_outdated_folders_are_forgotten(start, parent, names, rest, k - 1);
        }
    }
}

/// What waits to be told is counted, action by action.
pub proof fn lemma_waiting_actions_are_counted(
    entries: Seq<actions::EntryView>,
    entry: actions::EntryView,
)
    ensures
        actions::action_count(Seq::empty()) == 0,
        actions::action_count(entries.push(entry)) == actions::action_count(entries)
            + entry.actions.moves.len() + entry.actions.flags.len(),
{
    assert(entries.push(entry).drop_last() =~= entries);
}

/// What is shown of a mailbox is what the moves leave, row by row, with the marks.
pub proof fn lemma_overlaid_rows(
    map: Map<Seq<char>, Seq<SummaryView>>,
    order: Seq<Seq<char>>,
    left: RouteView,
    folder: Seq<char>,
    i: int,
)
    requires
        map.contains_key(folder),
        actions::moved_all(map, order, left.moves).contains_key(folder),
        0 <= i < actions::moved_all(map, order, left.moves)[folder].len(),
    ensures
        actions::overlaid(map, order, left).contains_key(folder),
        actions::overlaid(map, order, left)[folder].len() == actions::moved_all(
            map,
            order,
            left.moves,
        )[folder].len(),
        actions::overlaid(map, order, left)[folder][i] == actions::flagged_summary(
            actions::moved_all(map, order, left.moves)[folder][i],
            left.flags,
        ),
{
}

/// A folder that was loaded is shown with what is left to tell, and so are all that were
/// loaded before.
pub proof fn lemma_loaded_folder_shows_what_is_left(
    kept: CacheView,
    folder: Seq<char>,
    rows: Seq<SummaryView>,
    left: RouteView,
)
    requires
        !kept.conversations.contains_key(folder),
    ensures
        cache::with_loaded(kept, folder, rows, left).conversations == actions::overlaid(
            kept.conversations.insert(folder, rows),
            kept.order.push(folder),
            left,
        ),
{
}

/// What a search shows of a message is what was found of it, in the folder that it is
/// moved to and with the marks that are noted.
pub proof fn lemma_search_shows_marks_and_moves(
    kept: CacheView,
    left: RouteView,
    query: Seq<char>,
    remote: Seq<SummaryView>,
    local: Seq<SummaryView>,
    k: int,
)
    requires
        0 <= k < backend::search_results(kept, left, query, remote, local).len(),
    ensures
        ({
            let shown = backend::search_results(kept, left, query, remote, local)[k];
            let known = cache::found_rows(
                cache::all_rows(kept.conversations, kept.order),
                text::lowercase_of(query),
            );
            let all = remote + local + known;
            exists|i: int|
                0 <= i < all.len() && shown == actions::flagged_summary(
                    actions::redirected_summary(#[trigger] all[i], left.moves),
                    left.flags,
                ) && forall|j: int| 0 <= j < i ==> (#[trigger] all[j]).id != shown.id
        }),
{
    let known = cache::found_rows(
        cache::all_rows(kept.conversations, kept.order),
        text::lowercase_of(query),
    );
    let all = remote + local + known;
    let moved = actions::redirected(all, left.moves);
    let marked = actions::flagged(moved, left.flags);
    let once = mail::first_of_each(marked);
    let found = mail::ranked(once);
    let shown = found[k];
    assert(found.contains(shown));
    mail::lemma_ranked_contains(once, shown);
    let n = choose|n: int| 0 <= n < once.len() && once[n] == shown;
    let i = lemma_first_row(marked, n);
    assert forall|j: int| 0 <= j < marked.len() implies (#[trigger] marked[j]).id == all[j].id by {
        assert(moved[j].id == all[j].id);
    }
    assert(shown == actions::flagged_summary(
        actions::redirected_summary(all[i], left.moves),
        left.flags,
    ));
    assert forall|j: int| 0 <= j < i implies (#[trigger] all[j]).id != shown.id by {
        assert(marked[j].id != shown.id);
    }
}

proof fn lemma_first_row(list: Seq<SummaryView>, n: int) -> (i: int)
    requires
        0 <= n < mail::first_of_each(list).len(),
    ensures
        0 <= i < list.len(),
        list[i] == mail::first_of_each(list)[n],
        forall|j: int| 0 <= j < i ==> (#[trigger] list[j]).id != list[i].id,
    decreases list.len(),
{
    let rest = list.drop_last();
    let kept = mail::first_of_each(rest);
    if n < kept.len() {
        let i = lemma_first_row(rest, n);
        assert(list[i] == rest[i]);
        assert forall|j: int| 0 <= j < i implies (#[trigger] list[j]).id != list[i].id by {
            assert(rest[j] == list[j]);
        }
        i
    } else {
        let last = list.len() - 1;
        mail::lemma_first_of_each_ids(rest);
        assert(mail::has_id(kept, list.last().id) == mail::has_id(rest, list.last().id));
        assert forall|j: int| 0 <= j < last implies (#[trigger] list[j]).id != list[last].id by {
            if list[j].id == list[last].id {
                assert(rest[j].id == list.last().id);
            }
        }
        last
    }
}

} // verus!
