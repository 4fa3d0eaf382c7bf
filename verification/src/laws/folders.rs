//! What holds of the local folders and of where they are shown.
use crate::integration::backend;
use crate::integration::backend::cache;
use crate::integration::backend::cache::InvalidationView;
use crate::integration::camel;
use crate::integration::local;
use crate::integration::local::{LocalFolder, LocalFolderNames, MailboxView};
use crate::integration::mailbox;
use crate::model::mail;
use crate::model::mail::{FolderKind, FolderView, SummaryView};
use vstd::prelude::*;

verus! {

/// The local folders have different paths, each that of the store and its own name, and
/// each is shown as a folder of its own kind.
pub proof fn lemma_local_folders_are_told_apart(parent: Seq<char>)
    ensures
        local::folder_path(parent, LocalFolder::Drafts) == parent + "/Drafts"@,
        local::folder_path(parent, LocalFolder::Outbox) == parent + "/Outbox"@,
        local::folder_path(parent, LocalFolder::Sent) == parent + "/Sent"@,
        local::kind_of(LocalFolder::Drafts) == FolderKind::Drafts,
        local::kind_of(LocalFolder::Outbox) == FolderKind::Outbox,
        local::kind_of(LocalFolder::Sent) == FolderKind::Sent,
        forall|kind: FolderKind, folder: LocalFolder|
            #![trigger local::folder_of_kind(kind), local::kind_of(folder)]
            local::folder_of_kind(kind) == Some(folder) <==> local::kind_of(folder) == kind,
{
    reveal_strlit("/Drafts");
    reveal_strlit("/Outbox");
    reveal_strlit("/Sent");
    reveal_strlit("Drafts");
    reveal_strlit("Outbox");
    reveal_strlit("Sent");
    assert(local::folder_path(parent, LocalFolder::Drafts) =~= parent + "/Drafts"@);
    assert(local::folder_path(parent, LocalFolder::Outbox) =~= parent + "/Outbox"@);
    assert(local::folder_path(parent, LocalFolder::Sent) =~= parent + "/Sent"@);
}

/// A message is a local one just where the folder that its name gives is one of the three
/// local folders.
pub proof fn lemma_which_messages_are_local(parent: Seq<char>, id: Seq<char>)
    ensures
        local::is_local(parent, id) <==> (camel::folder_of(id) == Some(parent + "/Drafts"@)
            || camel::folder_of(id) == Some(parent + "/Outbox"@) || camel::folder_of(id) == Some(
            parent + "/Sent"@,
        )),
{
    lemma_local_folders_are_told_apart(parent);
    assert(local::folder_path(parent, LocalFolder::Drafts) == parent + "/Drafts"@);
    assert(local::folder_path(parent, LocalFolder::Outbox) == parent + "/Outbox"@);
    assert(local::folder_path(parent, LocalFolder::Sent) == parent + "/Sent"@);
    if local::is_local(parent, id) {
        let folder = choose|folder: LocalFolder|
            camel::folder_of(id) == Some(#[trigger] local::folder_path(parent, folder));
        match folder {
            LocalFolder::Drafts => {},
            LocalFolder::Outbox => {},
            LocalFolder::Sent => {},
        }
    }
}

proof fn lemma_first_of_kind(folders: Seq<FolderView>, kind: FolderKind)
    ensures
        match local::first_of_kind(folders, kind) {
            Some(found) => exists|i: int|
                0 <= i < folders.len() && #[trigger] folders[i] == found && found.kind == kind
                    && forall|j: int| 0 <= j < i ==> (#[trigger] folders[j]).kind != kind,
            None => forall|i: int| 0 <= i < folders.len() ==> (#[trigger] folders[i]).kind != kind,
        },
    decreases folders.len(),
{
    if folders.len() > 0 {
        let rest = folders.drop_last();
        let last = folders.len() - 1;
        lemma_first_of_kind(rest, kind);
        assert(folders[last] == folders.last());
        match local::first_of_kind(rest, kind) {
            Some(found) => {
                let i = choose|i: int|
                    0 <= i < rest.len() && #[trigger] rest[i] == found && found.kind == kind
                        && forall|j: int| 0 <= j < i ==> (#[trigger] rest[j]).kind != kind;
                assert(folders[i] == found);
                assert forall|j: int| 0 <= j < i implies (#[trigger] folders[j]).kind != kind by {
                    assert(rest[j] == folders[j]);
                }
            },
            None => {
                assert forall|j: int| 0 <= j < last implies (#[trigger] folders[j]).kind
                    != kind by {
                    assert(rest[j] == folders[j]);
                }
            },
        }
    }
}

proof fn lemma_first_of_id(folders: Seq<FolderView>, id: Seq<char>)
    ensures
        match local::first_of_id(folders, id) {
            Some(found) => exists|i: int|
                0 <= i < folders.len() && #[trigger] folders[i] == found && found.id == id
                    && forall|j: int| 0 <= j < i ==> (#[trigger] folders[j]).id != id,
            None => forall|i: int| 0 <= i < folders.len() ==> (#[trigger] folders[i]).id != id,
        },
    decreases folders.len(),
{
    if folders.len() > 0 {
        let rest = folders.drop_last();
        let last = folders.len() - 1;
        lemma_first_of_id(rest, id);
        assert(folders[last] == folders.last());
        match local::first_of_id(rest, id) {
            Some(found) => {
                let i = choose|i: int|
                    0 <= i < rest.len() && #[trigger] rest[i] == found && found.id == id
                        && forall|j: int| 0 <= j < i ==> (#[trigger] rest[j]).id != id;
                assert(folders[i] == found);
                assert forall|j: int| 0 <= j < i implies (#[trigger] folders[j]).id != id by {
                    assert(rest[j] == folders[j]);
                }
            },
            None => {
                assert forall|j: int| 0 <= j < last implies (#[trigger] folders[j]).id != id by {
                    assert(rest[j] == folders[j]);
                }
            },
        }
    }
}

/// A local folder is shown in the first folder of its kind that is listed, and under its
/// own path where there is none.
pub proof fn lemma_where_a_local_folder_is_shown(
    folders: Seq<FolderView>,
    parent: Seq<char>,
    folder: LocalFolder,
)
    ensures
        ({
            let kind = match folder {
                LocalFolder::Drafts => FolderKind::Drafts,
                LocalFolder::Outbox => FolderKind::Outbox,
                LocalFolder::Sent => FolderKind::Sent,
            };
            let shown = local::display_id(folders, parent, folder);
            &&& forall|i: int|
                0 <= i < folders.len() && (#[trigger] folders[i]).kind == kind && (forall|j: int|
                    0 <= j < i ==> (#[trigger] folders[j]).kind != kind) ==> shown == folders[i].id
            &&& (forall|i: int| 0 <= i < folders.len() ==> (#[trigger] folders[i]).kind != kind)
                ==> shown == local::folder_path(parent, folder)
        }),
{
    let kind = local::kind_of(folder);
    lemma_first_of_kind(folders, kind);
    assert forall|i: int|
        0 <= i < folders.len() && (#[trigger] folders[i]).kind == kind && (forall|j: int|
            0 <= j < i ==> (#[trigger] folders[j]).kind != kind) implies local::display_id(
        folders,
        parent,
        folder,
    ) == folders[i].id by {
        let found = local::first_of_kind(folders, kind)->0;
        let k = choose|k: int|
            0 <= k < folders.len() && #[trigger] folders[k] == found && found.kind == kind
                && forall|j: int| 0 <= j < k ==> (#[trigger] folders[j]).kind != kind;
        if k < i {
            assert(folders[k].kind != kind);
        } else if i < k {
            assert(folders[i].kind != kind);
        }
    }
    if forall|i: int| 0 <= i < folders.len() ==> (#[trigger] folders[i]).kind != kind {
        if let Some(found) = local::first_of_kind(folders, kind) {
            let k = choose|k: int|
                0 <= k < folders.len() && #[trigger] folders[k] == found && found.kind == kind
                    && forall|j: int| 0 <= j < k ==> (#[trigger] folders[j]).kind != kind;
            assert(folders[k].kind != kind);
        }
    }
}

/// A folder that is no local one is read at the provider alone; one of a local kind is
/// read in the local folder too, and at the provider unless it is the local folder itself.
pub proof fn lemma_where_a_folder_is_read(
    folders: Seq<FolderView>,
    parent: Seq<char>,
    i: int,
)
    requires
        0 <= i < folders.len(),
        forall|j: int| 0 <= j < i ==> (#[trigger] folders[j]).id != folders[i].id,
    ensures
        ({
            let sources = backend::sources_of(folders, parent, folders[i].id);
            match folders[i].kind {
                FolderKind::Drafts => sources.local == Some(LocalFolder::Drafts) && sources.remote
                    == (folders[i].id != parent + "/Drafts"@),
                FolderKind::Outbox => sources.local == Some(LocalFolder::Outbox) && sources.remote
                    == (folders[i].id != parent + "/Outbox"@),
                FolderKind::Sent => sources.local == Some(LocalFolder::Sent) && sources.remote == (
                folders[i].id != parent + "/Sent"@),
                _ => sources.local is None && sources.remote,
            }
        }),
{
    lemma_local_folders_are_told_apart(parent);
    lemma_first_of_id(folders, folders[i].id);
    let found = local::first_of_id(folders, folders[i].id)->0;
    let k = choose|k: int|
        0 <= k < folders.len() && #[trigger] folders[k] == found && found.id == folders[i].id
            && forall|j: int| 0 <= j < k ==> (#[trigger] folders[j]).id != folders[i].id;
    if k < i {
        assert(folders[k].id != folders[i].id);
    } else if i < k {
        assert(folders[i].id != folders[i].id);
    }
}

/// A folder that is not listed is read at the provider alone.
pub proof fn lemma_unlisted_folder_is_read_at_the_provider(
    folders: Seq<FolderView>,
    parent: Seq<char>,
    id: Seq<char>,
)
    requires
        forall|j: int| 0 <= j < folders.len() ==> (#[trigger] folders[j]).id != id,
    ensures
        backend::sources_of(folders, parent, id).local is None,
        backend::sources_of(folders, parent, id).remote,
{
    lemma_first_of_id(folders, id);
    if let Some(found) = local::first_of_id(folders, id) {
        let k = choose|k: int|
            0 <= k < folders.len() && #[trigger] folders[k] == found && found.id == id
                && forall|j: int| 0 <= j < k ==> (#[trigger] folders[j]).id != id;
        assert(folders[k].id != id);
    }
}

proof fn lemma_with_unread(folders: Seq<FolderView>, id: Seq<char>, count: u32)
    ensures
        local::with_unread(folders, id, count).len() == folders.len(),
        forall|i: int|
            #![trigger folders[i]]
            #![trigger local::with_unread(folders, id, count)[i]]
            0 <= i < folders.len() ==> {
                let after = local::with_unread(folders, id, count)[i];
                &&& after.id == folders[i].id
                &&& after.name == folders[i].name
                &&& after.kind == folders[i].kind
                &&& folders[i].id != id ==> after.unread_count == folders[i].unread_count
                &&& folders[i].id == id && (forall|j: int|
                    0 <= j < i ==> (#[trigger] folders[j]).id != id) ==> after.unread_count
                    == count
            },
    decreases folders.len(),
{
    if folders.len() > 0 {
        let rest = folders.drop_last();
        let last = folders.len() - 1;
        lemma_with_unread(rest, id, count);
        let after = local::with_unread(folders, id, count);
        let before = local::with_unread(rest, id, count);
        assert forall|i: int| 0 <= i < folders.len() implies {
            &&& (#[trigger] after[i]).id == folders[i].id
            &&& after[i].name == folders[i].name
            &&& after[i].kind == folders[i].kind
            &&& folders[i].id != id ==> after[i].unread_count == folders[i].unread_count
            &&& folders[i].id == id && (forall|j: int|
                0 <= j < i ==> (#[trigger] folders[j]).id != id) ==> after[i].unread_count
                == count
        } by {
            if i < last {
                assert(rest[i] == folders[i]);
                assert(after[i] == before[i]);
                if folders[i].id == id && (forall|j: int|
                    0 <= j < i ==> (#[trigger] folders[j]).id != id) {
                    assert forall|j: int| 0 <= j < i implies (#[trigger] rest[j]).id != id by {
                        assert(rest[j] == folders[j]);
                    }
                }
            } else {
                assert(folders[i] == folders.last());
                if forall|j: int| 0 <= j < i ==> (#[trigger] folders[j]).id != id {
                    if local::has_folder(rest, id) {
                        let j = choose|j: int| 0 <= j < rest.len() && #[trigger] rest[j].id == id;
                        assert(folders[j].id != id);
                    }
                }
            }
        }
    }
}

/// Showing a local folder lists it, keeps every folder that was listed, and leaves the
/// rows of every other folder alone; the folder lists each of the rows of the local
/// folder, and the rows that it had from elsewhere.
pub proof fn lemma_local_folder_is_shown(
    shown: MailboxView,
    parent: Seq<char>,
    name: Seq<char>,
    folder: LocalFolder,
    rows: Seq<SummaryView>,
    id: Seq<char>,
    other: Seq<char>,
)
    ensures
        ({
            let place = local::display_id(shown.folders, parent, folder);
            let after = local::with_local_folder(shown, parent, name, folder, rows);
            &&& after.conversations.contains_key(place)
            &&& mail::has_id(after.conversations[place], id) <==> (mail::has_id(rows, id) || (
            shown.conversations.contains_key(place) && mail::has_id(
                shown.conversations[place],
                id,
            ) && camel::folder_of(id) != Some(local::folder_path(parent, folder))))
            &&& mail::unique_ids(after.conversations[place])
            &&& other != place ==> after.conversations.contains_key(other)
                == shown.conversations.contains_key(other)
            &&& other != place && shown.conversations.contains_key(other)
                ==> after.conversations[other] == shown.conversations[other]
            &&& local::has_folder(after.folders, place)
            &&& after.folders.len() >= shown.folders.len()
            &&& forall|i: int|
                0 <= i < shown.folders.len() ==> (#[trigger] after.folders[i]).id
                    == shown.folders[i].id && after.folders[i].name == shown.folders[i].name
                    && after.folders[i].kind == shown.folders[i].kind && (shown.folders[i].id
                    != place ==> after.folders[i].unread_count == shown.folders[i].unread_count)
            &&& after.order.contains(place) || shown.conversations.contains_key(place)
        }),
{
    let place = local::display_id(shown.folders, parent, folder);
    let path = local::folder_path(parent, folder);
    let listed = local::with_folder(shown.folders, place, name, local::kind_of(folder));
    let current = local::rows_of(shown.conversations, place);
    let projected = local::shown_in(rows, place);
    let replaced = local::with_rows(current, projected, path);
    let after = local::with_local_folder(shown, parent, name, folder, rows);
    local::lemma_replaced_rows(current, projected, path, id);
    assert(mail::has_id(projected, id) == mail::has_id(rows, id)) by {
        if mail::has_id(rows, id) {
            let i = choose|i: int| 0 <= i < rows.len() && #[trigger] rows[i].id == id;
            assert(projected[i].id == id);
        }
        if mail::has_id(projected, id) {
            let i = choose|i: int| 0 <= i < projected.len() && #[trigger] projected[i].id == id;
            assert(rows[i].id == id);
        }
    }
    lemma_with_unread(listed, place, local::unread_sum(replaced));
    assert(local::has_folder(listed, place)) by {
        if !local::has_folder(shown.folders, place) {
            assert(listed[shown.folders.len() as int].id == place);
        }
    }
    let k = choose|k: int| 0 <= k < listed.len() && #[trigger] listed[k].id == place;
    assert(after.folders[k].id == place);
    assert forall|i: int| 0 <= i < shown.folders.len() implies (#[trigger] after.folders[i]).id
        == shown.folders[i].id && after.folders[i].name == shown.folders[i].name
        && after.folders[i].kind == shown.folders[i].kind && (shown.folders[i].id != place
        ==> after.folders[i].unread_count == shown.folders[i].unread_count) by {
        assert(listed[i] == shown.folders[i]);
    }
    if !shown.conversations.contains_key(place) {
        assert(after.order[shown.order.len() as int] == place);
    }
}

/// Each row of a local folder that is shown stands in the folder in which it is shown and
/// is otherwise the message of the local folder.
pub proof fn lemma_local_rows_are_shown_as_they_are(
    rows: Seq<SummaryView>,
    place: Seq<char>,
    i: int,
)
    requires
        0 <= i < rows.len(),
    ensures
        ({
            let row = local::shown_in(rows, place)[i];
            &&& local::shown_in(rows, place).len() == rows.len()
            &&& row.folder_id == place
            &&& row.id == rows[i].id
            &&& row.subject == rows[i].subject
            &&& row.participants == rows[i].participants
            &&& row.message_count == rows[i].message_count
            &&& row.unread_count == rows[i].unread_count
            &&& row.attachment_count == rows[i].attachment_count
            &&& row.starred == rows[i].starred
            &&& row.last_updated_unix_ms == rows[i].last_updated_unix_ms
            &&& row.preview == rows[i].preview
        }),
{
}

/// An outbox in which nothing waits is not shown; one that holds a message is, and the sent
/// messages are shown in any case.
pub proof fn lemma_delivery_is_shown(
    shown: MailboxView,
    parent: Seq<char>,
    names: LocalFolderNames,
    outbox: Seq<SummaryView>,
    sent: Seq<SummaryView>,
)
    ensures
        ({
            let after = local::with_delivery(shown, parent, names, outbox, sent);
            let place = local::display_id(shown.folders, parent, LocalFolder::Outbox);
            &&& outbox.len() == 0 ==> after == local::with_local_folder(
                shown,
                parent,
                names.sent@,
                LocalFolder::Sent,
                sent,
            )
            &&& outbox.len() > 0 ==> after.conversations.contains_key(place)
            &&& outbox.len() > 0 ==> local::has_folder(after.folders, place)
        }),
{
    let place = local::display_id(shown.folders, parent, LocalFolder::Outbox);
    if outbox.len() > 0 {
        let between = local::with_local_folder(
            shown,
            parent,
            names.outbox@,
            LocalFolder::Outbox,
            outbox,
        );
        lemma_local_folder_is_shown(
            shown,
            parent,
            names.outbox@,
            LocalFolder::Outbox,
            outbox,
            Seq::empty(),
            place,
        );
        lemma_local_folder_is_shown(
            between,
            parent,
            names.sent@,
            LocalFolder::Sent,
            sent,
            Seq::empty(),
            place,
        );
        let after = local::with_delivery(shown, parent, names, outbox, sent);
        let k = choose|k: int|
            0 <= k < between.folders.len() && #[trigger] between.folders[k].id == place;
        assert(after.folders[k].id == place);
    }
}

/// Once a local folder has to be read again, the folder in which it is shown is listed
/// without unread messages and none of its rows are kept; the other folders stay.
pub proof fn lemma_outdated_folder_is_forgotten(
    before: InvalidationView,
    parent: Seq<char>,
    names: LocalFolderNames,
    folder: LocalFolder,
    other: Seq<char>,
)
    ensures
        ({
            let place = local::display_id(before.folders, parent, folder);
            let after = cache::invalidated_one(before, parent, names, folder);
            &&& after.ids == before.ids.push(place)
            &&& !after.conversations.contains_key(place)
            &&& !after.order.contains(place)
            &&& other != place ==> after.conversations.contains_key(other)
                == before.conversations.contains_key(other)
            &&& other != place && before.conversations.contains_key(other)
                ==> after.conversations[other] == before.conversations[other]
            &&& other != place ==> after.order.contains(other) == before.order.contains(other)
            &&& exists|k: int|
                0 <= k < after.folders.len() && (#[trigger] after.folders[k]).id == place
                    && after.folders[k].unread_count == 0
        }),
{
    let place = local::display_id(before.folders, parent, folder);
    let after = cache::invalidated_one(before, parent, names, folder);
    let listed = local::with_folder(
        before.folders,
        place,
        names.shown(folder),
        local::kind_of(folder),
    );
    if !local::has_folder(before.folders, place) {
        assert(listed[before.folders.len() as int].id == place);
    }
    assert(local::has_folder(listed, place));
    let k = lemma_count_is_shown(listed, place, 0);
    assert(after.folders == local::with_unread(listed, place, 0));
    assert(after.folders[k].id == place && after.folders[k].unread_count == 0);
    lemma_order_without(before.order, place, other);
    lemma_order_without(before.order, place, place);
}

proof fn lemma_count_is_shown(folders: Seq<FolderView>, id: Seq<char>, count: u32) -> (k: int)
    requires
        local::has_folder(folders, id),
    ensures
        0 <= k < local::with_unread(folders, id, count).len(),
        local::with_unread(folders, id, count)[k].id == id,
        local::with_unread(folders, id, count)[k].unread_count == count,
    decreases folders.len(),
{
    let rest = folders.drop_last();
    let after = local::with_unread(folders, id, count);
    let before = local::with_unread(rest, id, count);
    if local::has_folder(rest, id) {
        let k = lemma_count_is_shown(rest, id, count);
        assert(after[k] == before[k]);
        k
    } else {
        let i = choose|i: int| 0 <= i < folders.len() && #[trigger] folders[i].id == id;
        if i < rest.len() {
            assert(rest[i].id == id);
        }
        assert(folders.last().id == id);
        assert(after == before.push(FolderView { unread_count: count, ..folders.last() }));
        before.len() as int
    }
}

proof fn lemma_order_without(order: Seq<Seq<char>>, id: Seq<char>, other: Seq<char>)
    ensures
        mailbox::without_folder(order, id).contains(other) <==> order.contains(other) && other
            != id,
    decreases order.len(),
{
    if order.len() > 0 {
        let rest = order.drop_last();
        lemma_order_without(rest, id, other);
        assert(order =~= rest.push(order.last()));
        crate::laws::lists::lemma_pushed(rest, order.last(), other);
        crate::laws::lists::lemma_pushed(
            mailbox::without_folder(rest, id),
            order.last(),
            other,
        );
    }
}

} // verus!
