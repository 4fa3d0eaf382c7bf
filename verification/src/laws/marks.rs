//! What holds of the marks and moves that are noted until the provider is told of them.
use crate::integration::backend;
use crate::integration::backend::actions;
use crate::integration::backend::actions::{FlagView, MoveView};
use crate::integration::backend::projection;
use crate::integration::backend::{FlagStepView, MessageFlagChange};
use crate::integration::mailbox;
use crate::laws::lists::lemma_pushed;
use crate::model::mail;
use crate::model::mail::SummaryView;
use vstd::prelude::*;

verus! {

/// The provider is told of each mark that is noted, of its kind and of its value, and of
/// no other.
pub proof fn lemma_each_mark_is_told(flags: Seq<FlagView>, id: Seq<char>, value: bool)
    ensures
        backend::flag_steps(flags).contains(FlagStepView::SetRead(id, value)) <==> exists|i: int|
            0 <= i < flags.len() && (#[trigger] flags[i]).conversation_id == id && flags[i].read
                == Some(value),
        backend::flag_steps(flags).contains(FlagStepView::SetStarred(id, value)) <==> exists|
            i: int,
        |
            0 <= i < flags.len() && (#[trigger] flags[i]).conversation_id == id && flags[i].starred
                == Some(value),
    decreases flags.len(),
{
    if flags.len() > 0 {
        let rest = flags.drop_last();
        let flag = flags.last();
        let at = flags.len() - 1;
        let before = backend::flag_steps(rest);
        lemma_each_mark_is_told(rest, id, value);
        assert(flags[at] == flag);
        assert forall|i: int| 0 <= i < rest.len() implies #[trigger] rest[i] == flags[i] by {}
        let read = FlagStepView::SetRead(id, value);
        let starred = FlagStepView::SetStarred(id, value);
        let with_read = match flag.read {
            Some(set) => before.push(FlagStepView::SetRead(flag.conversation_id, set)),
            None => before,
        };
        if let Some(set) = flag.read {
            lemma_pushed(before, FlagStepView::SetRead(flag.conversation_id, set), read);
            lemma_pushed(before, FlagStepView::SetRead(flag.conversation_id, set), starred);
        }
        if let Some(set) = flag.starred {
            lemma_pushed(with_read, FlagStepView::SetStarred(flag.conversation_id, set), read);
            lemma_pushed(with_read, FlagStepView::SetStarred(flag.conversation_id, set), starred);
        }
        if exists|i: int|
            0 <= i < rest.len() && (#[trigger] rest[i]).conversation_id == id && rest[i].read
                == Some(value) {
            let i = choose|i: int|
                0 <= i < rest.len() && (#[trigger] rest[i]).conversation_id == id && rest[i].read
                    == Some(value);
            assert(flags[i].read == Some(value));
        }
        if exists|i: int|
            0 <= i < rest.len() && (#[trigger] rest[i]).conversation_id == id && rest[i].starred
                == Some(value) {
            let i = choose|i: int|
                0 <= i < rest.len() && (#[trigger] rest[i]).conversation_id == id && rest[i].starred
                    == Some(value);
            assert(flags[i].starred == Some(value));
        }
        if exists|i: int|
            0 <= i < flags.len() && (#[trigger] flags[i]).conversation_id == id && flags[i].read
                == Some(value) {
            let i = choose|i: int|
                0 <= i < flags.len() && (#[trigger] flags[i]).conversation_id == id && flags[i].read
                    == Some(value);
            if i < at {
                assert(rest[i].read == Some(value));
            }
        }
        if exists|i: int|
            0 <= i < flags.len() && (#[trigger] flags[i]).conversation_id == id && flags[i].starred
                == Some(value) {
            let i = choose|i: int|
                0 <= i < flags.len() && (#[trigger] flags[i]).conversation_id == id
                    && flags[i].starred == Some(value);
            if i < at {
                assert(rest[i].starred == Some(value));
            }
        }
    }
}

/// The mark of a message is the first that is noted of it.
pub proof fn lemma_mark_of_a_message(flags: Seq<FlagView>, id: Seq<char>)
    ensures
        match actions::flag_for(flags, id) {
            Some(flag) => flag.conversation_id == id && exists|i: int|
                0 <= i < flags.len() && #[trigger] flags[i] == flag && forall|j: int|
                    0 <= j < i ==> (#[trigger] flags[j]).conversation_id != id,
            None => forall|i: int|
                0 <= i < flags.len() ==> (#[trigger] flags[i]).conversation_id != id,
        },
    decreases flags.len(),
{
    if flags.len() > 0 {
        let rest = flags.drop_last();
        let at = flags.len() - 1;
        lemma_mark_of_a_message(rest, id);
        assert(flags[at] == flags.last());
        match actions::flag_for(rest, id) {
            Some(flag) => {
                let i = choose|i: int|
                    0 <= i < rest.len() && #[trigger] rest[i] == flag && forall|j: int|
                        0 <= j < i ==> (#[trigger] rest[j]).conversation_id != id;
                assert(flags[i] == flag);
                assert forall|j: int| 0 <= j < i implies (#[trigger] flags[j]).conversation_id
                    != id by {
                    assert(rest[j] == flags[j]);
                }
            },
            None => {
                assert forall|j: int| 0 <= j < at implies (#[trigger] flags[j]).conversation_id
                    != id by {
                    assert(rest[j] == flags[j]);
                }
            },
        }
    }
}

/// What was noted last of a message is what is known of it, kind by kind; the kind that it
/// does not speak of stays, and so do the marks of other messages.
pub proof fn lemma_noted_mark_is_known(
    flags: Seq<FlagView>,
    id: Seq<char>,
    read: Option<bool>,
    starred: Option<bool>,
    other: Seq<char>,
)
    ensures
        ({
            let known = actions::flag_for(actions::with_flag(flags, id, read, starred), id);
            &&& known is Some
            &&& (known->0).conversation_id == id
            &&& read is Some ==> (known->0).read == read
            &&& starred is Some ==> (known->0).starred == starred
            &&& actions::flag_for(flags, id) matches Some(old) ==> {
                &&& read is None ==> (known->0).read == old.read
                &&& starred is None ==> (known->0).starred == old.starred
            }
            &&& actions::flag_for(flags, id) is None ==> (known->0).read == read && (
            known->0).starred == starred
        }),
        other != id ==> actions::flag_for(actions::with_flag(flags, id, read, starred), other)
            == actions::flag_for(flags, other),
{
    actions::lemma_newer_mark_keeps_the_other_kind(flags, id, read, starred, id);
    actions::lemma_newer_mark_keeps_the_other_kind(flags, id, read, starred, other);
    lemma_mark_of_a_message(flags, id);
}

/// A mark that the provider was told of is settled, and one that was changed since is not.
pub proof fn lemma_told_mark_is_settled(flags: Seq<FlagView>, done: FlagView, known: FlagView)
    requires
        actions::distinct_flags(flags),
        flags.contains(known),
        known.conversation_id == done.conversation_id,
    ensures
        ({
            let left = actions::flag_for(actions::without_done(flags, done), known.conversation_id);
            &&& known.read is Some && done.read != known.read ==> left is Some && (left->0).read
                == known.read
            &&& known.starred is Some && done.starred != known.starred ==> left is Some && (
            left->0).starred == known.starred
            &&& done.read == known.read ==> left is None || (left->0).read is None
            &&& done.starred == known.starred ==> left is None || (left->0).starred is None
        }),
{
    lemma_only_mark(flags, known);
    actions::lemma_acknowledgement_settles_the_same_mark(flags, done, known.conversation_id);
}

proof fn lemma_only_mark(flags: Seq<FlagView>, known: FlagView)
    requires
        actions::distinct_flags(flags),
        flags.contains(known),
    ensures
        actions::flag_for(flags, known.conversation_id) == Some(known),
{
    lemma_mark_of_a_message(flags, known.conversation_id);
    let i = choose|i: int| 0 <= i < flags.len() && flags[i] == known;
    assert(flags[i].conversation_id == known.conversation_id);
    let found = actions::flag_for(flags, known.conversation_id)->0;
    let j = choose|j: int|
        0 <= j < flags.len() && #[trigger] flags[j] == found && forall|k: int|
            0 <= k < j ==> (#[trigger] flags[k]).conversation_id != known.conversation_id;
    if i < j {
        assert(flags[i].conversation_id != flags[j].conversation_id);
    } else if j < i {
        assert(flags[j].conversation_id != flags[i].conversation_id);
    }
}

/// Once the provider was told of the marks as they are, none of them is left; a mark that
/// it was not told of is left as it is.
pub proof fn lemma_told_marks_are_settled(
    flags: Seq<FlagView>,
    completed: Seq<FlagView>,
    known: FlagView,
)
    requires
        actions::distinct_flags(flags),
        flags.contains(known),
    ensures
        completed.contains(known) ==> actions::flag_for(
            actions::open_flags(flags, completed),
            known.conversation_id,
        ) is None,
        (forall|i: int|
            0 <= i < completed.len() ==> (#[trigger] completed[i]).conversation_id
                != known.conversation_id) ==> actions::flag_for(
            actions::open_flags(flags, completed),
            known.conversation_id,
        ) == Some(known),
{
    lemma_open_flags(flags, completed, known);
}

proof fn lemma_open_flags(flags: Seq<FlagView>, completed: Seq<FlagView>, known: FlagView)
    requires
        actions::distinct_flags(flags),
        flags.contains(known),
    ensures
        actions::distinct_flags(actions::open_flags(flags, completed)),
        actions::flag_for(
            actions::open_flags(flags, completed),
            known.conversation_id,
        ) matches Some(left) ==> (left.read is None || left.read == known.read) && (left.starred
            is None || left.starred == known.starred),
        completed.contains(known) ==> actions::flag_for(
            actions::open_flags(flags, completed),
            known.conversation_id,
        ) is None,
        (forall|i: int|
            0 <= i < completed.len() ==> (#[trigger] completed[i]).conversation_id
                != known.conversation_id) ==> actions::flag_for(
            actions::open_flags(flags, completed),
            known.conversation_id,
        ) == Some(known),
    decreases completed.len(),
{
    if completed.len() == 0 {
        lemma_only_mark(flags, known);
    } else {
        let rest = completed.drop_last();
        let done = completed.last();
        let before = actions::open_flags(flags, rest);
        lemma_open_flags(flags, rest, known);
        actions::lemma_open_flags_distinct(flags, completed);
        actions::lemma_acknowledgement_settles_the_same_mark(before, done, known.conversation_id);
        assert(completed =~= rest.push(done));
        lemma_pushed(rest, done, known);
        assert(completed[completed.len() - 1] == done);
        if forall|i: int|
            0 <= i < completed.len() ==> (#[trigger] completed[i]).conversation_id
                != known.conversation_id {
            assert forall|i: int| 0 <= i < rest.len() implies (#[trigger] rest[i]).conversation_id
                != known.conversation_id by {
                assert(rest[i] == completed[i]);
            }
        }
    }
}

/// A message shows the marks that are noted of it and is otherwise what it was.
pub proof fn lemma_marks_are_shown(summary: SummaryView, flags: Seq<FlagView>, flag: FlagView)
    requires
        actions::distinct_flags(flags),
        flags.contains(flag),
        flag.conversation_id == summary.id,
    ensures
        ({
            let shown = actions::flagged_summary(summary, flags);
            &&& flag.read == Some(true) ==> shown.unread_count == 0
            &&& flag.read == Some(false) ==> shown.unread_count == 1
            &&& flag.read is None ==> shown.unread_count == summary.unread_count
            &&& flag.starred matches Some(starred) ==> shown.starred == starred
            &&& flag.starred is None ==> shown.starred == summary.starred
            &&& shown.id == summary.id
            &&& shown.folder_id == summary.folder_id
            &&& shown.subject == summary.subject
            &&& shown.participants == summary.participants
            &&& shown.message_count == summary.message_count
            &&& shown.attachment_count == summary.attachment_count
            &&& shown.last_updated_unix_ms == summary.last_updated_unix_ms
            &&& shown.preview == summary.preview
        }),
{
    lemma_only_mark(flags, flag);
}

/// A message of which no mark is noted is shown as it is.
pub proof fn lemma_unmarked_message_is_shown_as_it_is(summary: SummaryView, flags: Seq<FlagView>)
    requires
        forall|i: int| 0 <= i < flags.len() ==> (#[trigger] flags[i]).conversation_id != summary.id,
    ensures
        actions::flagged_summary(summary, flags) == summary,
{
    lemma_mark_of_a_message(flags, summary.id);
    if let Some(flag) = actions::flag_for(flags, summary.id) {
        let i = choose|i: int|
            0 <= i < flags.len() && #[trigger] flags[i] == flag && forall|j: int|
                0 <= j < i ==> (#[trigger] flags[j]).conversation_id != summary.id;
        assert(flags[i].conversation_id != summary.id);
    }
}

/// An open message shows the marks that are noted of its conversation.
pub proof fn lemma_marks_are_shown_in_an_open_message(
    detail: mail::MessageDetail,
    flags: Seq<FlagView>,
    flag: FlagView,
)
    requires
        actions::distinct_flags(flags),
        flags.contains(flag),
        flag.conversation_id == detail.conversation_id@,
    ensures
        ({
            let shown = actions::flagged_detail(detail, flags);
            &&& flag.read == Some(true) ==> !shown.unread
            &&& flag.read == Some(false) ==> shown.unread
            &&& flag.read is None ==> shown.unread == detail.unread
            &&& flag.starred matches Some(starred) ==> shown.starred == starred
            &&& flag.starred is None ==> shown.starred == detail.starred
            &&& shown.message_id == detail.message_id
            &&& shown.conversation_id == detail.conversation_id
            &&& shown.subject == detail.subject
            &&& shown.from == detail.from
            &&& shown.to == detail.to
            &&& shown.cc == detail.cc
            &&& shown.bcc == detail.bcc
            &&& shown.reply_to == detail.reply_to
            &&& shown.date_unix_secs == detail.date_unix_secs
            &&& shown.attachments == detail.attachments
            &&& shown.body == detail.body
        }),
{
    lemma_only_mark(flags, flag);
}

/// A change of a message marks it as read or starred and leaves the rest of it alone.
pub proof fn lemma_change_marks_the_message(summary: SummaryView, change: MessageFlagChange)
    ensures
        ({
            let shown = backend::changed_summary(summary, change);
            &&& change == MessageFlagChange::Read(true) ==> shown.unread_count == 0
            &&& change == MessageFlagChange::Read(false) ==> shown.unread_count == 1
            &&& change matches MessageFlagChange::Read(_) ==> shown.starred == summary.starred
            &&& change matches MessageFlagChange::Starred(starred) ==> shown.starred == starred
                && shown.unread_count == summary.unread_count
            &&& shown.id == summary.id
            &&& shown.folder_id == summary.folder_id
            &&& shown.subject == summary.subject
            &&& shown.participants == summary.participants
            &&& shown.message_count == summary.message_count
            &&& shown.attachment_count == summary.attachment_count
            &&& shown.last_updated_unix_ms == summary.last_updated_unix_ms
            &&& shown.preview == summary.preview
        }),
{
}

/// A move that is noted is the one of its message, and the moves of other messages stay.
pub proof fn lemma_noted_move_stands(moves: Seq<MoveView>, intent: MoveView, other: MoveView)
    requires
        other.summary.id != intent.summary.id,
    ensures
        actions::with_move(moves, intent).contains(intent),
        forall|i: int|
            0 <= i < actions::with_move(moves, intent).len() && (#[trigger] actions::with_move(
                moves,
                intent,
            )[i]).summary.id == intent.summary.id ==> actions::with_move(moves, intent)[i]
                == intent,
        actions::with_move(moves, intent).contains(other) <==> moves.contains(other),
{
    let after = actions::with_move(moves, intent);
    lemma_pushed(moves, intent, intent);
    lemma_pushed(moves, intent, other);
    if actions::moves_message(moves, intent.summary.id) {
        let i = choose|i: int| 0 <= i < moves.len() && #[trigger] moves[i].summary.id
            == intent.summary.id;
        assert(after[i] == intent);
        if moves.contains(other) {
            let j = choose|j: int| 0 <= j < moves.len() && moves[j] == other;
            assert(after[j] == other);
        }
        if after.contains(other) {
            let j = choose|j: int| 0 <= j < after.len() && after[j] == other;
            assert(moves[j] == other);
        }
    } else {
        assert forall|i: int|
            0 <= i < after.len() && (#[trigger] after[i]).summary.id
                == intent.summary.id implies after[i] == intent by {
            if i < moves.len() {
                assert(moves[i].summary.id == intent.summary.id);
            }
        }
    }
}

/// A message that is to be moved is shown in the folder that it is moved to and is
/// otherwise what it was.
pub proof fn lemma_move_is_shown(summary: SummaryView, moves: Seq<MoveView>, intent: MoveView)
    requires
        actions::distinct_moves(moves),
        moves.contains(intent),
        intent.summary.id == summary.id,
    ensures
        ({
            let shown = actions::redirected_summary(summary, moves);
            &&& shown.folder_id == intent.destination
            &&& shown.id == summary.id
            &&& shown.subject == summary.subject
            &&& shown.participants == summary.participants
            &&& shown.message_count == summary.message_count
            &&& shown.unread_count == summary.unread_count
            &&& shown.attachment_count == summary.attachment_count
            &&& shown.starred == summary.starred
            &&& shown.last_updated_unix_ms == summary.last_updated_unix_ms
            &&& shown.preview == summary.preview
        }),
{
    lemma_only_move(moves, intent);
}

proof fn lemma_only_move(moves: Seq<MoveView>, intent: MoveView)
    requires
        actions::distinct_moves(moves),
        moves.contains(intent),
    ensures
        actions::move_for(moves, intent.summary.id) == Some(intent),
    decreases moves.len(),
{
    let rest = moves.drop_last();
    assert(moves =~= rest.push(moves.last()));
    lemma_pushed(rest, moves.last(), intent);
    projection::lemma_distinct_rest(moves);
    if rest.contains(intent) {
        lemma_only_move(rest, intent);
    } else {
        lemma_no_move(rest, intent.summary.id);
    }
}

proof fn lemma_no_move(moves: Seq<MoveView>, id: Seq<char>)
    requires
        !actions::moves_message(moves, id),
    ensures
        actions::move_for(moves, id) is None,
    decreases moves.len(),
{
    if moves.len() > 0 {
        projection::lemma_moves_message_last(moves, id);
        lemma_no_move(moves.drop_last(), id);
    }
}

/// A message that no move concerns is shown where it is.
pub proof fn lemma_unmoved_message_is_shown_where_it_is(
    summary: SummaryView,
    moves: Seq<MoveView>,
)
    requires
        forall|i: int| 0 <= i < moves.len() ==> (#[trigger] moves[i]).summary.id != summary.id,
    ensures
        actions::redirected_summary(summary, moves) == summary,
{
    assert(!actions::moves_message(moves, summary.id)) by {
        if actions::moves_message(moves, summary.id) {
            let i = choose|i: int| 0 <= i < moves.len() && #[trigger] moves[i].summary.id
                == summary.id;
            assert(moves[i].summary.id != summary.id);
        }
    }
    lemma_no_move(moves, summary.id);
}

/// Moving a message takes it out of every other folder and lists it in the folder that it
/// is moved to, where that is loaded; every other message stays in the folder that it is in.
pub proof fn lemma_moved_message_is_in_one_folder(
    map: Map<Seq<char>, Seq<SummaryView>>,
    order: Seq<Seq<char>>,
    intent: MoveView,
    folder: Seq<char>,
    id: Seq<char>,
)
    requires
        mailbox::consistent(map),
        mailbox::ordered_by(map, order),
        map.contains_key(folder),
    ensures
        mail::has_id(actions::moved(map, order, intent)[folder], intent.summary.id) <==> folder
            == intent.destination,
        id != intent.summary.id ==> (mail::has_id(
            actions::moved(map, order, intent)[folder],
            id,
        ) <==> mail::has_id(map[folder], id)),
{
    let moves = seq![intent];
    projection::lemma_moved_folders_fit_together(map, order, moves);
    assert(moves.drop_last() =~= Seq::empty());
    assert(actions::moved_all(map, order, moves.drop_last()) == map);
    assert(actions::moved_all(map, order, moves) == actions::moved(map, order, intent));
    let after = actions::moved_all(map, order, moves);
    assert(mail::has_id(after[folder], intent.summary.id) <==> (mail::has_id(
        map[folder],
        intent.summary.id,
    ) && !actions::moves_message(moves, intent.summary.id)) || projection::arrives(
        moves,
        intent.summary.id,
        folder,
    ));
    assert(moves[0].summary.id == intent.summary.id);
    assert(actions::moves_message(moves, intent.summary.id));
    assert(mail::has_id(after[folder], id) <==> (mail::has_id(map[folder], id)
        && !actions::moves_message(moves, id)) || projection::arrives(moves, id, folder));
    if folder == intent.destination {
        assert(projection::arrives(moves, intent.summary.id, folder));
    }
}

/// A message arrives with what was known of it where it was, in its new folder.
pub proof fn lemma_arrived_message_is_the_one_that_left(
    map: Map<Seq<char>, Seq<SummaryView>>,
    order: Seq<Seq<char>>,
    intent: MoveView,
    from: Seq<char>,
    i: int,
)
    requires
        mailbox::consistent(map),
        mailbox::ordered_by(map, order),
        map.contains_key(from),
        0 <= i < map[from].len(),
        map[from][i].id == intent.summary.id,
    ensures
        ({
            let row = actions::arrival(map, order, intent);
            &&& row.id == intent.summary.id
            &&& row.folder_id == intent.destination
            &&& row.subject == map[from][i].subject
            &&& row.participants == map[from][i].participants
            &&& row.message_count == map[from][i].message_count
            &&& row.unread_count == map[from][i].unread_count
            &&& row.attachment_count == map[from][i].attachment_count
            &&& row.starred == map[from][i].starred
            &&& row.last_updated_unix_ms == map[from][i].last_updated_unix_ms
            &&& row.preview == map[from][i].preview
        }),
{
    let id = intent.summary.id;
    assert(mail::has_id(map[from], id));
    mailbox::lemma_holder(map, order, id);
    assert(order.contains(from));
    let folder = mailbox::holder(map, order, id)->0;
    assert(map.contains_key(folder));
    assert(mail::has_id(map[folder], id));
    assert(folder == from);
    mailbox::lemma_position(map[from], id);
    let at = mailbox::position(map[from], id);
    assert(map[from][at].id == map[from][i].id);
    assert(mail::unique_ids(map[from]));
    assert(at == i);
}

} // verus!
