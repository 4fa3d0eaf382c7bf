//! Changes of messages that the provider has not been told of yet.
//!
//! Until the provider knows of a change, what is shown of the mailbox is overlaid with
//! it. A change belongs to the way to an account on which it was made.
use crate::integration::account;
use crate::integration::account::{BindingView, EdsAccountBinding};
use crate::integration::mailbox;
use crate::integration::mailbox::MailboxConversations;
use crate::model::mail;
use crate::model::mail::{
    ConversationId, ConversationSummary, FolderId, MessageDetail, SummaryView,
};
use vstd::prelude::*;

verus! {

/// A message is to be moved.
#[derive(Debug, PartialEq, Eq)]
pub struct MoveIntent {
    pub destination_folder_id: FolderId,
    pub summary: ConversationSummary,
}

/// A message is to be moved, as a value.
#[verifier::ext_equal]
pub struct MoveView {
    pub destination: Seq<char>,
    pub summary: SummaryView,
}

impl View for MoveIntent {
    type V = MoveView;

    open spec fn view(&self) -> MoveView {
        MoveView { destination: self.destination_folder_id@, summary: self.summary@ }
    }
}

impl Clone for MoveIntent {
    fn clone(&self) -> (r: Self)
        ensures
            r@ == self@,
    {
        MoveIntent {
            destination_folder_id: self.destination_folder_id.clone(),
            summary: self.summary.clone(),
        }
    }
}

/// The values of a list of moves.
pub open spec fn move_views(list: Seq<MoveIntent>) -> Seq<MoveView> {
    list.map_values(|intent: MoveIntent| intent@)
}

/// A message is to be marked as read or unread, or as starred or not.
#[derive(Debug, PartialEq, Eq)]
pub struct MessageFlagIntent {
    pub conversation_id: ConversationId,
    pub read: Option<bool>,
    pub starred: Option<bool>,
}

/// A message is to be marked, as a value.
#[verifier::ext_equal]
pub struct FlagView {
    pub conversation_id: Seq<char>,
    pub read: Option<bool>,
    pub starred: Option<bool>,
}

impl View for MessageFlagIntent {
    type V = FlagView;

    open spec fn view(&self) -> FlagView {
        FlagView {
            conversation_id: self.conversation_id@,
            read: self.read,
            starred: self.starred,
        }
    }
}

impl Clone for MessageFlagIntent {
    fn clone(&self) -> (r: Self)
        ensures
            r@ == self@,
    {
        MessageFlagIntent {
            conversation_id: self.conversation_id.clone(),
            read: self.read,
            starred: self.starred,
        }
    }
}

/// The values of a list of marks.
pub open spec fn flag_views(list: Seq<MessageFlagIntent>) -> Seq<FlagView> {
    list.map_values(|intent: MessageFlagIntent| intent@)
}

/// A copy of a list of moves.
pub fn clone_moves(list: &Vec<MoveIntent>) -> (r: Vec<MoveIntent>)
    ensures
        move_views(r@) == move_views(list@),
{
    let mut r: Vec<MoveIntent> = Vec::new();
    let mut i: usize = 0;
    assert(move_views(r@) =~= move_views(list@).take(0));
    while i < list.len()
        invariant
            i <= list.len(),
            move_views(r@) == move_views(list@).take(i as int),
        decreases list.len() - i,
    {
        let ghost before = move_views(r@);
        r.push(list[i].clone());
        proof {
            assert(move_views(r@) =~= before.push(list@[i as int]@));
            assert(move_views(list@).take(i + 1) =~= before.push(list@[i as int]@));
        }
        i += 1;
    }
    assert(move_views(list@).take(i as int) =~= move_views(list@));
    r
}

/// A copy of a list of marks.
pub fn clone_flags(list: &Vec<MessageFlagIntent>) -> (r: Vec<MessageFlagIntent>)
    ensures
        flag_views(r@) == flag_views(list@),
{
    let mut r: Vec<MessageFlagIntent> = Vec::new();
    let mut i: usize = 0;
    assert(flag_views(r@) =~= flag_views(list@).take(0));
    while i < list.len()
        invariant
            i <= list.len(),
            flag_views(r@) == flag_views(list@).take(i as int),
        decreases list.len() - i,
    {
        let ghost before = flag_views(r@);
        r.push(list[i].clone());
        proof {
            assert(flag_views(r@) =~= before.push(list@[i as int]@));
            assert(flag_views(list@).take(i + 1) =~= before.push(list@[i as int]@));
        }
        i += 1;
    }
    assert(flag_views(list@).take(i as int) =~= flag_views(list@));
    r
}

/// What the provider has not been told of on one way to an account.
#[verifier::ext_equal]
pub struct RouteView {
    pub moves: Seq<MoveView>,
    pub flags: Seq<FlagView>,
}

impl RouteView {
    /// Whether the provider knows of everything.
    pub open spec fn is_empty(self) -> bool {
        self.moves.len() == 0 && self.flags.len() == 0
    }
}

/// Nothing is left to tell.
pub open spec fn no_actions() -> RouteView {
    RouteView { moves: Seq::empty(), flags: Seq::empty() }
}

/// What is left to tell on one way to an account.
#[verifier::ext_equal]
pub struct EntryView {
    pub route: BindingView,
    pub actions: RouteView,
}

/// What is left to tell on one way to an account.
#[derive(Debug)]
struct RouteActions {
    route: EdsAccountBinding,
    moves: Vec<MoveIntent>,
    flags: Vec<MessageFlagIntent>,
}

impl View for RouteActions {
    type V = EntryView;

    closed spec fn view(&self) -> EntryView {
        EntryView {
            route: self.route@,
            actions: RouteView { moves: move_views(self.moves@), flags: flag_views(self.flags@) },
        }
    }
}

spec fn entry_views(list: Seq<RouteActions>) -> Seq<EntryView> {
    list.map_values(|entry: RouteActions| entry@)
}

/// The changes that the provider has not been told of yet.
#[derive(Debug)]
pub struct MessageActionQueue {
    routes: Vec<RouteActions>,
}

impl View for MessageActionQueue {
    type V = Seq<EntryView>;

    closed spec fn view(&self) -> Seq<EntryView> {
        entry_views(self.routes@)
    }
}

/// What is left to tell on `route`.
pub open spec fn actions_of(entries: Seq<EntryView>, route: BindingView) -> RouteView
    decreases entries.len(),
{
    if entries.len() == 0 {
        no_actions()
    } else if has_route(entries.drop_last(), route) {
        actions_of(entries.drop_last(), route)
    } else if entries.last().route == route {
        entries.last().actions
    } else {
        no_actions()
    }
}

/// Whether something is noted for `route`.
pub open spec fn has_route(entries: Seq<EntryView>, route: BindingView) -> bool {
    exists|i: int| 0 <= i < entries.len() && #[trigger] entries[i].route == route
}

/// The entries with those of `route` replaced.
pub open spec fn replaced(entries: Seq<EntryView>, route: BindingView, actions: RouteView) -> Seq<
    EntryView,
>
    decreases entries.len(),
{
    if entries.len() == 0 {
        Seq::empty()
    } else {
        let rest = replaced(entries.drop_last(), route, actions);
        if entries.last().route != route {
            rest.push(entries.last())
        } else if actions.is_empty() {
            rest
        } else {
            rest.push(EntryView { route, actions })
        }
    }
}

/// The entries with what is left to tell on `route` set. A way on which nothing is left
/// to tell is not noted.
pub open spec fn with_actions(
    entries: Seq<EntryView>,
    route: BindingView,
    actions: RouteView,
) -> Seq<EntryView> {
    if has_route(entries, route) {
        replaced(entries, route, actions)
    } else if actions.is_empty() {
        entries
    } else {
        entries.push(EntryView { route, actions })
    }
}

/// How many changes the provider has not been told of.
pub open spec fn action_count(entries: Seq<EntryView>) -> nat
    decreases entries.len(),
{
    if entries.len() == 0 {
        0
    } else {
        action_count(entries.drop_last()) + entries.last().actions.moves.len()
            + entries.last().actions.flags.len()
    }
}

/// A count, as far as a machine number goes.
pub open spec fn capped(count: nat) -> nat {
    if count > usize::MAX {
        usize::MAX as nat
    } else {
        count
    }
}

/// The moves with another one. A newer move of a message takes the place of the older.
pub open spec fn with_move(moves: Seq<MoveView>, intent: MoveView) -> Seq<MoveView> {
    if moves_message(moves, intent.summary.id) {
        moves.map_values(
            |other: MoveView|
                if other.summary.id == intent.summary.id {
                    intent
                } else {
                    other
                },
        )
    } else {
        moves.push(intent)
    }
}

/// Whether one of `moves` moves the message `id`.
pub open spec fn moves_message(moves: Seq<MoveView>, id: Seq<char>) -> bool {
    exists|i: int| 0 <= i < moves.len() && #[trigger] moves[i].summary.id == id
}

/// Whether one of `flags` marks the message `id`.
pub open spec fn marks_message(flags: Seq<FlagView>, id: Seq<char>) -> bool {
    exists|i: int| 0 <= i < flags.len() && #[trigger] flags[i].conversation_id == id
}

/// `flag` with what `read` and `starred` say; what they do not say stays.
pub open spec fn merged(flag: FlagView, read: Option<bool>, starred: Option<bool>) -> FlagView {
    FlagView {
        conversation_id: flag.conversation_id,
        read: if read is Some {
            read
        } else {
            flag.read
        },
        starred: if starred is Some {
            starred
        } else {
            flag.starred
        },
    }
}

/// The marks with another one.
pub open spec fn with_flag(
    flags: Seq<FlagView>,
    id: Seq<char>,
    read: Option<bool>,
    starred: Option<bool>,
) -> Seq<FlagView> {
    if marks_message(flags, id) {
        flags.map_values(
            |other: FlagView|
                if other.conversation_id == id {
                    merged(other, read, starred)
                } else {
                    other
                },
        )
    } else {
        flags.push(FlagView { conversation_id: id, read, starred })
    }
}

/// The moves without those that were completed. A move that was changed since stays.
pub open spec fn open_moves(moves: Seq<MoveView>, completed: Seq<MoveView>) -> Seq<MoveView>
    decreases moves.len(),
{
    if moves.len() == 0 {
        Seq::empty()
    } else if completed.contains(moves.last()) {
        open_moves(moves.drop_last(), completed)
    } else {
        open_moves(moves.drop_last(), completed).push(moves.last())
    }
}

/// What is left of a mark once `done` was carried out: what was changed since stays.
pub open spec fn left_of(flag: FlagView, done: FlagView) -> FlagView {
    FlagView {
        conversation_id: flag.conversation_id,
        read: if done.read is Some && flag.read == done.read {
            None
        } else {
            flag.read
        },
        starred: if done.starred is Some && flag.starred == done.starred {
            None
        } else {
            flag.starred
        },
    }
}

/// The marks once `done` was carried out.
pub open spec fn without_done(flags: Seq<FlagView>, done: FlagView) -> Seq<FlagView>
    decreases flags.len(),
{
    if flags.len() == 0 {
        Seq::empty()
    } else {
        let rest = without_done(flags.drop_last(), done);
        if flags.last().conversation_id != done.conversation_id {
            rest.push(flags.last())
        } else {
            let left = left_of(flags.last(), done);
            if left.read is None && left.starred is None {
                rest
            } else {
                rest.push(left)
            }
        }
    }
}

/// The marks once all of `completed` were carried out.
pub open spec fn open_flags(flags: Seq<FlagView>, completed: Seq<FlagView>) -> Seq<FlagView>
    decreases completed.len(),
{
    if completed.len() == 0 {
        flags
    } else {
        without_done(open_flags(flags, completed.drop_last()), completed.last())
    }
}

proof fn lemma_has_route_push(entries: Seq<EntryView>, entry: EntryView, route: BindingView)
    ensures
        has_route(entries.push(entry), route) == (has_route(entries, route) || entry.route
            == route),
{
    let after = entries.push(entry);
    if has_route(entries, route) {
        let i = choose|i: int| 0 <= i < entries.len() && #[trigger] entries[i].route == route;
        assert(after[i].route == route);
    }
    if entry.route == route {
        assert(after[entries.len() as int].route == route);
    }
    if has_route(after, route) {
        let i = choose|i: int| 0 <= i < after.len() && #[trigger] after[i].route == route;
        if i < entries.len() {
            assert(entries[i].route == route);
        }
    }
}

proof fn lemma_has_route_last(entries: Seq<EntryView>, route: BindingView)
    requires
        entries.len() > 0,
    ensures
        has_route(entries, route) == (has_route(entries.drop_last(), route)
            || entries.last().route == route),
{
    lemma_has_route_push(entries.drop_last(), entries.last(), route);
    assert(entries.drop_last().push(entries.last()) =~= entries);
}

proof fn lemma_actions_of_push(entries: Seq<EntryView>, entry: EntryView, route: BindingView)
    ensures
        actions_of(entries.push(entry), route) == (if has_route(entries, route) {
            actions_of(entries, route)
        } else if entry.route == route {
            entry.actions
        } else {
            no_actions()
        }),
{
    assert(entries.push(entry).drop_last() =~= entries);
}

proof fn lemma_no_route(entries: Seq<EntryView>, route: BindingView)
    requires
        !has_route(entries, route),
    ensures
        actions_of(entries, route) == no_actions(),
{
    if entries.len() > 0 {
        lemma_has_route_last(entries, route);
    }
}

proof fn lemma_replaced(
    entries: Seq<EntryView>,
    route: BindingView,
    actions: RouteView,
    other: BindingView,
)
    ensures
        has_route(replaced(entries, route, actions), other) == (has_route(entries, other) && (other
            != route || !actions.is_empty())),
        actions_of(replaced(entries, route, actions), other) == (if other != route {
            actions_of(entries, other)
        } else if has_route(entries, route) && !actions.is_empty() {
            actions
        } else {
            no_actions()
        }),
    decreases entries.len(),
{
    if entries.len() > 0 {
        let rest = replaced(entries.drop_last(), route, actions);
        lemma_replaced(entries.drop_last(), route, actions, other);
        lemma_has_route_last(entries, other);
        lemma_has_route_last(entries, route);
        if entries.last().route != route {
            lemma_has_route_push(rest, entries.last(), other);
            lemma_actions_of_push(rest, entries.last(), other);
        } else if !actions.is_empty() {
            lemma_has_route_push(rest, EntryView { route, actions }, other);
            lemma_actions_of_push(rest, EntryView { route, actions }, other);
        }
    }
}

/// What is left to tell on one way to an account is seen and changed on that way alone.
pub proof fn lemma_routes_are_kept_apart(
    entries: Seq<EntryView>,
    route: BindingView,
    actions: RouteView,
    other: BindingView,
)
    ensures
        actions_of(with_actions(entries, route, actions), other) == (if other == route {
            actions
        } else {
            actions_of(entries, other)
        }),
{
    lemma_replaced(entries, route, actions, other);
    if actions.is_empty() {
        assert(actions =~= no_actions());
    }
    if !has_route(entries, route) {
        lemma_no_route(entries, route);
        if !actions.is_empty() {
            lemma_actions_of_push(entries, EntryView { route, actions }, other);
            if !has_route(entries, other) {
                lemma_no_route(entries, other);
            }
        }
    }
}

/// A newer move of a message takes the place of the older.
pub proof fn lemma_newer_move_replaces_the_older(
    moves: Seq<MoveView>,
    older: MoveView,
    newer: MoveView,
)
    requires
        older.summary.id == newer.summary.id,
    ensures
        with_move(with_move(moves, older), newer) == with_move(moves, newer),
{
    let first = with_move(moves, older);
    let id = newer.summary.id;
    if moves_message(moves, id) {
        let i = choose|i: int| 0 <= i < moves.len() && #[trigger] moves[i].summary.id == id;
        assert(first[i].summary.id == id);
    } else {
        assert(first[moves.len() as int].summary.id == id);
        assert forall|i: int| 0 <= i < moves.len() implies #[trigger] moves[i].summary.id != id by {}
    }
    assert(with_move(first, newer) =~= with_move(moves, newer));
}

proof fn lemma_open_moves(moves: Seq<MoveView>, completed: Seq<MoveView>, intent: MoveView)
    ensures
        open_moves(moves, completed).contains(intent) <==> moves.contains(intent)
            && !completed.contains(intent),
    decreases moves.len(),
{
    if moves.len() > 0 {
        let rest = moves.drop_last();
        let left = open_moves(rest, completed);
        let all = open_moves(moves, completed);
        lemma_open_moves(rest, completed, intent);
        if left.contains(intent) {
            let i = choose|i: int| 0 <= i < left.len() && left[i] == intent;
            assert(all[i] == intent);
        }
        if rest.contains(intent) {
            let i = choose|i: int| 0 <= i < rest.len() && rest[i] == intent;
            assert(moves[i] == intent);
        }
        if moves.contains(intent) && !rest.contains(intent) {
            let i = choose|i: int| 0 <= i < moves.len() && moves[i] == intent;
            if i < rest.len() {
                assert(rest[i] == intent);
            }
            if !completed.contains(intent) {
                assert(all[left.len() as int] == intent);
            }
        }
        if all.contains(intent) && !left.contains(intent) {
            let i = choose|i: int| 0 <= i < all.len() && all[i] == intent;
            if i < left.len() {
                assert(left[i] == intent);
            }
            assert(moves[moves.len() - 1] == intent);
        }
    }
}

/// What was carried out does not settle a move that was noted since: a move is settled
/// only by the very same move.
pub proof fn lemma_acknowledgement_settles_the_same_move(
    moves: Seq<MoveView>,
    completed: Seq<MoveView>,
    intent: MoveView,
)
    ensures
        open_moves(moves, completed).contains(intent) <==> moves.contains(intent)
            && !completed.contains(intent),
{
    lemma_open_moves(moves, completed, intent);
}

/// The mark of the message `id`.
pub open spec fn flag_for(flags: Seq<FlagView>, id: Seq<char>) -> Option<FlagView>
    decreases flags.len(),
{
    if flags.len() == 0 {
        None
    } else {
        match flag_for(flags.drop_last(), id) {
            Some(flag) => Some(flag),
            None => if flags.last().conversation_id == id {
                Some(flags.last())
            } else {
                None
            },
        }
    }
}

/// The move of the message `id`.
pub open spec fn move_for(moves: Seq<MoveView>, id: Seq<char>) -> Option<MoveView>
    decreases moves.len(),
{
    if moves.len() == 0 {
        None
    } else {
        match move_for(moves.drop_last(), id) {
            Some(intent) => Some(intent),
            None => if moves.last().summary.id == id {
                Some(moves.last())
            } else {
                None
            },
        }
    }
}

proof fn lemma_move_for_replaced(moves: Seq<MoveView>, intent: MoveView)
    ensures
        ({
            let change = |other: MoveView|
                if other.summary.id == intent.summary.id {
                    intent
                } else {
                    other
                };
            move_for(moves.map_values(change), intent.summary.id) == (if moves_message(
                moves,
                intent.summary.id,
            ) {
                Some(intent)
            } else {
                None
            })
        }),
    decreases moves.len(),
{
    let change = |other: MoveView|
        if other.summary.id == intent.summary.id {
            intent
        } else {
            other
        };
    let id = intent.summary.id;
    if moves.len() > 0 {
        let rest = moves.drop_last();
        lemma_move_for_replaced(rest, intent);
        assert(moves.map_values(change).drop_last() =~= rest.map_values(change));
        assert(moves.map_values(change).last() == change(moves.last()));
        if moves_message(rest, id) {
            let i = choose|i: int| 0 <= i < rest.len() && #[trigger] rest[i].summary.id == id;
            assert(moves[i].summary.id == id);
        }
        if moves_message(moves, id) {
            let i = choose|i: int| 0 <= i < moves.len() && #[trigger] moves[i].summary.id == id;
            if i < rest.len() {
                assert(rest[i].summary.id == id);
            }
        } else {
            assert(moves[moves.len() - 1].summary.id != id);
        }
    }
}

/// A move that was noted is the one that is known of the message.
pub proof fn lemma_noted_move_is_known(moves: Seq<MoveView>, intent: MoveView)
    ensures
        move_for(with_move(moves, intent), intent.summary.id) == Some(intent),
{
    let id = intent.summary.id;
    let change = |other: MoveView|
        if other.summary.id == intent.summary.id {
            intent
        } else {
            other
        };
    lemma_move_for_replaced(moves, intent);
    if moves_message(moves, id) {
        assert(with_move(moves, intent) =~= moves.map_values(change));
    } else {
        assert forall|i: int| 0 <= i < moves.len() implies #[trigger] moves.map_values(change)[i]
            == moves[i] by {
            assert(moves[i].summary.id != id);
        }
        assert(moves.map_values(change) =~= moves);
        assert(moves.push(intent).drop_last() =~= moves);
    }
}

/// Whether each of the marks is that of another message.
pub open spec fn distinct_flags(flags: Seq<FlagView>) -> bool {
    forall|i: int, j: int|
        #![trigger flags[i], flags[j]]
        0 <= i < j < flags.len() ==> flags[i].conversation_id != flags[j].conversation_id
}

/// Whether each of the moves is that of another message.
pub open spec fn distinct_moves(moves: Seq<MoveView>) -> bool {
    forall|i: int, j: int|
        #![trigger moves[i], moves[j]]
        0 <= i < j < moves.len() ==> moves[i].summary.id != moves[j].summary.id
}

proof fn lemma_flag_for(flags: Seq<FlagView>, id: Seq<char>)
    ensures
        flag_for(flags, id) is Some <==> marks_message(flags, id),
        flag_for(flags, id) is Some ==> flag_for(flags, id)->0.conversation_id == id
            && flags.contains(flag_for(flags, id)->0),
    decreases flags.len(),
{
    if flags.len() > 0 {
        let rest = flags.drop_last();
        lemma_flag_for(rest, id);
        if marks_message(rest, id) {
            let i = choose|i: int| 0 <= i < rest.len() && #[trigger] rest[i].conversation_id == id;
            assert(flags[i].conversation_id == id);
            let k = choose|k: int| 0 <= k < rest.len() && rest[k] == flag_for(rest, id)->0;
            assert(flags[k] == flag_for(flags, id)->0);
        } else {
            if flags.last().conversation_id == id {
                assert(flags[flags.len() - 1].conversation_id == id);
                assert(flags[flags.len() - 1] == flag_for(flags, id)->0);
            }
            if marks_message(flags, id) {
                let i = choose|i: int|
                    0 <= i < flags.len() && #[trigger] flags[i].conversation_id == id;
                if i < rest.len() {
                    assert(rest[i].conversation_id == id);
                }
            }
        }
    }
}

proof fn lemma_flag_for_mapped(
    flags: Seq<FlagView>,
    id: Seq<char>,
    read: Option<bool>,
    starred: Option<bool>,
    other: Seq<char>,
)
    ensures
        ({
            let change = |flag: FlagView|
                if flag.conversation_id == id {
                    merged(flag, read, starred)
                } else {
                    flag
                };
            flag_for(flags.map_values(change), other) == match flag_for(flags, other) {
                Some(flag) => Some(change(flag)),
                None => None,
            }
        }),
    decreases flags.len(),
{
    let change = |flag: FlagView|
        if flag.conversation_id == id {
            merged(flag, read, starred)
        } else {
            flag
        };
    if flags.len() > 0 {
        lemma_flag_for_mapped(flags.drop_last(), id, read, starred, other);
        assert(flags.map_values(change).drop_last() =~= flags.drop_last().map_values(change));
        assert(flags.map_values(change).last() == change(flags.last()));
    }
}

/// A mark of one kind leaves that of the other kind alone, a newer one takes the place of
/// the older, and the marks of other messages stay.
pub proof fn lemma_newer_mark_keeps_the_other_kind(
    flags: Seq<FlagView>,
    id: Seq<char>,
    read: Option<bool>,
    starred: Option<bool>,
    other: Seq<char>,
)
    ensures
        flag_for(with_flag(flags, id, read, starred), other) == (if other != id {
            flag_for(flags, other)
        } else {
            match flag_for(flags, id) {
                Some(flag) => Some(merged(flag, read, starred)),
                None => Some(FlagView { conversation_id: id, read, starred }),
            }
        }),
{
    lemma_flag_for(flags, id);
    lemma_flag_for(flags, other);
    if marks_message(flags, id) {
        lemma_flag_for_mapped(flags, id, read, starred, other);
    } else {
        let added = FlagView { conversation_id: id, read, starred };
        assert(flags.push(added).drop_last() =~= flags);
    }
}

proof fn lemma_distinct_rest(flags: Seq<FlagView>)
    requires
        distinct_flags(flags),
        flags.len() > 0,
    ensures
        distinct_flags(flags.drop_last()),
        !marks_message(flags.drop_last(), flags.last().conversation_id),
{
    let rest = flags.drop_last();
    assert forall|i: int, j: int|
        #![trigger rest[i], rest[j]]
        0 <= i < j < rest.len() implies rest[i].conversation_id != rest[j].conversation_id by {
        assert(flags[i].conversation_id != flags[j].conversation_id);
    }
    assert forall|i: int| 0 <= i < rest.len() implies #[trigger] rest[i].conversation_id
        != flags.last().conversation_id by {
        assert(flags[i].conversation_id != flags[flags.len() - 1].conversation_id);
    }
}

/// What was carried out settles only what was not changed since: a mark that differs from
/// the one that was carried out stays, and so do the mark of the other kind and the marks
/// of other messages.
pub proof fn lemma_acknowledgement_settles_the_same_mark(
    flags: Seq<FlagView>,
    done: FlagView,
    other: Seq<char>,
)
    requires
        distinct_flags(flags),
    ensures
        flag_for(without_done(flags, done), other) == (match flag_for(flags, other) {
            None => None,
            Some(flag) => if other != done.conversation_id {
                Some(flag)
            } else if left_of(flag, done).read is None && left_of(flag, done).starred is None {
                None
            } else {
                Some(left_of(flag, done))
            },
        }),
    decreases flags.len(),
{
    if flags.len() > 0 {
        let rest = flags.drop_last();
        let last = flags.last();
        lemma_distinct_rest(flags);
        lemma_flag_for(rest, last.conversation_id);
        lemma_flag_for(rest, other);
        lemma_acknowledgement_settles_the_same_mark(rest, done, other);
        let left = without_done(rest, done);
        assert(left.push(last).drop_last() =~= left);
        assert(left.push(left_of(last, done)).drop_last() =~= left);
    }
}

proof fn lemma_without_done_ids(flags: Seq<FlagView>, done: FlagView)
    requires
        distinct_flags(flags),
    ensures
        distinct_flags(without_done(flags, done)),
        forall|id: Seq<char>|
            #![trigger marks_message(without_done(flags, done), id)]
            marks_message(without_done(flags, done), id) ==> marks_message(flags, id),
    decreases flags.len(),
{
    if flags.len() > 0 {
        let rest = flags.drop_last();
        let left = without_done(rest, done);
        let all = without_done(flags, done);
        lemma_distinct_rest(flags);
        lemma_without_done_ids(rest, done);
        assert(!marks_message(left, flags.last().conversation_id));
        assert forall|i: int, j: int|
            #![trigger all[i], all[j]]
            0 <= i < j < all.len() implies all[i].conversation_id != all[j].conversation_id by {
            assert(all[i] == left[i]);
            if j < left.len() {
                assert(all[j] == left[j]);
            } else {
                assert(left[i].conversation_id != flags.last().conversation_id);
            }
        }
        assert forall|id: Seq<char>|
            #![trigger marks_message(all, id)]
            marks_message(all, id) implies marks_message(flags, id) by {
            let i = choose|i: int| 0 <= i < all.len() && #[trigger] all[i].conversation_id == id;
            if i < left.len() {
                assert(left[i].conversation_id == id);
                assert(marks_message(left, id));
                let k = choose|k: int|
                    0 <= k < rest.len() && #[trigger] rest[k].conversation_id == id;
                assert(flags[k].conversation_id == id);
            } else {
                assert(flags[flags.len() - 1].conversation_id == id);
            }
        }
    }
}

/// Settling marks leaves each message with one mark at most.
pub proof fn lemma_open_flags_distinct(flags: Seq<FlagView>, completed: Seq<FlagView>)
    requires
        distinct_flags(flags),
    ensures
        distinct_flags(open_flags(flags, completed)),
    decreases completed.len(),
{
    if completed.len() > 0 {
        lemma_open_flags_distinct(flags, completed.drop_last());
        lemma_without_done_ids(open_flags(flags, completed.drop_last()), completed.last());
    }
}

proof fn lemma_with_flag_distinct(
    flags: Seq<FlagView>,
    id: Seq<char>,
    read: Option<bool>,
    starred: Option<bool>,
)
    requires
        distinct_flags(flags),
    ensures
        distinct_flags(with_flag(flags, id, read, starred)),
{
    let all = with_flag(flags, id, read, starred);
    assert forall|i: int, j: int|
        #![trigger all[i], all[j]]
        0 <= i < j < all.len() implies all[i].conversation_id != all[j].conversation_id by {
        if j < flags.len() {
            assert(flags[i].conversation_id != flags[j].conversation_id);
        } else {
            assert(flags[i].conversation_id != id);
        }
    }
}

proof fn lemma_with_move_distinct(moves: Seq<MoveView>, intent: MoveView)
    requires
        distinct_moves(moves),
    ensures
        distinct_moves(with_move(moves, intent)),
{
    let all = with_move(moves, intent);
    assert forall|i: int, j: int|
        #![trigger all[i], all[j]]
        0 <= i < j < all.len() implies all[i].summary.id != all[j].summary.id by {
        if j < moves.len() {
            assert(moves[i].summary.id != moves[j].summary.id);
        } else {
            assert(moves[i].summary.id != intent.summary.id);
        }
    }
}

proof fn lemma_open_moves_distinct(moves: Seq<MoveView>, completed: Seq<MoveView>)
    requires
        distinct_moves(moves),
    ensures
        distinct_moves(open_moves(moves, completed)),
    decreases moves.len(),
{
    if moves.len() > 0 {
        let rest = moves.drop_last();
        let left = open_moves(rest, completed);
        let all = open_moves(moves, completed);
        assert forall|i: int, j: int|
            #![trigger rest[i], rest[j]]
            0 <= i < j < rest.len() implies rest[i].summary.id != rest[j].summary.id by {
            assert(moves[i].summary.id != moves[j].summary.id);
        }
        lemma_open_moves_distinct(rest, completed);
        assert forall|i: int, j: int|
            #![trigger all[i], all[j]]
            0 <= i < j < all.len() implies all[i].summary.id != all[j].summary.id by {
            assert(all[i] == left[i]);
            if j < left.len() {
                assert(all[j] == left[j]);
            } else {
                assert(left.contains(left[i]));
                lemma_open_moves(rest, completed, left[i]);
                let k = choose|k: int| 0 <= k < rest.len() && rest[k] == left[i];
                assert(moves[k].summary.id != moves[moves.len() - 1].summary.id);
            }
        }
    }
}

impl MessageActionQueue {
    /// The provider knows of everything.
    pub fn new() -> (queue: Self)
        ensures
            queue@ == Seq::<EntryView>::empty(),
    {
        let queue = MessageActionQueue { routes: Vec::new() };
        assert(queue@ =~= Seq::empty());
        queue
    }

    /// How many changes the provider has not been told of.
    pub fn len(&self) -> (n: usize)
        ensures
            n == capped(action_count(self@)),
    {
        let mut n: usize = 0;
        let mut i: usize = 0;
        assert(self@.take(0) =~= Seq::empty());
        while i < self.routes.len()
            invariant
                i <= self.routes.len(),
                self@ == entry_views(self.routes@),
                n == capped(action_count(self@.take(i as int))),
            decreases self.routes.len() - i,
        {
            proof {
                assert(self@.take(i + 1).drop_last() =~= self@.take(i as int));
                assert(self@.take(i + 1).last() == self.routes@[i as int]@);
            }
            n = n.saturating_add(self.routes[i].moves.len());
            n = n.saturating_add(self.routes[i].flags.len());
            i += 1;
        }
        assert(self@.take(i as int) =~= self@);
        n
    }

    /// Where `route` is noted.
    fn position(&self, route: &EdsAccountBinding) -> (found: Option<usize>)
        ensures
            match found {
                Some(i) => {
                    &&& i < self.routes@.len()
                    &&& self@[i as int].route == route@
                    &&& has_route(self@, route@)
                    &&& actions_of(self@, route@) == self.routes@[i as int]@.actions
                },
                None => !has_route(self@, route@) && actions_of(self@, route@) == no_actions(),
            },
    {
        let mut i: usize = 0;
        assert(self@.take(0) =~= Seq::empty());
        while i < self.routes.len()
            invariant
                i <= self.routes.len(),
                self@ == entry_views(self.routes@),
                !has_route(self@.take(i as int), route@),
            decreases self.routes.len() - i,
        {
            proof {
                assert(self@.take(i + 1).drop_last() =~= self@.take(i as int));
                assert(self@.take(i + 1).last() == self.routes@[i as int]@);
                lemma_has_route_last(self@.take(i + 1), route@);
            }
            if account::same_binding(&self.routes[i].route, route) {
                proof {
                    lemma_first_route(self@, route@, i + 1);
                    assert(self@[i as int].route == route@);
                }
                return Some(i);
            }
            i += 1;
        }
        assert(self@.take(i as int) =~= self@);
        proof {
            lemma_no_route(self@, route@);
        }
        None
    }

    /// How many changes the provider has not been told of on `route`.
    pub fn len_for_route(&self, route: &EdsAccountBinding) -> (n: usize)
        ensures
            n == capped(
                actions_of(self@, route@).moves.len() + actions_of(self@, route@).flags.len(),
            ),
    {
        match self.position(route) {
            Some(at) => self.routes[at].moves.len().saturating_add(self.routes[at].flags.len()),
            None => 0,
        }
    }

    /// The moves that the provider has not been told of on `route`.
    pub fn moves_for_route(&self, route: &EdsAccountBinding) -> (moves: Vec<MoveIntent>)
        ensures
            move_views(moves@) == actions_of(self@, route@).moves,
    {
        match self.position(route) {
            Some(at) => clone_moves(&self.routes[at].moves),
            None => {
                let moves: Vec<MoveIntent> = Vec::new();
                assert(move_views(moves@) =~= Seq::empty());
                moves
            },
        }
    }

    /// The marks that the provider has not been told of on `route`.
    pub fn flags_for_route(&self, route: &EdsAccountBinding) -> (flags: Vec<MessageFlagIntent>)
        ensures
            flag_views(flags@) == actions_of(self@, route@).flags,
    {
        match self.position(route) {
            Some(at) => clone_flags(&self.routes[at].flags),
            None => {
                let flags: Vec<MessageFlagIntent> = Vec::new();
                assert(flag_views(flags@) =~= Seq::empty());
                flags
            },
        }
    }

    /// Notes what is left to tell on `route`.
    fn store(
        &mut self,
        route: &EdsAccountBinding,
        moves: Vec<MoveIntent>,
        flags: Vec<MessageFlagIntent>,
    )
        ensures
            final(self)@ == with_actions(
                old(self)@,
                route@,
                RouteView { moves: move_views(moves@), flags: flag_views(flags@) },
            ),
    {
        let ghost before = self@;
        let ghost actions = RouteView {
            moves: move_views(moves@),
            flags: flag_views(flags@),
        };
        let found = self.position(route).is_some();
        let empty = moves.len() == 0 && flags.len() == 0;
        if !found {
            if !empty {
                let entry = RouteActions { route: route.clone(), moves, flags };
                let ghost value = entry@;
                assert(value == (EntryView { route: route@, actions }));
                self.routes.push(entry);
                assert(self@ =~= before.push(value));
            }
            return ;
        }
        let mut pending: Vec<RouteActions> = Vec::new();
        std::mem::swap(&mut pending, &mut self.routes);
        assert(before.take(0) =~= Seq::empty());
        assert(entry_views(self.routes@) =~= Seq::empty());
        for entry in it: pending
            invariant
                before == entry_views(it.seq()),
                actions.moves == move_views(moves@),
                actions.flags == flag_views(flags@),
                empty == actions.is_empty(),
                entry_views(self.routes@) == replaced(before.take(it.index()), route@, actions),
        {
            let ghost stored = entry_views(self.routes@);
            proof {
                assert(before.take(it.index() + 1).drop_last() =~= before.take(it.index()));
                assert(before.take(it.index() + 1).last() == entry@);
            }
            if !account::same_binding(&entry.route, route) {
                let ghost value = entry@;
                self.routes.push(entry);
                assert(entry_views(self.routes@) =~= stored.push(value));
            } else if !empty {
                let entry = RouteActions {
                    route: route.clone(),
                    moves: clone_moves(&moves),
                    flags: clone_flags(&flags),
                };
                let ghost value = entry@;
                assert(value == (EntryView { route: route@, actions }));
                self.routes.push(entry);
                assert(entry_views(self.routes@) =~= stored.push(value));
            }
        }
        assert(before.take(before.len() as int) =~= before);
    }

    /// Notes that a message is to be moved.
    pub fn queue_move(&mut self, route: EdsAccountBinding, intent: MoveIntent)
        ensures
            final(self)@ == with_actions(
                old(self)@,
                route@,
                RouteView {
                    moves: with_move(actions_of(old(self)@, route@).moves, intent@),
                    flags: actions_of(old(self)@, route@).flags,
                },
            ),
    {
        let mut moves = self.moves_for_route(&route);
        let flags = self.flags_for_route(&route);
        upsert_move(&mut moves, intent);
        self.store(&route, moves, flags);
    }

    /// Notes that a message is to be marked as read or unread.
    pub fn queue_read(
        &mut self,
        route: EdsAccountBinding,
        conversation_id: ConversationId,
        read: bool,
    )
        ensures
            final(self)@ == with_actions(
                old(self)@,
                route@,
                RouteView {
                    moves: actions_of(old(self)@, route@).moves,
                    flags: with_flag(
                        actions_of(old(self)@, route@).flags,
                        conversation_id@,
                        Some(read),
                        None,
                    ),
                },
            ),
    {
        let moves = self.moves_for_route(&route);
        let mut flags = self.flags_for_route(&route);
        upsert_flag(&mut flags, conversation_id, Some(read), None);
        self.store(&route, moves, flags);
    }

    /// Notes that a message is to be marked as starred or not.
    pub fn queue_starred(
        &mut self,
        route: EdsAccountBinding,
        conversation_id: ConversationId,
        starred: bool,
    )
        ensures
            final(self)@ == with_actions(
                old(self)@,
                route@,
                RouteView {
                    moves: actions_of(old(self)@, route@).moves,
                    flags: with_flag(
                        actions_of(old(self)@, route@).flags,
                        conversation_id@,
                        None,
                        Some(starred),
                    ),
                },
            ),
    {
        let moves = self.moves_for_route(&route);
        let mut flags = self.flags_for_route(&route);
        upsert_flag(&mut flags, conversation_id, None, Some(starred));
        self.store(&route, moves, flags);
    }

    /// Settles the marks that the provider was told of.
    pub fn remove_completed_flags(
        &mut self,
        route: &EdsAccountBinding,
        completed: &Vec<MessageFlagIntent>,
    )
        ensures
            final(self)@ == with_actions(
                old(self)@,
                route@,
                RouteView {
                    moves: actions_of(old(self)@, route@).moves,
                    flags: open_flags(
                        actions_of(old(self)@, route@).flags,
                        flag_views(completed@),
                    ),
                },
            ),
    {
        let moves = self.moves_for_route(route);
        let mut flags = self.flags_for_route(route);
        let ghost noted = flag_views(flags@);
        let ghost done = flag_views(completed@);
        let mut i: usize = 0;
        assert(done.take(0) =~= Seq::empty());
        while i < completed.len()
            invariant
                i <= completed.len(),
                done == flag_views(completed@),
                flag_views(flags@) == open_flags(noted, done.take(i as int)),
            decreases completed.len() - i,
        {
            proof {
                assert(done.take(i + 1).drop_last() =~= done.take(i as int));
                assert(done.take(i + 1).last() == completed@[i as int]@);
            }
            settle_flag(&mut flags, &completed[i]);
            i += 1;
        }
        assert(done.take(i as int) =~= done);
        self.store(route, moves, flags);
    }

    /// Settles the moves that the provider was told of.
    pub fn remove_completed_moves(
        &mut self,
        route: &EdsAccountBinding,
        completed: &Vec<MoveIntent>,
    )
        ensures
            final(self)@ == with_actions(
                old(self)@,
                route@,
                RouteView {
                    moves: open_moves(
                        actions_of(old(self)@, route@).moves,
                        move_views(completed@),
                    ),
                    flags: actions_of(old(self)@, route@).flags,
                },
            ),
    {
        let moves = settle_moves(self.moves_for_route(route), completed);
        let flags = self.flags_for_route(route);
        self.store(route, moves, flags);
    }
}

proof fn lemma_first_route(entries: Seq<EntryView>, route: BindingView, n: int)
    requires
        0 < n <= entries.len(),
        !has_route(entries.take(n - 1), route),
        entries[n - 1].route == route,
    ensures
        has_route(entries, route),
        actions_of(entries, route) == entries[n - 1].actions,
    decreases entries.len(),
{
    assert(entries[n - 1].route == route);
    if n == entries.len() {
        assert(entries.take(n - 1) =~= entries.drop_last());
    } else {
        let rest = entries.drop_last();
        assert(rest.take(n - 1) =~= entries.take(n - 1));
        lemma_first_route(rest, route, n);
    }
}

/// Notes a move in a list of moves.
pub fn upsert_move(moves: &mut Vec<MoveIntent>, intent: MoveIntent)
    ensures
        move_views(final(moves)@) == with_move(move_views(old(moves)@), intent@),
{
    let ghost noted = move_views(moves@);
    let ghost change = |other: MoveView|
        if other.summary.id == intent@.summary.id {
            intent@
        } else {
            other
        };
    let length: usize = moves.len();
    let mut found = false;
    let mut i: usize = 0;
    while i < length
        invariant
            i <= length,
            length == moves@.len(),
            noted.len() == length,
            change == (|other: MoveView|
                if other.summary.id == intent@.summary.id {
                    intent@
                } else {
                    other
                }),
            found == (exists|j: int|
                0 <= j < i && #[trigger] noted[j].summary.id == intent@.summary.id),
            forall|j: int| 0 <= j < i ==> (#[trigger] moves@[j])@ == change(noted[j]),
            forall|j: int| i <= j < length ==> (#[trigger] moves@[j])@ == noted[j],
        decreases length - i,
    {
        if moves[i].summary.id.0 == intent.summary.id.0 {
            assert(noted[i as int].summary.id == intent@.summary.id);
            found = true;
            let copy = intent.clone();
            moves.set(i, copy);
        } else {
            assert(noted[i as int].summary.id != intent@.summary.id);
        }
        i += 1;
    }
    if found {
        assert(move_views(moves@) =~= with_move(noted, intent@));
    } else {
        assert(move_views(moves@) =~= noted) by {
            assert forall|j: int| 0 <= j < length implies moves@[j]@ == noted[j] by {
                assert(noted[j].summary.id != intent@.summary.id);
                assert(moves@[j]@ == change(noted[j]));
            }
        }
        let ghost value = intent@;
        moves.push(intent);
        assert(move_views(moves@) =~= noted.push(value));
    }
}

/// Notes a mark in a list of marks.
pub fn upsert_flag(
    flags: &mut Vec<MessageFlagIntent>,
    conversation_id: ConversationId,
    read: Option<bool>,
    starred: Option<bool>,
)
    ensures
        flag_views(final(flags)@) == with_flag(
            flag_views(old(flags)@),
            conversation_id@,
            read,
            starred,
        ),
{
    let ghost noted = flag_views(flags@);
    let ghost id = conversation_id@;
    let ghost change = |other: FlagView|
        if other.conversation_id == id {
            merged(other, read, starred)
        } else {
            other
        };
    let length: usize = flags.len();
    let mut found = false;
    let mut i: usize = 0;
    while i < length
        invariant
            i <= length,
            length == flags@.len(),
            noted.len() == length,
            id == conversation_id@,
            change == (|other: FlagView|
                if other.conversation_id == id {
                    merged(other, read, starred)
                } else {
                    other
                }),
            found == (exists|j: int| 0 <= j < i && #[trigger] noted[j].conversation_id == id),
            forall|j: int| 0 <= j < i ==> (#[trigger] flags@[j])@ == change(noted[j]),
            forall|j: int| i <= j < length ==> (#[trigger] flags@[j])@ == noted[j],
        decreases length - i,
    {
        if flags[i].conversation_id.0 == conversation_id.0 {
            assert(noted[i as int].conversation_id == id);
            found = true;
            let merged_flag = MessageFlagIntent {
                conversation_id: conversation_id.clone(),
                read: if read.is_some() {
                    read
                } else {
                    flags[i].read
                },
                starred: if starred.is_some() {
                    starred
                } else {
                    flags[i].starred
                },
            };
            flags.set(i, merged_flag);
        } else {
            assert(noted[i as int].conversation_id != id);
        }
        i += 1;
    }
    if found {
        assert(flag_views(flags@) =~= with_flag(noted, id, read, starred));
    } else {
        assert(flag_views(flags@) =~= noted) by {
            assert forall|j: int| 0 <= j < length implies flags@[j]@ == noted[j] by {
                assert(noted[j].conversation_id != id);
                assert(flags@[j]@ == change(noted[j]));
            }
        }
        flags.push(MessageFlagIntent { conversation_id, read, starred });
        assert(flag_views(flags@) =~= noted.push(
            FlagView { conversation_id: id, read, starred },
        ));
    }
}

fn same_move(left: &MoveIntent, right: &MoveIntent) -> (r: bool)
    ensures
        r == (left@ == right@),
{
    left.destination_folder_id.0 == right.destination_folder_id.0 && mail::same_summary(
        &left.summary,
        &right.summary,
    )
}

fn lists_move(list: &Vec<MoveIntent>, intent: &MoveIntent) -> (r: bool)
    ensures
        r == move_views(list@).contains(intent@),
{
    let ghost views = move_views(list@);
    let mut i: usize = 0;
    while i < list.len()
        invariant
            i <= list.len(),
            views == move_views(list@),
            forall|j: int| 0 <= j < i ==> #[trigger] views[j] != intent@,
        decreases list.len() - i,
    {
        if same_move(&list[i], intent) {
            assert(views[i as int] == intent@);
            return true;
        }
        i += 1;
    }
    false
}

fn settle_moves(moves: Vec<MoveIntent>, completed: &Vec<MoveIntent>) -> (left: Vec<MoveIntent>)
    ensures
        move_views(left@) == open_moves(move_views(moves@), move_views(completed@)),
{
    let ghost noted = move_views(moves@);
    let ghost done = move_views(completed@);
    let mut left: Vec<MoveIntent> = Vec::new();
    assert(noted.take(0) =~= Seq::empty());
    assert(move_views(left@) =~= Seq::empty());
    for intent in it: moves
        invariant
            noted == move_views(it.seq()),
            done == move_views(completed@),
            move_views(left@) == open_moves(noted.take(it.index()), done),
    {
        let ghost before = move_views(left@);
        let ghost value = intent@;
        proof {
            assert(noted.take(it.index() + 1).drop_last() =~= noted.take(it.index()));
            assert(noted.take(it.index() + 1).last() == intent@);
        }
        if !lists_move(completed, &intent) {
            left.push(intent);
            assert(move_views(left@) =~= before.push(value));
        }
    }
    assert(noted.take(noted.len() as int) =~= noted);
    left
}

fn settle_flag(flags: &mut Vec<MessageFlagIntent>, done: &MessageFlagIntent)
    ensures
        flag_views(final(flags)@) == without_done(flag_views(old(flags)@), done@),
{
    let ghost noted = flag_views(flags@);
    let mut pending: Vec<MessageFlagIntent> = Vec::new();
    std::mem::swap(&mut pending, flags);
    assert(noted.take(0) =~= Seq::empty());
    assert(flag_views(flags@) =~= Seq::empty());
    for flag in it: pending
        invariant
            noted == flag_views(it.seq()),
            flag_views(flags@) == without_done(noted.take(it.index()), done@),
    {
        let ghost before = flag_views(flags@);
        proof {
            assert(noted.take(it.index() + 1).drop_last() =~= noted.take(it.index()));
            assert(noted.take(it.index() + 1).last() == flag@);
        }
        if flag.conversation_id.0 != done.conversation_id.0 {
            let ghost value = flag@;
            flags.push(flag);
            assert(flag_views(flags@) =~= before.push(value));
        } else {
            let read = if done.read.is_some() && flag.read == done.read {
                None
            } else {
                flag.read
            };
            let starred = if done.starred.is_some() && flag.starred == done.starred {
                None
            } else {
                flag.starred
            };
            let ghost value = left_of(flag@, done@);
            assert(value.read == read && value.starred == starred);
            if read.is_some() || starred.is_some() {
                flags.push(
                    MessageFlagIntent { conversation_id: flag.conversation_id, read, starred },
                );
                assert(flag_views(flags@) =~= before.push(value));
            }
        }
    }
    assert(noted.take(noted.len() as int) =~= noted);
}

/// A message as it is shown once it was marked.
pub open spec fn flagged_summary(summary: SummaryView, flags: Seq<FlagView>) -> SummaryView {
    match flag_for(flags, summary.id) {
        None => summary,
        Some(flag) => SummaryView {
            unread_count: match flag.read {
                None => summary.unread_count,
                Some(read) => if read {
                    0
                } else {
                    1
                },
            },
            starred: match flag.starred {
                None => summary.starred,
                Some(starred) => starred,
            },
            ..summary
        },
    }
}

/// Messages as they are shown once they were marked.
pub open spec fn flagged(list: Seq<SummaryView>, flags: Seq<FlagView>) -> Seq<SummaryView> {
    list.map_values(|summary: SummaryView| flagged_summary(summary, flags))
}

/// What is known of a message that is to be moved: what the first folder that holds it
/// says, or else what was known when the move was noted. It is shown in its destination.
pub open spec fn arrival(
    map: Map<Seq<char>, Seq<SummaryView>>,
    order: Seq<Seq<char>>,
    intent: MoveView,
) -> SummaryView {
    match mailbox::holder(map, order, intent.summary.id) {
        Some(folder) => SummaryView {
            folder_id: intent.destination,
            ..map[folder][mailbox::position(map[folder], intent.summary.id)]
        },
        None => SummaryView { folder_id: intent.destination, ..intent.summary },
    }
}

/// The folders once a message left the folder that holds it.
pub open spec fn departed(
    map: Map<Seq<char>, Seq<SummaryView>>,
    order: Seq<Seq<char>>,
    id: Seq<char>,
) -> Map<Seq<char>, Seq<SummaryView>> {
    match mailbox::holder(map, order, id) {
        Some(folder) => map.insert(
            folder,
            map[folder].remove(mailbox::position(map[folder], id)),
        ),
        None => map,
    }
}

/// The folders as they are shown once a message was moved. A destination that is not
/// loaded stays so.
pub open spec fn moved(
    map: Map<Seq<char>, Seq<SummaryView>>,
    order: Seq<Seq<char>>,
    intent: MoveView,
) -> Map<Seq<char>, Seq<SummaryView>> {
    let left = departed(map, order, intent.summary.id);
    if left.contains_key(intent.destination) {
        left.insert(
            intent.destination,
            mail::ranked(
                mail::first_of_each(
                    left[intent.destination].push(arrival(map, order, intent)),
                ),
            ),
        )
    } else {
        left
    }
}

/// The folders as they are shown once all of `moves` were carried out, one by one.
pub open spec fn moved_all(
    map: Map<Seq<char>, Seq<SummaryView>>,
    order: Seq<Seq<char>>,
    moves: Seq<MoveView>,
) -> Map<Seq<char>, Seq<SummaryView>>
    decreases moves.len(),
{
    if moves.len() == 0 {
        map
    } else {
        moved(moved_all(map, order, moves.drop_last()), order, moves.last())
    }
}

/// The folders as they are shown once everything was carried out.
pub open spec fn overlaid(
    map: Map<Seq<char>, Seq<SummaryView>>,
    order: Seq<Seq<char>>,
    actions: RouteView,
) -> Map<Seq<char>, Seq<SummaryView>> {
    moved_all(map, order, actions.moves).map_values(
        |list: Seq<SummaryView>| flagged(list, actions.flags),
    )
}

/// Where the mark of the message `id` stands.
fn find_flag(flags: &Vec<MessageFlagIntent>, id: &ConversationId) -> (found: Option<usize>)
    ensures
        match found {
            Some(i) => i < flags@.len() && flag_for(flag_views(flags@), id@) == Some(
                flags@[i as int]@,
            ),
            None => flag_for(flag_views(flags@), id@) is None,
        },
{
    let ghost views = flag_views(flags@);
    let mut found: Option<usize> = None;
    let mut i: usize = 0;
    while i < flags.len()
        invariant
            i <= flags.len(),
            views == flag_views(flags@),
            match found {
                Some(at) => at < i && flag_for(views.take(i as int), id@) == Some(
                    flags@[at as int]@,
                ),
                None => flag_for(views.take(i as int), id@) is None,
            },
        decreases flags.len() - i,
    {
        proof {
            assert(views.take(i + 1).drop_last() =~= views.take(i as int));
            assert(views.take(i + 1).last() == flags@[i as int]@);
        }
        if found.is_none() && flags[i].conversation_id.0 == id.0 {
            found = Some(i);
        }
        i += 1;
    }
    assert(views.take(i as int) =~= views);
    found
}

/// Where the move of the message `id` stands.
fn find_move(moves: &Vec<MoveIntent>, id: &ConversationId) -> (found: Option<usize>)
    ensures
        match found {
            Some(i) => i < moves@.len() && move_for(move_views(moves@), id@) == Some(
                moves@[i as int]@,
            ),
            None => move_for(move_views(moves@), id@) is None,
        },
{
    let ghost views = move_views(moves@);
    let mut found: Option<usize> = None;
    let mut i: usize = 0;
    while i < moves.len()
        invariant
            i <= moves.len(),
            views == move_views(moves@),
            match found {
                Some(at) => at < i && move_for(views.take(i as int), id@) == Some(
                    moves@[at as int]@,
                ),
                None => move_for(views.take(i as int), id@) is None,
            },
        decreases moves.len() - i,
    {
        proof {
            assert(views.take(i + 1).drop_last() =~= views.take(i as int));
            assert(views.take(i + 1).last() == moves@[i as int]@);
        }
        if found.is_none() && moves[i].summary.id.0 == id.0 {
            found = Some(i);
        }
        i += 1;
    }
    assert(views.take(i as int) =~= views);
    found
}

/// Shows messages as they are once they were marked.
pub fn apply_flag_overlay(
    flags: &Vec<MessageFlagIntent>,
    summaries: &mut Vec<ConversationSummary>,
)
    ensures
        mail::summaries(final(summaries)@) == flagged(
            mail::summaries(old(summaries)@),
            flag_views(flags@),
        ),
{
    let ghost known = flag_views(flags@);
    let mut pending: Vec<ConversationSummary> = Vec::new();
    std::mem::swap(&mut pending, summaries);
    let ghost all = mail::summaries(pending@);
    assert(mail::summaries(summaries@) =~= flagged(all.take(0), known));
    for summary in it: pending
        invariant
            all == mail::summaries(it.seq()),
            known == flag_views(flags@),
            mail::summaries(summaries@) == flagged(all.take(it.index()), known),
    {
        let ghost before = mail::summaries(summaries@);
        let ghost old_value = summary@;
        let mut summary = summary;
        match find_flag(flags, &summary.id) {
            None => {},
            Some(at) => {
                if let Some(read) = flags[at].read {
                    summary.unread_count = if read {
                        0
                    } else {
                        1
                    };
                }
                if let Some(starred) = flags[at].starred {
                    summary.starred = starred;
                }
            },
        }
        let ghost value = summary@;
        assert(value == flagged_summary(old_value, known));
        summaries.push(summary);
        proof {
            assert(mail::summaries(summaries@) =~= before.push(value));
            assert(flagged(all.take(it.index() + 1), known) =~= before.push(value));
        }
    }
    assert(all.take(all.len() as int) =~= all);
}

/// Shows the folders as they are once the messages were moved.
pub fn apply_move_overlay(moves: &Vec<MoveIntent>, conversations: &mut MailboxConversations)
    ensures
        final(conversations)@ == moved_all(
            old(conversations)@,
            old(conversations).order(),
            move_views(moves@),
        ),
        final(conversations).order() == old(conversations).order(),
{
    let ghost start = conversations@;
    let ghost order = conversations.order();
    let ghost all = move_views(moves@);
    let mut i: usize = 0;
    assert(all.take(0) =~= Seq::empty());
    while i < moves.len()
        invariant
            i <= moves.len(),
            all == move_views(moves@),
            conversations.order() == order,
            conversations@ == moved_all(start, order, all.take(i as int)),
        decreases moves.len() - i,
    {
        let intent = &moves[i];
        let ghost before = conversations@;
        proof {
            assert(all.take(i + 1).drop_last() =~= all.take(i as int));
            assert(all.take(i + 1).last() == moves@[i as int]@);
        }
        let taken = conversations.take(&intent.summary.id);
        let ghost left = conversations@;
        assert(left =~= departed(before, order, intent@.summary.id));
        let destination = match conversations.get(&intent.destination_folder_id) {
            Some(rows) => Some(mail::clone_summaries(rows)),
            None => None,
        };
        if let Some(rows) = destination {
            let mut rows = rows;
            let mut summary = match taken {
                Some(summary) => summary,
                None => intent.summary.clone(),
            };
            summary.folder_id = intent.destination_folder_id.clone();
            let ghost value = summary@;
            let ghost listed = mail::summaries(rows@);
            assert(value == arrival(before, order, intent@));
            rows.push(summary);
            assert(mail::summaries(rows@) =~= listed.push(value));
            mail::sort_and_deduplicate_conversations(&mut rows);
            conversations.insert(intent.destination_folder_id.clone(), rows);
        }
        i += 1;
    }
    assert(all.take(i as int) =~= all);
}

/// Shows all folders as they are once their messages were marked.
pub fn apply_flags_everywhere(
    flags: &Vec<MessageFlagIntent>,
    conversations: &mut MailboxConversations,
)
    ensures
        final(conversations)@ == old(conversations)@.map_values(
            |list: Seq<SummaryView>| flagged(list, flag_views(flags@)),
        ),
        final(conversations).order() == old(conversations).order(),
{
    let ghost start = conversations@;
    let ghost order = conversations.order();
    let ghost known = flag_views(flags@);
    let ids = conversations.folder_ids();
    let mut i: usize = 0;
    while i < ids.len()
        invariant
            i <= ids.len(),
            known == flag_views(flags@),
            order == conversations.order(),
            ids@.len() == order.len(),
            forall|j: int| 0 <= j < ids@.len() ==> (#[trigger] ids@[j])@ == order[j],
            forall|id: Seq<char>| #[trigger] start.contains_key(id) <==> order.contains(id),
            forall|j: int, k: int|
                #![trigger order[j], order[k]]
                0 <= j < k < order.len() ==> order[j] != order[k],
            conversations@.dom() =~= start.dom(),
            forall|j: int|
                0 <= j < i ==> conversations@[#[trigger] order[j]] == flagged(
                    start[order[j]],
                    known,
                ),
            forall|j: int|
                i <= j < order.len() ==> conversations@[#[trigger] order[j]] == start[order[j]],
        decreases ids.len() - i,
    {
        proof {
            assert(order.contains(order[i as int]));
            assert(start.contains_key(order[i as int]));
        }
        let mut rows = match conversations.get(&ids[i]) {
            Some(rows) => mail::clone_summaries(rows),
            None => Vec::new(),
        };
        apply_flag_overlay(flags, &mut rows);
        conversations.insert(ids[i].clone(), rows);
        i += 1;
    }
    proof {
        let expected = start.map_values(|list: Seq<SummaryView>| flagged(list, known));
        assert forall|id: Seq<char>| start.contains_key(id) implies conversations@[id]
            == expected[id] by {
            assert(order.contains(id));
            let j = choose|j: int| 0 <= j < order.len() && order[j] == id;
            assert(conversations@[order[j]] == flagged(start[order[j]], known));
        }
        assert(conversations@ =~= expected);
    }
}

impl MessageActionQueue {
    /// Shows the folders as they are once everything on `route` was carried out. Tells
    /// whether anything is left to carry out.
    pub fn apply_to_projection(
        &self,
        route: &EdsAccountBinding,
        conversations: &mut MailboxConversations,
    ) -> (changed: bool)
        ensures
            changed == !actions_of(self@, route@).is_empty(),
            final(conversations)@ == overlaid(
                old(conversations)@,
                old(conversations).order(),
                actions_of(self@, route@),
            ),
            final(conversations).order() == old(conversations).order(),
    {
        let moves = self.moves_for_route(route);
        let flags = self.flags_for_route(route);
        assert(move_views(moves@).len() == moves@.len());
        assert(flag_views(flags@).len() == flags@.len());
        apply_move_overlay(&moves, conversations);
        apply_flags_everywhere(&flags, conversations);
        moves.len() != 0 || flags.len() != 0
    }

    /// Shows messages that were found as they are once everything on `route` was carried
    /// out.
    pub fn apply_to_summaries(
        &self,
        route: &EdsAccountBinding,
        summaries: &mut Vec<ConversationSummary>,
    )
        ensures
            mail::summaries(final(summaries)@) == flagged(
                redirected(mail::summaries(old(summaries)@), actions_of(self@, route@).moves),
                actions_of(self@, route@).flags,
            ),
    {
        let moves = self.moves_for_route(route);
        let flags = self.flags_for_route(route);
        let ghost known = move_views(moves@);
        let mut pending: Vec<ConversationSummary> = Vec::new();
        std::mem::swap(&mut pending, summaries);
        let ghost all = mail::summaries(pending@);
        assert(mail::summaries(summaries@) =~= redirected(all.take(0), known));
        for summary in it: pending
            invariant
                all == mail::summaries(it.seq()),
                known == move_views(moves@),
                mail::summaries(summaries@) == redirected(all.take(it.index()), known),
        {
            let ghost before = mail::summaries(summaries@);
            let ghost old_value = summary@;
            let mut summary = summary;
            match find_move(&moves, &summary.id) {
                None => {},
                Some(at) => {
                    summary.folder_id = moves[at].destination_folder_id.clone();
                },
            }
            let ghost value = summary@;
            assert(value == redirected_summary(old_value, known));
            summaries.push(summary);
            proof {
                assert(mail::summaries(summaries@) =~= before.push(value));
                assert(redirected(all.take(it.index() + 1), known) =~= before.push(value));
            }
        }
        assert(all.take(all.len() as int) =~= all);
        apply_flag_overlay(&flags, summaries);
    }

    /// Shows a message as it is once it was marked.
    pub fn apply_flag_overlay_to_detail(
        &self,
        route: &EdsAccountBinding,
        detail: &mut MessageDetail,
    )
        ensures
            *final(detail) == flagged_detail(*old(detail), actions_of(self@, route@).flags),
    {
        let flags = self.flags_for_route(route);
        match find_flag(&flags, &detail.conversation_id) {
            None => {},
            Some(at) => {
                if let Some(read) = flags[at].read {
                    detail.unread = !read;
                }
                if let Some(starred) = flags[at].starred {
                    detail.starred = starred;
                }
            },
        }
    }
}

/// A message, shown as it is once it was marked.
pub open spec fn flagged_detail(detail: MessageDetail, flags: Seq<FlagView>) -> MessageDetail {
    match flag_for(flags, detail.conversation_id@) {
        None => detail,
        Some(flag) => MessageDetail {
            unread: match flag.read {
                None => detail.unread,
                Some(read) => !read,
            },
            starred: match flag.starred {
                None => detail.starred,
                Some(starred) => starred,
            },
            ..detail
        },
    }
}

/// A message that was found, shown where it is to be moved.
pub open spec fn redirected_summary(summary: SummaryView, moves: Seq<MoveView>) -> SummaryView {
    match move_for(moves, summary.id) {
        None => summary,
        Some(intent) => SummaryView { folder_id: intent.destination, ..summary },
    }
}

/// Messages that were found, shown where they are to be moved.
pub open spec fn redirected(list: Seq<SummaryView>, moves: Seq<MoveView>) -> Seq<SummaryView> {
    list.map_values(|summary: SummaryView| redirected_summary(summary, moves))
}

/// Whether the actions name each message once.
pub open spec fn each_once(actions: RouteView) -> bool {
    distinct_moves(actions.moves) && distinct_flags(actions.flags)
}

/// However actions are noted and settled, each message has one move and one mark at most.
pub proof fn lemma_each_message_is_noted_once(
    actions: RouteView,
    intent: MoveView,
    flag: FlagView,
    completed_moves: Seq<MoveView>,
    completed_flags: Seq<FlagView>,
)
    requires
        each_once(actions),
    ensures
        each_once(no_actions()),
        each_once(RouteView { moves: with_move(actions.moves, intent), ..actions }),
        each_once(
            RouteView {
                flags: with_flag(actions.flags, flag.conversation_id, flag.read, flag.starred),
                ..actions
            },
        ),
        each_once(RouteView { moves: open_moves(actions.moves, completed_moves), ..actions }),
        each_once(RouteView { flags: open_flags(actions.flags, completed_flags), ..actions }),
{
    lemma_with_move_distinct(actions.moves, intent);
    lemma_with_flag_distinct(actions.flags, flag.conversation_id, flag.read, flag.starred);
    lemma_open_moves_distinct(actions.moves, completed_moves);
    lemma_open_flags_distinct(actions.flags, completed_flags);
}

} // verus!
