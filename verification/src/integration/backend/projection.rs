//! What changes that the provider has not been told of make of the folders.
//!
//! Moves are carried out one by one. The laws here say what the folders hold once all of
//! them are, and that carrying them out again changes nothing.
use crate::integration::backend::actions;
use crate::integration::backend::actions::{FlagView, MoveView, RouteView};
use crate::integration::mailbox;
use crate::model::mail;
use crate::model::mail::SummaryView;
use vstd::prelude::*;

verus! {

/// The rows of a folder that no move concerns.
pub open spec fn unmoved(list: Seq<SummaryView>, moves: Seq<MoveView>) -> Seq<SummaryView> {
    list.filter(|summary: SummaryView| !actions::moves_message(moves, summary.id))
}

/// What the moves bring into a folder.
pub open spec fn arrivals(
    map: Map<Seq<char>, Seq<SummaryView>>,
    order: Seq<Seq<char>>,
    moves: Seq<MoveView>,
    folder: Seq<char>,
) -> Seq<SummaryView>
    decreases moves.len(),
{
    if moves.len() == 0 {
        Seq::empty()
    } else {
        let before = arrivals(map, order, moves.drop_last(), folder);
        if moves.last().destination == folder {
            before.push(actions::arrival(map, order, moves.last()))
        } else {
            before
        }
    }
}

/// What a folder holds once all of the moves are carried out: the rows that no move
/// concerns and, in their places among them, those that the moves bring in.
pub open spec fn settled(
    map: Map<Seq<char>, Seq<SummaryView>>,
    order: Seq<Seq<char>>,
    moves: Seq<MoveView>,
    folder: Seq<char>,
) -> Seq<SummaryView> {
    let staying = unmoved(map[folder], moves);
    let coming = arrivals(map, order, moves, folder);
    if coming.len() == 0 {
        staying
    } else {
        mail::ranked(staying + coming)
    }
}

/// Whether a move brings the message `id` into a folder.
pub open spec fn arrives(moves: Seq<MoveView>, id: Seq<char>, folder: Seq<char>) -> bool {
    exists|i: int|
        0 <= i < moves.len() && #[trigger] moves[i].summary.id == id && moves[i].destination
            == folder
}

/// A filtered list holds what the list holds and the filter keeps.
pub proof fn lemma_filter_contains(
    list: Seq<SummaryView>,
    keep: spec_fn(SummaryView) -> bool,
    summary: SummaryView,
)
    ensures
        list.filter(keep).contains(summary) <==> list.contains(summary) && keep(summary),
    decreases list.len(),
{
    reveal(Seq::filter);
    if list.len() > 0 {
        let rest = list.drop_last();
        let kept = rest.filter(keep);
        let all = list.filter(keep);
        lemma_filter_contains(rest, keep, summary);
        if kept.contains(summary) {
            let i = choose|i: int| 0 <= i < kept.len() && kept[i] == summary;
            assert(all[i] == summary);
        }
        if rest.contains(summary) {
            let i = choose|i: int| 0 <= i < rest.len() && rest[i] == summary;
            assert(list[i] == summary);
        }
        if list.contains(summary) && !rest.contains(summary) {
            let i = choose|i: int| 0 <= i < list.len() && list[i] == summary;
            if i < rest.len() {
                assert(rest[i] == summary);
            }
            if keep(summary) {
                assert(all[kept.len() as int] == summary);
            }
        }
        if all.contains(summary) && !kept.contains(summary) {
            let i = choose|i: int| 0 <= i < all.len() && all[i] == summary;
            if i < kept.len() {
                assert(kept[i] == summary);
            }
            assert(list[list.len() - 1] == summary);
        }
    }
}

/// Filters that agree on the entries of a list make the same of it.
pub proof fn lemma_filter_same(
    list: Seq<SummaryView>,
    keep: spec_fn(SummaryView) -> bool,
    other: spec_fn(SummaryView) -> bool,
)
    requires
        forall|i: int| 0 <= i < list.len() ==> keep(#[trigger] list[i]) == other(list[i]),
    ensures
        list.filter(keep) == list.filter(other),
    decreases list.len(),
{
    reveal(Seq::filter);
    if list.len() > 0 {
        let rest = list.drop_last();
        assert forall|i: int| 0 <= i < rest.len() implies keep(#[trigger] rest[i]) == other(
            rest[i],
        ) by {
            assert(rest[i] == list[i]);
        }
        lemma_filter_same(rest, keep, other);
        assert(keep(list[list.len() - 1]) == other(list[list.len() - 1]));
    }
}

/// A filter that keeps every entry of a list leaves it as it is.
pub proof fn lemma_filter_all(list: Seq<SummaryView>, keep: spec_fn(SummaryView) -> bool)
    requires
        forall|i: int| 0 <= i < list.len() ==> keep(#[trigger] list[i]),
    ensures
        list.filter(keep) == list,
    decreases list.len(),
{
    reveal(Seq::filter);
    if list.len() > 0 {
        let rest = list.drop_last();
        assert forall|i: int| 0 <= i < rest.len() implies keep(#[trigger] rest[i]) by {
            assert(rest[i] == list[i]);
        }
        lemma_filter_all(rest, keep);
        assert(keep(list[list.len() - 1]));
        assert(list =~= rest.push(list.last()));
    }
}

/// A filter that keeps no entry of a list leaves nothing of it.
pub proof fn lemma_filter_none(list: Seq<SummaryView>, keep: spec_fn(SummaryView) -> bool)
    requires
        forall|i: int| 0 <= i < list.len() ==> !keep(#[trigger] list[i]),
    ensures
        list.filter(keep) == Seq::<SummaryView>::empty(),
    decreases list.len(),
{
    reveal(Seq::filter);
    if list.len() > 0 {
        let rest = list.drop_last();
        assert forall|i: int| 0 <= i < rest.len() implies !keep(#[trigger] rest[i]) by {
            assert(rest[i] == list[i]);
        }
        lemma_filter_none(rest, keep);
        assert(!keep(list[list.len() - 1]));
    } else {
        assert(list.filter(keep) =~= Seq::empty());
    }
}

/// Two filters in a row are one that keeps what both keep.
pub proof fn lemma_filter_twice(
    list: Seq<SummaryView>,
    keep: spec_fn(SummaryView) -> bool,
    other: spec_fn(SummaryView) -> bool,
)
    ensures
        list.filter(keep).filter(other) == list.filter(
            |summary: SummaryView| keep(summary) && other(summary),
        ),
    decreases list.len(),
{
    reveal(Seq::filter);
    let both = |summary: SummaryView| keep(summary) && other(summary);
    if list.len() > 0 {
        let kept = list.drop_last().filter(keep);
        lemma_filter_twice(list.drop_last(), keep, other);
        assert(kept.push(list.last()).drop_last() =~= kept);
        assert(list.filter(keep).filter(other) =~= list.filter(both));
    } else {
        assert(list.filter(keep).filter(other) =~= list.filter(both));
    }
}

proof fn lemma_has_id(list: Seq<SummaryView>, id: Seq<char>)
    ensures
        mail::has_id(list, id) <==> exists|summary: SummaryView| #[trigger]
            list.contains(summary) && summary.id == id,
{
    if mail::has_id(list, id) {
        let i = choose|i: int| 0 <= i < list.len() && #[trigger] list[i].id == id;
        assert(list.contains(list[i]));
    }
    if exists|summary: SummaryView| #[trigger] list.contains(summary) && summary.id == id {
        let summary = choose|summary: SummaryView| #[trigger]
            list.contains(summary) && summary.id == id;
        let i = choose|i: int| 0 <= i < list.len() && list[i] == summary;
        assert(list[i].id == id);
    }
}

proof fn lemma_unique_rest(list: Seq<SummaryView>)
    requires
        mail::unique_ids(list),
        list.len() > 0,
    ensures
        mail::unique_ids(list.drop_last()),
        !mail::has_id(list.drop_last(), list.last().id),
{
    let rest = list.drop_last();
    assert forall|i: int, j: int|
        #![trigger rest[i], rest[j]]
        0 <= i < j < rest.len() implies rest[i].id != rest[j].id by {
        assert(list[i].id != list[j].id);
    }
    assert forall|i: int| 0 <= i < rest.len() implies #[trigger] rest[i].id != list.last().id by {
        assert(list[i].id != list[list.len() - 1].id);
    }
}

/// A list stays one that names each conversation once where it gets another one.
pub proof fn lemma_unique_push(list: Seq<SummaryView>, summary: SummaryView)
    requires
        mail::unique_ids(list),
        !mail::has_id(list, summary.id),
    ensures
        mail::unique_ids(list.push(summary)),
{
    let all = list.push(summary);
    assert forall|i: int, j: int|
        #![trigger all[i], all[j]]
        0 <= i < j < all.len() implies all[i].id != all[j].id by {
        assert(all[i] == list[i]);
        if j < list.len() {
            assert(all[j] == list[j]);
        } else {
            assert(list[i].id != summary.id);
        }
    }
}

/// A list that names each conversation once still does so once it is filtered.
pub proof fn lemma_unique_filter(list: Seq<SummaryView>, keep: spec_fn(SummaryView) -> bool)
    requires
        mail::unique_ids(list),
    ensures
        mail::unique_ids(list.filter(keep)),
    decreases list.len(),
{
    reveal(Seq::filter);
    if list.len() > 0 {
        let rest = list.drop_last();
        lemma_unique_rest(list);
        lemma_unique_filter(rest, keep);
        if keep(list.last()) {
            let id = list.last().id;
            lemma_has_id(rest, id);
            lemma_has_id(rest.filter(keep), id);
            if mail::has_id(rest.filter(keep), id) {
                let found = choose|found: SummaryView| #[trigger]
                    rest.filter(keep).contains(found) && found.id == id;
                lemma_filter_contains(rest, keep, found);
            }
            lemma_unique_push(rest.filter(keep), list.last());
        }
    }
}

proof fn lemma_remove_is_filter(list: Seq<SummaryView>, id: Seq<char>)
    requires
        mail::unique_ids(list),
        mail::has_id(list, id),
    ensures
        list.remove(mailbox::position(list, id)) == list.filter(
            |summary: SummaryView| summary.id != id,
        ),
    decreases list.len(),
{
    reveal(Seq::filter);
    let keep = |summary: SummaryView| summary.id != id;
    let rest = list.drop_last();
    mailbox::lemma_position(list, id);
    lemma_unique_rest(list);
    if mail::has_id(rest, id) {
        lemma_remove_is_filter(rest, id);
        mailbox::lemma_position(rest, id);
        let at = mailbox::position(rest, id);
        assert(list[at].id != list[list.len() - 1].id);
        assert(list.remove(at) =~= rest.remove(at).push(list.last()));
    } else {
        assert forall|i: int| 0 <= i < rest.len() implies keep(#[trigger] rest[i]) by {
            assert(rest[i].id != id);
        }
        lemma_filter_all(rest, keep);
        assert(list.last().id == id);
        assert(list.remove(list.len() - 1) =~= rest);
    }
}

proof fn lemma_same_id_is_same(list: Seq<SummaryView>, a: SummaryView, b: SummaryView)
    requires
        mail::unique_ids(list),
        list.contains(a),
        list.contains(b),
        a.id == b.id,
    ensures
        a == b,
{
    let i = choose|i: int| 0 <= i < list.len() && list[i] == a;
    let j = choose|j: int| 0 <= j < list.len() && list[j] == b;
    if i < j {
        assert(list[i].id != list[j].id);
    } else if j < i {
        assert(list[j].id != list[i].id);
    }
}

proof fn lemma_arrival_id(
    map: Map<Seq<char>, Seq<SummaryView>>,
    order: Seq<Seq<char>>,
    intent: MoveView,
)
    ensures
        actions::arrival(map, order, intent).id == intent.summary.id,
        actions::arrival(map, order, intent).folder_id == intent.destination,
{
    let id = intent.summary.id;
    mailbox::lemma_holder(map, order, id);
    match mailbox::holder(map, order, id) {
        Some(folder) => mailbox::lemma_position(map[folder], id),
        None => {},
    }
}

/// Where each move is that of another message, so is each but the last, and none of them is
/// that of the last.
pub proof fn lemma_distinct_rest(moves: Seq<MoveView>)
    requires
        actions::distinct_moves(moves),
        moves.len() > 0,
    ensures
        actions::distinct_moves(moves.drop_last()),
        !actions::moves_message(moves.drop_last(), moves.last().summary.id),
{
    let rest = moves.drop_last();
    assert forall|i: int, j: int|
        #![trigger rest[i], rest[j]]
        0 <= i < j < rest.len() implies rest[i].summary.id != rest[j].summary.id by {
        assert(moves[i].summary.id != moves[j].summary.id);
    }
    assert forall|i: int| 0 <= i < rest.len() implies #[trigger] rest[i].summary.id
        != moves.last().summary.id by {
        assert(moves[i].summary.id != moves[moves.len() - 1].summary.id);
    }
}

/// A message is moved by the last move or by one before it.
pub proof fn lemma_moves_message_last(moves: Seq<MoveView>, id: Seq<char>)
    requires
        moves.len() > 0,
    ensures
        actions::moves_message(moves, id) <==> actions::moves_message(moves.drop_last(), id)
            || moves.last().summary.id == id,
{
    let rest = moves.drop_last();
    if actions::moves_message(rest, id) {
        let i = choose|i: int| 0 <= i < rest.len() && #[trigger] rest[i].summary.id == id;
        assert(moves[i].summary.id == id);
    }
    if moves.last().summary.id == id {
        assert(moves[moves.len() - 1].summary.id == id);
    }
    if actions::moves_message(moves, id) {
        let i = choose|i: int| 0 <= i < moves.len() && #[trigger] moves[i].summary.id == id;
        if i < rest.len() {
            assert(rest[i].summary.id == id);
        }
    }
}

proof fn lemma_arrives_last(moves: Seq<MoveView>, id: Seq<char>, folder: Seq<char>)
    requires
        moves.len() > 0,
    ensures
        arrives(moves, id, folder) <==> arrives(moves.drop_last(), id, folder) || (
        moves.last().summary.id == id && moves.last().destination == folder),
        arrives(moves, id, folder) ==> actions::moves_message(moves, id),
{
    let rest = moves.drop_last();
    if arrives(rest, id, folder) {
        let i = choose|i: int|
            0 <= i < rest.len() && #[trigger] rest[i].summary.id == id && rest[i].destination
                == folder;
        assert(moves[i].summary.id == id);
    }
    if moves.last().summary.id == id && moves.last().destination == folder {
        assert(moves[moves.len() - 1].summary.id == id);
    }
    if arrives(moves, id, folder) {
        let i = choose|i: int|
            0 <= i < moves.len() && #[trigger] moves[i].summary.id == id && moves[i].destination
                == folder;
        assert(moves[i].summary.id == id);
        if i < rest.len() {
            assert(rest[i].summary.id == id);
        }
    }
}

/// A list with one more entry names what it named and that entry.
pub proof fn lemma_has_id_push(list: Seq<SummaryView>, summary: SummaryView, id: Seq<char>)
    ensures
        mail::has_id(list.push(summary), id) <==> mail::has_id(list, id) || summary.id == id,
{
    let all = list.push(summary);
    if mail::has_id(list, id) {
        let i = choose|i: int| 0 <= i < list.len() && #[trigger] list[i].id == id;
        assert(all[i].id == id);
    }
    if summary.id == id {
        assert(all[list.len() as int].id == id);
    }
    if mail::has_id(all, id) && summary.id != id {
        let i = choose|i: int| 0 <= i < all.len() && #[trigger] all[i].id == id;
        assert(list[i].id == id);
    }
}

/// A list made of two holds what either holds.
pub proof fn lemma_has_id_concat(a: Seq<SummaryView>, b: Seq<SummaryView>, id: Seq<char>)
    ensures
        mail::has_id(a + b, id) <==> mail::has_id(a, id) || mail::has_id(b, id),
{
    let all = a + b;
    if mail::has_id(a, id) {
        let i = choose|i: int| 0 <= i < a.len() && #[trigger] a[i].id == id;
        assert(all[i].id == id);
    }
    if mail::has_id(b, id) {
        let i = choose|i: int| 0 <= i < b.len() && #[trigger] b[i].id == id;
        assert(all[a.len() + i].id == id);
    }
    if mail::has_id(all, id) {
        let i = choose|i: int| 0 <= i < all.len() && #[trigger] all[i].id == id;
        if i < a.len() {
            assert(a[i].id == id);
        } else {
            assert(b[i - a.len()].id == id);
        }
    }
}

/// Two lists that name each conversation once and have none in common make one that does
/// so.
pub proof fn lemma_unique_concat(a: Seq<SummaryView>, b: Seq<SummaryView>)
    requires
        mail::unique_ids(a),
        mail::unique_ids(b),
        forall|i: int| 0 <= i < b.len() ==> !mail::has_id(a, #[trigger] b[i].id),
    ensures
        mail::unique_ids(a + b),
{
    let all = a + b;
    assert forall|i: int, j: int|
        #![trigger all[i], all[j]]
        0 <= i < j < all.len() implies all[i].id != all[j].id by {
        if j < a.len() {
            assert(a[i].id != a[j].id);
        } else if i >= a.len() {
            assert(b[i - a.len()].id != b[j - a.len()].id);
        } else {
            assert(!mail::has_id(a, b[j - a.len()].id));
            assert(a[i].id != b[j - a.len()].id);
        }
    }
}

proof fn lemma_arrivals(
    map: Map<Seq<char>, Seq<SummaryView>>,
    order: Seq<Seq<char>>,
    moves: Seq<MoveView>,
    folder: Seq<char>,
)
    requires
        actions::distinct_moves(moves),
    ensures
        mail::unique_ids(arrivals(map, order, moves, folder)),
        forall|id: Seq<char>|
            #![trigger mail::has_id(arrivals(map, order, moves, folder), id)]
            mail::has_id(arrivals(map, order, moves, folder), id) <==> arrives(moves, id, folder),
        forall|k: int|
            0 <= k < arrivals(map, order, moves, folder).len() ==> (#[trigger] arrivals(
                map,
                order,
                moves,
                folder,
            )[k]).folder_id == folder && actions::moves_message(
                moves,
                arrivals(map, order, moves, folder)[k].id,
            ),
    decreases moves.len(),
{
    let all = arrivals(map, order, moves, folder);
    if moves.len() == 0 {
        assert forall|id: Seq<char>|
            #![trigger mail::has_id(all, id)]
            mail::has_id(all, id) <==> arrives(moves, id, folder) by {}
    } else {
        let rest = moves.drop_last();
        let before = arrivals(map, order, rest, folder);
        let added = actions::arrival(map, order, moves.last());
        lemma_distinct_rest(moves);
        lemma_arrivals(map, order, rest, folder);
        lemma_arrival_id(map, order, moves.last());
        if moves.last().destination == folder {
            if mail::has_id(before, added.id) {
                assert(arrives(rest, added.id, folder));
                let i = choose|i: int|
                    0 <= i < rest.len() && #[trigger] rest[i].summary.id == added.id
                        && rest[i].destination == folder;
                assert(rest[i].summary.id == added.id);
            }
            lemma_unique_push(before, added);
        }
        assert forall|id: Seq<char>|
            #![trigger mail::has_id(all, id)]
            mail::has_id(all, id) <==> arrives(moves, id, folder) by {
            lemma_arrives_last(moves, id, folder);
            lemma_has_id_push(before, added, id);
            assert(mail::has_id(before, id) <==> arrives(rest, id, folder));
        }
        assert forall|k: int| 0 <= k < all.len() implies (#[trigger] all[k]).folder_id == folder
            && actions::moves_message(moves, all[k].id) by {
            lemma_moves_message_last(moves, all[k].id);
            if k < before.len() {
                assert(all[k] == before[k]);
            }
        }
    }
}

/// Once moves are carried out, a folder lists a message if a move brings it there, or if
/// the folder listed it and no move concerns it. It lists no message twice.
proof fn lemma_settled_ids(
    map: Map<Seq<char>, Seq<SummaryView>>,
    order: Seq<Seq<char>>,
    moves: Seq<MoveView>,
    folder: Seq<char>,
)
    requires
        actions::distinct_moves(moves),
        mail::unique_ids(map[folder]),
    ensures
        mail::unique_ids(settled(map, order, moves, folder)),
        forall|id: Seq<char>|
            #![trigger mail::has_id(settled(map, order, moves, folder), id)]
            mail::has_id(settled(map, order, moves, folder), id) <==> (mail::has_id(
                map[folder],
                id,
            ) && !actions::moves_message(moves, id)) || arrives(moves, id, folder),
        forall|summary: SummaryView|
            #![trigger settled(map, order, moves, folder).contains(summary)]
            settled(map, order, moves, folder).contains(summary) <==> (map[folder].contains(summary)
                && !actions::moves_message(moves, summary.id)) || arrivals(
                map,
                order,
                moves,
                folder,
            ).contains(summary),
{
    let keep = |summary: SummaryView| !actions::moves_message(moves, summary.id);
    let staying = unmoved(map[folder], moves);
    let coming = arrivals(map, order, moves, folder);
    let rows = settled(map, order, moves, folder);
    lemma_arrivals(map, order, moves, folder);
    lemma_unique_filter(map[folder], keep);
    assert forall|id: Seq<char>| #[trigger] mail::has_id(staying, id) <==> mail::has_id(
        map[folder],
        id,
    ) && !actions::moves_message(moves, id) by {
        lemma_has_id(map[folder], id);
        lemma_has_id(staying, id);
        if mail::has_id(staying, id) {
            let found = choose|found: SummaryView| #[trigger]
                staying.contains(found) && found.id == id;
            lemma_filter_contains(map[folder], keep, found);
        }
        if mail::has_id(map[folder], id) && !actions::moves_message(moves, id) {
            let found = choose|found: SummaryView| #[trigger]
                map[folder].contains(found) && found.id == id;
            lemma_filter_contains(map[folder], keep, found);
        }
    }
    assert forall|i: int| 0 <= i < coming.len() implies !mail::has_id(
        staying,
        #[trigger] coming[i].id,
    ) by {
        assert(actions::moves_message(moves, coming[i].id));
    }
    lemma_unique_concat(staying, coming);
    mail::lemma_ranked_ids(staying + coming);
    assert forall|id: Seq<char>|
        #![trigger mail::has_id(rows, id)]
        mail::has_id(rows, id) <==> (mail::has_id(map[folder], id) && !actions::moves_message(
            moves,
            id,
        )) || arrives(moves, id, folder) by {
        lemma_has_id_concat(staying, coming, id);
        assert(mail::has_id(coming, id) <==> arrives(moves, id, folder));
        assert(mail::has_id(mail::ranked(staying + coming), id) == mail::has_id(
            staying + coming,
            id,
        ));
        if coming.len() == 0 {
            assert(!mail::has_id(coming, id));
        }
    }
    assert forall|summary: SummaryView|
        #![trigger rows.contains(summary)]
        rows.contains(summary) <==> (map[folder].contains(summary) && !actions::moves_message(
            moves,
            summary.id,
        )) || coming.contains(summary) by {
        lemma_filter_contains(map[folder], keep, summary);
        mail::lemma_ranked_contains(staying + coming, summary);
        lemma_contains_concat(staying, coming, summary);
    }
}

proof fn lemma_contains_concat(a: Seq<SummaryView>, b: Seq<SummaryView>, summary: SummaryView)
    ensures
        (a + b).contains(summary) <==> a.contains(summary) || b.contains(summary),
{
    let all = a + b;
    if a.contains(summary) {
        let i = choose|i: int| 0 <= i < a.len() && a[i] == summary;
        assert(all[i] == summary);
    }
    if b.contains(summary) {
        let i = choose|i: int| 0 <= i < b.len() && b[i] == summary;
        assert(all[a.len() + i] == summary);
    }
    if all.contains(summary) {
        let i = choose|i: int| 0 <= i < all.len() && all[i] == summary;
        if i < a.len() {
            assert(a[i] == summary);
        } else {
            assert(b[i - a.len()] == summary);
        }
    }
}

/// The rows of `folder` once a message left, told from what moves made of them.
proof fn lemma_leaving(
    map: Map<Seq<char>, Seq<SummaryView>>,
    order: Seq<Seq<char>>,
    moves: Seq<MoveView>,
    folder: Seq<char>,
)
    requires
        moves.len() > 0,
        actions::distinct_moves(moves),
        mail::unique_ids(map[folder]),
    ensures
        ({
            let id = moves.last().summary.id;
            let before = arrivals(map, order, moves.drop_last(), folder);
            let staying = unmoved(map[folder], moves);
            let rows = settled(map, order, moves.drop_last(), folder);
            let after = if before.len() == 0 {
                staying
            } else {
                mail::ranked(staying + before)
            };
            &&& mail::has_id(rows, id) == mail::has_id(map[folder], id)
            &&& mail::has_id(rows, id) ==> rows.remove(mailbox::position(rows, id)) == after
            &&& !mail::has_id(rows, id) ==> rows == after
            &&& !mail::has_id(after, id)
            &&& mail::unique_ids(after)
        }),
{
    let id = moves.last().summary.id;
    let rest = moves.drop_last();
    let before = arrivals(map, order, rest, folder);
    let staying = unmoved(map[folder], moves);
    let rows = settled(map, order, rest, folder);
    let after = if before.len() == 0 {
        staying
    } else {
        mail::ranked(staying + before)
    };
    let other = |summary: SummaryView| summary.id != id;
    let keep = |summary: SummaryView| !actions::moves_message(rest, summary.id);
    let keep_all = |summary: SummaryView| !actions::moves_message(moves, summary.id);
    lemma_distinct_rest(moves);
    lemma_settled_ids(map, order, rest, folder);
    lemma_arrivals(map, order, rest, folder);
    assert(!arrives(rest, id, folder));
    assert(mail::has_id(rows, id) == mail::has_id(map[folder], id));
    // The rows without the message are the rows that stay.
    let earlier = unmoved(map[folder], rest);
    lemma_filter_twice(map[folder], keep, other);
    let both = |summary: SummaryView| keep(summary) && other(summary);
    assert forall|i: int| 0 <= i < map[folder].len() implies both(#[trigger] map[folder][i])
        == keep_all(map[folder][i]) by {
        lemma_moves_message_last(moves, map[folder][i].id);
    }
    lemma_filter_same(map[folder], both, keep_all);
    assert(earlier.filter(other) == staying);
    assert forall|i: int| 0 <= i < before.len() implies other(#[trigger] before[i]) by {
        assert(actions::moves_message(rest, before[i].id));
    }
    lemma_filter_all(before, other);
    Seq::filter_distributes_over_add(earlier, before, other);
    mail::lemma_ranked_filter(earlier + before, other);
    assert(rows.filter(other) == after);
    if mail::has_id(rows, id) {
        lemma_remove_is_filter(rows, id);
    } else {
        assert forall|i: int| 0 <= i < rows.len() implies other(#[trigger] rows[i]) by {
            assert(rows[i].id != id);
        }
        lemma_filter_all(rows, other);
    }
    lemma_unique_filter(rows, other);
    lemma_has_id(after, id);
    if mail::has_id(after, id) {
        let found = choose|found: SummaryView| #[trigger] after.contains(found) && found.id == id;
        lemma_filter_contains(rows, other, found);
    }
}

/// Moves, carried out one by one, leave each folder with the rows that no move concerns
/// and, in their places among them, those that the moves bring in. The folders that are
/// loaded stay the same.
pub proof fn lemma_moves_settle(
    map: Map<Seq<char>, Seq<SummaryView>>,
    order: Seq<Seq<char>>,
    moves: Seq<MoveView>,
)
    requires
        mailbox::consistent(map),
        mailbox::ordered_by(map, order),
        actions::distinct_moves(moves),
    ensures
        actions::moved_all(map, order, moves).dom() == map.dom(),
        forall|folder: Seq<char>| #[trigger]
            map.contains_key(folder) ==> actions::moved_all(map, order, moves)[folder] == settled(
                map,
                order,
                moves,
                folder,
            ),
    decreases moves.len(),
{
    if moves.len() == 0 {
        assert forall|folder: Seq<char>| #[trigger] map.contains_key(folder) implies map[folder]
            == settled(map, order, moves, folder) by {
            let keep = |summary: SummaryView| !actions::moves_message(moves, summary.id);
            assert forall|i: int| 0 <= i < map[folder].len() implies keep(
                #[trigger] map[folder][i],
            ) by {}
            lemma_filter_all(map[folder], keep);
        }
    } else {
        let rest = moves.drop_last();
        let intent = moves.last();
        let id = intent.summary.id;
        let current = actions::moved_all(map, order, rest);
        lemma_distinct_rest(moves);
        lemma_moves_settle(map, order, rest);
        assert forall|folder: Seq<char>| #[trigger] map.contains_key(folder) implies mail::has_id(
            current[folder],
            id,
        ) == mail::has_id(map[folder], id) by {
            lemma_leaving(map, order, moves, folder);
        }
        assert forall|i: int| 0 <= i < order.len() implies mail::has_id(
            current[#[trigger] order[i]],
            id,
        ) == mail::has_id(map[order[i]], id) by {
            assert(order.contains(order[i]));
            assert(map.contains_key(order[i]));
        }
        mailbox::lemma_holder_is_the_same(current, map, order, id);
        mailbox::lemma_holder(map, order, id);
        lemma_same_arrival(map, order, moves);
        let left = actions::departed(current, order, id);
        assert forall|folder: Seq<char>| #[trigger] map.contains_key(folder) implies left[folder]
            == rows_without(map, order, moves, folder) by {
            lemma_leaving(map, order, moves, folder);
            match mailbox::holder(map, order, id) {
                Some(held) => {
                    assert(map.contains_key(held));
                    if folder != held && mail::has_id(map[folder], id) {
                        assert(mail::has_id(map[held], id));
                    }
                },
                None => {
                    assert(order.contains(folder));
                },
            }
        }
        assert(left.dom() =~= map.dom()) by {
            match mailbox::holder(map, order, id) {
                Some(held) => {
                    assert(map.contains_key(held));
                },
                None => {},
            }
        }
        assert forall|folder: Seq<char>| #[trigger]
            map.contains_key(folder) implies actions::moved_all(map, order, moves)[folder]
            == settled(map, order, moves, folder) by {
            let before = arrivals(map, order, rest, folder);
            let staying = unmoved(map[folder], moves);
            assert(left[folder] == rows_without(map, order, moves, folder));
            if folder == intent.destination {
                let added = actions::arrival(map, order, intent);
                let rows = left[folder];
                lemma_leaving(map, order, moves, folder);
                lemma_arrival_id(map, order, intent);
                lemma_unique_push(rows, added);
                mail::lemma_first_of_each_identity(rows.push(added));
                if before.len() == 0 {
                    assert(staying + before.push(added) =~= staying.push(added));
                } else {
                    assert(rows.push(added) =~= rows + seq![added]);
                    mail::lemma_ranked_concat(staying + before, seq![added]);
                    assert((staying + before) + seq![added] =~= staying + before.push(added));
                }
            }
        }
        assert(actions::moved_all(map, order, moves).dom() =~= map.dom());
    }
}

/// The rows of a folder once the last message to be moved left.
spec fn rows_without(
    map: Map<Seq<char>, Seq<SummaryView>>,
    order: Seq<Seq<char>>,
    moves: Seq<MoveView>,
    folder: Seq<char>,
) -> Seq<SummaryView> {
    let before = arrivals(map, order, moves.drop_last(), folder);
    let staying = unmoved(map[folder], moves);
    if before.len() == 0 {
        staying
    } else {
        mail::ranked(staying + before)
    }
}

proof fn lemma_same_arrival(
    map: Map<Seq<char>, Seq<SummaryView>>,
    order: Seq<Seq<char>>,
    moves: Seq<MoveView>,
)
    requires
        moves.len() > 0,
        mailbox::consistent(map),
        mailbox::ordered_by(map, order),
        actions::distinct_moves(moves),
        forall|folder: Seq<char>| #[trigger]
            map.contains_key(folder) ==> actions::moved_all(map, order, moves.drop_last())[folder]
                == settled(map, order, moves.drop_last(), folder),
        mailbox::holder(
            actions::moved_all(map, order, moves.drop_last()),
            order,
            moves.last().summary.id,
        ) == mailbox::holder(map, order, moves.last().summary.id),
    ensures
        actions::arrival(
            actions::moved_all(map, order, moves.drop_last()),
            order,
            moves.last(),
        ) == actions::arrival(map, order, moves.last()),
{
    let rest = moves.drop_last();
    let current = actions::moved_all(map, order, rest);
    let id = moves.last().summary.id;
    mailbox::lemma_holder(map, order, id);
    mailbox::lemma_holder(current, order, id);
    lemma_distinct_rest(moves);
    match mailbox::holder(map, order, id) {
        None => {},
        Some(held) => {
            assert(map.contains_key(held));
            mailbox::lemma_position(map[held], id);
            mailbox::lemma_position(current[held], id);
            let known = map[held][mailbox::position(map[held], id)];
            let found = current[held][mailbox::position(current[held], id)];
            assert(map[held].contains(known));
            assert(current[held].contains(found));
            lemma_settled_ids(map, order, rest, held);
            lemma_arrivals(map, order, rest, held);
            let coming = arrivals(map, order, rest, held);
            assert(settled(map, order, rest, held).contains(found));
            if coming.contains(found) {
                let k = choose|k: int| 0 <= k < coming.len() && coming[k] == found;
                assert(actions::moves_message(rest, coming[k].id));
            }
            lemma_same_id_is_same(map[held], found, known);
        },
    }
}

/// Once moves are carried out, a folder lists a message if a move brings it there, or if
/// the folder listed it and no move concerns it; and the folders still fit together.
pub proof fn lemma_moved_folders_fit_together(
    map: Map<Seq<char>, Seq<SummaryView>>,
    order: Seq<Seq<char>>,
    moves: Seq<MoveView>,
)
    requires
        mailbox::consistent(map),
        mailbox::ordered_by(map, order),
        actions::distinct_moves(moves),
    ensures
        mailbox::consistent(actions::moved_all(map, order, moves)),
        mailbox::ordered_by(actions::moved_all(map, order, moves), order),
        forall|folder: Seq<char>, id: Seq<char>|
            #![trigger mail::has_id(actions::moved_all(map, order, moves)[folder], id)]
            map.contains_key(folder) ==> (mail::has_id(
                actions::moved_all(map, order, moves)[folder],
                id,
            ) <==> (mail::has_id(map[folder], id) && !actions::moves_message(moves, id)) || arrives(
                moves,
                id,
                folder,
            )),
{
    let after = actions::moved_all(map, order, moves);
    lemma_moves_settle(map, order, moves);
    assert(after.dom() == map.dom());
    assert forall|folder: Seq<char>, id: Seq<char>|
        #![trigger mail::has_id(after[folder], id)]
        map.contains_key(folder) implies (mail::has_id(after[folder], id) <==> (mail::has_id(
        map[folder],
        id,
    ) && !actions::moves_message(moves, id)) || arrives(moves, id, folder)) by {
        lemma_settled_ids(map, order, moves, folder);
    }
    assert forall|folder: Seq<char>| #[trigger] after.contains_key(folder) implies mail::unique_ids(
        after[folder],
    ) by {
        assert(map.contains_key(folder));
        lemma_settled_ids(map, order, moves, folder);
    }
    assert forall|folder: Seq<char>, i: int|
        #![trigger after[folder][i]]
        after.contains_key(folder) && 0 <= i < after[folder].len() implies after[folder][i].folder_id
        == folder by {
        assert(map.contains_key(folder));
        let summary = after[folder][i];
        assert(after[folder].contains(summary));
        lemma_settled_ids(map, order, moves, folder);
        lemma_arrivals(map, order, moves, folder);
        let coming = arrivals(map, order, moves, folder);
        if coming.contains(summary) {
            let k = choose|k: int| 0 <= k < coming.len() && coming[k] == summary;
            assert(coming[k].folder_id == folder);
        } else {
            assert(map[folder].contains(summary));
            let k = choose|k: int| 0 <= k < map[folder].len() && map[folder][k] == summary;
            assert(map[folder][k].folder_id == folder);
        }
    }
    assert forall|folder: Seq<char>, other: Seq<char>, id: Seq<char>|
        #![trigger mail::has_id(after[folder], id), mail::has_id(after[other], id)]
        after.contains_key(folder) && after.contains_key(other) && mail::has_id(after[folder], id)
            && mail::has_id(after[other], id) implies folder == other by {
        assert(map.contains_key(folder) && map.contains_key(other));
        if arrives(moves, id, folder) && arrives(moves, id, other) {
            let i = choose|i: int|
                0 <= i < moves.len() && #[trigger] moves[i].summary.id == id && moves[i].destination
                    == folder;
            let j = choose|j: int|
                0 <= j < moves.len() && #[trigger] moves[j].summary.id == id && moves[j].destination
                    == other;
            if i < j {
                assert(moves[i].summary.id != moves[j].summary.id);
            } else if j < i {
                assert(moves[j].summary.id != moves[i].summary.id);
            }
        } else if arrives(moves, id, folder) {
            let i = choose|i: int|
                0 <= i < moves.len() && #[trigger] moves[i].summary.id == id && moves[i].destination
                    == folder;
            assert(moves[i].summary.id == id);
        } else if arrives(moves, id, other) {
            let i = choose|i: int|
                0 <= i < moves.len() && #[trigger] moves[i].summary.id == id && moves[i].destination
                    == other;
            assert(moves[i].summary.id == id);
        } else {
            assert(mail::has_id(map[folder], id) && mail::has_id(map[other], id));
        }
    }
}

proof fn lemma_arrival_is_among(
    map: Map<Seq<char>, Seq<SummaryView>>,
    order: Seq<Seq<char>>,
    moves: Seq<MoveView>,
    i: int,
)
    requires
        0 <= i < moves.len(),
    ensures
        arrivals(map, order, moves, moves[i].destination).contains(
            actions::arrival(map, order, moves[i]),
        ),
    decreases moves.len(),
{
    let folder = moves[i].destination;
    let rest = moves.drop_last();
    let before = arrivals(map, order, rest, folder);
    let all = arrivals(map, order, moves, folder);
    let added = actions::arrival(map, order, moves[i]);
    if i == moves.len() - 1 {
        assert(all[before.len() as int] == added);
    } else {
        assert(rest[i] == moves[i]);
        lemma_arrival_is_among(map, order, rest, i);
        let k = choose|k: int| 0 <= k < before.len() && before[k] == added;
        assert(all[k] == added);
    }
}

/// Where the moves are carried out, a message stands in its destination, where that is
/// loaded, just as it arrived.
proof fn lemma_arrived(
    map: Map<Seq<char>, Seq<SummaryView>>,
    order: Seq<Seq<char>>,
    moves: Seq<MoveView>,
    i: int,
)
    requires
        mailbox::consistent(map),
        mailbox::ordered_by(map, order),
        actions::distinct_moves(moves),
        0 <= i < moves.len(),
        map.contains_key(moves[i].destination),
    ensures
        ({
            let after = actions::moved_all(map, order, moves);
            let folder = moves[i].destination;
            let id = moves[i].summary.id;
            &&& mailbox::holder(after, order, id) == Some(folder)
            &&& mail::has_id(after[folder], id)
            &&& after[folder][mailbox::position(after[folder], id)] == actions::arrival(
                map,
                order,
                moves[i],
            )
        }),
{
    let after = actions::moved_all(map, order, moves);
    let folder = moves[i].destination;
    let id = moves[i].summary.id;
    lemma_moves_settle(map, order, moves);
    lemma_moved_folders_fit_together(map, order, moves);
    assert(after.dom() == map.dom());
    assert(arrives(moves, id, folder)) by {
        assert(moves[i].summary.id == id);
    }
    assert(mail::has_id(after[folder], id));
    mailbox::lemma_holder(after, order, id);
    assert(order.contains(folder));
    let held = mailbox::holder(after, order, id)->0;
    assert(after.contains_key(held));
    assert(held == folder);
    mailbox::lemma_position(after[folder], id);
    let found = after[folder][mailbox::position(after[folder], id)];
    let coming = arrivals(map, order, moves, folder);
    let added = actions::arrival(map, order, moves[i]);
    assert(after[folder].contains(found));
    lemma_settled_ids(map, order, moves, folder);
    lemma_arrivals(map, order, moves, folder);
    assert(settled(map, order, moves, folder).contains(found));
    assert(actions::moves_message(moves, id));
    assert(coming.contains(found));
    lemma_arrival_is_among(map, order, moves, i);
    lemma_arrival_id(map, order, moves[i]);
    lemma_same_id_is_same(coming, found, added);
}

proof fn lemma_same_arrivals(
    map: Map<Seq<char>, Seq<SummaryView>>,
    order: Seq<Seq<char>>,
    moves: Seq<MoveView>,
    folder: Seq<char>,
    n: int,
)
    requires
        mailbox::consistent(map),
        mailbox::ordered_by(map, order),
        actions::distinct_moves(moves),
        map.contains_key(folder),
        0 <= n <= moves.len(),
    ensures
        arrivals(actions::moved_all(map, order, moves), order, moves.take(n), folder) == arrivals(
            map,
            order,
            moves.take(n),
            folder,
        ),
    decreases n,
{
    let after = actions::moved_all(map, order, moves);
    if n > 0 {
        lemma_same_arrivals(map, order, moves, folder, n - 1);
        assert(moves.take(n).drop_last() =~= moves.take(n - 1));
        assert(moves.take(n).last() == moves[n - 1]);
        if moves[n - 1].destination == folder {
            lemma_arrived(map, order, moves, n - 1);
            lemma_arrival_id(map, order, moves[n - 1]);
            assert(actions::arrival(after, order, moves[n - 1]) =~= actions::arrival(
                map,
                order,
                moves[n - 1],
            ));
        }
    }
}

proof fn lemma_unmoved_of_settled(
    map: Map<Seq<char>, Seq<SummaryView>>,
    order: Seq<Seq<char>>,
    moves: Seq<MoveView>,
    folder: Seq<char>,
)
    requires
        actions::distinct_moves(moves),
    ensures
        ({
            let staying = unmoved(map[folder], moves);
            let coming = arrivals(map, order, moves, folder);
            unmoved(settled(map, order, moves, folder), moves) == (if coming.len() == 0 {
                staying
            } else {
                mail::ranked(staying)
            })
        }),
{
    let keep = |summary: SummaryView| !actions::moves_message(moves, summary.id);
    let staying = unmoved(map[folder], moves);
    let coming = arrivals(map, order, moves, folder);
    lemma_arrivals(map, order, moves, folder);
    assert forall|i: int| 0 <= i < staying.len() implies keep(#[trigger] staying[i]) by {
        assert(staying.contains(staying[i]));
        lemma_filter_contains(map[folder], keep, staying[i]);
    }
    lemma_filter_all(staying, keep);
    assert forall|i: int| 0 <= i < coming.len() implies !keep(#[trigger] coming[i]) by {}
    lemma_filter_none(coming, keep);
    Seq::filter_distributes_over_add(staying, coming, keep);
    mail::lemma_ranked_filter(staying + coming, keep);
    assert(staying + Seq::<SummaryView>::empty() =~= staying);
}

/// Carrying out moves that were carried out changes nothing.
pub proof fn lemma_moving_again_changes_nothing(
    map: Map<Seq<char>, Seq<SummaryView>>,
    order: Seq<Seq<char>>,
    moves: Seq<MoveView>,
)
    requires
        mailbox::consistent(map),
        mailbox::ordered_by(map, order),
        actions::distinct_moves(moves),
    ensures
        actions::moved_all(actions::moved_all(map, order, moves), order, moves)
            == actions::moved_all(map, order, moves),
{
    let after = actions::moved_all(map, order, moves);
    let again = actions::moved_all(after, order, moves);
    lemma_moves_settle(map, order, moves);
    lemma_moved_folders_fit_together(map, order, moves);
    lemma_moves_settle(after, order, moves);
    assert(after.dom() == map.dom());
    assert(again.dom() == map.dom());
    assert forall|folder: Seq<char>| #[trigger] map.contains_key(folder) implies again[folder]
        == after[folder] by {
        assert(after.contains_key(folder));
        let staying = unmoved(map[folder], moves);
        let coming = arrivals(map, order, moves, folder);
        lemma_same_arrivals(map, order, moves, folder, moves.len() as int);
        assert(moves.take(moves.len() as int) =~= moves);
        lemma_unmoved_of_settled(map, order, moves, folder);
        mail::lemma_ranked_concat(staying, coming);
    }
    assert(again =~= after);
}

/// Marking leaves alone what a message is ordered and found by.
proof fn lemma_flagged_summary(summary: SummaryView, flags: Seq<FlagView>)
    ensures
        actions::flagged_summary(summary, flags).id == summary.id,
        actions::flagged_summary(summary, flags).folder_id == summary.folder_id,
        actions::flagged_summary(summary, flags).subject == summary.subject,
        actions::flagged_summary(summary, flags).last_updated_unix_ms
            == summary.last_updated_unix_ms,
        actions::flagged_summary(actions::flagged_summary(summary, flags), flags)
            == actions::flagged_summary(summary, flags),
{
}

proof fn lemma_flagged_ids(list: Seq<SummaryView>, flags: Seq<FlagView>, id: Seq<char>)
    ensures
        mail::has_id(actions::flagged(list, flags), id) == mail::has_id(list, id),
        mail::unique_ids(list) ==> mail::unique_ids(actions::flagged(list, flags)),
        mailbox::position(actions::flagged(list, flags), id) == mailbox::position(list, id),
    decreases list.len(),
{
    let marked = actions::flagged(list, flags);
    assert forall|i: int| 0 <= i < list.len() implies #[trigger] marked[i].id == list[i].id by {}
    if mail::has_id(list, id) {
        let i = choose|i: int| 0 <= i < list.len() && #[trigger] list[i].id == id;
        assert(marked[i].id == id);
    }
    if mail::has_id(marked, id) {
        let i = choose|i: int| 0 <= i < marked.len() && #[trigger] marked[i].id == id;
        assert(list[i].id == id);
    }
    if mail::unique_ids(list) {
        assert forall|i: int, j: int|
            #![trigger marked[i], marked[j]]
            0 <= i < j < marked.len() implies marked[i].id != marked[j].id by {
            assert(list[i].id != list[j].id);
        }
    }
    if list.len() > 0 {
        lemma_flagged_ids(list.drop_last(), flags, id);
        assert(marked.drop_last() =~= actions::flagged(list.drop_last(), flags));
    }
}

proof fn lemma_flagged_filter(
    list: Seq<SummaryView>,
    flags: Seq<FlagView>,
    moves: Seq<MoveView>,
)
    ensures
        unmoved(actions::flagged(list, flags), moves) == actions::flagged(
            unmoved(list, moves),
            flags,
        ),
    decreases list.len(),
{
    reveal(Seq::filter);
    let marked = actions::flagged(list, flags);
    if list.len() > 0 {
        lemma_flagged_filter(list.drop_last(), flags, moves);
        assert(marked.drop_last() =~= actions::flagged(list.drop_last(), flags));
        assert(marked.last() == actions::flagged_summary(list.last(), flags));
    }
    assert(unmoved(marked, moves) =~= actions::flagged(unmoved(list, moves), flags));
}

/// The folders with all messages marked.
pub open spec fn all_flagged(
    map: Map<Seq<char>, Seq<SummaryView>>,
    flags: Seq<FlagView>,
) -> Map<Seq<char>, Seq<SummaryView>> {
    map.map_values(|list: Seq<SummaryView>| actions::flagged(list, flags))
}

proof fn lemma_flagged_folders_fit_together(
    map: Map<Seq<char>, Seq<SummaryView>>,
    order: Seq<Seq<char>>,
    flags: Seq<FlagView>,
)
    requires
        mailbox::consistent(map),
        mailbox::ordered_by(map, order),
    ensures
        mailbox::consistent(all_flagged(map, flags)),
        mailbox::ordered_by(all_flagged(map, flags), order),
{
    let after = all_flagged(map, flags);
    assert forall|folder: Seq<char>, i: int|
        #![trigger after[folder][i]]
        after.contains_key(folder) && 0 <= i < after[folder].len() implies after[folder][i].folder_id
        == folder by {
        assert(map[folder][i].folder_id == folder);
    }
    assert forall|folder: Seq<char>| #[trigger] after.contains_key(folder) implies mail::unique_ids(
        after[folder],
    ) by {
        assert(map.contains_key(folder));
        lemma_flagged_ids(map[folder], flags, Seq::empty());
    }
    assert forall|folder: Seq<char>, other: Seq<char>, id: Seq<char>|
        #![trigger mail::has_id(after[folder], id), mail::has_id(after[other], id)]
        after.contains_key(folder) && after.contains_key(other) && mail::has_id(after[folder], id)
            && mail::has_id(after[other], id) implies folder == other by {
        assert(map.contains_key(folder) && map.contains_key(other));
        lemma_flagged_ids(map[folder], flags, id);
        lemma_flagged_ids(map[other], flags, id);
        assert(mail::has_id(map[folder], id) && mail::has_id(map[other], id));
    }
    assert forall|id: Seq<char>| #[trigger] after.contains_key(id) <==> order.contains(id) by {
        assert(map.contains_key(id) <==> order.contains(id));
    }
}

proof fn lemma_flagged_holder(
    map: Map<Seq<char>, Seq<SummaryView>>,
    order: Seq<Seq<char>>,
    flags: Seq<FlagView>,
    id: Seq<char>,
)
    requires
        mailbox::ordered_by(map, order),
    ensures
        mailbox::holder(all_flagged(map, flags), order, id) == mailbox::holder(map, order, id),
{
    let after = all_flagged(map, flags);
    assert forall|i: int| 0 <= i < order.len() implies mail::has_id(after[#[trigger] order[i]], id)
        == mail::has_id(map[order[i]], id) by {
        assert(order.contains(order[i]));
        assert(map.contains_key(order[i]));
        lemma_flagged_ids(map[order[i]], flags, id);
    }
    mailbox::lemma_holder_is_the_same(after, map, order, id);
}

/// What moves bring in, where the messages were moved and then marked, is what they
/// brought in, marked.
proof fn lemma_flagged_arrivals(
    map: Map<Seq<char>, Seq<SummaryView>>,
    order: Seq<Seq<char>>,
    moves: Seq<MoveView>,
    flags: Seq<FlagView>,
    folder: Seq<char>,
    n: int,
)
    requires
        mailbox::consistent(map),
        mailbox::ordered_by(map, order),
        actions::distinct_moves(moves),
        map.contains_key(folder),
        0 <= n <= moves.len(),
    ensures
        arrivals(
            all_flagged(actions::moved_all(map, order, moves), flags),
            order,
            moves.take(n),
            folder,
        ) == actions::flagged(
            arrivals(actions::moved_all(map, order, moves), order, moves.take(n), folder),
            flags,
        ),
    decreases n,
{
    let after = actions::moved_all(map, order, moves);
    let marked = all_flagged(after, flags);
    if n == 0 {
        assert(arrivals(marked, order, moves.take(n), folder) =~= actions::flagged(
            arrivals(after, order, moves.take(n), folder),
            flags,
        ));
    } else {
        let intent = moves[n - 1];
        let id = intent.summary.id;
        lemma_flagged_arrivals(map, order, moves, flags, folder, n - 1);
        assert(moves.take(n).drop_last() =~= moves.take(n - 1));
        assert(moves.take(n).last() == intent);
        let before = arrivals(after, order, moves.take(n - 1), folder);
        if intent.destination == folder {
            lemma_arrived(map, order, moves, n - 1);
            lemma_moves_settle(map, order, moves);
            lemma_moved_folders_fit_together(map, order, moves);
            assert(after.contains_key(folder));
            lemma_flagged_holder(after, order, flags, id);
            lemma_flagged_ids(after[folder], flags, id);
            mailbox::lemma_position(after[folder], id);
            let added = actions::arrival(after, order, intent);
            assert(actions::arrival(marked, order, intent) =~= actions::flagged_summary(
                added,
                flags,
            ));
            assert(actions::flagged(before, flags).push(actions::flagged_summary(added, flags))
                =~= actions::flagged(before.push(added), flags));
        }
    }
}

/// Overlaying the folders with what is left to tell leaves them fitting together, and
/// overlaying them again changes nothing.
pub proof fn lemma_overlaying_again_changes_nothing(
    map: Map<Seq<char>, Seq<SummaryView>>,
    order: Seq<Seq<char>>,
    left: RouteView,
)
    requires
        mailbox::consistent(map),
        mailbox::ordered_by(map, order),
        actions::each_once(left),
    ensures
        mailbox::consistent(actions::overlaid(map, order, left)),
        mailbox::ordered_by(actions::overlaid(map, order, left), order),
        actions::overlaid(actions::overlaid(map, order, left), order, left) == actions::overlaid(
            map,
            order,
            left,
        ),
{
    let moves = left.moves;
    let flags = left.flags;
    let after = actions::moved_all(map, order, moves);
    let marked = all_flagged(after, flags);
    assert(marked == actions::overlaid(map, order, left));
    lemma_moves_settle(map, order, moves);
    lemma_moved_folders_fit_together(map, order, moves);
    lemma_moving_again_changes_nothing(map, order, moves);
    lemma_moves_settle(after, order, moves);
    lemma_flagged_folders_fit_together(after, order, flags);
    lemma_moves_settle(marked, order, moves);
    let again = actions::moved_all(marked, order, moves);
    let change = |summary: SummaryView| actions::flagged_summary(summary, flags);
    assert forall|folder: Seq<char>| #[trigger] map.contains_key(folder) implies again[folder]
        == marked[folder] by {
        assert(after.contains_key(folder));
        assert(marked.contains_key(folder));
        let staying = unmoved(after[folder], moves);
        let coming = arrivals(after, order, moves, folder);
        lemma_flagged_filter(after[folder], flags, moves);
        lemma_flagged_arrivals(map, order, moves, flags, folder, moves.len() as int);
        assert(moves.take(moves.len() as int) =~= moves);
        assert forall|summary: SummaryView| #[trigger]
            change(summary).last_updated_unix_ms == summary.last_updated_unix_ms && change(
                summary,
            ).subject == summary.subject by {
            lemma_flagged_summary(summary, flags);
        }
        mail::lemma_ranked_map(staying + coming, change);
        assert((staying + coming).map_values(change) =~= actions::flagged(staying, flags)
            + actions::flagged(coming, flags));
        assert(after[folder] == settled(after, order, moves, folder));
    }
    assert(again =~= marked);
    assert(all_flagged(marked, flags) =~= marked) by {
        assert forall|folder: Seq<char>| marked.contains_key(folder) implies all_flagged(
            marked,
            flags,
        )[folder] == marked[folder] by {
            assert(actions::flagged(marked[folder], flags) =~= marked[folder]) by {
                assert forall|i: int| 0 <= i < marked[folder].len() implies actions::flagged(
                    marked[folder],
                    flags,
                )[i] == marked[folder][i] by {
                    lemma_flagged_summary(after[folder][i], flags);
                }
            }
        }
    }
}

} // verus!
