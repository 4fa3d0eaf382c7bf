//! What holds of the backends that serve accounts, and of what they are given up for.
use crate::integration::account::BindingView;
use crate::integration::backend::actions::MoveView;
use crate::integration::backend::pool;
use crate::integration::backend::pool::PoolView;
use crate::integration::journal;
use crate::integration::mailbox;
use crate::integration::registry;
use crate::integration::webkit;
use crate::laws::lists::lemma_pushed;
use crate::model::mail;
use crate::model::mail::SummaryView;
use vstd::prelude::*;

verus! {

/// A backend is given up where its account came up, went, or is reached through other
/// sources or under another configuration than before, and kept where nothing of this
/// changed.
pub proof fn lemma_backend_follows_the_route<B>(
    held: PoolView<B>,
    catalog: Map<Seq<char>, BindingView>,
    id: Seq<char>,
)
    requires
        id != "local-stub"@,
    ensures
        ({
            let after = pool::learned(held, catalog);
            &&& after.catalog == catalog
            &&& after.actions == held.actions
            &&& held.catalog.contains_key(id) && !catalog.contains_key(id) ==> pool::leased(
                after,
                id,
            ) is None
            &&& !held.catalog.contains_key(id) && catalog.contains_key(id) ==> pool::leased(
                after,
                id,
            ) is None
            &&& held.catalog.contains_key(id) && catalog.contains_key(id) && (
            held.catalog[id].transport_uid != catalog[id].transport_uid
                || held.catalog[id].identity_uid != catalog[id].identity_uid
                || held.catalog[id].account_uid != catalog[id].account_uid
                || held.catalog[id].account_parent_uid != catalog[id].account_parent_uid
                || held.catalog[id].account_backend_name != catalog[id].account_backend_name
                || held.catalog[id].account_auth_method != catalog[id].account_auth_method
                || held.catalog[id].transport_backend_name != catalog[id].transport_backend_name
                || held.catalog[id].transport_auth_method != catalog[id].transport_auth_method
                || held.catalog[id].route_fingerprint != catalog[id].route_fingerprint)
                ==> pool::leased(after, id) is None
            &&& held.catalog.contains_key(id) && catalog.contains_key(id) && held.catalog[id]
                == catalog[id] ==> pool::leased(after, id) == pool::leased(held, id)
            &&& pool::leased(after, "local-stub"@) == Some(held.stub)
        }),
{
}

/// A move that is carried out on what is shown takes the message out of every folder but
/// the one that it goes to, which lists it where it is loaded, and leaves all other
/// messages where they are.
pub proof fn lemma_journal_move_is_carried_out(
    map: Map<Seq<char>, Seq<SummaryView>>,
    intent: MoveView,
    folder: Seq<char>,
    id: Seq<char>,
)
    requires
        map.contains_key(folder),
        journal::each_listed_once(map),
    ensures
        journal::moved(map, intent).contains_key(folder),
        mail::has_id(journal::moved(map, intent)[folder], intent.summary.id) <==> folder
            == intent.destination,
        id != intent.summary.id ==> (mail::has_id(journal::moved(map, intent)[folder], id)
            <==> mail::has_id(map[folder], id)),
{
    let left = map.map_values(
        |list: Seq<SummaryView>| mailbox::without(list, intent.summary.id),
    );
    let staying = mailbox::without(map[folder], intent.summary.id);
    assert(left[folder] == staying);
    lemma_without(map[folder], intent.summary.id, intent.summary.id);
    lemma_without(map[folder], intent.summary.id, id);
    if folder == intent.destination {
        let all = staying.push(intent.summary);
        let sorted = mail::ranked(all);
        mail::lemma_ranked_ids(all);
        lemma_repeats(sorted, intent.summary.id);
        lemma_repeats(sorted, id);
        assert(mail::has_id(sorted, intent.summary.id) == mail::has_id(all, intent.summary.id));
        assert(mail::has_id(sorted, id) == mail::has_id(all, id));
        crate::integration::backend::projection::lemma_has_id_push(
            staying,
            intent.summary,
            intent.summary.id,
        );
        crate::integration::backend::projection::lemma_has_id_push(staying, intent.summary, id);
    }
}

proof fn lemma_without(list: Seq<SummaryView>, gone: Seq<char>, id: Seq<char>)
    ensures
        mail::has_id(mailbox::without(list, gone), id) <==> mail::has_id(list, id) && id != gone,
    decreases list.len(),
{
    if list.len() > 0 {
        let rest = list.drop_last();
        lemma_without(rest, gone, id);
        assert(list =~= rest.push(list.last()));
        crate::integration::backend::projection::lemma_has_id_push(rest, list.last(), id);
        crate::integration::backend::projection::lemma_has_id_push(
            mailbox::without(rest, gone),
            list.last(),
            id,
        );
    }
}

proof fn lemma_repeats(list: Seq<SummaryView>, id: Seq<char>)
    ensures
        mail::has_id(journal::without_repeats(list), id) <==> mail::has_id(list, id),
    decreases list.len(),
{
    if list.len() > 0 {
        let rest = list.drop_last();
        let kept = journal::without_repeats(rest);
        lemma_repeats(rest, id);
        assert(list =~= rest.push(list.last()));
        crate::integration::backend::projection::lemma_has_id_push(rest, list.last(), id);
        crate::integration::backend::projection::lemma_has_id_push(kept, list.last(), id);
        if kept.len() > 0 && kept.last().id == list.last().id {
            assert(kept[kept.len() - 1].id == list.last().id);
        }
    }
}

proof fn lemma_optional_is_told_apart(a: Option<Seq<char>>, b: Option<Seq<char>>)
    ensures
        registry::optional_chunks(a).len() >= 1,
        a is Some ==> registry::optional_chunks(a).len() == 3 && registry::optional_chunks(a)[0]
            == registry::tag_word(true) && registry::optional_chunks(a)[1]
            == vstd::utf8::encode_utf8(a->0),
        a is None ==> registry::optional_chunks(a).len() == 1 && registry::optional_chunks(a)[0]
            == registry::tag_word(false),
        registry::tag_word(true) != registry::tag_word(false),
        a is Some && b is Some && vstd::utf8::encode_utf8(a->0) == vstd::utf8::encode_utf8(b->0)
            ==> a == b,
{
    assert(registry::tag_word(true)[0] == 1u8);
    assert(registry::tag_word(false)[0] == 0u8);
    if a is Some && b is Some {
        vstd::utf8::encode_utf8_decode_utf8(a->0);
        vstd::utf8::encode_utf8_decode_utf8(b->0);
    }
}

/// What is hashed of the folders that an identity uses is different wherever one of the
/// choices differs.
pub proof fn lemma_folder_choices_are_told_apart(
    sent: Option<Seq<char>>,
    use_sent: Option<bool>,
    drafts: Option<Seq<char>>,
    other_sent: Option<Seq<char>>,
    other_use: Option<bool>,
    other_drafts: Option<Seq<char>>,
)
    requires
        sent != other_sent || use_sent != other_use || drafts != other_drafts,
    ensures
        registry::mailbox_chunks(sent, use_sent, drafts) != registry::mailbox_chunks(
            other_sent,
            other_use,
            other_drafts,
        ),
{
    let a = registry::mailbox_chunks(sent, use_sent, drafts);
    let b = registry::mailbox_chunks(other_sent, other_use, other_drafts);
    lemma_optional_is_told_apart(sent, other_sent);
    lemma_optional_is_told_apart(other_sent, sent);
    lemma_optional_is_told_apart(drafts, other_drafts);
    lemma_optional_is_told_apart(other_drafts, drafts);
    if a == b {
        assert(a[0] == registry::optional_chunks(sent)[0]);
        assert(b[0] == registry::optional_chunks(other_sent)[0]);
        let n: int = if sent is Some {
            3
        } else {
            1
        };
        if sent is Some {
            assert(a[1] == registry::optional_chunks(sent)[1]);
            assert(b[1] == registry::optional_chunks(other_sent)[1]);
        }
        assert(sent == other_sent);
        let x = registry::choice_chunks(use_sent);
        let y = registry::choice_chunks(other_use);
        assert(a[n] == x[0]);
        assert(b[n] == y[0]);
        let m: int = if use_sent is Some {
            n + 2
        } else {
            n + 1
        };
        if use_sent is Some {
            assert(a[n + 1] == x[1]);
            assert(b[n + 1] == y[1]);
            assert(x[1][0] == y[1][0]);
        }
        assert(use_sent == other_use);
        assert(a[m] == registry::optional_chunks(drafts)[0]);
        assert(b[m] == registry::optional_chunks(other_drafts)[0]);
        if drafts is Some {
            assert(a[m + 1] == registry::optional_chunks(drafts)[1]);
            assert(b[m + 1] == registry::optional_chunks(other_drafts)[1]);
        }
    }
}

/// A request of the composer that was answered or given up does not wait any more, and
/// every other still does.
pub proof fn lemma_settled_request_is_gone(pending: Seq<u64>, id: u64, other: u64)
    requires
        pending.no_duplicates(),
    ensures
        !webkit::without_number(pending, id).contains(id),
        other != id ==> (webkit::without_number(pending, id).contains(other) <==> pending.contains(
            other,
        )),
    decreases pending.len(),
{
    if pending.len() > 0 {
        let rest = pending.drop_last();
        assert(rest.no_duplicates());
        lemma_settled_request_is_gone(rest, id, other);
        assert(pending =~= rest.push(pending.last()));
        lemma_pushed(rest, pending.last(), id);
        lemma_pushed(rest, pending.last(), other);
        lemma_pushed(webkit::without_number(rest, id), pending.last(), id);
        lemma_pushed(webkit::without_number(rest, id), pending.last(), other);
        if rest.contains(id) && pending.last() == id {
            let i = choose|i: int| 0 <= i < rest.len() && rest[i] == id;
            assert(pending[i] == pending[pending.len() - 1]);
        }
    }
}

} // verus!
