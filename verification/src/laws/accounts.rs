//! What holds of the accounts, of the ways to them and of what is stored of them.
use crate::integration::account;
use crate::integration::account::CatalogErrorView;
use crate::integration::identity;
use crate::integration::registry;
use crate::integration::registry::{DecodedAddressView, InfoView, InheritedField, TripletView};
use crate::model::account as model;
use crate::model::account::{AccountView, IdentityView};
use crate::model::address;
use crate::text;
use std::collections::hash_map::DefaultHasher;
use vstd::prelude::*;
use vstd::std_specs::hash::DefaultHasherAdditionalSpecFns;

verus! {

/// The way to an account names the three sources of its mail account, each by its own
/// name, and the account at the online service that owns them.
pub proof fn lemma_route_names_its_sources(triplet: TripletView)
    requires
        triplet.identity is Some,
        triplet.transport is Some,
        triplet.account.parent is Some,
        triplet.account.backend_name is Some,
        (triplet.transport->0).backend_name is Some,
        triplet.goa_account_id is Some,
        text::trimmed(triplet.goa_account_id->0).len() > 0,
    ensures
        ({
            let route = account::binding_of(triplet);
            &&& route.account_id == text::trimmed(triplet.goa_account_id->0)
            &&& route.account_uid == triplet.account.uid
            &&& Some(route.account_parent_uid) == triplet.account.parent
            &&& Some(route.account_backend_name) == triplet.account.backend_name
            &&& route.account_auth_method == triplet.account.auth_method
            &&& route.identity_uid == (triplet.identity->0).uid
            &&& route.transport_uid == (triplet.transport->0).uid
            &&& Some(route.transport_backend_name) == (triplet.transport->0).backend_name
            &&& route.transport_auth_method == (triplet.transport->0).auth_method
            &&& route.route_fingerprint.account == triplet.account.configuration_hash
            &&& route.route_fingerprint.transport == (triplet.transport->0).configuration_hash
            &&& route.route_fingerprint.mailbox
                == (triplet.identity->0).mailbox_configuration_hash
        }),
{
}

/// Two mail accounts whose transports have different names are sent through different
/// transports, and so it is with their identities and their stores.
pub proof fn lemma_routes_are_told_apart(a: TripletView, b: TripletView)
    requires
        a.identity is Some && a.transport is Some,
        b.identity is Some && b.transport is Some,
    ensures
        (a.transport->0).uid != (b.transport->0).uid ==> account::binding_of(a).transport_uid
            != account::binding_of(b).transport_uid,
        (a.identity->0).uid != (b.identity->0).uid ==> account::binding_of(a).identity_uid
            != account::binding_of(b).identity_uid,
        a.account.uid != b.account.uid ==> account::binding_of(a).account_uid
            != account::binding_of(b).account_uid,
{
}

/// Each line of a catalog is that of a complete mail account, all of whose sources are
/// switched on, and its way names the sources of that very mail account: what is sent
/// goes through its transport, and what is stored goes to its identity.
pub proof fn lemma_each_route_is_that_of_its_mail_account(triplets: Seq<TripletView>)
    ensures
        account::entries_of(triplets) matches Ok(entries) ==> forall|k: int|
            0 <= k < entries.len() ==> exists|j: int|
                {
                    &&& 0 <= j < triplets.len()
                    &&& (#[trigger] triplets[j]).identity is Some
                    &&& triplets[j].transport is Some
                    &&& triplets[j].mail_enabled != Some(false)
                    &&& triplets[j].account.enabled
                    &&& (triplets[j].identity->0).enabled
                    &&& (triplets[j].transport->0).enabled
                    &&& Some((#[trigger] entries[k]).1.account_parent_uid)
                        == triplets[j].account.parent
                    &&& Some(entries[k].1.account_backend_name)
                        == triplets[j].account.backend_name
                    &&& entries[k].1.account_auth_method == triplets[j].account.auth_method
                    &&& entries[k].1.account_uid == triplets[j].account.uid
                    &&& entries[k].1.identity_uid == (triplets[j].identity->0).uid
                    &&& entries[k].1.transport_uid == (triplets[j].transport->0).uid
                    &&& Some(entries[k].1.transport_backend_name)
                        == (triplets[j].transport->0).backend_name
                    &&& entries[k].1.transport_auth_method
                        == (triplets[j].transport->0).auth_method
                    &&& triplets[j].goa_account_id is Some
                    &&& entries[k].0.id == text::trimmed(triplets[j].goa_account_id->0)
                    &&& entries[k].1.account_id == text::trimmed(triplets[j].goa_account_id->0)
                    &&& (triplets[j].identity->0).identity_address is Some
                    &&& entries[k].0.primary_address == text::trimmed(
                        (triplets[j].identity->0).identity_address->0,
                    )
                },
    decreases triplets.len(),
{
    if triplets.len() > 0 {
        let rest = triplets.drop_last();
        lemma_each_route_is_that_of_its_mail_account(rest);
        if let Ok(entries) = account::entries_of(triplets) {
            let before = account::entries_of(rest)->Ok_0;
            let last = triplets.len() - 1;
            assert forall|k: int| 0 <= k < entries.len() implies exists|j: int|
                {
                    &&& 0 <= j < triplets.len()
                    &&& (#[trigger] triplets[j]).identity is Some
                    &&& triplets[j].transport is Some
                    &&& triplets[j].mail_enabled != Some(false)
                    &&& triplets[j].account.enabled
                    &&& (triplets[j].identity->0).enabled
                    &&& (triplets[j].transport->0).enabled
                    &&& Some((#[trigger] entries[k]).1.account_parent_uid)
                        == triplets[j].account.parent
                    &&& Some(entries[k].1.account_backend_name)
                        == triplets[j].account.backend_name
                    &&& entries[k].1.account_auth_method == triplets[j].account.auth_method
                    &&& entries[k].1.account_uid == triplets[j].account.uid
                    &&& entries[k].1.identity_uid == (triplets[j].identity->0).uid
                    &&& entries[k].1.transport_uid == (triplets[j].transport->0).uid
                    &&& Some(entries[k].1.transport_backend_name)
                        == (triplets[j].transport->0).backend_name
                    &&& entries[k].1.transport_auth_method
                        == (triplets[j].transport->0).auth_method
                    &&& triplets[j].goa_account_id is Some
                    &&& entries[k].0.id == text::trimmed(triplets[j].goa_account_id->0)
                    &&& entries[k].1.account_id == text::trimmed(triplets[j].goa_account_id->0)
                    &&& (triplets[j].identity->0).identity_address is Some
                    &&& entries[k].0.primary_address == text::trimmed(
                        (triplets[j].identity->0).identity_address->0,
                    )
                } by {
                if k < before.len() {
                    assert(entries[k] == before[k]);
                    let j = choose|j: int|
                        {
                            &&& 0 <= j < rest.len()
                            &&& (#[trigger] rest[j]).identity is Some
                            &&& rest[j].transport is Some
                            &&& rest[j].mail_enabled != Some(false)
                            &&& rest[j].account.enabled
                            &&& (rest[j].identity->0).enabled
                            &&& (rest[j].transport->0).enabled
                            &&& Some((#[trigger] before[k]).1.account_parent_uid)
                                == rest[j].account.parent
                            &&& Some(before[k].1.account_backend_name)
                                == rest[j].account.backend_name
                            &&& before[k].1.account_auth_method == rest[j].account.auth_method
                            &&& before[k].1.account_uid == rest[j].account.uid
                            &&& before[k].1.identity_uid == (rest[j].identity->0).uid
                            &&& before[k].1.transport_uid == (rest[j].transport->0).uid
                            &&& Some(before[k].1.transport_backend_name)
                                == (rest[j].transport->0).backend_name
                            &&& before[k].1.transport_auth_method
                                == (rest[j].transport->0).auth_method
                            &&& rest[j].goa_account_id is Some
                            &&& before[k].0.id == text::trimmed(rest[j].goa_account_id->0)
                            &&& before[k].1.account_id == text::trimmed(
                                rest[j].goa_account_id->0,
                            )
                            &&& (rest[j].identity->0).identity_address is Some
                            &&& before[k].0.primary_address == text::trimmed(
                                (rest[j].identity->0).identity_address->0,
                            )
                        };
                    assert(triplets[j] == rest[j]);
                } else {
                    let triplet = triplets[last];
                    assert(entries[k] == (
                        account::account_of(triplet),
                        account::binding_of(triplet),
                    ));
                    text::lemma_trimmed_idempotent((triplet.identity->0).identity_address->0);
                }
            }
        }
    }
}

/// A complete mail account that is switched on and has an address is in the catalog,
/// where there is one.
pub proof fn lemma_no_mail_account_is_left_out(triplets: Seq<TripletView>, j: int)
    requires
        0 <= j < triplets.len(),
        triplets[j].identity is Some,
        triplets[j].transport is Some,
        triplets[j].mail_enabled != Some(false),
        triplets[j].account.enabled,
        (triplets[j].identity->0).enabled,
        (triplets[j].transport->0).enabled,
        triplets[j].account.uid.len() > 0,
        (triplets[j].identity->0).uid.len() > 0,
        (triplets[j].transport->0).uid.len() > 0,
        triplets[j].account.parent is Some && triplets[j].account.parent->0.len() > 0,
        triplets[j].account.backend_name is Some && triplets[j].account.backend_name->0.len() > 0,
        (triplets[j].transport->0).backend_name is Some,
        (triplets[j].transport->0).backend_name->0.len() > 0,
        triplets[j].goa_account_id is Some,
        text::trimmed(triplets[j].goa_account_id->0).len() > 0,
        (triplets[j].identity->0).identity_address is Some,
        text::trimmed((triplets[j].identity->0).identity_address->0).len() > 0,
    ensures
        account::entries_of(triplets) matches Ok(entries) ==> exists|k: int|
            0 <= k < entries.len() && (#[trigger] entries[k]).0.id == text::trimmed(
                triplets[j].goa_account_id->0,
            ) && entries[k].1.transport_uid == (triplets[j].transport->0).uid
                && entries[k].1.identity_uid == (triplets[j].identity->0).uid
                && entries[k].1.account_uid == triplets[j].account.uid,
    decreases triplets.len(),
{
    let rest = triplets.drop_last();
    if let Ok(entries) = account::entries_of(triplets) {
        let before = account::entries_of(rest)->Ok_0;
        if j < rest.len() {
            assert(rest[j] == triplets[j]);
            lemma_no_mail_account_is_left_out(rest, j);
            let k = choose|k: int|
                0 <= k < before.len() && (#[trigger] before[k]).0.id == text::trimmed(
                    triplets[j].goa_account_id->0,
                ) && before[k].1.transport_uid == (triplets[j].transport->0).uid
                    && before[k].1.identity_uid == (triplets[j].identity->0).uid
                    && before[k].1.account_uid == triplets[j].account.uid;
            assert(entries[k] == before[k]);
        } else {
            assert(triplets[j] == triplets.last());
            assert(entries[before.len() as int].0.id == text::trimmed(
                triplets[j].goa_account_id->0,
            ));
        }
    }
}

/// Two registries in which a mail account differs in the name of its transport give
/// different transports to that account, whatever else they hold.
pub proof fn lemma_catalogs_follow_the_transport(
    left: Seq<TripletView>,
    right: Seq<TripletView>,
    j: int,
    k: int,
    l: int,
)
    requires
        0 <= j < left.len(),
        j < right.len(),
        account::usable(left[j]) && (left[j].identity->0).identity_address is Some,
        account::usable(right[j]) && (right[j].identity->0).identity_address is Some,
        text::trimmed((left[j].identity->0).identity_address->0).len() > 0,
        text::trimmed((right[j].identity->0).identity_address->0).len() > 0,
        left[j].goa_account_id == right[j].goa_account_id,
        (left[j].transport->0).uid != (right[j].transport->0).uid,
        account::entries_of(left) is Ok,
        account::entries_of(right) is Ok,
        0 <= k < account::entries_of(left)->Ok_0.len(),
        0 <= l < account::entries_of(right)->Ok_0.len(),
        Some(account::entries_of(left)->Ok_0[k].0.id) == model::filled(left[j].goa_account_id),
        Some(account::entries_of(right)->Ok_0[l].0.id) == model::filled(right[j].goa_account_id),
    ensures
        account::entries_of(left)->Ok_0[k].1.transport_uid != account::entries_of(
            right,
        )->Ok_0[l].1.transport_uid,
{
    lemma_no_mail_account_is_left_out(left, j);
    lemma_no_mail_account_is_left_out(right, j);
    account::lemma_catalog_lists_each_account_once(left);
    account::lemma_catalog_lists_each_account_once(right);
    let a = account::entries_of(left)->Ok_0;
    let b = account::entries_of(right)->Ok_0;
    let id = text::trimmed(left[j].goa_account_id->0);
    let at = choose|at: int|
        0 <= at < a.len() && (#[trigger] a[at]).0.id == id && a[at].1.transport_uid == (
        left[j].transport->0).uid;
    let on = choose|on: int|
        0 <= on < b.len() && (#[trigger] b[on]).0.id == id && b[on].1.transport_uid == (
        right[j].transport->0).uid;
    assert(a[at].0.id == a[k].0.id);
    assert(b[on].0.id == b[l].0.id);
}

proof fn lemma_imported_are_plain(primary: IdentityView, aliases: Seq<DecodedAddressView>, k: int)
    requires
        primary.key().len() > 0,
        identity::addressed(aliases),
        0 < k < identity::imported(primary, aliases).len(),
    ensures
        identity::imported(primary, aliases)[k].reply_to is None,
        identity::imported(primary, aliases)[k].signature.html.len() == 0,
        identity::imported(primary, aliases)[k].signature.text.len() == 0,
    decreases aliases.len(),
{
    if aliases.len() > 0 {
        let rest = aliases.drop_last();
        assert forall|i: int| 0 <= i < rest.len() implies address::normalized(
            (#[trigger] rest[i]).address,
        ).len() > 0 by {
            assert(rest[i] == aliases[i]);
        }
        identity::lemma_imported_addresses(primary, rest);
        if k < identity::imported(primary, rest).len() {
            lemma_imported_are_plain(primary, rest, k);
        }
    }
}

proof fn lemma_last_alias_counts(
    primary: IdentityView,
    aliases: Seq<DecodedAddressView>,
    i: int,
) -> (k: int)
    requires
        primary.key().len() > 0,
        identity::addressed(aliases),
        0 <= i < aliases.len(),
        address::normalized(aliases[i].address) != primary.key(),
        forall|j: int|
            i < j < aliases.len() ==> address::normalized((#[trigger] aliases[j]).address)
                != address::normalized(aliases[i].address),
    ensures
        0 < k < identity::imported(primary, aliases).len(),
        text::trimmed(identity::imported(primary, aliases)[k].address) == text::trimmed(
            aliases[i].address,
        ),
        text::trimmed(identity::imported(primary, aliases)[k].display_name) == text::trimmed(
            aliases[i].display_name.unwrap_or(Seq::empty()),
        ),
        identity::imported(primary, aliases)[k].key() == address::normalized(aliases[i].address),
    decreases aliases.len(),
{
    let rest = aliases.drop_last();
    assert forall|j: int| 0 <= j < rest.len() implies address::normalized(
        (#[trigger] rest[j]).address,
    ).len() > 0 by {
        assert(rest[j] == aliases[j]);
    }
    identity::lemma_imported_addresses(primary, rest);
    let before = identity::imported(primary, rest);
    let after = identity::imported(primary, aliases);
    let last = aliases.last();
    let key = address::normalized(last.address);
    if i < rest.len() {
        assert(rest[i] == aliases[i]);
        assert(aliases[aliases.len() - 1] == last);
        assert forall|j: int| i < j < rest.len() implies address::normalized(
            (#[trigger] rest[j]).address,
        ) != address::normalized(rest[i].address) by {
            assert(rest[j] == aliases[j]);
        }
        let k = lemma_last_alias_counts(primary, rest, i);
        if key != primary.key() && model::has_key(before, key) {
            let at = model::position_of(before, key);
            assert(before[at].key() == key);
            assert(at != k);
        }
        assert(after[k] == before[k]);
        k
    } else {
        if model::has_key(before, key) {
            let at = model::position_of(before, key);
            assert(before[at].key() == key);
            assert(before[0] == primary);
            assert(at != 0);
            at
        } else {
            identity::lemma_tidied_key(
                IdentityView {
                    address: last.address,
                    display_name: identity::alias_name(last),
                    reply_to: None,
                    signature: model::SignatureView { html: Seq::empty(), text: Seq::empty() },
                },
            );
            text::lemma_trimmed_idempotent(last.address);
            text::lemma_trimmed_idempotent(identity::alias_name(last));
            assert(after[before.len() as int] == identity::alias_identity(last));
            before.len() as int
        }
    }
}

/// An account of which nothing but the standard part is stored has the primary identity
/// of its identity source, with the name, the reply address and the signature that stand
/// there, and is called by the first of its own name, the name of the online account and
/// its address.
pub proof fn lemma_account_has_its_primary_identity(triplet: TripletView)
    requires
        account::presentable(triplet),
        account::readable(triplet),
        (triplet.identity->0).identity_extension !is Valid,
    ensures
        ({
            let source = triplet.identity->0;
            let made = account::account_of(triplet);
            let address = text::trimmed(source.identity_address->0);
            &&& made.aliases.len() > 0
            &&& made.aliases[0].address == address
            &&& made.primary_address == address
            &&& made.default_address == address
            &&& made.id == text::trimmed(triplet.goa_account_id->0)
            &&& source.identity_name matches Some(name) ==> made.aliases[0].display_name
                == text::trimmed(name)
            &&& source.identity_name is None ==> made.aliases[0].display_name.len() == 0
            &&& source.identity_reply_to matches Some(to) ==> (if text::trimmed(to).len() > 0 {
                made.aliases[0].reply_to == Some(text::trimmed(to))
            } else {
                made.aliases[0].reply_to is None
            })
            &&& source.identity_reply_to is None ==> made.aliases[0].reply_to is None
            &&& source.identity_signature is None ==> made.aliases[0].signature.html.len() == 0
                && made.aliases[0].signature.text.len() == 0
            &&& source.identity_signature matches Some(signature) ==> {
                ||| made.aliases[0].signature.html == signature.contents
                    && made.aliases[0].signature.text.len() == 0
                ||| made.aliases[0].signature.text == signature.contents
                    && made.aliases[0].signature.html.len() == 0
            }
            &&& source.identity_signature matches Some(signature) ==> (signature.mime_type
                == "text/plain"@ ==> made.aliases[0].signature.text == signature.contents)
            &&& source.identity_signature matches Some(signature) ==> (signature.mime_type
                == "text/html"@ ==> made.aliases[0].signature.html == signature.contents)
            &&& made.aliases[0].display_name.len() > 0 ==> made.display_name
                == made.aliases[0].display_name
            &&& made.aliases[0].display_name.len() == 0 && triplet.goa_name is Some
                && text::trimmed(triplet.goa_name->0).len() > 0 ==> made.display_name
                == text::trimmed(triplet.goa_name->0)
            &&& made.aliases[0].display_name.len() == 0 && (triplet.goa_name is None
                || text::trimmed(triplet.goa_name->0).len() == 0) ==> made.display_name == address
        }),
{
    let source = triplet.identity->0;
    let bare = account::bare_account(triplet);
    let primary = bare.aliases[0];
    text::lemma_trimmed_idempotent(source.identity_address->0);
    text::lemma_trimmed_idempotent(source.identity_name.unwrap_or(Seq::empty()));
    text::lemma_trimmed_identity(Seq::empty());
    if source.identity_reply_to is Some {
        text::lemma_trimmed_idempotent(source.identity_reply_to->0);
    }
    assert(primary.tidied() == primary);
    assert(primary.key() == address::normalized(model::filled(source.identity_address)->0));
    identity::lemma_imported_addresses(primary, source.identity_alias_addresses);
    reveal_strlit("text/html");
    reveal_strlit("text/plain");
    text::lemma_first_at("text/html"@, ';');
    text::lemma_first_at("text/plain"@, ';');
    assert("text/html"@.take(9) =~= "text/html"@);
    assert("text/plain"@.take(10) =~= "text/plain"@);
    text::lemma_trimmed_identity("text/html"@);
    text::lemma_trimmed_identity("text/plain"@);
    assert(text::lowered("text/html"@).len() == 9);
    assert(text::lowered("text/plain"@).len() == 10);
}

/// Each alias that an identity source lists is an identity of the account, with the
/// address and the name that stand there. Of two with one address the later counts.
pub proof fn lemma_account_has_its_aliases(triplet: TripletView, i: int)
    requires
        account::presentable(triplet),
        account::readable(triplet),
        (triplet.identity->0).identity_extension !is Valid,
        0 <= i < (triplet.identity->0).identity_alias_addresses.len(),
        ({
            let aliases = (triplet.identity->0).identity_alias_addresses;
            &&& address::normalized(aliases[i].address) != address::normalized(
                text::trimmed((triplet.identity->0).identity_address->0),
            )
            &&& forall|j: int|
                i < j < aliases.len() ==> address::normalized((#[trigger] aliases[j]).address)
                    != address::normalized(aliases[i].address)
        }),
    ensures
        ({
            let alias = (triplet.identity->0).identity_alias_addresses[i];
            let made = account::account_of(triplet).aliases;
            exists|k: int|
                {
                    &&& 0 < k < made.len()
                    &&& (#[trigger] made[k]).address == text::trimmed(alias.address)
                    &&& alias.display_name matches Some(name) ==> made[k].display_name
                        == text::trimmed(name)
                    &&& alias.display_name is None ==> made[k].display_name.len() == 0
                    &&& made[k].reply_to is None
                    &&& made[k].signature.html.len() == 0
                    &&& made[k].signature.text.len() == 0
                }
        }),
{
    let source = triplet.identity->0;
    let aliases = source.identity_alias_addresses;
    let primary = account::bare_account(triplet).aliases[0];
    text::lemma_trimmed_idempotent(source.identity_address->0);
    text::lemma_trimmed_identity(Seq::empty());
    assert(primary.key() == address::normalized(text::trimmed(source.identity_address->0)));
    let k = lemma_last_alias_counts(primary, aliases, i);
    lemma_imported_are_plain(primary, aliases, k);
    let made = account::account_of(triplet).aliases;
    assert(made[k] == identity::imported(primary, aliases)[k].tidied());
}

proof fn lemma_mail_lookup(infos: Seq<InfoView>, uid: Seq<char>)
    ensures
        match registry::lookup_mail(infos, uid) {
            Some(found) => found.uid == uid && infos.contains(found) && (found.is_account
                || found.is_identity || found.is_transport),
            None => forall|n: int|
                0 <= n < infos.len() && (#[trigger] infos[n]).uid == uid ==> !infos[n].is_account
                    && !infos[n].is_identity && !infos[n].is_transport,
        },
    decreases infos.len(),
{
    if infos.len() > 0 {
        let rest = infos.drop_last();
        lemma_mail_lookup(rest, uid);
        assert(infos[infos.len() - 1] == infos.last());
        if let Some(found) = registry::lookup_mail(rest, uid) {
            let n = choose|n: int| 0 <= n < rest.len() && rest[n] == found;
            assert(infos[n] == found);
        }
        if registry::lookup_mail(infos, uid) is None {
            assert forall|n: int| 0 <= n < infos.len() && (#[trigger] infos[n]).uid == uid implies
                !infos[n].is_account && !infos[n].is_identity && !infos[n].is_transport by {
                if n < rest.len() {
                    assert(rest[n] == infos[n]);
                }
            }
        }
    }
}

proof fn lemma_lookup(infos: Seq<InfoView>, uid: Seq<char>)
    ensures
        match registry::lookup(infos, uid) {
            Some(found) => found.uid == uid && infos.contains(found),
            None => forall|n: int| 0 <= n < infos.len() ==> (#[trigger] infos[n]).uid != uid,
        },
    decreases infos.len(),
{
    if infos.len() > 0 {
        let rest = infos.drop_last();
        lemma_lookup(rest, uid);
        assert(infos[infos.len() - 1] == infos.last());
        if let Some(found) = registry::lookup(rest, uid) {
            let n = choose|n: int| 0 <= n < rest.len() && rest[n] == found;
            assert(infos[n] == found);
        }
        if registry::lookup(infos, uid) is None {
            assert forall|n: int| 0 <= n < infos.len() implies (#[trigger] infos[n]).uid != uid by {
                if n < rest.len() {
                    assert(rest[n] == infos[n]);
                }
            }
        }
    }
}

/// A mail account is made of the account source, of the identity that the account source
/// names and of the transport that this identity names, and each of the three has what
/// its own source says.
pub proof fn lemma_mail_account_is_made_of_its_sources(infos: Seq<InfoView>, info: InfoView)
    requires
        infos.contains(info),
        info.is_account,
    ensures
        ({
            let made = registry::triplet_of(infos, info);
            &&& made.account.uid == info.uid
            &&& exists|n: int|
                {
                    &&& 0 <= n < infos.len()
                    &&& (#[trigger] infos[n]).uid == info.uid
                    &&& made.account.parent == infos[n].parent
                    &&& made.account.enabled == infos[n].enabled
                    &&& made.account.auth_method == infos[n].direct_auth_method
                    &&& infos[n].is_account ==> made.account.backend_name
                        == infos[n].direct_mail_account_backend_name
                }
            &&& made.identity matches Some(source) ==> Some(source.uid) == info.direct_identity_uid
                && exists|n: int|
                {
                    &&& 0 <= n < infos.len()
                    &&& (#[trigger] infos[n]).uid == source.uid
                    &&& source.enabled == infos[n].enabled
                    &&& source.identity_name == infos[n].direct_name
                    &&& source.identity_address == infos[n].direct_address
                    &&& source.identity_reply_to == infos[n].direct_reply_to
                    &&& source.identity_aliases == infos[n].direct_aliases
                    &&& source.identity_alias_addresses == infos[n].direct_alias_addresses
                    &&& source.identity_signature == infos[n].direct_signature
                    &&& source.identity_extension == infos[n].direct_identity_extension
                    &&& source.mailbox_configuration_hash == infos[n].mailbox_configuration_hash
                }
            &&& made.identity is None && info.direct_identity_uid is Some ==> forall|n: int|
                0 <= n < infos.len() && (#[trigger] infos[n]).uid == info.direct_identity_uid->0
                    ==> !infos[n].is_identity
            &&& made.transport matches Some(source) ==> exists|n: int|
                {
                    &&& 0 <= n < infos.len()
                    &&& Some((#[trigger] infos[n]).uid) == info.direct_identity_uid
                    &&& Some(source.uid) == infos[n].direct_transport_uid
                }
            &&& made.transport matches Some(source) ==> exists|n: int|
                {
                    &&& 0 <= n < infos.len()
                    &&& (#[trigger] infos[n]).uid == source.uid
                    &&& source.enabled == infos[n].enabled
                    &&& source.auth_method == infos[n].direct_auth_method
                    &&& infos[n].is_transport && !infos[n].is_account ==> source.backend_name
                        == infos[n].direct_mail_transport_backend_name
                }
        }),
{
    let made = registry::triplet_of(infos, info);
    lemma_mail_lookup(infos, info.uid);
    let at = choose|at: int| 0 <= at < infos.len() && infos[at] == info;
    assert(infos[at].is_account);
    let own = registry::lookup_mail(infos, info.uid)->0;
    let n = choose|n: int| 0 <= n < infos.len() && infos[n] == own;
    assert(infos[n].uid == info.uid);
    if let Some(uid) = info.direct_identity_uid {
        lemma_mail_lookup(infos, uid);
        lemma_lookup(infos, uid);
        if let Some(found) = registry::lookup_mail(infos, uid) {
            let m = choose|m: int| 0 <= m < infos.len() && infos[m] == found;
            assert(infos[m].uid == uid);
        }
        if let Some(found) = registry::lookup(infos, uid) {
            let m = choose|m: int| 0 <= m < infos.len() && infos[m] == found;
            assert(infos[m].uid == uid);
            if let Some(name) = found.direct_transport_uid {
                lemma_mail_lookup(infos, name);
                if let Some(sender) = registry::lookup_mail(infos, name) {
                    let k = choose|k: int| 0 <= k < infos.len() && infos[k] == sender;
                    assert(infos[k].uid == name);
                }
            }
        }
    }
}

/// A mail account belongs to an online account just where its account source, its
/// identity and its transport all belong to that one.
pub proof fn lemma_owner_is_that_of_all_three(
    infos: Seq<InfoView>,
    info: InfoView,
    identity: InfoView,
    transport: InfoView,
)
    requires
        info.direct_identity_uid is Some,
        registry::lookup(infos, info.direct_identity_uid->0) == Some(identity),
        identity.direct_transport_uid is Some,
        registry::lookup(infos, identity.direct_transport_uid->0) == Some(transport),
    ensures
        registry::triplet_of(infos, info).goa_account_id matches Some(owner) ==> {
            &&& registry::inherited_goa_account_id(infos, info) == Some(owner)
            &&& registry::inherited_goa_account_id(infos, identity) == Some(owner)
            &&& registry::inherited_goa_account_id(infos, transport) == Some(owner)
        },
        registry::inherited_goa_account_id(infos, info) matches Some(owner) ==> (
        registry::inherited_goa_account_id(infos, identity) == Some(owner)
            && registry::inherited_goa_account_id(infos, transport) == Some(owner)
            ==> registry::triplet_of(infos, info).goa_account_id == Some(owner)),
        registry::triplet_of(infos, info).mail_enabled == registry::inherited_mail_enabled(
            infos,
            info,
        ),
        registry::inherited_goa_name(infos, identity) is Some ==> registry::triplet_of(
            infos,
            info,
        ).goa_name == registry::inherited_goa_name(infos, identity),
        registry::inherited_goa_name(infos, identity) is None && registry::inherited_goa_name(
            infos,
            info,
        ) is Some ==> registry::triplet_of(infos, info).goa_name == registry::inherited_goa_name(
            infos,
            info,
        ),
{
}

/// An account source that names no identity, or an identity that names no transport,
/// makes a mail account that belongs to no online account.
pub proof fn lemma_incomplete_mail_account_has_no_owner(infos: Seq<InfoView>, info: InfoView)
    requires
        info.direct_identity_uid is None || registry::lookup(
            infos,
            info.direct_identity_uid->0,
        ) is None || (registry::lookup(
            infos,
            info.direct_identity_uid->0,
        )->0).direct_transport_uid is None,
    ensures
        registry::triplet_of(infos, info).goa_account_id is None,
        registry::triplet_of(infos, info).transport is None,
{
    if let Some(uid) = info.direct_identity_uid {
        lemma_lookup(infos, uid);
    }
}

proof fn lemma_ancestor_of_parent(infos: Seq<InfoView>, info: InfoView, above: InfoView, k: nat)
    requires
        registry::parent_of(infos, info) == Some(above),
    ensures
        registry::ancestor(infos, info, k + 1) == registry::ancestor(infos, above, k),
    decreases k,
{
    reveal_with_fuel(registry::ancestor, 2);
    if k > 0 {
        lemma_ancestor_of_parent(infos, info, above, (k - 1) as nat);
        assert((k + 1 - 1) as nat == (k - 1) as nat + 1);
    }
}

proof fn lemma_nothing_above(infos: Seq<InfoView>, info: InfoView, k: nat)
    requires
        registry::parent_of(infos, info) is None,
    ensures
        registry::ancestor(infos, info, k + 1) is None,
    decreases k,
{
    reveal_with_fuel(registry::ancestor, 2);
    if k > 0 {
        lemma_nothing_above(infos, info, (k - 1) as nat);
        assert((k + 1 - 1) as nat == (k - 1) as nat + 1);
    }
}

proof fn lemma_nearest_is_inherited(infos: Seq<InfoView>, info: InfoView, field: InheritedField)
    ensures
        registry::says(info, field) ==> registry::nearest(infos, info, field) == Some(info),
        !registry::says(info, field) && registry::parent_of(infos, info) is None
            ==> registry::nearest(infos, info, field) is None,
        !registry::says(info, field) ==> (registry::parent_of(infos, info) matches Some(above)
            ==> registry::nearest(infos, info, field) == registry::nearest(infos, above, field)),
{
    assert(registry::ancestor(infos, info, 0) == Some(info));
    assert(registry::says_at(infos, info, field, 0) == registry::says(info, field));
    if registry::says(info, field) {
        assert(registry::nearest_at(infos, info, field, 0));
        registry::lemma_nearest_is_unique(infos, info, field, 0);
    } else if let Some(above) = registry::parent_of(infos, info) {
        assert forall|k: nat| #[trigger]
            registry::says_at(infos, above, field, k) == registry::says_at(
            infos,
            info,
            field,
            k + 1,
        ) by {
            lemma_ancestor_of_parent(infos, info, above, k);
        }
        if exists|k: nat| registry::nearest_at(infos, above, field, k) {
            let k = choose|k: nat| registry::nearest_at(infos, above, field, k);
            assert(registry::says_at(infos, above, field, k));
            assert forall|j: nat| j < k + 1 implies !#[trigger] registry::says_at(
                infos,
                info,
                field,
                j,
            ) by {
                if j > 0 {
                    let i = (j - 1) as nat;
                    assert(i + 1 == j);
                    assert(!registry::says_at(infos, above, field, i));
                }
            }
            assert(registry::nearest_at(infos, info, field, k + 1));
            registry::lemma_nearest_is_unique(infos, info, field, k + 1);
            registry::lemma_nearest_is_unique(infos, above, field, k);
            lemma_ancestor_of_parent(infos, info, above, k);
        } else if exists|k: nat| registry::nearest_at(infos, info, field, k) {
            let k = choose|k: nat| registry::nearest_at(infos, info, field, k);
            assert(registry::says_at(infos, info, field, k));
            assert(k > 0);
            let i = (k - 1) as nat;
            assert(i + 1 == k);
            assert(registry::says_at(infos, above, field, i));
            assert forall|j: nat| j < i implies !#[trigger] registry::says_at(
                infos,
                above,
                field,
                j,
            ) by {
                assert(!registry::says_at(infos, info, field, j + 1));
            }
            assert(registry::nearest_at(infos, above, field, i));
        }
    } else {
        if exists|k: nat| registry::nearest_at(infos, info, field, k) {
            let k = choose|k: nat| registry::nearest_at(infos, info, field, k);
            assert(registry::says_at(infos, info, field, k));
            if k > 0 {
                lemma_nothing_above(infos, info, (k - 1) as nat);
                assert((k - 1) as nat + 1 == k);
            }
        }
    }
}

/// What a source says itself counts, and what it does not say it has from its parent; a
/// source that names no parent that exists has nothing but what it says itself.
pub proof fn lemma_sources_inherit_from_their_parents(infos: Seq<InfoView>, info: InfoView)
    ensures
        info.direct_goa_account_id is Some ==> registry::inherited_goa_account_id(infos, info)
            == info.direct_goa_account_id,
        info.direct_goa_name is Some ==> registry::inherited_goa_name(infos, info)
            == info.direct_goa_name,
        info.direct_collection_mail_enabled is Some ==> registry::inherited_mail_enabled(
            infos,
            info,
        ) == info.direct_collection_mail_enabled,
        info.parent is Some ==> (registry::lookup(infos, info.parent->0) matches Some(above) ==> {
            &&& info.direct_goa_account_id is None ==> registry::inherited_goa_account_id(
                infos,
                info,
            ) == registry::inherited_goa_account_id(infos, above)
            &&& info.direct_goa_name is None ==> registry::inherited_goa_name(infos, info)
                == registry::inherited_goa_name(infos, above)
            &&& info.direct_collection_mail_enabled is None ==> registry::inherited_mail_enabled(
                infos,
                info,
            ) == registry::inherited_mail_enabled(infos, above)
        }),
        info.parent is None || registry::lookup(infos, info.parent->0) is None ==> {
            &&& registry::inherited_goa_account_id(infos, info) == info.direct_goa_account_id
            &&& registry::inherited_goa_name(infos, info) == info.direct_goa_name
            &&& registry::inherited_mail_enabled(infos, info)
                == info.direct_collection_mail_enabled
        },
{
    lemma_nearest_is_inherited(infos, info, InheritedField::GoaAccountId);
    lemma_nearest_is_inherited(infos, info, InheritedField::GoaName);
    lemma_nearest_is_inherited(infos, info, InheritedField::MailEnabled);
}

/// Each account source makes one mail account, in the order of the sources, and nothing
/// else makes one.
pub proof fn lemma_each_account_source_makes_a_mail_account(
    infos: Seq<InfoView>,
    part: Seq<InfoView>,
)
    requires
        forall|i: int| 0 <= i < part.len() ==> infos.contains(#[trigger] part[i]),
    ensures
        registry::triplets_of(infos, part).len() == part.filter(
            |info: InfoView| info.is_account,
        ).len(),
        forall|k: int|
            0 <= k < registry::triplets_of(infos, part).len() ==> (#[trigger] registry::triplets_of(
                infos,
                part,
            )[k]).account.uid == part.filter(|info: InfoView| info.is_account)[k].uid,
    decreases part.len(),
{
    reveal(Seq::filter);
    if part.len() > 0 {
        let rest = part.drop_last();
        assert forall|i: int| 0 <= i < rest.len() implies infos.contains(#[trigger] rest[i]) by {
            assert(rest[i] == part[i]);
        }
        lemma_each_account_source_makes_a_mail_account(infos, rest);
        assert(infos.contains(part[part.len() - 1]));
        let all = registry::triplets_of(infos, part);
        let before = registry::triplets_of(infos, rest);
        let sources = part.filter(|info: InfoView| info.is_account);
        let earlier = rest.filter(|info: InfoView| info.is_account);
        if part.last().is_account {
            lemma_mail_account_is_made_of_its_sources(infos, part.last());
            assert(sources == earlier.push(part.last()));
            assert forall|k: int| 0 <= k < all.len() implies (#[trigger] all[k]).account.uid
                == sources[k].uid by {
                if k < before.len() {
                    assert(all[k] == before[k]);
                }
            }
        } else {
            assert(sources == earlier);
        }
    }
}

/// The number by which a change of a source is noticed is taken over the source and all
/// those above it.
pub proof fn lemma_fingerprint_covers_the_sources_above(infos: Seq<InfoView>, info: InfoView)
    ensures
        registry::source_of(infos, info).configuration_hash == DefaultHasher::spec_finish(
            registry::configuration_chunks(registry::lineage(infos, info)),
        ),
        forall|k: int|
            0 <= k < registry::lineage(infos, info).len() ==> (#[trigger] registry::lineage(
                infos,
                info,
            )[k]) == registry::ancestor(infos, info, k as nat)->0,
{
}

/// There is no catalog where the stored identities of a complete mail account cannot be
/// used, and none where two of them belong to one online account; it says which.
pub proof fn lemma_why_there_is_no_catalog(triplets: Seq<TripletView>)
    ensures
        match account::entries_of(triplets) {
            Ok(_) => forall|j: int|
                0 <= j < triplets.len() && account::presentable(#[trigger] triplets[j]) ==> (
                triplets[j].identity->0).identity_extension !is Invalid,
            Err(CatalogErrorView::InvalidExtension(uid)) => exists|j: int|
                0 <= j < triplets.len() && (#[trigger] triplets[j]).identity is Some && (
                triplets[j].identity->0).uid == uid && (
                triplets[j].identity->0).identity_extension is Invalid,
            Err(CatalogErrorView::DuplicateRoute(id)) => exists|i: int, j: int|
                0 <= i < j < triplets.len() && model::filled(
                    (#[trigger] triplets[i]).goa_account_id,
                ) == Some(id) && model::filled((#[trigger] triplets[j]).goa_account_id) == Some(
                    id,
                ),
        },
    decreases triplets.len(),
{
    if triplets.len() > 0 {
        let rest = triplets.drop_last();
        let last = triplets.len() - 1;
        lemma_why_there_is_no_catalog(rest);
        assert(triplets[last] == triplets.last());
        assert forall|j: int| 0 <= j < rest.len() implies #[trigger] rest[j] == triplets[j] by {}
        match account::entries_of(rest) {
            Err(CatalogErrorView::InvalidExtension(uid)) => {
                let j = choose|j: int|
                    0 <= j < rest.len() && (#[trigger] rest[j]).identity is Some && (
                    rest[j].identity->0).uid == uid && (
                    rest[j].identity->0).identity_extension is Invalid;
                assert(triplets[j] == rest[j]);
            },
            Err(CatalogErrorView::DuplicateRoute(id)) => {
                let (i, j) = choose|i: int, j: int|
                    0 <= i < j < rest.len() && model::filled((#[trigger] rest[i]).goa_account_id)
                        == Some(id) && model::filled((#[trigger] rest[j]).goa_account_id) == Some(
                        id,
                    );
                assert(triplets[i] == rest[i] && triplets[j] == rest[j]);
            },
            Ok(before) => {
                match account::entries_of(triplets) {
                    Ok(_) => {
                        assert forall|j: int|
                            0 <= j < triplets.len() && account::presentable(
                                #[trigger] triplets[j],
                            ) implies (triplets[j].identity->0).identity_extension !is Invalid by {
                            if j < last {
                                assert(rest[j] == triplets[j]);
                            }
                        }
                    },
                    Err(CatalogErrorView::DuplicateRoute(id)) => {
                        lemma_each_route_is_that_of_its_mail_account(rest);
                        let k = choose|k: int|
                            0 <= k < before.len() && (#[trigger] before[k]).0.id == id;
                        lemma_listed_id_is_filled(rest, k);
                        let i = choose|i: int|
                            0 <= i < rest.len() && model::filled(
                                (#[trigger] rest[i]).goa_account_id,
                            ) == Some(before[k].0.id);
                        assert(triplets[i] == rest[i]);
                        assert(model::filled(triplets[i].goa_account_id) == Some(id));
                        assert(model::filled(triplets[last].goa_account_id) == Some(id));
                    },
                    Err(CatalogErrorView::InvalidExtension(_)) => {},
                }
            },
        }
    }
}

proof fn lemma_listed_id_is_filled(triplets: Seq<TripletView>, k: int)
    requires
        account::entries_of(triplets) is Ok,
        0 <= k < account::entries_of(triplets)->Ok_0.len(),
    ensures
        exists|i: int|
            0 <= i < triplets.len() && model::filled((#[trigger] triplets[i]).goa_account_id)
                == Some(account::entries_of(triplets)->Ok_0[k].0.id),
    decreases triplets.len(),
{
    let rest = triplets.drop_last();
    let last = triplets.len() - 1;
    let entries = account::entries_of(triplets)->Ok_0;
    let before = account::entries_of(rest)->Ok_0;
    assert(triplets[last] == triplets.last());
    if k < before.len() {
        lemma_listed_id_is_filled(rest, k);
        assert(entries[k] == before[k]);
        let i = choose|i: int|
            0 <= i < rest.len() && model::filled((#[trigger] rest[i]).goa_account_id) == Some(
                before[k].0.id,
            );
        assert(triplets[i] == rest[i]);
    } else {
        assert(model::filled(triplets[last].goa_account_id) == Some(entries[k].0.id));
    }
}

/// Each identity but the primary one is stored as an alias, by its name and its address.
pub proof fn lemma_each_alias_is_stored(holder: AccountView, i: int)
    requires
        0 <= i < holder.aliases.len(),
    ensures
        ({
            let primary_key = address::normalized(holder.primary_address);
            let stored = account::alias_mailboxes(holder.aliases, primary_key);
            let name = text::trimmed(holder.aliases[i].display_name);
            let own = text::trimmed(holder.aliases[i].address);
            &&& holder.aliases[i].key() != primary_key ==> stored.contains(
                holder.aliases[i].mailbox(),
            )
            &&& name.len() == 0 ==> holder.aliases[i].mailbox() == own
            &&& name.len() > 0 && !name.contains('"') && !name.contains('\\')
                ==> holder.aliases[i].mailbox() == "\""@ + name + "\" <"@ + own + ">"@
            &&& forall|k: int|
                0 <= k < stored.len() ==> exists|j: int|
                    0 <= j < holder.aliases.len() && (#[trigger] holder.aliases[j]).key()
                        != primary_key && holder.aliases[j].mailbox() == #[trigger] stored[k]
        }),
{
    let primary_key = address::normalized(holder.primary_address);
    let name = text::trimmed(holder.aliases[i].display_name);
    lemma_alias_mailboxes(holder.aliases, primary_key);
    let aliases = holder.aliases;
    let stored = account::alias_mailboxes(aliases, primary_key);
    assert(aliases[i].key() != primary_key ==> stored.contains(aliases[i].mailbox()));
    assert forall|k: int| 0 <= k < stored.len() implies exists|j: int|
        0 <= j < holder.aliases.len() && (#[trigger] holder.aliases[j]).key() != primary_key
            && holder.aliases[j].mailbox() == #[trigger] stored[k] by {
        let j = choose|j: int|
            0 <= j < aliases.len() && (#[trigger] aliases[j]).key() != primary_key
                && aliases[j].mailbox() == #[trigger] stored[k];
        assert(holder.aliases[j].mailbox() == stored[k]);
    }
    reveal_strlit("\"");
    reveal_strlit(">");
    if name.len() > 0 && !name.contains('"') && !name.contains('\\') {
        crate::laws::texts::lemma_replaced_text(name, Seq::empty(), '\\', "\\\\"@);
        crate::laws::texts::lemma_replaced_text(name, Seq::empty(), '"', "\\\""@);
        assert(model::quoted_name(name) == name);
        let own = text::trimmed(holder.aliases[i].address);
        assert(holder.aliases[i].mailbox() =~= "\""@ + name + "\" <"@ + own + ">"@);
    }
}

proof fn lemma_alias_mailboxes(aliases: Seq<IdentityView>, primary_key: Seq<char>)
    ensures
        forall|i: int|
            0 <= i < aliases.len() && (#[trigger] aliases[i]).key() != primary_key
                ==> account::alias_mailboxes(aliases, primary_key).contains(aliases[i].mailbox()),
        forall|k: int|
            0 <= k < account::alias_mailboxes(aliases, primary_key).len() ==> exists|j: int|
                0 <= j < aliases.len() && (#[trigger] aliases[j]).key() != primary_key
                    && aliases[j].mailbox() == #[trigger] account::alias_mailboxes(
                    aliases,
                    primary_key,
                )[k],
    decreases aliases.len(),
{
    if aliases.len() > 0 {
        let rest = aliases.drop_last();
        let last = aliases.len() - 1;
        let before = account::alias_mailboxes(rest, primary_key);
        let after = account::alias_mailboxes(aliases, primary_key);
        lemma_alias_mailboxes(rest, primary_key);
        assert(aliases[last] == aliases.last());
        assert forall|i: int|
            0 <= i < aliases.len() && (#[trigger] aliases[i]).key()
                != primary_key implies after.contains(aliases[i].mailbox()) by {
            crate::laws::lists::lemma_pushed(
                before,
                aliases.last().mailbox(),
                aliases[i].mailbox(),
            );
            if i < last {
                assert(rest[i] == aliases[i]);
            }
        }
        assert forall|k: int| 0 <= k < after.len() implies exists|j: int|
            0 <= j < aliases.len() && (#[trigger] aliases[j]).key() != primary_key
                && aliases[j].mailbox() == #[trigger] after[k] by {
            if k < before.len() {
                assert(after[k] == before[k]);
                let j = choose|j: int|
                    0 <= j < rest.len() && (#[trigger] rest[j]).key() != primary_key
                        && rest[j].mailbox() == #[trigger] before[k];
                assert(aliases[j] == rest[j]);
            } else {
                assert(aliases[last].mailbox() == after[k]);
            }
        }
    }
}

} // verus!
