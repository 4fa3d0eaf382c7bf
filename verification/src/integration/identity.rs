//! Import of the addresses that an account source lists as aliases.
use crate::integration::registry;
use crate::integration::registry::{DecodedAddress, DecodedAddressView};
use crate::model::account;
use crate::model::account::{
    AccountView, IdentityView, MailAccount, SendingIdentity, Signature, SignatureView,
};
use crate::model::address;
use crate::text;
use vstd::prelude::*;

verus! {

/// The name that goes with an alias.
pub open spec fn alias_name(alias: DecodedAddressView) -> Seq<char> {
    alias.display_name.unwrap_or(Seq::empty())
}

/// The identity that an alias makes by itself.
pub open spec fn alias_identity(alias: DecodedAddressView) -> IdentityView {
    (IdentityView {
        address: alias.address,
        display_name: alias_name(alias),
        reply_to: None,
        signature: SignatureView { html: Seq::empty(), text: Seq::empty() },
    }).tidied()
}

/// The identities of an account whose primary identity is `primary` and whose source
/// lists `aliases`: of two aliases with one address the later counts, in the place of
/// the earlier, and the primary address is no alias.
pub open spec fn imported(primary: IdentityView, aliases: Seq<DecodedAddressView>) -> Seq<
    IdentityView,
>
    decreases aliases.len(),
{
    if aliases.len() == 0 {
        seq![primary]
    } else {
        let before = imported(primary, aliases.drop_last());
        let alias = aliases.last();
        let key = address::normalized(alias.address);
        if key == primary.key() {
            before
        } else if account::has_key(before, key) {
            let at = account::position_of(before, key);
            before.update(
                at,
                IdentityView {
                    address: alias.address,
                    display_name: alias_name(alias),
                    ..before[at]
                },
            )
        } else {
            before.push(alias_identity(alias))
        }
    }
}

/// Whether each alias has an address.
pub open spec fn addressed(aliases: Seq<DecodedAddressView>) -> bool {
    forall|i: int|
        0 <= i < aliases.len() ==> address::normalized((#[trigger] aliases[i]).address).len() > 0
}

/// Trimming an identity leaves the form of its address by which it is told apart.
pub proof fn lemma_tidied_key(identity: IdentityView)
    ensures
        identity.tidied().key() == identity.key(),
{
    text::lemma_trimmed_idempotent(identity.address);
}

/// The same for all identities of a list.
pub proof fn lemma_tidied_keys(list: Seq<IdentityView>)
    ensures
        account::distinct_keys(list) ==> account::distinct_keys(account::tidied_all(list)),
        forall|key: Seq<char>| #[trigger]
            account::has_key(account::tidied_all(list), key) == account::has_key(list, key),
{
    let tidied = account::tidied_all(list);
    assert forall|i: int| 0 <= i < list.len() implies (#[trigger] tidied[i]).key()
        == list[i].key() by {
        lemma_tidied_key(list[i]);
    }
    if account::distinct_keys(list) {
        assert forall|i: int, j: int|
            #![trigger tidied[i], tidied[j]]
            0 <= i < j < tidied.len() implies tidied[i].key() != tidied[j].key() by {
            assert(list[i].key() != list[j].key());
        }
        assert forall|i: int| 0 <= i < tidied.len() implies (#[trigger] tidied[i]).key().len()
            > 0 by {
            assert(list[i].key().len() > 0);
        }
    }
    assert forall|key: Seq<char>| #[trigger]
        account::has_key(tidied, key) == account::has_key(list, key) by {
        if account::has_key(list, key) {
            let i = account::position_of(list, key);
            assert(tidied[i].key() == key);
        }
        if account::has_key(tidied, key) {
            let i = account::position_of(tidied, key);
            assert(list[i].key() == key);
        }
    }
}

/// The imported identities are the primary one, first, and one for each address that
/// the source lists.
pub proof fn lemma_imported_addresses(primary: IdentityView, aliases: Seq<DecodedAddressView>)
    requires
        primary.key().len() > 0,
        addressed(aliases),
    ensures
        imported(primary, aliases).len() > 0,
        imported(primary, aliases)[0] == primary,
        account::distinct_keys(imported(primary, aliases)),
        forall|key: Seq<char>| #[trigger]
            account::has_key(imported(primary, aliases), key) <==> key == primary.key() || (exists|
                i: int,
            |
                0 <= i < aliases.len() && address::normalized((#[trigger] aliases[i]).address)
                    == key),
    decreases aliases.len(),
{
    let after = imported(primary, aliases);
    if aliases.len() == 0 {
        assert(after[0] == primary);
        assert forall|key: Seq<char>| #[trigger] account::has_key(after, key) <==> key
            == primary.key() || (exists|i: int|
            0 <= i < aliases.len() && address::normalized((#[trigger] aliases[i]).address)
                == key) by {
            if key == primary.key() {
                assert(after[0].key() == key);
            }
        }
    } else {
        let rest = aliases.drop_last();
        let before = imported(primary, rest);
        let alias = aliases.last();
        let added = address::normalized(alias.address);
        assert forall|i: int| 0 <= i < rest.len() implies address::normalized(
            (#[trigger] rest[i]).address,
        ).len() > 0 by {
            assert(rest[i] == aliases[i]);
        }
        lemma_imported_addresses(primary, rest);
        assert(aliases[aliases.len() - 1] == alias);
        lemma_tidied_key(
            IdentityView {
                address: alias.address,
                display_name: alias_name(alias),
                reply_to: None,
                signature: SignatureView { html: Seq::empty(), text: Seq::empty() },
            },
        );
        if added != primary.key() && account::has_key(before, added) {
            let at = account::position_of(before, added);
            assert(before[at].key() == added);
            assert(at != 0);
            assert(after[at].key() == added);
            assert forall|i: int, j: int|
                #![trigger after[i], after[j]]
                0 <= i < j < after.len() implies after[i].key() != after[j].key() by {
                assert(before[i].key() != before[j].key());
            }
            assert forall|i: int| 0 <= i < after.len() implies (#[trigger] after[i]).key().len()
                > 0 by {
                assert(before[i].key().len() > 0);
            }
        } else if added != primary.key() {
            assert forall|i: int, j: int|
                #![trigger after[i], after[j]]
                0 <= i < j < after.len() implies after[i].key() != after[j].key() by {
                assert(after[i] == before[i]);
            }
        }
        assert forall|key: Seq<char>| #[trigger] account::has_key(after, key) <==> key
            == primary.key() || (exists|i: int|
            0 <= i < aliases.len() && address::normalized((#[trigger] aliases[i]).address)
                == key) by {
            assert(account::has_key(before, key) <==> key == primary.key() || (exists|i: int|
                0 <= i < rest.len() && address::normalized((#[trigger] rest[i]).address) == key));
            if account::has_key(after, key) {
                let i = account::position_of(after, key);
                assert(after[i].key() == key);
                if key != added {
                    assert(before[i].key() == key);
                    if key != primary.key() {
                        let j = choose|j: int|
                            0 <= j < rest.len() && address::normalized((#[trigger] rest[j]).address)
                                == key;
                        assert(aliases[j] == rest[j]);
                    }
                }
            }
            if account::has_key(before, key) {
                let i = account::position_of(before, key);
                assert(after[i].key() == key);
            }
            if key == added && added != primary.key() && !account::has_key(before, added) {
                assert(after[before.len() as int].key() == key);
            }
            if key == primary.key() {
                assert(after[0].key() == key);
            }
            if exists|i: int|
                0 <= i < aliases.len() && address::normalized((#[trigger] aliases[i]).address)
                    == key {
                let i = choose|i: int|
                    0 <= i < aliases.len() && address::normalized((#[trigger] aliases[i]).address)
                        == key;
                if i < rest.len() {
                    assert(rest[i] == aliases[i]);
                }
            }
        }
    }
}

/// Replaces the identities of an account by its primary one and those that its source
/// lists as aliases.
pub fn import_eds_aliases(account: &mut MailAccount, aliases: &Vec<DecodedAddress>)
    requires
        old(account)@.valid(),
        addressed(registry::decoded_views(aliases@)),
    ensures
        ({
            let before = old(account)@;
            let primary = before.identity(before.primary_address)->0;
            let listed = imported(primary, registry::decoded_views(aliases@));
            final(account)@ == AccountView {
                aliases: account::tidied_all(listed),
                default_address: primary.tidied().address,
                ..before
            }
        }),
        final(account)@.valid(),
{
    let ghost all = registry::decoded_views(aliases@);
    let ghost before = account@;
    let ghost primary = before.identity(before.primary_address)->0;
    let primary_address = account.primary_identity().address.clone();
    let normalized_primary = address::normalized_mailbox_address(primary_address.as_str());
    let mut identities: Vec<SendingIdentity> = Vec::new();
    identities.push(account.primary_identity().clone());
    proof {
        let at = account::position_of(
            before.aliases,
            address::normalized(before.primary_address),
        );
        assert(before.aliases[at].key() == address::normalized(before.primary_address));
        assert(primary.key().len() > 0);
        assert(account::identities(identities@) =~= seq![primary]);
        assert(all.take(0) =~= Seq::empty());
    }
    let mut i: usize = 0;
    while i < aliases.len()
        invariant
            i <= aliases.len(),
            all == registry::decoded_views(aliases@),
            addressed(all),
            primary.key().len() > 0,
            normalized_primary@ == primary.key(),
            account::identities(identities@) == imported(primary, all.take(i as int)),
        decreases aliases.len() - i,
    {
        let ghost part = all.take(i as int);
        let ghost so_far = account::identities(identities@);
        proof {
            assert(all.take(i + 1).drop_last() =~= part);
            assert(all.take(i + 1).last() == aliases@[i as int]@);
            assert forall|j: int| 0 <= j < part.len() implies address::normalized(
                (#[trigger] part[j]).address,
            ).len() > 0 by {
                assert(part[j] == all[j]);
            }
            lemma_imported_addresses(primary, part);
        }
        let alias = &aliases[i];
        let display_name = match &alias.display_name {
            Some(name) => name.clone(),
            None => String::new(),
        };
        let key = address::normalized_mailbox_address(alias.address.as_str());
        if key != normalized_primary {
            match account::find_key(&identities, &key) {
                Some(at) => {
                    let existing = SendingIdentity {
                        address: alias.address.clone(),
                        display_name,
                        reply_to: text::clone_opt(&identities[at].reply_to),
                        signature: identities[at].signature.clone(),
                    };
                    let ghost value = existing@;
                    identities[at] = existing;
                    assert(account::identities(identities@) =~= so_far.update(at as int, value));
                },
                None => {
                    let added = SendingIdentity::new(
                        alias.address.clone(),
                        display_name,
                        None,
                        Signature::default(),
                    );
                    let ghost value = added@;
                    identities.push(added);
                    assert(account::identities(identities@) =~= so_far.push(value));
                },
            }
        }
        i += 1;
    }
    proof {
        assert(all.take(i as int) =~= all);
        lemma_imported_addresses(primary, all);
        let listed = imported(primary, all);
        lemma_tidied_keys(listed);
        let tidied = account::tidied_all(listed);
        assert(account::has_key(listed, primary.key()));
        assert(account::has_key(tidied, primary.key()));
        lemma_tidied_key(primary);
        let at = account::position_of(tidied, primary.key());
        assert(tidied[0] == primary.tidied());
        assert(tidied[at].key() == primary.key());
        if at > 0 {
            assert(tidied[0].key() != tidied[at].key());
        }
    }
    account.replace_aliases(identities, primary_address);
}

} // verus!
