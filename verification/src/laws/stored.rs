//! What holds of the identities that are stored with an account.
use crate::integration::account;
use crate::integration::account::{Entry, SaveErrorView};
use crate::integration::registry;
use crate::integration::registry::identity_write;
use crate::integration::registry::identity_write::{IdentityWriteError, UpdateView, WriteStep};
use crate::integration::registry::{
    DecodedAddressView, ExtensionStateView, IdentityExtensionView, IdentityMetadataView,
    RecordView, SignatureMetadataView, SourceView, TripletView,
};
use crate::laws::lists::lemma_pushed;
use crate::model::account as model;
use crate::model::account::{AccountView, IdentityView};
use crate::model::address;
use crate::text;
use vstd::prelude::*;

verus! {

proof fn lemma_last_record(stored: Seq<IdentityMetadataView>, key: Seq<char>, m: int)
    requires
        0 <= m < stored.len(),
        address::normalized(stored[m].address) == key,
        forall|n: int|
            m < n < stored.len() ==> address::normalized((#[trigger] stored[n]).address) != key,
    ensures
        account::last_metadata_of(stored, key) == Some(stored[m]),
    decreases stored.len(),
{
    let rest = stored.drop_last();
    if m < rest.len() {
        assert(stored[stored.len() - 1] == stored.last());
        assert forall|n: int| m < n < rest.len() implies address::normalized(
            (#[trigger] rest[n]).address,
        ) != key by {
            assert(rest[n] == stored[n]);
        }
        lemma_last_record(rest, key, m);
    }
}

proof fn lemma_arranged_entry(
    keys: Seq<Seq<char>>,
    standard: Seq<IdentityView>,
    stored: Seq<IdentityMetadataView>,
    primary_key: Seq<char>,
    key: Seq<char>,
) -> (n: int)
    requires
        keys.contains(key),
        model::has_key(standard, key),
    ensures
        0 <= n < account::arranged(keys, standard, stored, primary_key).len(),
        account::arranged(keys, standard, stored, primary_key)[n] == account::with_metadata(
            standard[model::position_of(standard, key)],
            account::last_metadata_of(stored, key),
            key == primary_key,
        ),
    decreases keys.len(),
{
    let rest = keys.drop_last();
    let before = account::arranged(rest, standard, stored, primary_key);
    let after = account::arranged(keys, standard, stored, primary_key);
    if rest.contains(key) {
        let n = lemma_arranged_entry(rest, standard, stored, primary_key, key);
        assert(after[n] == before[n]);
        n
    } else {
        let k = choose|k: int| 0 <= k < keys.len() && keys[k] == key;
        if k < rest.len() {
            assert(rest[k] == key);
        }
        assert(keys.last() == key);
        before.len() as int
    }
}

proof fn lemma_unlisted_entry(standard: Seq<IdentityView>, keys: Seq<Seq<char>>, i: int) -> (n: int)
    requires
        0 <= i < standard.len(),
        !keys.contains(standard[i].key()),
    ensures
        0 <= n < account::unlisted(standard, keys).len(),
        account::unlisted(standard, keys)[n] == standard[i],
    decreases standard.len(),
{
    let rest = standard.drop_last();
    let before = account::unlisted(rest, keys);
    if i < rest.len() {
        assert(rest[i] == standard[i]);
        let n = lemma_unlisted_entry(rest, keys, i);
        assert(account::unlisted(standard, keys)[n] == before[n]);
        n
    } else {
        assert(standard.last() == standard[i]);
        before.len() as int
    }
}

proof fn lemma_position(aliases: Seq<IdentityView>, i: int)
    requires
        model::distinct_keys(aliases),
        0 <= i < aliases.len(),
    ensures
        model::has_key(aliases, aliases[i].key()),
        model::position_of(aliases, aliases[i].key()) == i,
{
    let at = model::position_of(aliases, aliases[i].key());
    assert(aliases[at].key() == aliases[i].key());
}

/// What is stored of an identity reaches the identity with that address and no other:
/// it gets both signatures and, unless it is the primary one, the reply address. It keeps
/// its address and its name. Of two records of one address the later counts.
pub proof fn lemma_stored_identity_is_applied(
    holder: AccountView,
    extension: IdentityExtensionView,
    i: int,
    m: int,
)
    requires
        holder.valid(),
        0 <= i < holder.aliases.len(),
        0 <= m < extension.identities.len(),
        address::normalized(extension.identities[m].address) == address::normalized(
            holder.aliases[i].address,
        ),
        forall|n: int|
            m < n < extension.identities.len() ==> address::normalized(
                (#[trigger] extension.identities[n]).address,
            ) != address::normalized(holder.aliases[i].address),
    ensures
        ({
            let record = extension.identities[m];
            let made = account::extended(holder, extension).aliases;
            let is_primary = address::normalized(holder.primary_address) == address::normalized(
                holder.aliases[i].address,
            );
            exists|k: int|
                {
                    &&& 0 <= k < made.len()
                    &&& (#[trigger] made[k]).address == holder.aliases[i].address
                    &&& made[k].display_name == holder.aliases[i].display_name
                    &&& made[k].signature.html == record.signatures.html.contents
                    &&& made[k].signature.text == record.signatures.text.contents
                    &&& is_primary ==> made[k].reply_to == holder.aliases[i].reply_to
                    &&& !is_primary && text::trimmed(record.reply_to).len() > 0
                        ==> made[k].reply_to == Some(text::trimmed(record.reply_to))
                    &&& !is_primary && text::trimmed(record.reply_to).len() == 0
                        ==> made[k].reply_to is None
                }
        }),
{
    let stored = extension.identities;
    let standard = holder.aliases;
    let primary = holder.identity(holder.primary_address)->0;
    let primary_key = primary.key();
    let at = model::position_of(standard, address::normalized(holder.primary_address));
    assert(standard[at].key() == address::normalized(holder.primary_address));
    let key = standard[i].key();
    let keys = account::extension_keys(primary_key, stored);
    assert(keys[m + 1] == address::normalized(stored[m].address));
    lemma_position(standard, i);
    lemma_last_record(stored, key, m);
    let n = lemma_arranged_entry(keys, standard, stored, primary_key, key);
    let made = account::extended(holder, extension).aliases;
    let loose = account::extended_aliases(standard, stored, primary_key);
    assert(loose[n] == account::arranged(keys, standard, stored, primary_key)[n]);
    assert(made[n] == loose[n].tidied());
    assert(standard[i].tidied() == standard[i]);
    text::lemma_trimmed_idempotent(stored[m].reply_to);
    assert(made[n].address == standard[i].address);
}

/// An identity of which nothing is stored stays as it is.
pub proof fn lemma_unstored_identity_stays(
    holder: AccountView,
    extension: IdentityExtensionView,
    i: int,
)
    requires
        holder.valid(),
        0 <= i < holder.aliases.len(),
        forall|n: int|
            0 <= n < extension.identities.len() ==> address::normalized(
                (#[trigger] extension.identities[n]).address,
            ) != address::normalized(holder.aliases[i].address),
    ensures
        account::extended(holder, extension).aliases.contains(holder.aliases[i]),
{
    let stored = extension.identities;
    let standard = holder.aliases;
    let primary = holder.identity(holder.primary_address)->0;
    let primary_key = primary.key();
    let key = standard[i].key();
    let keys = account::extension_keys(primary_key, stored);
    let made = account::extended(holder, extension).aliases;
    let loose = account::extended_aliases(standard, stored, primary_key);
    let head = account::arranged(keys, standard, stored, primary_key);
    assert(standard[i].tidied() == standard[i]);
    lemma_position(standard, i);
    lemma_no_record(stored, key);
    if keys.contains(key) {
        let n = lemma_arranged_entry(keys, standard, stored, primary_key, key);
        assert(loose[n] == head[n]);
        assert(made[n] == standard[i]);
    } else {
        let n = lemma_unlisted_entry(standard, keys, i);
        assert(loose[head.len() + n] == standard[i]);
        assert(made[head.len() + n] == standard[i]);
    }
}

proof fn lemma_no_record(stored: Seq<IdentityMetadataView>, key: Seq<char>)
    requires
        forall|n: int|
            0 <= n < stored.len() ==> address::normalized((#[trigger] stored[n]).address) != key,
    ensures
        account::last_metadata_of(stored, key) is None,
    decreases stored.len(),
{
    if stored.len() > 0 {
        let rest = stored.drop_last();
        assert(stored[stored.len() - 1] == stored.last());
        assert forall|n: int| 0 <= n < rest.len() implies address::normalized(
            (#[trigger] rest[n]).address,
        ) != key by {
            assert(rest[n] == stored[n]);
        }
        lemma_no_record(rest, key);
    }
}

/// An account takes the stored label, keeps its own name and its primary address, and
/// sends from the stored default address where it has it, else from the primary one.
pub proof fn lemma_stored_account_is_applied(holder: AccountView, extension: IdentityExtensionView)
    requires
        holder.valid(),
    ensures
        ({
            let made = account::extended(holder, extension);
            let known = exists|i: int|
                0 <= i < holder.aliases.len() && address::normalized(
                    (#[trigger] holder.aliases[i]).address,
                ) == address::normalized(extension.default_address);
            &&& made.id == holder.id
            &&& made.primary_address == holder.primary_address
            &&& made.display_name == text::trimmed(extension.account_label)
            &&& known ==> address::normalized(made.default_address) == address::normalized(
                extension.default_address,
            )
            &&& !known ==> address::normalized(made.default_address) == address::normalized(
                holder.primary_address,
            )
        }),
{
    let standard = holder.aliases;
    let primary = holder.identity(holder.primary_address)->0;
    let primary_key = primary.key();
    let at = model::position_of(standard, address::normalized(holder.primary_address));
    assert(standard[at].key() == address::normalized(holder.primary_address));
    let loose = account::extended_aliases(standard, extension.identities, primary_key);
    let made = account::extended(holder, extension);
    let wanted = address::normalized(extension.default_address);
    account::lemma_extension_keeps_the_addresses(standard, extension.identities, primary_key);
    crate::integration::identity::lemma_tidied_keys(loose);
    assert(model::has_key(standard, primary_key));
    assert(model::has_key(loose, primary_key));
    assert(model::has_key(made.aliases, primary_key));
    assert(model::has_key(loose, wanted) == model::has_key(standard, wanted));
    assert(model::has_key(made.aliases, wanted) == model::has_key(standard, wanted));
    let chosen = if model::has_key(made.aliases, wanted) {
        wanted
    } else {
        primary_key
    };
    let there = model::position_of(made.aliases, chosen);
    assert(made.aliases[there].key() == chosen);
    if exists|i: int|
        0 <= i < holder.aliases.len() && address::normalized(
            (#[trigger] holder.aliases[i]).address,
        ) == wanted {
        let i = choose|i: int|
            0 <= i < holder.aliases.len() && address::normalized(
                (#[trigger] holder.aliases[i]).address,
            ) == wanted;
        assert(standard[i].key() == wanted);
    }
    if model::has_key(standard, wanted) {
        let i = model::position_of(standard, wanted);
        assert(address::normalized(holder.aliases[i].address) == wanted);
    }
}

proof fn lemma_arranged_prefix(
    keys: Seq<Seq<char>>,
    standard: Seq<IdentityView>,
    stored: Seq<IdentityMetadataView>,
    primary_key: Seq<char>,
    n: int,
)
    requires
        0 <= n <= keys.len(),
    ensures
        ({
            let part = account::arranged(keys.take(n), standard, stored, primary_key);
            let whole = account::arranged(keys, standard, stored, primary_key);
            &&& part.len() <= whole.len()
            &&& forall|i: int| 0 <= i < part.len() ==> (#[trigger] whole[i]) == part[i]
        }),
    decreases keys.len() - n,
{
    if n < keys.len() {
        lemma_arranged_prefix(keys, standard, stored, primary_key, n + 1);
        assert(keys.take(n + 1).drop_last() =~= keys.take(n));
        let part = account::arranged(keys.take(n), standard, stored, primary_key);
        let more = account::arranged(keys.take(n + 1), standard, stored, primary_key);
        assert forall|i: int| 0 <= i < part.len() implies (#[trigger] more[i]) == part[i] by {}
    } else {
        assert(keys.take(n) =~= keys);
    }
}

/// The primary identity comes first, and the others come in the order in which they are
/// stored.
pub proof fn lemma_stored_order_is_kept(
    holder: AccountView,
    extension: IdentityExtensionView,
    a: int,
    b: int,
    k: int,
    l: int,
)
    requires
        holder.valid(),
        0 <= a < b < extension.identities.len(),
        0 <= k < account::extended(holder, extension).aliases.len(),
        0 <= l < account::extended(holder, extension).aliases.len(),
        address::normalized(account::extended(holder, extension).aliases[k].address)
            == address::normalized(extension.identities[a].address),
        address::normalized(account::extended(holder, extension).aliases[l].address)
            == address::normalized(extension.identities[b].address),
        address::normalized(extension.identities[b].address) != address::normalized(
            holder.primary_address,
        ),
        forall|n: int|
            0 <= n < b ==> address::normalized((#[trigger] extension.identities[n]).address)
                != address::normalized(extension.identities[b].address),
    ensures
        k < l,
        address::normalized(account::extended(holder, extension).aliases[0].address)
            == address::normalized(holder.primary_address),
{
    let stored = extension.identities;
    let standard = holder.aliases;
    let primary = holder.identity(holder.primary_address)->0;
    let primary_key = primary.key();
    let at = model::position_of(standard, address::normalized(holder.primary_address));
    assert(standard[at].key() == address::normalized(holder.primary_address));
    let keys = account::extension_keys(primary_key, stored);
    let head = account::arranged(keys, standard, stored, primary_key);
    let loose = account::extended_aliases(standard, stored, primary_key);
    let made = account::extended(holder, extension).aliases;
    account::lemma_extension_keeps_the_addresses(standard, stored, primary_key);
    crate::integration::identity::lemma_tidied_keys(loose);
    let key_a = address::normalized(stored[a].address);
    let key_b = address::normalized(stored[b].address);
    let upto = keys.take(b + 1);
    let part = account::arranged(upto, standard, stored, primary_key);
    assert(keys[a + 1] == key_a && keys[b + 1] == key_b && keys[0] == primary_key);
    assert(made[k].key() == key_a && made[l].key() == key_b);
    assert(model::has_key(made, key_a) && model::has_key(made, key_b));
    assert(model::has_key(loose, key_a) == model::has_key(standard, key_a));
    assert(model::has_key(loose, key_b) == model::has_key(standard, key_b));
    account::lemma_arranged(upto, standard, stored, primary_key);
    lemma_arranged_prefix(keys, standard, stored, primary_key, b + 1);
    assert(upto[a + 1] == key_a);
    assert(upto.contains(key_a));
    assert(model::has_key(part, key_a));
    let p = model::position_of(part, key_a);
    assert(part[p].key() == key_a);
    assert(head[p] == part[p] && loose[p] == head[p]);
    crate::integration::identity::lemma_tidied_key(loose[p]);
    assert(made[p] == loose[p].tidied());
    assert(made[p].key() == made[k].key());
    assert(p == k);
    assert(!upto.contains(key_b)) by {
        if upto.contains(key_b) {
            let n = choose|n: int| 0 <= n < upto.len() && upto[n] == key_b;
            if n > 0 {
                assert(upto[n] == address::normalized(stored[n - 1].address));
            }
        }
    }
    assert(!model::has_key(part, key_b));
    if l < part.len() {
        assert(head[l] == part[l] && loose[l] == head[l]);
        crate::integration::identity::lemma_tidied_key(loose[l]);
        assert(made[l] == loose[l].tidied());
        assert(part[l].key() == key_b);
    }
    let first = keys.take(1);
    lemma_arranged_prefix(keys, standard, stored, primary_key, 1);
    assert(first.drop_last() =~= Seq::empty());
    assert(first.last() == primary_key);
    assert(model::has_key(standard, primary_key));
    let start = account::arranged(first, standard, stored, primary_key);
    assert(account::arranged(first.drop_last(), standard, stored, primary_key).len() == 0);
    assert(start.len() == 1);
    assert(standard[model::position_of(standard, primary_key)].key() == primary_key);
    assert(head[0] == start[0] && loose[0] == head[0]);
    crate::integration::identity::lemma_tidied_key(loose[0]);
    assert(made[0] == loose[0].tidied());
}

proof fn lemma_metadata_of_own(identities: Seq<IdentityMetadataView>, i: int)
    requires
        0 <= i < identities.len(),
        forall|n: int|
            0 <= n < i ==> address::normalized((#[trigger] identities[n]).address)
                != address::normalized(identities[i].address),
    ensures
        account::metadata_of(identities, address::normalized(identities[i].address)) == Some(
            identities[i],
        ),
    decreases identities.len(),
{
    let rest = identities.drop_last();
    let key = address::normalized(identities[i].address);
    if i < rest.len() {
        assert(rest[i] == identities[i]);
        assert forall|n: int| 0 <= n < i implies address::normalized((#[trigger] rest[n]).address)
            != address::normalized(rest[i].address) by {
            assert(rest[n] == identities[n]);
        }
        lemma_metadata_of_own(rest, i);
    } else {
        assert forall|n: int| 0 <= n < rest.len() implies address::normalized(
            (#[trigger] rest[n]).address,
        ) != key by {
            assert(rest[n] == identities[n]);
        }
        lemma_no_metadata(rest, key);
        assert(identities.last() == identities[i]);
    }
}

proof fn lemma_no_metadata(identities: Seq<IdentityMetadataView>, key: Seq<char>)
    requires
        forall|n: int|
            0 <= n < identities.len() ==> address::normalized((#[trigger] identities[n]).address)
                != key,
    ensures
        account::metadata_of(identities, key) is None,
    decreases identities.len(),
{
    if identities.len() > 0 {
        let rest = identities.drop_last();
        assert(identities[identities.len() - 1] == identities.last());
        assert forall|n: int| 0 <= n < rest.len() implies address::normalized(
            (#[trigger] rest[n]).address,
        ) != key by {
            assert(rest[n] == identities[n]);
        }
        lemma_no_metadata(rest, key);
    }
}

/// What is to be stored of an identity has its address, the contents of its two
/// signatures and, unless it is the primary one, its reply address. A signature without
/// contents gets no source of its own.
pub proof fn lemma_each_identity_is_to_be_stored(
    holder: AccountView,
    previous: Option<IdentityExtensionView>,
    fresh: Seq<Seq<char>>,
    i: int,
)
    requires
        0 <= i < holder.aliases.len(),
    ensures
        ({
            let stored = account::desired_record(holder, previous, fresh).extension.identities;
            let own = holder.aliases[i];
            let is_primary = address::normalized(holder.primary_address) == address::normalized(
                own.address,
            );
            &&& stored.len() == holder.aliases.len()
            &&& stored[i].address == own.address
            &&& stored[i].signatures.html.contents == own.signature.html
            &&& stored[i].signatures.text.contents == own.signature.text
            &&& is_primary ==> stored[i].reply_to.len() == 0
            &&& !is_primary ==> match own.reply_to {
                Some(to) => stored[i].reply_to == to,
                None => stored[i].reply_to.len() == 0,
            }
            &&& own.signature.html.len() == 0 ==> stored[i].signatures.html.uid == "none"@
            &&& own.signature.text.len() == 0 ==> stored[i].signatures.text.uid == "none"@
            &&& own.signature.html.len() > 0 ==> stored[i].signatures.html.display_name
                == own.address
            &&& own.signature.text.len() > 0 ==> stored[i].signatures.text.display_name
                == own.address
            &&& text::lowered(stored[i].signatures.html.mime_type) == text::lowered("text/html"@)
            &&& text::lowered(stored[i].signatures.text.mime_type) == text::lowered("text/plain"@)
        }),
{
}

/// A signature that has changed gets a source with a new name, and one that is stored
/// already keeps the source that it has.
pub proof fn lemma_changed_signature_gets_a_new_source(
    holder: AccountView,
    previous: Option<IdentityExtensionView>,
    fresh: Seq<Seq<char>>,
    i: int,
    m: int,
)
    requires
        previous is Some,
        0 <= i < holder.aliases.len(),
        0 <= m < (previous->0).identities.len(),
        address::normalized((previous->0).identities[m].address) == address::normalized(
            holder.aliases[i].address,
        ),
        forall|n: int|
            0 <= n < m ==> address::normalized(
                (#[trigger] (previous->0).identities[n]).address,
            ) != address::normalized(holder.aliases[i].address),
    ensures
        ({
            let html = account::desired_record(
                holder,
                previous,
                fresh,
            ).extension.identities[i].signatures.html;
            let text = account::desired_record(
                holder,
                previous,
                fresh,
            ).extension.identities[i].signatures.text;
            let own = holder.aliases[i];
            let old = (previous->0).identities[m].signatures;
            &&& own.signature.html.len() > 0 && old.html.contents != own.signature.html ==> html.uid
                == fresh[2 * i]
            &&& own.signature.text.len() > 0 && old.text.contents != own.signature.text ==> text.uid
                == fresh[2 * i + 1]
            &&& own.signature.html.len() > 0 && old.html.contents == own.signature.html
                && old.html.display_name == own.address && old.html.mime_type == "text/html"@
                && old.html.uid.len() > 0 && old.html.uid != "none"@ ==> html == old.html
            &&& own.signature.text.len() > 0 && old.text.contents == own.signature.text
                && old.text.display_name == own.address && old.text.mime_type == "text/plain"@
                && old.text.uid.len() > 0 && old.text.uid != "none"@ ==> text == old.text
        }),
{
    lemma_metadata_of_own((previous->0).identities, m);
}

/// What is to be stored of an account has its label, its default identity, and the name
/// and the reply address of its primary identity.
pub proof fn lemma_account_is_to_be_stored(
    holder: AccountView,
    previous: Option<IdentityExtensionView>,
    fresh: Seq<Seq<char>>,
    p: int,
)
    requires
        holder.valid(),
        0 <= p < holder.aliases.len(),
        address::normalized(holder.aliases[p].address) == address::normalized(
            holder.primary_address,
        ),
    ensures
        ({
            let desired = account::desired_record(holder, previous, fresh);
            let primary = holder.aliases[p];
            &&& desired.extension.account_label == holder.display_name
            &&& address::normalized(desired.extension.default_address) == address::normalized(
                holder.default_address,
            )
            &&& primary.display_name.len() > 0 ==> desired.name == Some(primary.display_name)
            &&& primary.display_name.len() == 0 ==> desired.name is None
            &&& desired.reply_to == primary.reply_to
            &&& desired.aliases is None <==> holder.aliases.len() == 1
        }),
{
    lemma_position(holder.aliases, p);
    assert(holder.aliases[p].tidied() == holder.aliases[p]);
    let d = model::position_of(holder.aliases, address::normalized(holder.default_address));
    assert(holder.aliases[d].key() == address::normalized(holder.default_address));
    lemma_alias_count(holder.aliases, address::normalized(holder.primary_address), p);
}

proof fn lemma_alias_count(aliases: Seq<IdentityView>, primary_key: Seq<char>, p: int)
    requires
        model::distinct_keys(aliases),
        0 <= p < aliases.len() ==> aliases[p].key() == primary_key,
        p >= aliases.len() ==> forall|i: int|
            0 <= i < aliases.len() ==> (#[trigger] aliases[i]).key() != primary_key,
        0 <= p,
    ensures
        account::alias_mailboxes(aliases, primary_key).len() == if p < aliases.len() {
            aliases.len() - 1
        } else {
            aliases.len() as int
        },
    decreases aliases.len(),
{
    if aliases.len() > 0 {
        let rest = aliases.drop_last();
        assert forall|i: int| 0 <= i < rest.len() implies (#[trigger] rest[i]).key().len() > 0 by {
            assert(rest[i] == aliases[i]);
        }
        assert forall|i: int, j: int|
            #![trigger rest[i], rest[j]]
            0 <= i < j < rest.len() implies rest[i].key() != rest[j].key() by {
            assert(rest[i] == aliases[i] && rest[j] == aliases[j]);
        }
        let last = aliases.len() - 1;
        assert(aliases.last() == aliases[last]);
        if p >= rest.len() {
            assert forall|i: int| 0 <= i < rest.len() implies (#[trigger] rest[i]).key()
                != primary_key by {
                assert(rest[i] == aliases[i]);
                if p < aliases.len() {
                    assert(aliases[i].key() != aliases[p].key());
                }
            }
        } else {
            assert(aliases[p].key() != aliases[last].key());
        }
        lemma_alias_count(rest, primary_key, p);
    }
}

/// Where an account has to be written, what is written goes to the identity source that
/// its way names and holds its label, its identities and its primary signature.
pub proof fn lemma_written_account_is_the_account(
    holder: AccountView,
    entries: Seq<Entry>,
    triplets: Seq<TripletView>,
    fresh: Seq<Seq<char>>,
    e: int,
    p: int,
)
    requires
        holder.valid(),
        account::unique_accounts(entries),
        0 <= e < entries.len(),
        entries[e].0.id == holder.id,
        0 <= p < holder.aliases.len(),
        address::normalized(holder.aliases[p].address) == address::normalized(
            holder.primary_address,
        ),
    ensures
        match account::save_of(holder, entries, triplets, fresh) {
            Err(error) => error == SaveErrorView::LostIdentity(entries[e].1.identity_uid)
                && forall|j: int|
                0 <= j < triplets.len() && (#[trigger] triplets[j]).identity is Some ==> (
                triplets[j].identity->0).uid != entries[e].1.identity_uid,
            Ok(Some(update)) => {
                &&& update.identity_uid == entries[e].1.identity_uid
                &&& update.account_label == holder.display_name
                &&& address::normalized(update.default_address) == address::normalized(
                    holder.default_address,
                )
                &&& holder.aliases[p].display_name.len() > 0 ==> update.name == Some(
                    holder.aliases[p].display_name,
                )
                &&& holder.aliases[p].display_name.len() == 0 ==> update.name is None
                &&& update.reply_to == holder.aliases[p].reply_to
                &&& update.identities.len() == holder.aliases.len()
                &&& forall|i: int|
                    0 <= i < holder.aliases.len() ==> (#[trigger] update.identities[i]).address
                        == holder.aliases[i].address
                        && update.identities[i].signatures.html.contents
                        == holder.aliases[i].signature.html
                        && update.identities[i].signatures.text.contents
                        == holder.aliases[i].signature.text
                &&& update.primary_signature_uid == update.identities[p].signatures.html.uid
                    || update.primary_signature_uid == update.identities[p].signatures.text.uid
                &&& update.identities[p].signatures.html.uid.len() > 0
                    && update.identities[p].signatures.html.uid != "none"@
                    ==> update.primary_signature_uid == update.identities[p].signatures.html.uid
            },
            Ok(None) => exists|j: int|
                {
                    &&& 0 <= j < triplets.len()
                    &&& (#[trigger] triplets[j]).identity is Some
                    &&& (triplets[j].identity->0).uid == entries[e].1.identity_uid
                    &&& (triplets[j].identity->0).identity_extension matches ExtensionStateView::Valid(
                        loaded,
                    ) && !loaded.needs_rewrite && loaded.extension.account_label
                        == holder.display_name && loaded.extension.identities.len()
                        == holder.aliases.len() && forall|i: int|
                        0 <= i < holder.aliases.len() ==> (
                        #[trigger] loaded.extension.identities[i]).address
                            == holder.aliases[i].address
                            && loaded.extension.identities[i].signatures.html.contents
                            == holder.aliases[i].signature.html
                            && loaded.extension.identities[i].signatures.text.contents
                            == holder.aliases[i].signature.text
                },
        },
{
    account::lemma_route_of(entries, holder.id, e);
    let uid = entries[e].1.identity_uid;
    lemma_identity_source(triplets, uid);
    if let Some(source) = identity_write::identity_source(triplets, uid) {
        let previous = account::stored_record(source).extension;
        let desired = account::desired_record(holder, previous, fresh);
        lemma_account_is_to_be_stored(holder, previous, fresh, p);
        assert forall|i: int| 0 <= i < holder.aliases.len() implies (
        #[trigger] desired.extension.identities[i]).address == holder.aliases[i].address
            && desired.extension.identities[i].signatures.html.contents
            == holder.aliases[i].signature.html
            && desired.extension.identities[i].signatures.text.contents
            == holder.aliases[i].signature.text by {
            lemma_each_identity_is_to_be_stored(holder, previous, fresh, i);
        }
        lemma_position(holder.aliases, p);
        assert forall|n: int| 0 <= n < p implies address::normalized(
            (#[trigger] desired.extension.identities[n]).address,
        ) != address::normalized(desired.extension.identities[p].address) by {
            assert(holder.aliases[n].key() != holder.aliases[p].key());
        }
        lemma_metadata_of_own(desired.extension.identities, p);
    }
}

proof fn lemma_identity_source(triplets: Seq<TripletView>, uid: Seq<char>)
    ensures
        match identity_write::identity_source(triplets, uid) {
            Some(source) => exists|j: int|
                0 <= j < triplets.len() && (#[trigger] triplets[j]).identity == Some(source)
                    && source.uid == uid,
            None => forall|j: int|
                0 <= j < triplets.len() && (#[trigger] triplets[j]).identity is Some ==> (
                triplets[j].identity->0).uid != uid,
        },
    decreases triplets.len(),
{
    if triplets.len() > 0 {
        let rest = triplets.drop_last();
        lemma_identity_source(rest, uid);
        let last = triplets.len() - 1;
        assert(triplets[last] == triplets.last());
        if let Some(source) = identity_write::identity_source(rest, uid) {
            let j = choose|j: int|
                0 <= j < rest.len() && (#[trigger] rest[j]).identity == Some(source) && source.uid
                    == uid;
            assert(triplets[j] == rest[j]);
        } else if identity_write::identity_source(triplets, uid) is None {
            assert forall|j: int|
                0 <= j < triplets.len() && (#[trigger] triplets[j]).identity is Some implies (
            triplets[j].identity->0).uid != uid by {
                if j < last {
                    assert(rest[j] == triplets[j]);
                }
            }
        }
    }
}

/// An account that is in no catalog cannot be written.
pub proof fn lemma_unknown_account_is_not_written(
    holder: AccountView,
    entries: Seq<Entry>,
    triplets: Seq<TripletView>,
    fresh: Seq<Seq<char>>,
)
    requires
        forall|e: int| 0 <= e < entries.len() ==> (#[trigger] entries[e]).0.id != holder.id,
    ensures
        account::save_of(holder, entries, triplets, fresh) == Err::<
            Option<UpdateView>,
            SaveErrorView,
        >(SaveErrorView::AbsentAccount(holder.id)),
{
    account::lemma_route_is_listed(entries, holder.id);
}

/// Where all accounts can be written, what has to be written of each is written, in the
/// order of the accounts, and nothing is written of the account that lives in memory.
pub proof fn lemma_each_account_is_written(
    holders: Seq<AccountView>,
    entries: Seq<Entry>,
    triplets: Seq<TripletView>,
    fresh: Seq<Seq<Seq<char>>>,
)
    ensures
        account::saves_of(holders, entries, triplets, fresh) matches Ok(saves) ==> {
            &&& saves.len() <= holders.len()
            &&& forall|i: int|
                0 <= i < holders.len() && (#[trigger] holders[i]).id != "local-stub"@ ==> match account::save_of(
                    holders[i],
                    entries,
                    triplets,
                    fresh[i],
                ) {
                    Ok(Some(update)) => saves.contains(update),
                    Ok(None) => true,
                    Err(_) => false,
                }
            &&& forall|k: int|
                0 <= k < saves.len() ==> exists|i: int|
                    0 <= i < holders.len() && (#[trigger] holders[i]).id != "local-stub"@
                        && account::save_of(holders[i], entries, triplets, fresh[i]) == Ok::<
                        Option<UpdateView>,
                        SaveErrorView,
                    >(Some(#[trigger] saves[k]))
        },
        account::saves_of(holders, entries, triplets, fresh) matches Err(error) ==> exists|i: int|
            0 <= i < holders.len() && (#[trigger] holders[i]).id != "local-stub"@ && account::save_of(
                holders[i],
                entries,
                triplets,
                fresh[i],
            ) == Err::<Option<UpdateView>, SaveErrorView>(error),
    decreases holders.len(),
{
    if holders.len() > 0 {
        let rest = holders.drop_last();
        let last = holders.len() - 1;
        lemma_each_account_is_written(rest, entries, triplets, fresh);
        assert(holders[last] == holders.last());
        match account::saves_of(rest, entries, triplets, fresh) {
            Err(error) => {
                let i = choose|i: int|
                    0 <= i < rest.len() && (#[trigger] rest[i]).id != "local-stub"@ && account::save_of(
                        rest[i],
                        entries,
                        triplets,
                        fresh[i],
                    ) == Err::<Option<UpdateView>, SaveErrorView>(error);
                assert(holders[i] == rest[i]);
            },
            Ok(before) => {
                if let Ok(saves) = account::saves_of(holders, entries, triplets, fresh) {
                    assert forall|i: int|
                        0 <= i < holders.len() && (#[trigger] holders[i]).id
                            != "local-stub"@ implies match account::save_of(
                        holders[i],
                        entries,
                        triplets,
                        fresh[i],
                    ) {
                        Ok(Some(update)) => saves.contains(update),
                        Ok(None) => true,
                        Err(_) => false,
                    } by {
                        if i < last {
                            assert(rest[i] == holders[i]);
                            if let Ok(Some(update)) = account::save_of(
                                rest[i],
                                entries,
                                triplets,
                                fresh[i],
                            ) {
                                let k = choose|k: int|
                                    0 <= k < before.len() && before[k] == update;
                                assert(saves[k] == update);
                            }
                        } else if let Ok(Some(update)) = account::save_of(
                            holders[i],
                            entries,
                            triplets,
                            fresh[i],
                        ) {
                            assert(saves[before.len() as int] == update);
                        }
                    }
                    assert forall|k: int| 0 <= k < saves.len() implies exists|i: int|
                        0 <= i < holders.len() && (#[trigger] holders[i]).id != "local-stub"@
                            && account::save_of(holders[i], entries, triplets, fresh[i]) == Ok::<
                            Option<UpdateView>,
                            SaveErrorView,
                        >(Some(#[trigger] saves[k])) by {
                        if k < before.len() {
                            assert(saves[k] == before[k]);
                            let i = choose|i: int|
                                0 <= i < rest.len() && (#[trigger] rest[i]).id != "local-stub"@
                                    && account::save_of(rest[i], entries, triplets, fresh[i])
                                    == Ok::<Option<UpdateView>, SaveErrorView>(
                                    Some(#[trigger] before[k]),
                                );
                            assert(holders[i] == rest[i]);
                        } else {
                            assert(holders[last].id != "local-stub"@);
                        }
                    }
                }
            },
        }
    }
}

/// What is written of the identities is read back: the records that the fields make up
/// are those of the identities, in their order.
pub proof fn lemma_written_records_are_read_back(identities: Seq<IdentityMetadataView>)
    ensures
        identity_write::stored_fields(identities).len() == 4 * identities.len(),
        registry::records_of(identity_write::stored_fields(identities)).len() == identities.len(),
        forall|i: int|
            #![trigger registry::records_of(identity_write::stored_fields(identities))[i]]
            #![trigger identities[i]]
            0 <= i < identities.len() ==> {
                let record = registry::records_of(identity_write::stored_fields(identities))[i];
                &&& record.address == identities[i].address
                &&& record.reply_to == identities[i].reply_to
                &&& record.html_uid == identities[i].signatures.html.uid
                &&& record.text_uid == identities[i].signatures.text.uid
            },
    decreases identities.len(),
{
    let fields = identity_write::stored_fields(identities);
    if identities.len() > 0 {
        let rest = identities.drop_last();
        let before = identity_write::stored_fields(rest);
        lemma_written_records_are_read_back(rest);
        assert forall|i: int| 0 <= i < identities.len() implies {
            let record = registry::record_at(fields, i);
            &&& record.address == (#[trigger] identities[i]).address
            &&& record.reply_to == identities[i].reply_to
            &&& record.html_uid == identities[i].signatures.html.uid
            &&& record.text_uid == identities[i].signatures.text.uid
        } by {
            if i < rest.len() {
                assert(rest[i] == identities[i]);
                assert(registry::records_of(before)[i] == registry::record_at(before, i));
                assert(fields[4 * i] == before[4 * i]);
                assert(fields[4 * i + 1] == before[4 * i + 1]);
                assert(fields[4 * i + 2] == before[4 * i + 2]);
                assert(fields[4 * i + 3] == before[4 * i + 3]);
            } else {
                assert(identities[i] == identities.last());
            }
        }
    }
    assert forall|i: int| 0 <= i < identities.len() implies {
        let record = #[trigger] registry::records_of(fields)[i];
        &&& record.address == identities[i].address
        &&& record.reply_to == identities[i].reply_to
        &&& record.html_uid == identities[i].signatures.html.uid
        &&& record.text_uid == identities[i].signatures.text.uid
    } by {
        assert(registry::records_of(fields)[i] == registry::record_at(fields, i));
        assert(identities[i] == identities[i]);
    }
}

/// The signatures of an account are the two of each of its identities.
pub proof fn lemma_each_signature_counts(identities: Seq<IdentityMetadataView>)
    ensures
        identity_write::signatures_of(identities).len() == 2 * identities.len(),
        forall|i: int|
            #![trigger identities[i]]
            0 <= i < identities.len() ==> identity_write::signatures_of(identities)[2 * i]
                == identities[i].signatures.html && identity_write::signatures_of(
                identities,
            )[2 * i + 1] == identities[i].signatures.text,
    decreases identities.len(),
{
    if identities.len() > 0 {
        let rest = identities.drop_last();
        let before = identity_write::signatures_of(rest);
        let after = identity_write::signatures_of(identities);
        lemma_each_signature_counts(rest);
        assert forall|i: int| 0 <= i < identities.len() implies after[2 * i] == (
        #[trigger] identities[i]).signatures.html && after[2 * i + 1]
            == identities[i].signatures.text by {
            if i < rest.len() {
                assert(rest[i] == identities[i]);
                assert(after[2 * i] == before[2 * i]);
                assert(after[2 * i + 1] == before[2 * i + 1]);
            } else {
                assert(identities[i] == identities.last());
            }
        }
    }
}

/// A signature is created just where it has a name and the account did not have it.
pub proof fn lemma_each_new_signature_is_created(
    signatures: Seq<SignatureMetadataView>,
    previous: Seq<Seq<char>>,
    signature: SignatureMetadataView,
)
    ensures
        identity_write::to_stage(signatures, previous).contains(signature) <==> (
        signatures.contains(signature) && signature.uid != "none"@ && !previous.contains(
            signature.uid,
        )),
    decreases signatures.len(),
{
    if signatures.len() > 0 {
        let rest = signatures.drop_last();
        lemma_each_new_signature_is_created(rest, previous, signature);
        assert(signatures =~= rest.push(signatures.last()));
        lemma_pushed(rest, signatures.last(), signature);
        lemma_pushed(identity_write::to_stage(rest, previous), signatures.last(), signature);
    }
}

/// A signature of the account is removed just where no identity names it any more.
pub proof fn lemma_each_unused_signature_is_removed(
    previous: Seq<Seq<char>>,
    signatures: Seq<SignatureMetadataView>,
    uid: Seq<char>,
)
    ensures
        identity_write::out_of_use(previous, signatures).contains(uid) <==> (previous.contains(uid)
            && forall|i: int|
            0 <= i < signatures.len() ==> (#[trigger] signatures[i]).uid != uid),
    decreases previous.len(),
{
    if previous.len() > 0 {
        let rest = previous.drop_last();
        lemma_each_unused_signature_is_removed(rest, signatures, uid);
        assert(previous =~= rest.push(previous.last()));
        lemma_pushed(rest, previous.last(), uid);
        lemma_pushed(identity_write::out_of_use(rest, signatures), previous.last(), uid);
    }
}

/// Whether the write took the step `step` among its first `n` steps, and it succeeded.
pub open spec fn write_did(
    outcomes: Seq<bool>,
    staged: nat,
    stale: nat,
    n: int,
    step: WriteStep,
) -> bool {
    exists|k: int|
        0 <= k < n && outcomes[k] && #[trigger] identity_write::step_after(
            outcomes.take(k),
            staged,
            stale,
        ) == step
}

/// Whether the write took the step `step` among its first `n` steps.
pub open spec fn write_tried(
    outcomes: Seq<bool>,
    staged: nat,
    stale: nat,
    n: int,
    step: WriteStep,
) -> bool {
    exists|k: int|
        0 <= k < n && #[trigger] identity_write::step_after(outcomes.take(k), staged, stale) == step
}

proof fn lemma_write_grows(
    outcomes: Seq<bool>,
    staged: nat,
    stale: nat,
    n: int,
    step: WriteStep,
)
    requires
        0 <= n < outcomes.len(),
    ensures
        write_did(outcomes, staged, stale, n, step) ==> write_did(
            outcomes,
            staged,
            stale,
            n + 1,
            step,
        ),
        write_tried(outcomes, staged, stale, n, step) ==> write_tried(
            outcomes,
            staged,
            stale,
            n + 1,
            step,
        ),
        identity_write::step_after(outcomes.take(n), staged, stale) == step ==> write_tried(
            outcomes,
            staged,
            stale,
            n + 1,
            step,
        ),
        identity_write::step_after(outcomes.take(n), staged, stale) == step && outcomes[n]
            ==> write_did(outcomes, staged, stale, n + 1, step),
{
    if write_did(outcomes, staged, stale, n, step) {
        let k = choose|k: int|
            0 <= k < n && outcomes[k] && #[trigger] identity_write::step_after(
                outcomes.take(k),
                staged,
                stale,
            ) == step;
        assert(identity_write::step_after(outcomes.take(k), staged, stale) == step);
    }
    if write_tried(outcomes, staged, stale, n, step) {
        let k = choose|k: int|
            0 <= k < n && #[trigger] identity_write::step_after(outcomes.take(k), staged, stale)
                == step;
        assert(identity_write::step_after(outcomes.take(k), staged, stale) == step);
    }
}

spec fn created_first(outcomes: Seq<bool>, staged: nat, stale: nat, n: int, count: int) -> bool {
    forall|i: int|
        0 <= i < count ==> write_did(
            outcomes,
            staged,
            stale,
            n,
            #[trigger] stage_of(i),
        )
}

spec fn stage_of(i: int) -> WriteStep {
    WriteStep::Stage { index: i as usize }
}

spec fn unstage_of(i: int, created: usize) -> WriteStep {
    WriteStep::RemoveStaged { index: i as usize, created }
}

spec fn unstale_of(i: int) -> WriteStep {
    WriteStep::RemoveStale { index: i as usize }
}

spec fn write_state(outcomes: Seq<bool>, staged: nat, stale: nat, n: int) -> bool {
    let commit = write_did(outcomes, staged, stale, n, WriteStep::Commit);
    match identity_write::step_after(outcomes.take(n), staged, stale) {
        WriteStep::Stage { index } => index < staged && created_first(
            outcomes,
            staged,
            stale,
            n,
            index as int,
        ),
        WriteStep::Commit => created_first(outcomes, staged, stale, n, staged as int),
        WriteStep::RemoveStaged { index, created } => index < created <= staged && created_first(
            outcomes,
            staged,
            stale,
            n,
            created as int,
        ) && forall|i: int|
            0 <= i < index ==> write_tried(
                outcomes,
                staged,
                stale,
                n,
                #[trigger] unstage_of(i, created),
            ),
        WriteStep::RemoveStale { index } => index < stale && commit && created_first(
            outcomes,
            staged,
            stale,
            n,
            staged as int,
        ) && forall|i: int|
            0 <= i < index ==> write_tried(outcomes, staged, stale, n, #[trigger] unstale_of(i)),
        WriteStep::Succeeded => commit && created_first(outcomes, staged, stale, n, staged as int)
            && forall|i: int|
            0 <= i < stale ==> write_tried(outcomes, staged, stale, n, #[trigger] unstale_of(i)),
        WriteStep::Failed => true,
    }
}

proof fn lemma_write_state(outcomes: Seq<bool>, staged: nat, stale: nat, n: int)
    requires
        0 <= n <= outcomes.len(),
        staged <= usize::MAX,
        stale <= usize::MAX,
    ensures
        write_state(outcomes, staged, stale, n),
    decreases n,
{
    if n == 0 {
        assert(outcomes.take(0) =~= Seq::empty());
    } else {
        let m = n - 1;
        lemma_write_state(outcomes, staged, stale, m);
        assert(outcomes.take(n).drop_last() =~= outcomes.take(m));
        assert(outcomes.take(n).last() == outcomes[m]);
        assert forall|step: WriteStep|
            write_did(outcomes, staged, stale, m, step) implies #[trigger] write_did(
            outcomes,
            staged,
            stale,
            n,
            step,
        ) by {
            lemma_write_grows(outcomes, staged, stale, m, step);
        }
        assert forall|step: WriteStep|
            write_tried(outcomes, staged, stale, m, step) implies #[trigger] write_tried(
            outcomes,
            staged,
            stale,
            n,
            step,
        ) by {
            lemma_write_grows(outcomes, staged, stale, m, step);
        }
        let current = identity_write::step_after(outcomes.take(m), staged, stale);
        lemma_write_grows(outcomes, staged, stale, m, current);
        match current {
            WriteStep::Stage { index } => {
                assert(current == stage_of(index as int));
            },
            WriteStep::RemoveStaged { index, created } => {
                assert(current == unstage_of(index as int, created));
            },
            WriteStep::RemoveStale { index } => {
                assert(current == unstale_of(index as int));
            },
            _ => {},
        }
    }
}

/// A write that succeeded has created each signature that had to be, has stored the
/// identities, and has gone through all signatures that are out of use.
pub proof fn lemma_write_does_everything(outcomes: Seq<bool>, staged: nat, stale: nat)
    requires
        staged <= usize::MAX,
        stale <= usize::MAX,
        identity_write::step_after(outcomes, staged, stale) is Succeeded,
    ensures
        forall|i: usize|
            i < staged ==> #[trigger] write_did(
                outcomes,
                staged,
                stale,
                outcomes.len() as int,
                WriteStep::Stage { index: i },
            ),
        write_did(outcomes, staged, stale, outcomes.len() as int, WriteStep::Commit),
        forall|i: usize|
            i < stale ==> #[trigger] write_tried(
                outcomes,
                staged,
                stale,
                outcomes.len() as int,
                WriteStep::RemoveStale { index: i },
            ),
{
    let n = outcomes.len() as int;
    assert(outcomes.take(n) =~= outcomes);
    lemma_write_state(outcomes, staged, stale, n);
    assert forall|i: usize| i < staged implies #[trigger] write_did(
        outcomes,
        staged,
        stale,
        n,
        WriteStep::Stage { index: i },
    ) by {
        assert(stage_of(i as int) == WriteStep::Stage { index: i });
    }
    assert forall|i: usize| i < stale implies #[trigger] write_tried(
        outcomes,
        staged,
        stale,
        n,
        WriteStep::RemoveStale { index: i },
    ) by {
        assert(unstale_of(i as int) == WriteStep::RemoveStale { index: i });
    }
}

/// A step that fails before the identities are stored starts the removal of what was
/// created, with the first, and the removal goes on to the last.
pub proof fn lemma_failed_write_removes_each(
    step: WriteStep,
    success: bool,
    staged: nat,
    stale: nat,
)
    requires
        staged <= usize::MAX,
        stale <= usize::MAX,
    ensures
        step matches WriteStep::Stage { index } ==> (!success && index > 0
            ==> identity_write::next_step_of(step, success, staged, stale)
            == WriteStep::RemoveStaged { index: 0, created: index }),
        step is Commit && !success && staged > 0 ==> identity_write::next_step_of(
            step,
            success,
            staged,
            stale,
        ) == (WriteStep::RemoveStaged { index: 0, created: staged as usize }),
        step matches WriteStep::RemoveStaged { index, created } ==> (index + 1 < created
            ==> identity_write::next_step_of(step, success, staged, stale)
            == WriteStep::RemoveStaged { index: (index + 1) as usize, created }),
        step matches WriteStep::RemoveStaged { index, created } ==> (index + 1 >= created
            ==> identity_write::next_step_of(step, success, staged, stale) is Failed),
{
}

/// An update is refused just where one of its texts holds what cannot be passed on.
pub proof fn lemma_refused_update(update: UpdateView)
    ensures
        identity_write::refusal(update) is None <==> {
            &&& !update.identity_uid.contains('\0')
            &&& update.name matches Some(name) ==> !name.contains('\0')
            &&& update.reply_to matches Some(to) ==> !to.contains('\0')
            &&& update.aliases matches Some(aliases) ==> !aliases.contains('\0')
            &&& !update.account_label.contains('\0')
            &&& !update.default_address.contains('\0')
            &&& !update.primary_signature_uid.contains('\0')
            &&& forall|i: int|
                0 <= i < update.identities.len() ==> !(
                #[trigger] update.identities[i]).address.contains('\0')
                    && !update.identities[i].reply_to.contains('\0')
                    && !update.identities[i].signatures.html.uid.contains('\0')
                    && !update.identities[i].signatures.text.uid.contains('\0')
        },
{
    let fields = identity_write::stored_fields(update.identities);
    let records = registry::records_of(fields);
    lemma_written_records_are_read_back(update.identities);
    assert forall|i: int| 0 <= i < update.identities.len() implies {
        &&& fields[4 * i] == (#[trigger] update.identities[i]).address
        &&& fields[4 * i + 1] == update.identities[i].reply_to
        &&& fields[4 * i + 2] == update.identities[i].signatures.html.uid
        &&& fields[4 * i + 3] == update.identities[i].signatures.text.uid
    } by {
        assert(records[i] == registry::record_at(fields, i));
    }
    if identity_write::any_nul(fields) {
        let k = choose|k: int| 0 <= k < fields.len() && (#[trigger] fields[k]).contains('\0');
        let i = k / 4;
        assert(update.identities[i] == update.identities[i]);
        assert(k == 4 * i || k == 4 * i + 1 || k == 4 * i + 2 || k == 4 * i + 3);
    } else {
        assert forall|i: int| 0 <= i < update.identities.len() implies !(
        #[trigger] update.identities[i]).address.contains('\0')
            && !update.identities[i].reply_to.contains('\0')
            && !update.identities[i].signatures.html.uid.contains('\0')
            && !update.identities[i].signatures.text.uid.contains('\0') by {
            assert(!fields[4 * i].contains('\0'));
            assert(!fields[4 * i + 1].contains('\0'));
            assert(!fields[4 * i + 2].contains('\0'));
            assert(!fields[4 * i + 3].contains('\0'));
        }
    }
    assert(!Seq::<char>::empty().contains('\0'));
}

/// Of the stored records just those are taken up whose address the account has, the
/// first of each address.
pub proof fn lemma_records_of_own_addresses_are_taken_up(
    records: Seq<RecordView>,
    own: Option<Seq<char>>,
    aliases: Seq<DecodedAddressView>,
)
    ensures
        forall|k: int|
            0 <= k < registry::accepted_records(records, own, aliases).len() ==> records.contains(
                #[trigger] registry::accepted_records(records, own, aliases)[k],
            ),
        forall|i: int|
            0 <= i < records.len() && ((own matches Some(o) && address::normalized(o)
                == address::normalized((#[trigger] records[i]).address)) || exists|j: int|
                0 <= j < aliases.len() && address::normalized((#[trigger] aliases[j]).address)
                    == address::normalized(records[i].address)) && address::normalized(
                records[i].address,
            ).len() > 0 && (forall|j: int|
                0 <= j < i ==> address::normalized((#[trigger] records[j]).address)
                    != address::normalized(records[i].address)) ==> registry::accepted_records(
                records,
                own,
                aliases,
            ).contains(records[i]),
    decreases records.len(),
{
    if records.len() > 0 {
        let rest = records.drop_last();
        let last = records.last();
        let before = registry::accepted_records(rest, own, aliases);
        let after = registry::accepted_records(records, own, aliases);
        lemma_records_of_own_addresses_are_taken_up(rest, own, aliases);
        assert(records =~= rest.push(last));
        assert forall|k: int| 0 <= k < after.len() implies records.contains(
            #[trigger] after[k],
        ) by {
            lemma_pushed(rest, last, after[k]);
            if k < before.len() {
                assert(after[k] == before[k]);
            }
        }
        assert forall|i: int|
            0 <= i < records.len() && ((own matches Some(o) && address::normalized(o)
                == address::normalized((#[trigger] records[i]).address)) || exists|j: int|
                0 <= j < aliases.len() && address::normalized((#[trigger] aliases[j]).address)
                    == address::normalized(records[i].address)) && address::normalized(
                records[i].address,
            ).len() > 0 && (forall|j: int|
                0 <= j < i ==> address::normalized((#[trigger] records[j]).address)
                    != address::normalized(records[i].address)) implies after.contains(
            records[i],
        ) by {
            lemma_pushed(before, last, records[i]);
            if i < rest.len() {
                assert(rest[i] == records[i]);
                assert forall|j: int| 0 <= j < i implies address::normalized(
                    (#[trigger] rest[j]).address,
                ) != address::normalized(rest[i].address) by {
                    assert(rest[j] == records[j]);
                }
                assert(before.contains(rest[i]));
            } else {
                let key = address::normalized(last.address);
                if registry::represents(before, key) {
                    let k = choose|k: int|
                        0 <= k < before.len() && address::normalized((#[trigger] before[k]).address)
                            == key;
                    assert(rest.contains(before[k]));
                    let j = choose|j: int| 0 <= j < rest.len() && rest[j] == before[k];
                    assert(records[j] == rest[j]);
                }
            }
        }
    }
}

/// The identities that are put together of records and their signatures have what the
/// record says, and each signature goes to the record that it was loaded for.
pub proof fn lemma_signatures_go_to_their_records(
    records: Seq<RecordView>,
    signatures: Seq<Option<SignatureMetadataView>>,
    i: int,
)
    requires
        registry::all_loaded(signatures, records.len()),
        0 <= i < records.len(),
    ensures
        ({
            let made = registry::assembled(records, signatures);
            &&& made.len() == records.len()
            &&& made[i].address == records[i].address
            &&& made[i].reply_to == records[i].reply_to
            &&& Some(made[i].signatures.html) == signatures[2 * i]
            &&& Some(made[i].signatures.text) == signatures[2 * i + 1]
        }),
{
    assert(signatures[2 * i] is Some);
    assert(signatures[2 * i + 1] is Some);
}

/// An account is not written where its source has all of it: the name, the reply address,
/// the aliases and the rest. It is written where one of these differs.
pub proof fn lemma_stored_account_is_not_written_again(
    holder: AccountView,
    entries: Seq<Entry>,
    triplets: Seq<TripletView>,
    fresh: Seq<Seq<char>>,
    e: int,
    source: SourceView,
)
    requires
        account::unique_accounts(entries),
        0 <= e < entries.len(),
        entries[e].0.id == holder.id,
        identity_write::identity_source(triplets, entries[e].1.identity_uid) == Some(source),
    ensures
        ({
            let previous = match source.identity_extension {
                ExtensionStateView::Valid(loaded) => Some(loaded.extension),
                _ => None,
            };
            let desired = account::desired_record(holder, previous, fresh);
            let same = (source.identity_extension matches ExtensionStateView::Valid(loaded)
                && !loaded.needs_rewrite && loaded.extension == desired.extension)
                && model::filled(source.identity_name) == desired.name && model::filled(
                source.identity_reply_to,
            ) == desired.reply_to && model::filled(source.identity_aliases) == desired.aliases;
            match account::save_of(holder, entries, triplets, fresh) {
                Ok(None) => same,
                Ok(Some(update)) => !same && update.aliases == desired.aliases
                    && update.default_address == desired.extension.default_address,
                Err(_) => false,
            }
        }),
{
    account::lemma_route_of(entries, holder.id, e);
}

/// What an update is refused for is what is wrong with it.
pub proof fn lemma_why_an_update_is_refused(update: UpdateView)
    ensures
        match identity_write::refusal(update) {
            Some(IdentityWriteError::IdentityUid) => update.identity_uid.contains('\0'),
            Some(IdentityWriteError::Name) => update.name is Some && (update.name->0).contains(
                '\0',
            ),
            Some(IdentityWriteError::ReplyTo) => update.reply_to is Some && (
            update.reply_to->0).contains('\0'),
            Some(IdentityWriteError::Aliases) => update.aliases is Some && (
            update.aliases->0).contains('\0'),
            Some(IdentityWriteError::AccountLabel) => update.account_label.contains('\0'),
            Some(IdentityWriteError::DefaultAddress) => update.default_address.contains('\0'),
            Some(IdentityWriteError::PrimarySignatureUid) => update.primary_signature_uid.contains(
                '\0',
            ),
            Some(IdentityWriteError::Metadata) => update.identities.len() > 0,
            None => true,
        },
{
    assert(!Seq::<char>::empty().contains('\0'));
    lemma_written_records_are_read_back(update.identities);
}

} // verus!
