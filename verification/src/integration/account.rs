//! The catalog of mail accounts and what is stored of their identities.
//!
//! The sources of an account own the set of its addresses. The identity extension only
//! adds what a source has no place for.
use crate::integration::identity;
use crate::integration::registry;
use crate::integration::registry::identity_write;
use crate::integration::registry::identity_write::{IdentityUpdate, UpdateView};
use crate::integration::registry::{
    IdentityExtension, IdentityExtensionState, IdentityExtensionView, IdentityMetadata,
    IdentityMetadataView, MailTriplet, SignatureMetadata, SignatureMetadataView, SignatureSources,
    SignatureSourcesView, Snapshot, Source, SourceView, TripletView,
};
use crate::integration::stub;
use crate::model::account;
use crate::model::account::{
    AccountView, IdentityView, MailAccount, MailAccountId, SendingIdentity, Signature,
    SignatureView,
};
use crate::model::address;
use crate::text;
use vstd::prelude::*;

verus! {

/// Changes when the way to an account changes.
#[derive(Debug, Clone, Copy, PartialEq, Eq, Hash, Structural)]
pub struct RouteFingerprint {
    pub account: u64,
    pub transport: u64,
    pub mailbox: u64,
}

/// The way to a mail account: the sources it is made of.
#[derive(Debug, PartialEq, Eq, Hash)]
pub struct EdsAccountBinding {
    pub account_id: MailAccountId,
    pub account_uid: String,
    pub account_parent_uid: String,
    pub account_backend_name: String,
    pub account_auth_method: Option<String>,
    pub identity_uid: String,
    pub transport_uid: String,
    pub transport_backend_name: String,
    pub transport_auth_method: Option<String>,
    pub route_fingerprint: RouteFingerprint,
}

/// The way to a mail account, as a value.
#[verifier::ext_equal]
pub struct BindingView {
    pub account_id: Seq<char>,
    pub account_uid: Seq<char>,
    pub account_parent_uid: Seq<char>,
    pub account_backend_name: Seq<char>,
    pub account_auth_method: Option<Seq<char>>,
    pub identity_uid: Seq<char>,
    pub transport_uid: Seq<char>,
    pub transport_backend_name: Seq<char>,
    pub transport_auth_method: Option<Seq<char>>,
    pub route_fingerprint: RouteFingerprint,
}

impl View for EdsAccountBinding {
    type V = BindingView;

    open spec fn view(&self) -> BindingView {
        BindingView {
            account_id: self.account_id@,
            account_uid: self.account_uid@,
            account_parent_uid: self.account_parent_uid@,
            account_backend_name: self.account_backend_name@,
            account_auth_method: text::view_opt(self.account_auth_method),
            identity_uid: self.identity_uid@,
            transport_uid: self.transport_uid@,
            transport_backend_name: self.transport_backend_name@,
            transport_auth_method: text::view_opt(self.transport_auth_method),
            route_fingerprint: self.route_fingerprint,
        }
    }
}

impl Clone for EdsAccountBinding {
    fn clone(&self) -> (r: Self)
        ensures
            r@ == self@,
    {
        EdsAccountBinding {
            account_id: self.account_id.clone(),
            account_uid: self.account_uid.clone(),
            account_parent_uid: self.account_parent_uid.clone(),
            account_backend_name: self.account_backend_name.clone(),
            account_auth_method: text::clone_opt(&self.account_auth_method),
            identity_uid: self.identity_uid.clone(),
            transport_uid: self.transport_uid.clone(),
            transport_backend_name: self.transport_backend_name.clone(),
            transport_auth_method: text::clone_opt(&self.transport_auth_method),
            route_fingerprint: self.route_fingerprint,
        }
    }
}

/// Whether two bindings are the same way to an account.
pub fn same_binding(left: &EdsAccountBinding, right: &EdsAccountBinding) -> (r: bool)
    ensures
        r == (left@ == right@),
{
    left.account_id.0 == right.account_id.0 && left.account_uid == right.account_uid
        && left.account_parent_uid == right.account_parent_uid && left.account_backend_name
        == right.account_backend_name && text::same_opt(
        &left.account_auth_method,
        &right.account_auth_method,
    ) && left.identity_uid == right.identity_uid && left.transport_uid == right.transport_uid
        && left.transport_backend_name == right.transport_backend_name && text::same_opt(
        &left.transport_auth_method,
        &right.transport_auth_method,
    ) && left.route_fingerprint == right.route_fingerprint
}

/// The trimmed text, unless nothing is left of it.
pub open spec fn nonblank(value: Seq<char>) -> Option<Seq<char>> {
    account::filled(Some(value))
}

/// The trimmed text, unless nothing is left of it.
fn nonempty_trimmed(value: &str) -> (r: Option<String>)
    ensures
        text::view_opt(r) == nonblank(value@),
{
    let value = text::trim(value);
    if value.is_empty() {
        None
    } else {
        Some(value.to_owned())
    }
}

fn nonempty_trimmed_opt(value: &Option<String>) -> (r: Option<String>)
    ensures
        text::view_opt(r) == account::filled(text::view_opt(*value)),
{
    match value {
        Some(value) => nonempty_trimmed(value.as_str()),
        None => None,
    }
}

/// Whether `s` names the type `text/html`, whatever parameters follow.
pub open spec fn is_html_type(s: Seq<char>) -> bool {
    text::lowered(text::trimmed(s.take(text::first_at(s, ';')))) == text::lowered("text/html"@)
}

/// Whether a stored signature is HTML.
fn signature_is_html(signature: &SignatureMetadata) -> (r: bool)
    ensures
        r == is_html_type(signature@.mime_type),
{
    let mime_type = signature.mime_type.as_str();
    let length: usize = mime_type.unicode_len();
    let end: usize = match text::find(mime_type, ';') {
        Some(end) => end,
        None => length,
    };
    let essence = mime_type.substring_char(0, end);
    assert(essence@ =~= mime_type@.take(end as int));
    text::ascii_lowercase(text::trim(essence)) == text::ascii_lowercase("text/html")
}

/// The signature that the standard part of an identity source holds.
pub open spec fn standard_signature(stored: Option<SignatureMetadataView>) -> SignatureView {
    match stored {
        Some(signature) => if is_html_type(signature.mime_type) {
            SignatureView { html: signature.contents, text: Seq::empty() }
        } else {
            SignatureView { html: Seq::empty(), text: signature.contents }
        },
        None => SignatureView { html: Seq::empty(), text: Seq::empty() },
    }
}

/// The signature that the standard part of an identity source holds.
pub fn signature_parts(stored: &Option<SignatureMetadata>) -> (signature: Signature)
    ensures
        signature@ == standard_signature(
            match *stored {
                Some(stored) => Some(stored@),
                None => None,
            },
        ),
{
    match stored {
        Some(stored) => if signature_is_html(stored) {
            Signature { html: stored.contents.clone(), text: String::new() }
        } else {
            Signature { html: String::new(), text: stored.contents.clone() }
        },
        None => Signature::default(),
    }
}

/// Whether `uid` names a signature.
pub open spec fn is_signature_uid(uid: Seq<char>) -> bool {
    uid.len() > 0 && uid != registry::NO_SIGNATURE@
}

/// Whether the stored signature `previous` says what is to be stored.
pub open spec fn reusable(
    previous: Option<SignatureMetadataView>,
    display_name: Seq<char>,
    contents: Seq<char>,
    mime_type: Seq<char>,
) -> bool {
    previous matches Some(previous) && is_signature_uid(previous.uid) && previous.display_name
        == display_name && previous.contents == contents && text::lowered(previous.mime_type)
        == text::lowered(mime_type)
}

/// What is stored for a signature: none for an empty one, the stored one where it says
/// the same, and else one of the name `fresh_uid`.
pub open spec fn signature_to_store(
    previous: Option<SignatureMetadataView>,
    display_name: Seq<char>,
    contents: Seq<char>,
    mime_type: Seq<char>,
    fresh_uid: Seq<char>,
) -> SignatureMetadataView {
    if contents.len() == 0 {
        SignatureMetadataView {
            uid: registry::NO_SIGNATURE@,
            display_name: Seq::empty(),
            contents: Seq::empty(),
            mime_type,
        }
    } else if reusable(previous, display_name, contents, mime_type) {
        previous->0
    } else {
        SignatureMetadataView { uid: fresh_uid, display_name, contents, mime_type }
    }
}

/// What is stored for a signature.
pub fn signature_source(
    previous: Option<&SignatureMetadata>,
    display_name: &str,
    contents: &str,
    mime_type: &str,
    fresh_uid: &str,
) -> (signature: SignatureMetadata)
    ensures
        signature@ == signature_to_store(
            match previous {
                Some(previous) => Some(previous@),
                None => None,
            },
            display_name@,
            contents@,
            mime_type@,
            fresh_uid@,
        ),
{
    if contents.is_empty() {
        return SignatureMetadata {
            uid: registry::NO_SIGNATURE.to_owned(),
            display_name: String::new(),
            contents: String::new(),
            mime_type: mime_type.to_owned(),
        };
    }
    if let Some(previous) = previous {
        if registry::names_signature(previous.uid.as_str()) && text::same(
            previous.display_name.as_str(),
            display_name,
        ) && text::same(previous.contents.as_str(), contents) && text::ascii_lowercase(
            previous.mime_type.as_str(),
        ) == text::ascii_lowercase(mime_type) {
            return previous.clone();
        }
    }
    SignatureMetadata {
        uid: fresh_uid.to_owned(),
        display_name: display_name.to_owned(),
        contents: contents.to_owned(),
        mime_type: mime_type.to_owned(),
    }
}

/// The first of `identities` with the address `key`.
pub open spec fn metadata_of(identities: Seq<IdentityMetadataView>, key: Seq<char>) -> Option<
    IdentityMetadataView,
>
    decreases identities.len(),
{
    if identities.len() == 0 {
        None
    } else {
        match metadata_of(identities.drop_last(), key) {
            Some(found) => Some(found),
            None => if address::normalized(identities.last().address) == key {
                Some(identities.last())
            } else {
                None
            },
        }
    }
}

/// The last of `identities` with the address `key`.
pub open spec fn last_metadata_of(identities: Seq<IdentityMetadataView>, key: Seq<char>) -> Option<
    IdentityMetadataView,
>
    decreases identities.len(),
{
    if identities.len() == 0 {
        None
    } else if address::normalized(identities.last().address) == key {
        Some(identities.last())
    } else {
        last_metadata_of(identities.drop_last(), key)
    }
}

fn find_metadata(identities: &Vec<IdentityMetadata>, key: &String) -> (found: Option<usize>)
    ensures
        match found {
            Some(i) => i < identities@.len() && metadata_of(
                registry::metadata_views(identities@),
                key@,
            ) == Some(identities@[i as int]@),
            None => metadata_of(registry::metadata_views(identities@), key@) is None,
        },
{
    let ghost views = registry::metadata_views(identities@);
    let mut found: Option<usize> = None;
    let mut i: usize = 0;
    while i < identities.len()
        invariant
            i <= identities.len(),
            views == registry::metadata_views(identities@),
            match found {
                Some(at) => at < i && metadata_of(views.take(i as int), key@) == Some(
                    identities@[at as int]@,
                ),
                None => metadata_of(views.take(i as int), key@) is None,
            },
        decreases identities.len() - i,
    {
        proof {
            assert(views.take(i + 1).drop_last() =~= views.take(i as int));
            assert(views.take(i + 1).last() == identities@[i as int]@);
        }
        if found.is_none() && address::normalized_mailbox_address(identities[i].address.as_str())
            == *key {
            found = Some(i);
        }
        i += 1;
    }
    assert(views.take(i as int) =~= views);
    found
}

fn find_last_metadata(identities: &Vec<IdentityMetadata>, key: &String) -> (found: Option<usize>)
    ensures
        match found {
            Some(i) => i < identities@.len() && last_metadata_of(
                registry::metadata_views(identities@),
                key@,
            ) == Some(identities@[i as int]@),
            None => last_metadata_of(registry::metadata_views(identities@), key@) is None,
        },
{
    let ghost views = registry::metadata_views(identities@);
    let mut i: usize = identities.len();
    assert(views.take(i as int) =~= views);
    while i > 0
        invariant
            i <= identities.len(),
            views == registry::metadata_views(identities@),
            last_metadata_of(views, key@) == last_metadata_of(views.take(i as int), key@),
        decreases i,
    {
        proof {
            assert(views.take(i as int).drop_last() =~= views.take(i - 1));
            assert(views.take(i as int).last() == identities@[i - 1]@);
        }
        if address::normalized_mailbox_address(identities[i - 1].address.as_str()) == *key {
            return Some(i - 1);
        }
        i -= 1;
    }
    None
}

/// What is stored of the identity at `i`. `previous` is what was stored of the
/// identities, and `fresh` holds two unused names for each identity.
pub open spec fn identity_to_store(
    account: AccountView,
    i: int,
    previous: Seq<IdentityMetadataView>,
    fresh: Seq<Seq<char>>,
) -> IdentityMetadataView {
    let identity = account.aliases[i];
    let stored = metadata_of(previous, identity.key());
    IdentityMetadataView {
        address: identity.address,
        reply_to: if address::normalized(account.primary_address) == identity.key() {
            Seq::empty()
        } else {
            identity.reply_to.unwrap_or(Seq::empty())
        },
        signatures: SignatureSourcesView {
            html: signature_to_store(
                match stored {
                    Some(stored) => Some(stored.signatures.html),
                    None => None,
                },
                identity.address,
                identity.signature.html,
                "text/html"@,
                fresh[2 * i],
            ),
            text: signature_to_store(
                match stored {
                    Some(stored) => Some(stored.signatures.text),
                    None => None,
                },
                identity.address,
                identity.signature.text,
                "text/plain"@,
                fresh[2 * i + 1],
            ),
        },
    }
}

/// What is stored of the identities of an account.
pub open spec fn extension_to_store(
    account: AccountView,
    previous: Option<IdentityExtensionView>,
    fresh: Seq<Seq<char>>,
) -> IdentityExtensionView {
    let stored = match previous {
        Some(previous) => previous.identities,
        None => Seq::empty(),
    };
    IdentityExtensionView {
        account_label: account.display_name,
        default_address: (account.identity(account.default_address)->0).address,
        identities: Seq::new(
            account.aliases.len(),
            |i: int| identity_to_store(account, i, stored, fresh),
        ),
    }
}

fn stored_signature<'a>(
    previous: Option<&'a IdentityExtension>,
    key: &String,
    html: bool,
) -> (signature: Option<&'a SignatureMetadata>)
    ensures
        ({
            let stored = match previous {
                Some(previous) => previous@.identities,
                None => Seq::empty(),
            };
            match signature {
                Some(signature) => metadata_of(stored, key@) matches Some(found) && signature@
                    == (if html {
                    found.signatures.html
                } else {
                    found.signatures.text
                }),
                None => metadata_of(stored, key@) is None,
            }
        }),
{
    match previous {
        Some(previous) => match find_metadata(&previous.identities, key) {
            Some(at) => if html {
                Some(&previous.identities[at].signatures.html)
            } else {
                Some(&previous.identities[at].signatures.text)
            },
            None => None,
        },
        None => None,
    }
}

/// What is stored of the identities of an account. `fresh` holds two unused names for
/// each identity.
pub fn identity_extension_from_account(
    account: &MailAccount,
    previous: Option<&IdentityExtension>,
    fresh: &Vec<String>,
) -> (extension: IdentityExtension)
    requires
        account@.valid(),
        fresh@.len() >= 2 * account@.aliases.len(),
    ensures
        extension@ == extension_to_store(
            account@,
            match previous {
                Some(previous) => Some(previous@),
                None => None,
            },
            text::views(fresh@),
        ),
{
    let ghost view = account@;
    let ghost stored = match previous {
        Some(previous) => previous@.identities,
        None => Seq::empty(),
    };
    let ghost names = text::views(fresh@);
    let ghost wanted = Seq::new(
        view.aliases.len(),
        |i: int| identity_to_store(view, i, stored, names),
    );
    let aliases = account.aliases();
    let available: usize = fresh.len();
    let mut identities: Vec<IdentityMetadata> = Vec::new();
    let mut i: usize = 0;
    while i < aliases.len()
        invariant
            i <= aliases@.len(),
            view == account@,
            account::identities(aliases@) == view.aliases,
            available == fresh@.len(),
            available >= 2 * aliases@.len(),
            names == text::views(fresh@),
            stored == (match previous {
                Some(previous) => previous@.identities,
                None => Seq::empty(),
            }),
            wanted == Seq::new(
                view.aliases.len(),
                |i: int| identity_to_store(view, i, stored, names),
            ),
            registry::metadata_views(identities@) == wanted.take(i as int),
        decreases aliases@.len() - i,
    {
        let identity = &aliases[i];
        assert(view.aliases[i as int] == identity@);
        let key = address::normalized_mailbox_address(identity.address.as_str());
        let reply_to = if account.is_primary_identity(identity.address.as_str()) {
            String::new()
        } else {
            match &identity.reply_to {
                Some(reply_to) => reply_to.clone(),
                None => String::new(),
            }
        };
        let html = signature_source(
            stored_signature(previous, &key, true),
            identity.address.as_str(),
            identity.signature.html.as_str(),
            "text/html",
            fresh[i + i].as_str(),
        );
        let plain = signature_source(
            stored_signature(previous, &key, false),
            identity.address.as_str(),
            identity.signature.text.as_str(),
            "text/plain",
            fresh[i + i + 1].as_str(),
        );
        let metadata = IdentityMetadata {
            address: identity.address.clone(),
            reply_to,
            signatures: SignatureSources { html, text: plain },
        };
        proof {
            assert(names[2 * i] == fresh@[2 * i]@);
            assert(names[2 * i + 1] == fresh@[2 * i + 1]@);
            assert(metadata@ == identity_to_store(view, i as int, stored, names));
        }
        let ghost before = registry::metadata_views(identities@);
        let ghost value = metadata@;
        identities.push(metadata);
        proof {
            assert(registry::metadata_views(identities@) =~= before.push(value));
            assert(wanted.take(i + 1) =~= before.push(value));
        }
        i += 1;
    }
    assert(wanted.take(i as int) =~= wanted);
    IdentityExtension {
        account_label: account.display_name().to_owned(),
        default_address: account.default_identity().address.clone(),
        identities,
    }
}

/// An identity with what is stored of it. The primary identity keeps its reply address.
pub open spec fn with_metadata(
    identity: IdentityView,
    metadata: Option<IdentityMetadataView>,
    primary: bool,
) -> IdentityView {
    match metadata {
        Some(metadata) => IdentityView {
            reply_to: if primary {
                identity.reply_to
            } else {
                nonblank(metadata.reply_to)
            },
            signature: SignatureView {
                html: metadata.signatures.html.contents,
                text: metadata.signatures.text.contents,
            },
            ..identity
        },
        None => identity,
    }
}

fn apply_identity_metadata(
    identity: SendingIdentity,
    metadata: Option<&IdentityMetadata>,
    primary: bool,
) -> (r: SendingIdentity)
    ensures
        r@ == with_metadata(
            identity@,
            match metadata {
                Some(metadata) => Some(metadata@),
                None => None,
            },
            primary,
        ),
{
    match metadata {
        Some(metadata) => {
            let reply_to = if primary {
                identity.reply_to
            } else {
                nonempty_trimmed(metadata.reply_to.as_str())
            };
            SendingIdentity {
                address: identity.address,
                display_name: identity.display_name,
                reply_to,
                signature: Signature {
                    html: metadata.signatures.html.contents.clone(),
                    text: metadata.signatures.text.contents.clone(),
                },
            }
        },
        None => identity,
    }
}

/// The addresses in the order in which an extension puts them: the primary one, then
/// those that it stores.
pub open spec fn extension_keys(
    primary_key: Seq<char>,
    identities: Seq<IdentityMetadataView>,
) -> Seq<Seq<char>> {
    seq![primary_key] + identities.map_values(
        |metadata: IdentityMetadataView| address::normalized(metadata.address),
    )
}

/// The identities of `standard` in the order of `keys`, each with what is stored of it.
pub open spec fn arranged(
    keys: Seq<Seq<char>>,
    standard: Seq<IdentityView>,
    stored: Seq<IdentityMetadataView>,
    primary_key: Seq<char>,
) -> Seq<IdentityView>
    decreases keys.len(),
{
    if keys.len() == 0 {
        Seq::empty()
    } else {
        let before = arranged(keys.drop_last(), standard, stored, primary_key);
        let key = keys.last();
        if keys.drop_last().contains(key) || !account::has_key(standard, key) {
            before
        } else {
            before.push(
                with_metadata(
                    standard[account::position_of(standard, key)],
                    last_metadata_of(stored, key),
                    key == primary_key,
                ),
            )
        }
    }
}

/// The identities of `standard` that `keys` do not name, in order.
pub open spec fn unlisted(standard: Seq<IdentityView>, keys: Seq<Seq<char>>) -> Seq<IdentityView>
    decreases standard.len(),
{
    if standard.len() == 0 {
        Seq::empty()
    } else if keys.contains(standard.last().key()) {
        unlisted(standard.drop_last(), keys)
    } else {
        unlisted(standard.drop_last(), keys).push(standard.last())
    }
}

/// The identities of an account to which an extension was applied.
pub open spec fn extended_aliases(
    standard: Seq<IdentityView>,
    stored: Seq<IdentityMetadataView>,
    primary_key: Seq<char>,
) -> Seq<IdentityView> {
    let keys = extension_keys(primary_key, stored);
    arranged(keys, standard, stored, primary_key) + unlisted(standard, keys)
}

/// An account to which an extension was applied.
pub open spec fn extended(account: AccountView, extension: IdentityExtensionView) -> AccountView {
    let primary = account.identity(account.primary_address)->0;
    let aliases = account::tidied_all(
        extended_aliases(account.aliases, extension.identities, primary.key()),
    );
    let wanted = address::normalized(extension.default_address);
    let default_key = if account::has_key(aliases, wanted) {
        wanted
    } else {
        primary.key()
    };
    AccountView {
        display_name: text::trimmed(extension.account_label),
        aliases,
        default_address: aliases[account::position_of(aliases, default_key)].address,
        ..account
    }
}

/// The identities that are stored and that the account has, each once.
pub proof fn lemma_arranged(
    keys: Seq<Seq<char>>,
    standard: Seq<IdentityView>,
    stored: Seq<IdentityMetadataView>,
    primary_key: Seq<char>,
)
    requires
        account::distinct_keys(standard),
    ensures
        account::distinct_keys(arranged(keys, standard, stored, primary_key)),
        forall|key: Seq<char>| #[trigger]
            account::has_key(arranged(keys, standard, stored, primary_key), key)
                <==> keys.contains(key) && account::has_key(standard, key),
    decreases keys.len(),
{
    let after = arranged(keys, standard, stored, primary_key);
    if keys.len() > 0 {
        let rest = keys.drop_last();
        let last = keys.last();
        let before = arranged(rest, standard, stored, primary_key);
        lemma_arranged(rest, standard, stored, primary_key);
        let grows = !rest.contains(last) && account::has_key(standard, last);
        if grows {
            let at = account::position_of(standard, last);
            assert(standard[at].key() == last);
            assert(after.last().key() == last);
            assert(!account::has_key(before, last));
            assert forall|i: int, j: int|
                #![trigger after[i], after[j]]
                0 <= i < j < after.len() implies after[i].key() != after[j].key() by {
                assert(after[i] == before[i]);
            }
        }
        assert forall|key: Seq<char>| #[trigger]
            account::has_key(after, key) <==> keys.contains(key) && account::has_key(
                standard,
                key,
            ) by {
            assert(account::has_key(before, key) <==> rest.contains(key) && account::has_key(
                standard,
                key,
            ));
            assert(keys.contains(key) <==> rest.contains(key) || key == last) by {
                if rest.contains(key) {
                    let i = choose|i: int| 0 <= i < rest.len() && rest[i] == key;
                    assert(keys[i] == key);
                }
                if key == last {
                    assert(keys[keys.len() - 1] == key);
                }
                if keys.contains(key) && key != last {
                    let i = choose|i: int| 0 <= i < keys.len() && keys[i] == key;
                    assert(rest[i] == key);
                }
            }
            if account::has_key(before, key) {
                let i = account::position_of(before, key);
                assert(after[i].key() == key);
            }
            if grows && key == last {
                assert(after[before.len() as int].key() == key);
            }
            if account::has_key(after, key) && key != last {
                let i = account::position_of(after, key);
                assert(before[i].key() == key);
            }
        }
    }
}

proof fn lemma_unlisted(standard: Seq<IdentityView>, keys: Seq<Seq<char>>)
    requires
        account::distinct_keys(standard),
    ensures
        account::distinct_keys(unlisted(standard, keys)),
        forall|key: Seq<char>| #[trigger]
            account::has_key(unlisted(standard, keys), key) <==> !keys.contains(key)
                && account::has_key(standard, key),
    decreases standard.len(),
{
    let after = unlisted(standard, keys);
    if standard.len() > 0 {
        let rest = standard.drop_last();
        let last = standard.last();
        let before = unlisted(rest, keys);
        assert forall|i: int, j: int|
            #![trigger rest[i], rest[j]]
            0 <= i < j < rest.len() implies rest[i].key() != rest[j].key() by {
            assert(standard[i].key() != standard[j].key());
        }
        assert forall|i: int| 0 <= i < rest.len() implies (#[trigger] rest[i]).key().len() > 0 by {
            assert(standard[i].key().len() > 0);
        }
        lemma_unlisted(rest, keys);
        assert(standard[standard.len() - 1] == last);
        assert(!account::has_key(rest, last.key())) by {
            if account::has_key(rest, last.key()) {
                let i = account::position_of(rest, last.key());
                assert(standard[i].key() == standard[standard.len() - 1].key());
            }
        }
        assert(!account::has_key(before, last.key()));
        if !keys.contains(last.key()) {
            assert forall|i: int, j: int|
                #![trigger after[i], after[j]]
                0 <= i < j < after.len() implies after[i].key() != after[j].key() by {
                assert(after[i] == before[i]);
            }
        }
        assert forall|key: Seq<char>| #[trigger]
            account::has_key(after, key) <==> !keys.contains(key) && account::has_key(
                standard,
                key,
            ) by {
            assert(account::has_key(before, key) <==> !keys.contains(key) && account::has_key(
                rest,
                key,
            ));
            if account::has_key(rest, key) {
                let i = account::position_of(rest, key);
                assert(standard[i].key() == key);
            }
            if account::has_key(standard, key) && key != last.key() {
                let i = account::position_of(standard, key);
                assert(rest[i].key() == key);
            }
            if account::has_key(before, key) {
                let i = account::position_of(before, key);
                assert(after[i].key() == key);
            }
            if key == last.key() && !keys.contains(key) {
                assert(after[before.len() as int].key() == key);
            }
            if account::has_key(after, key) && key != last.key() {
                let i = account::position_of(after, key);
                assert(before[i].key() == key);
            }
        }
    }
}

/// Applying an extension changes nothing of which addresses an account has, and leaves
/// each address with one identity.
pub proof fn lemma_extension_keeps_the_addresses(
    standard: Seq<IdentityView>,
    stored: Seq<IdentityMetadataView>,
    primary_key: Seq<char>,
)
    requires
        account::distinct_keys(standard),
    ensures
        account::distinct_keys(extended_aliases(standard, stored, primary_key)),
        forall|key: Seq<char>| #[trigger]
            account::has_key(extended_aliases(standard, stored, primary_key), key)
                <==> account::has_key(standard, key),
{
    let keys = extension_keys(primary_key, stored);
    let head = arranged(keys, standard, stored, primary_key);
    let tail = unlisted(standard, keys);
    let all = head + tail;
    lemma_arranged(keys, standard, stored, primary_key);
    lemma_unlisted(standard, keys);
    assert forall|i: int| 0 <= i < all.len() implies (#[trigger] all[i]).key().len() > 0 by {
        if i < head.len() {
            assert(all[i] == head[i]);
        } else {
            assert(all[i] == tail[i - head.len()]);
        }
    }
    assert forall|i: int, j: int|
        #![trigger all[i], all[j]]
        0 <= i < j < all.len() implies all[i].key() != all[j].key() by {
        if j < head.len() {
            assert(head[i].key() != head[j].key());
        } else if i >= head.len() {
            assert(tail[i - head.len()].key() != tail[j - head.len()].key());
        } else {
            assert(head[i].key() == all[i].key());
            assert(tail[j - head.len()].key() == all[j].key());
            assert(account::has_key(head, all[i].key()));
            assert(account::has_key(tail, all[j].key()));
        }
    }
    assert forall|key: Seq<char>| #[trigger]
        account::has_key(all, key) <==> account::has_key(standard, key) by {
        assert(account::has_key(head, key) <==> keys.contains(key) && account::has_key(
            standard,
            key,
        ));
        assert(account::has_key(tail, key) <==> !keys.contains(key) && account::has_key(
            standard,
            key,
        ));
        if account::has_key(head, key) {
            let i = account::position_of(head, key);
            assert(all[i].key() == key);
        }
        if account::has_key(tail, key) {
            let i = account::position_of(tail, key);
            assert(all[head.len() + i].key() == key);
        }
        if account::has_key(all, key) {
            let i = account::position_of(all, key);
            if i < head.len() {
                assert(head[i].key() == key);
            } else {
                assert(tail[i - head.len()].key() == key);
            }
        }
    }
}

/// The addresses in the order in which an extension puts them.
fn keys_of_extension(primary_key: &String, identities: &Vec<IdentityMetadata>) -> (keys: Vec<
    String,
>)
    ensures
        text::views(keys@) == extension_keys(
            primary_key@,
            registry::metadata_views(identities@),
        ),
{
    let ghost stored = registry::metadata_views(identities@);
    let ghost wanted = extension_keys(primary_key@, stored);
    let mut keys: Vec<String> = Vec::new();
    keys.push(primary_key.clone());
    assert(text::views(keys@) =~= wanted.take(1));
    let mut i: usize = 0;
    while i < identities.len()
        invariant
            i <= identities.len(),
            stored == registry::metadata_views(identities@),
            wanted == extension_keys(primary_key@, stored),
            text::views(keys@) == wanted.take(i + 1),
        decreases identities.len() - i,
    {
        let ghost before = text::views(keys@);
        let key = address::normalized_mailbox_address(identities[i].address.as_str());
        let ghost value = key@;
        keys.push(key);
        proof {
            assert(wanted[i + 1] == address::normalized(stored[i as int].address));
            assert(text::views(keys@) =~= before.push(value));
            assert(wanted.take(i + 2) =~= before.push(value));
        }
        i += 1;
    }
    assert(wanted.take(i + 1) =~= wanted);
    keys
}

/// Gives the identities of an account the order and the additions that an extension
/// stores for them.
pub fn apply_identity_extension(account: &mut MailAccount, extension: &IdentityExtension)
    requires
        old(account)@.valid(),
        text::trimmed(extension@.account_label).len() > 0,
    ensures
        final(account)@ == extended(old(account)@, extension@),
        final(account)@.valid(),
        forall|key: Seq<char>| #[trigger]
            account::has_key(final(account)@.aliases, key) <==> account::has_key(
                old(account)@.aliases,
                key,
            ),
{
    let ghost before = account@;
    let ghost primary = before.identity(before.primary_address)->0;
    let ghost stored = extension@.identities;
    let standard = account::clone_identities(account.aliases());
    let primary_address = account.primary_identity().address.clone();
    let primary_key = address::normalized_mailbox_address(primary_address.as_str());
    let keys = keys_of_extension(&primary_key, &extension.identities);
    let ghost names = text::views(keys@);
    let mut aliases: Vec<SendingIdentity> = Vec::new();
    let mut listed: Vec<String> = Vec::new();
    let mut i: usize = 0;
    while i < keys.len()
        invariant
            i <= keys.len(),
            names == text::views(keys@),
            stored == registry::metadata_views(extension.identities@),
            account::identities(standard@) == before.aliases,
            account::distinct_keys(before.aliases),
            primary_key@ == primary.key(),
            text::views(listed@) == names.take(i as int),
            account::identities(aliases@) == arranged(
                names.take(i as int),
                before.aliases,
                stored,
                primary.key(),
            ),
        decreases keys.len() - i,
    {
        let ghost done = account::identities(aliases@);
        let ghost seen = text::views(listed@);
        let key = &keys[i];
        proof {
            assert(names.take(i + 1).drop_last() =~= names.take(i as int));
            assert(names.take(i + 1).last() == key@);
        }
        if !text::contains(&listed, key.as_str()) {
            if let Some(at) = account::find_key(&standard, key) {
                let metadata = match find_last_metadata(&extension.identities, key) {
                    Some(at) => Some(&extension.identities[at]),
                    None => None,
                };
                let applied = apply_identity_metadata(
                    standard[at].clone(),
                    metadata,
                    *key == primary_key,
                );
                let ghost value = applied@;
                aliases.push(applied);
                assert(account::identities(aliases@) =~= done.push(value));
            }
        }
        listed.push(key.clone());
        proof {
            assert(text::views(listed@) =~= seen.push(key@));
            assert(names.take(i + 1) =~= seen.push(key@));
        }
        i += 1;
    }
    assert(names.take(i as int) =~= names);
    let ghost head = account::identities(aliases@);
    let ghost all = before.aliases;
    let mut k: usize = 0;
    while k < standard.len()
        invariant
            k <= standard.len(),
            account::identities(standard@) == all,
            text::views(keys@) == names,
            account::identities(aliases@) == head + unlisted(all.take(k as int), names),
        decreases standard.len() - k,
    {
        let ghost done = account::identities(aliases@);
        proof {
            assert(all.take(k + 1).drop_last() =~= all.take(k as int));
            assert(all.take(k + 1).last() == standard@[k as int]@);
        }
        let key = address::normalized_mailbox_address(standard[k].address.as_str());
        if !text::contains(&keys, key.as_str()) {
            aliases.push(standard[k].clone());
            proof {
                assert(account::identities(aliases@) =~= done.push(standard@[k as int]@));
                assert(head + unlisted(all.take(k + 1), names) =~= done.push(standard@[k as int]@));
            }
        }
        k += 1;
    }
    assert(all.take(k as int) =~= all);
    proof {
        let at = account::position_of(all, address::normalized(before.primary_address));
        assert(all[at].key() == address::normalized(before.primary_address));
        lemma_extension_keeps_the_addresses(all, stored, primary.key());
        identity::lemma_tidied_keys(extended_aliases(all, stored, primary.key()));
    }
    let ghost tidied = account::tidied_all(account::identities(aliases@));
    let wanted = address::normalized_mailbox_address(extension.default_address.as_str());
    let default_address = match account::find_key(&aliases, &wanted) {
        Some(at) => {
            let address = aliases[at].address.clone();
            proof {
                let list = account::identities(aliases@);
                assert(list[at as int].key() == wanted@);
                assert(address::normalized(address@) == wanted@);
                assert(account::has_key(tidied, wanted@));
            }
            address
        },
        None => {
            proof {
                assert(!account::has_key(tidied, wanted@));
                assert(account::has_key(all, primary.key()));
                assert(account::has_key(tidied, primary.key()));
            }
            primary_address
        },
    };
    proof {
        assert(account::has_key(all, address::normalized(before.primary_address)));
        assert(account::has_key(tidied, address::normalized(before.primary_address)));
    }
    let _renamed = account.rename(extension.account_label.clone());
    account.replace_aliases(aliases, default_address);
    proof {
        assert forall|key: Seq<char>| #[trigger]
            account::has_key(account@.aliases, key) <==> account::has_key(all, key) by {
            assert(account::has_key(tidied, key) <==> account::has_key(
                extended_aliases(all, stored, primary.key()),
                key,
            ));
        }
    }
}

/// Whether an optional text holds anything.
pub open spec fn has_text(value: Option<Seq<char>>) -> bool {
    value matches Some(text) && text.len() > 0
}

/// Whether a mail account is complete and switched on.
pub open spec fn usable(triplet: TripletView) -> bool {
    &&& triplet.identity is Some
    &&& triplet.transport is Some
    &&& triplet.mail_enabled != Some(false)
    &&& triplet.account.enabled
    &&& (triplet.identity->0).enabled
    &&& (triplet.transport->0).enabled
    &&& triplet.account.uid.len() > 0
    &&& (triplet.identity->0).uid.len() > 0
    &&& (triplet.transport->0).uid.len() > 0
    &&& has_text(triplet.account.parent)
    &&& has_text(triplet.account.backend_name)
    &&& has_text((triplet.transport->0).backend_name)
    &&& account::filled(triplet.goa_account_id) is Some
}

/// Whether a mail account is one that can be shown: it is usable and has an address.
pub open spec fn presentable(triplet: TripletView) -> bool {
    usable(triplet) && account::filled((triplet.identity->0).identity_address) is Some
}

/// Whether the addresses of a mail account are such that an account can be made of them:
/// none of them is empty once normalized, and a stored label holds more than white space.
pub open spec fn readable(triplet: TripletView) -> bool {
    presentable(triplet) ==> {
        let source = triplet.identity->0;
        &&& address::normalized(account::filled(source.identity_address)->0).len() > 0
        &&& identity::addressed(source.identity_alias_addresses)
        &&& (source.identity_extension matches registry::ExtensionStateView::Valid(loaded)
            ==> text::trimmed(loaded.extension.account_label).len() > 0)
    }
}

/// The account before its aliases and its extension are read.
pub open spec fn bare_account(triplet: TripletView) -> AccountView {
    let source = triplet.identity->0;
    let address = account::filled(source.identity_address)->0;
    let name = text::trimmed(source.identity_name.unwrap_or(Seq::empty()));
    let primary = (IdentityView {
        address,
        display_name: name,
        reply_to: source.identity_reply_to,
        signature: standard_signature(source.identity_signature),
    }).tidied();
    AccountView {
        id: account::filled(triplet.goa_account_id)->0,
        display_name: if name.len() > 0 {
            name
        } else if account::filled(triplet.goa_name) is Some {
            account::filled(triplet.goa_name)->0
        } else {
            address
        },
        aliases: seq![primary],
        primary_address: primary.address,
        default_address: primary.address,
    }
}

/// The account with its aliases, before its extension is read.
pub open spec fn standard_account(triplet: TripletView) -> AccountView {
    let bare = bare_account(triplet);
    let primary = bare.aliases[0];
    AccountView {
        aliases: account::tidied_all(
            identity::imported(primary, (triplet.identity->0).identity_alias_addresses),
        ),
        default_address: primary.tidied().address,
        ..bare
    }
}

/// The account that a mail account makes.
pub open spec fn account_of(triplet: TripletView) -> AccountView {
    match (triplet.identity->0).identity_extension {
        registry::ExtensionStateView::Valid(loaded) => extended(
            standard_account(triplet),
            loaded.extension,
        ),
        _ => standard_account(triplet),
    }
}

/// The way to the account that a mail account makes.
pub open spec fn binding_of(triplet: TripletView) -> BindingView {
    let source = triplet.identity->0;
    let transport = triplet.transport->0;
    BindingView {
        account_id: account::filled(triplet.goa_account_id)->0,
        account_uid: triplet.account.uid,
        account_parent_uid: triplet.account.parent->0,
        account_backend_name: triplet.account.backend_name->0,
        account_auth_method: triplet.account.auth_method,
        identity_uid: source.uid,
        transport_uid: transport.uid,
        transport_backend_name: transport.backend_name->0,
        transport_auth_method: transport.auth_method,
        route_fingerprint: RouteFingerprint {
            account: triplet.account.configuration_hash,
            transport: transport.configuration_hash,
            mailbox: source.mailbox_configuration_hash,
        },
    }
}

/// Why there is no catalog.
#[derive(Debug, PartialEq, Eq)]
pub enum CatalogError {
    /// Two complete mail accounts belong to one online account.
    DuplicateRoute(String),
    /// What is stored of the identities of a source cannot be used.
    InvalidExtension(String),
}

/// Why there is no catalog, as a value.
#[verifier::ext_equal]
pub enum CatalogErrorView {
    DuplicateRoute(Seq<char>),
    InvalidExtension(Seq<char>),
}

impl View for CatalogError {
    type V = CatalogErrorView;

    open spec fn view(&self) -> CatalogErrorView {
        match self {
            CatalogError::DuplicateRoute(id) => CatalogErrorView::DuplicateRoute(id@),
            CatalogError::InvalidExtension(uid) => CatalogErrorView::InvalidExtension(uid@),
        }
    }
}

impl CatalogError {
    /// What is reported.
    pub fn message(&self) -> (message: String)
        ensures
            message@ == (match self@ {
                CatalogErrorView::DuplicateRoute(id) =>
                    "EDS exposes more than one mail route for account '"@ + id + seq!['\''],
                CatalogErrorView::InvalidExtension(uid) => "EDS mail identity '"@ + uid
                    + "' contains an invalid identity extension"@,
            }),
    {
        let mut message = String::new();
        match self {
            CatalogError::DuplicateRoute(id) => {
                message.append("EDS exposes more than one mail route for account '");
                message.append(id.as_str());
                message.push('\'');
            },
            CatalogError::InvalidExtension(uid) => {
                message.append("EDS mail identity '");
                message.append(uid.as_str());
                message.append("' contains an invalid identity extension");
            },
        }
        proof {
            match self@ {
                CatalogErrorView::DuplicateRoute(id) => {
                    assert(message@ =~= "EDS exposes more than one mail route for account '"@ + id
                        + seq!['\'']);
                },
                CatalogErrorView::InvalidExtension(uid) => {
                    assert(message@ =~= "EDS mail identity '"@ + uid
                        + "' contains an invalid identity extension"@);
                },
            }
        }
        message
    }
}

fn filled_text(value: &Option<String>) -> (r: bool)
    ensures
        r == has_text(text::view_opt(*value)),
{
    match value {
        Some(value) => !value.as_str().is_empty(),
        None => false,
    }
}

/// Whether a mail account is complete and switched on.
pub fn usable_mail_triplet(triplet: &MailTriplet) -> (r: bool)
    ensures
        r == usable(triplet@),
{
    match (&triplet.identity, &triplet.transport) {
        (Some(source), Some(transport)) => {
            let disabled = match triplet.mail_enabled {
                Some(enabled) => !enabled,
                None => false,
            };
            !disabled && triplet.account.enabled && source.enabled && transport.enabled
                && !triplet.account.uid.as_str().is_empty() && !source.uid.as_str().is_empty()
                && !transport.uid.as_str().is_empty() && filled_text(&triplet.account.parent)
                && filled_text(&triplet.account.backend_name) && filled_text(
                &transport.backend_name,
            ) && nonempty_trimmed_opt(&triplet.goa_account_id).is_some()
        },
        _ => false,
    }
}

/// Whether the addresses of a mail account are such that an account can be made of
/// them.
pub fn triplet_is_readable(triplet: &MailTriplet) -> (r: bool)
    ensures
        r == readable(triplet@),
{
    if !usable_mail_triplet(triplet) {
        return true;
    }
    match &triplet.identity {
        Some(source) => match nonempty_trimmed_opt(&source.identity_address) {
            Some(own) => {
                if address::normalized_mailbox_address(own.as_str()).as_str().is_empty() {
                    return false;
                }
                let ghost aliases = registry::decoded_views(source.identity_alias_addresses@);
                let mut i: usize = 0;
                while i < source.identity_alias_addresses.len()
                    invariant
                        i <= source.identity_alias_addresses.len(),
                        aliases == registry::decoded_views(source.identity_alias_addresses@),
                        forall|j: int|
                            0 <= j < i ==> address::normalized(
                                (#[trigger] aliases[j]).address,
                            ).len() > 0,
                        presentable(triplet@),
                        triplet@.identity == Some(source@),
                    decreases source.identity_alias_addresses.len() - i,
                {
                    let alias = &source.identity_alias_addresses[i];
                    if address::normalized_mailbox_address(
                        alias.address.as_str(),
                    ).as_str().is_empty() {
                        assert(aliases[i as int] == alias@);
                        return false;
                    }
                    i += 1;
                }
                match source.identity_extension.as_valid() {
                    Some(extension) => !text::trim(extension.account_label.as_str()).is_empty(),
                    None => true,
                }
            },
            None => true,
        },
        None => true,
    }
}

/// The account that a mail account makes, and the way to it; `None` where it is not to
/// be shown.
pub fn account_from_triplet(triplet: &MailTriplet) -> (result: Result<
    Option<(MailAccount, EdsAccountBinding)>,
    CatalogError,
>)
    requires
        readable(triplet@),
    ensures
        match result {
            Ok(None) => !presentable(triplet@),
            Ok(Some(entry)) => {
                &&& presentable(triplet@)
                &&& (triplet@.identity->0).identity_extension !is Invalid
                &&& entry.0@ == account_of(triplet@)
                &&& entry.0@.valid()
                &&& entry.1@ == binding_of(triplet@)
                &&& entry.1.account_uid@ == triplet.account.uid@
                &&& entry.1.identity_uid@ == (triplet.identity->0).uid@
                &&& entry.1.transport_uid@ == (triplet.transport->0).uid@
                &&& entry.1.account_id@ == entry.0@.id
            },
            Err(error) => {
                &&& presentable(triplet@)
                &&& (triplet@.identity->0).identity_extension is Invalid
                &&& error@ == CatalogErrorView::InvalidExtension((triplet@.identity->0).uid)
            },
        },
{
    if !usable_mail_triplet(triplet) {
        return Ok(None);
    }
    let ghost view = triplet@;
    match (&triplet.identity, &triplet.transport) {
        (Some(source), Some(transport)) => {
            let primary_address = match nonempty_trimmed_opt(&source.identity_address) {
                Some(address) => address,
                None => return Ok(None),
            };
            let primary_name = match &source.identity_name {
                Some(name) => text::trim(name.as_str()).to_owned(),
                None => String::new(),
            };
            proof {
                text::lemma_trimmed_identity(Seq::empty());
                text::lemma_trimmed_idempotent(view.identity->0.identity_address->0);
                text::lemma_trimmed_idempotent(
                    view.identity->0.identity_name.unwrap_or(Seq::empty()),
                );
                assert(primary_name@ =~= text::trimmed(
                    view.identity->0.identity_name.unwrap_or(Seq::empty()),
                ));
            }
            let display_name = if !primary_name.as_str().is_empty() {
                primary_name.clone()
            } else {
                match nonempty_trimmed_opt(&triplet.goa_name) {
                    Some(name) => name,
                    None => primary_address.clone(),
                }
            };
            let account_id = match nonempty_trimmed_opt(&triplet.goa_account_id) {
                Some(id) => id,
                None => return Ok(None),
            };
            let primary_identity = SendingIdentity::new(
                primary_address.clone(),
                primary_name,
                text::clone_opt(&source.identity_reply_to),
                signature_parts(&source.identity_signature),
            );
            let ghost primary = primary_identity@;
            proof {
                if view.goa_name is Some {
                    text::lemma_trimmed_idempotent(view.goa_name->0);
                }
                account::lemma_tidied_twice(
                    IdentityView {
                        address: primary_address@,
                        display_name: text::trimmed(
                            view.identity->0.identity_name.unwrap_or(Seq::empty()),
                        ),
                        reply_to: view.identity->0.identity_reply_to,
                        signature: standard_signature(view.identity->0.identity_signature),
                    },
                );
                identity::lemma_tidied_key(primary);
            }
            let mut account = MailAccount::new(
                MailAccountId(account_id.clone()),
                display_name,
                primary_identity,
            );
            proof {
                assert(account@ == bare_account(view));
                let bare = account@;
                assert(bare.aliases[0].key() == address::normalized(bare.primary_address));
                let at = account::position_of(
                    bare.aliases,
                    address::normalized(bare.primary_address),
                );
                assert(at == 0);
                assert(bare.identity(bare.primary_address) == Some(bare.aliases[0]));
            }
            identity::import_eds_aliases(&mut account, &source.identity_alias_addresses);
            assert(account@ == standard_account(view));
            match &source.identity_extension {
                IdentityExtensionState::Absent => {},
                IdentityExtensionState::Invalid => {
                    return Err(CatalogError::InvalidExtension(source.uid.clone()));
                },
                IdentityExtensionState::Valid(loaded) => {
                    apply_identity_extension(&mut account, &loaded.extension);
                },
            }
            let binding = EdsAccountBinding {
                account_id: MailAccountId(account_id),
                account_uid: triplet.account.uid.clone(),
                account_parent_uid: unwrap_text(&triplet.account.parent),
                account_backend_name: unwrap_text(&triplet.account.backend_name),
                account_auth_method: text::clone_opt(&triplet.account.auth_method),
                identity_uid: source.uid.clone(),
                transport_uid: transport.uid.clone(),
                transport_backend_name: unwrap_text(&transport.backend_name),
                transport_auth_method: text::clone_opt(&transport.auth_method),
                route_fingerprint: RouteFingerprint {
                    account: triplet.account.configuration_hash,
                    transport: transport.configuration_hash,
                    mailbox: source.mailbox_configuration_hash,
                },
            };
            Ok(Some((account, binding)))
        },
        _ => Ok(None),
    }
}

fn unwrap_text(value: &Option<String>) -> (r: String)
    requires
        value is Some,
    ensures
        Some(r@) == text::view_opt(*value),
{
    match value {
        Some(value) => value.clone(),
        None => String::new(),
    }
}

/// One line of the catalog, as a value.
pub type Entry = (AccountView, BindingView);

/// Whether one of `entries` is the account `id`.
pub open spec fn lists(entries: Seq<Entry>, id: Seq<char>) -> bool {
    exists|i: int| 0 <= i < entries.len() && (#[trigger] entries[i]).0.id == id
}

/// The accounts that mail accounts make, in their order, or the first reason why there
/// is no catalog.
pub open spec fn entries_of(triplets: Seq<TripletView>) -> Result<Seq<Entry>, CatalogErrorView>
    decreases triplets.len(),
{
    if triplets.len() == 0 {
        Ok(Seq::empty())
    } else {
        match entries_of(triplets.drop_last()) {
            Err(error) => Err(error),
            Ok(entries) => {
                let triplet = triplets.last();
                if !presentable(triplet) {
                    Ok(entries)
                } else if (triplet.identity->0).identity_extension is Invalid {
                    Err(CatalogErrorView::InvalidExtension((triplet.identity->0).uid))
                } else if lists(entries, account_of(triplet).id) {
                    Err(CatalogErrorView::DuplicateRoute(account_of(triplet).id))
                } else {
                    Ok(entries.push((account_of(triplet), binding_of(triplet))))
                }
            },
        }
    }
}

/// Whether `a` stands before `b` in the catalog: by name, then by identity.
pub open spec fn listed_before(a: Entry, b: Entry) -> bool {
    text::before(a.0.display_name, b.0.display_name) || (a.0.display_name == b.0.display_name
        && text::before(a.0.id, b.0.id))
}

/// Whether a catalog is in order.
pub open spec fn in_catalog_order(entries: Seq<Entry>) -> bool {
    forall|i: int, j: int|
        #![trigger entries[i], entries[j]]
        0 <= i < j < entries.len() ==> listed_before(entries[i], entries[j])
}

/// The mail accounts of the user and the ways to them.
#[derive(Debug)]
pub struct AccountCatalog {
    pub accounts: Vec<MailAccount>,
    pub bindings: Vec<EdsAccountBinding>,
}

/// The lines of two lists of the same length.
pub open spec fn paired(accounts: Seq<MailAccount>, bindings: Seq<EdsAccountBinding>) -> Seq<Entry> {
    Seq::new(accounts.len(), |i: int| (accounts[i]@, bindings[i]@))
}

impl AccountCatalog {
    /// The lines of the catalog.
    pub open spec fn entries(&self) -> Seq<Entry> {
        paired(self.accounts@, self.bindings@)
    }

    /// The accounts and the ways to them.
    pub fn into_parts(self) -> (parts: (Vec<MailAccount>, Vec<EdsAccountBinding>))
        ensures
            parts.0 == self.accounts,
            parts.1 == self.bindings,
    {
        (self.accounts, self.bindings)
    }
}

proof fn lemma_listed_before_is_transitive(a: Entry, b: Entry, c: Entry)
    requires
        listed_before(a, b),
        listed_before(b, c),
    ensures
        listed_before(a, c),
{
    if text::before(a.0.display_name, b.0.display_name) && text::before(
        b.0.display_name,
        c.0.display_name,
    ) {
        text::lemma_before_transitive(a.0.display_name, b.0.display_name, c.0.display_name);
    }
    if text::before(a.0.id, b.0.id) && text::before(b.0.id, c.0.id) {
        text::lemma_before_transitive(a.0.id, b.0.id, c.0.id);
    }
}

/// Adds a line to a catalog that is in order.
fn insert_entry(catalog: &mut AccountCatalog, account: MailAccount, binding: EdsAccountBinding)
    requires
        old(catalog).accounts@.len() == old(catalog).bindings@.len(),
        in_catalog_order(old(catalog).entries()),
        !lists(old(catalog).entries(), account@.id),
    ensures
        final(catalog).accounts@.len() == final(catalog).bindings@.len(),
        in_catalog_order(final(catalog).entries()),
        final(catalog).entries().to_multiset() == old(catalog).entries().to_multiset().insert(
            (account@, binding@),
        ),
        forall|i: int|
            0 <= i < final(catalog).accounts@.len() ==> (#[trigger] final(catalog).accounts@[i])
                == account || old(catalog).accounts@.contains(final(catalog).accounts@[i]),
        forall|i: int|
            0 <= i < final(catalog).bindings@.len() ==> (#[trigger] final(catalog).bindings@[i])
                == binding || old(catalog).bindings@.contains(final(catalog).bindings@[i]),
{
    let ghost before = catalog.entries();
    let ghost held = catalog.accounts@;
    let ghost routes = catalog.bindings@;
    let ghost added = (account@, binding@);
    let mut position: usize = 0;
    while position < catalog.accounts.len() && (text::precedes(
        catalog.accounts[position].display_name(),
        account.display_name(),
    ) || (text::same(catalog.accounts[position].display_name(), account.display_name())
        && text::precedes(
        catalog.accounts[position].id().0.as_str(),
        account.id().0.as_str(),
    )))
        invariant
            position <= catalog.accounts@.len(),
            catalog.accounts@ == held,
            catalog.bindings@ == routes,
            before == catalog.entries(),
            added.0 == account@,
            forall|i: int| 0 <= i < position ==> listed_before(#[trigger] before[i], added),
        decreases catalog.accounts@.len() - position,
    {
        proof {
            assert(before[position as int].0 == catalog.accounts@[position as int]@);
        }
        position += 1;
    }
    catalog.accounts.insert(position, account);
    catalog.bindings.insert(position, binding);
    proof {
        let after = catalog.entries();
        assert(after =~= before.insert(position as int, added));
        vstd::seq_lib::to_multiset_insert(before, position as int, added);
        assert forall|i: int| position <= i < before.len() implies listed_before(
            added,
            #[trigger] before[i],
        ) by {
            let at = before[position as int];
            assert(at.0.id != added.0.id);
            text::lemma_before_total(at.0.display_name, added.0.display_name);
            text::lemma_before_total(at.0.id, added.0.id);
            if position < i {
                lemma_listed_before_is_transitive(added, at, before[i]);
            }
        }
        assert forall|i: int, j: int|
            #![trigger after[i], after[j]]
            0 <= i < j < after.len() implies listed_before(after[i], after[j]) by {
            if i == position {
                assert(after[j] == before[j - 1]);
            } else if j == position {
                assert(after[i] == before[i]);
            } else {
                let a = if i < position { i } else { i - 1 };
                let b = if j < position { j } else { j - 1 };
                assert(after[i] == before[a] && after[j] == before[b]);
            }
        }
        assert forall|i: int| 0 <= i < catalog.accounts@.len() implies (
        #[trigger] catalog.accounts@[i]) == account || held.contains(catalog.accounts@[i]) by {
            if i < position {
                assert(held[i] == catalog.accounts@[i]);
            } else if i > position {
                assert(held[i - 1] == catalog.accounts@[i]);
            }
        }
        assert forall|i: int| 0 <= i < catalog.bindings@.len() implies (
        #[trigger] catalog.bindings@[i]) == binding || routes.contains(catalog.bindings@[i]) by {
            if i < position {
                assert(routes[i] == catalog.bindings@[i]);
            } else if i > position {
                assert(routes[i - 1] == catalog.bindings@[i]);
            }
        }
    }
}

fn lists_account(accounts: &Vec<MailAccount>, id: &MailAccountId) -> (r: bool)
    ensures
        r == (exists|i: int| 0 <= i < accounts@.len() && (#[trigger] accounts@[i])@.id == id@),
{
    let mut i: usize = 0;
    while i < accounts.len()
        invariant
            i <= accounts.len(),
            forall|j: int| 0 <= j < i ==> (#[trigger] accounts@[j])@.id != id@,
        decreases accounts.len() - i,
    {
        if accounts[i].id().0 == id.0 {
            assert(accounts@[i as int]@.id == id@);
            return true;
        }
        i += 1;
    }
    false
}

/// Whether accounts can be made of the mail accounts of a snapshot, up to the first that
/// there is no catalog for.
pub open spec fn reached_are_readable(triplets: Seq<TripletView>) -> bool {
    forall|i: int|
        0 <= i < triplets.len() && entries_of(triplets.take(i)) is Ok ==> readable(
            #[trigger] triplets[i],
        )
}

/// Whether accounts can be made of the mail accounts of a snapshot, up to the first that
/// there is no catalog for.
pub fn snapshot_is_readable(snapshot: &Snapshot) -> (r: bool)
    ensures
        r == reached_are_readable(registry::triplet_views(snapshot.triplets@)),
{
    let ghost views = registry::triplet_views(snapshot.triplets@);
    let mut accounts: Vec<MailAccount> = Vec::new();
    let ghost mut entries: Seq<Entry> = Seq::empty();
    assert(views.take(0) =~= Seq::empty());
    let mut i: usize = 0;
    while i < snapshot.triplets.len()
        invariant
            i <= snapshot.triplets.len(),
            views == registry::triplet_views(snapshot.triplets@),
            entries_of(views.take(i as int)) == Ok::<Seq<Entry>, CatalogErrorView>(entries),
            accounts@.len() == entries.len(),
            forall|j: int| 0 <= j < entries.len() ==> (#[trigger] entries[j]).0 == accounts@[j]@,
            forall|j: int| 0 <= j < i ==> readable(#[trigger] views[j]),
        decreases snapshot.triplets.len() - i,
    {
        proof {
            assert(views.take(i + 1).drop_last() =~= views.take(i as int));
            assert(views.take(i + 1).last() == snapshot.triplets@[i as int]@);
        }
        if !triplet_is_readable(&snapshot.triplets[i]) {
            assert(!readable(views[i as int]));
            return false;
        }
        match account_from_triplet(&snapshot.triplets[i]) {
            Err(_) => {
                proof {
                    lemma_rest_is_not_reached(views, i + 1);
                }
                return true;
            },
            Ok(None) => {},
            Ok(Some(entry)) => {
                let (account, binding) = entry;
                proof {
                    assert(lists(entries, account@.id) <==> exists|j: int|
                        0 <= j < accounts@.len() && (#[trigger] accounts@[j])@.id == account@.id)
                        by {
                        if lists(entries, account@.id) {
                            let j = choose|j: int|
                                0 <= j < entries.len() && (#[trigger] entries[j]).0.id
                                    == account@.id;
                            assert(accounts@[j]@.id == account@.id);
                        }
                        if exists|j: int|
                            0 <= j < accounts@.len() && (#[trigger] accounts@[j])@.id
                                == account@.id {
                            let j = choose|j: int|
                                0 <= j < accounts@.len() && (#[trigger] accounts@[j])@.id
                                    == account@.id;
                            assert(entries[j].0.id == account@.id);
                        }
                    }
                    lemma_account_id(views[i as int]);
                }
                if lists_account(&accounts, account.id()) {
                    proof {
                        lemma_rest_is_not_reached(views, i + 1);
                    }
                    return true;
                }
                proof {
                    entries = entries.push((account@, binding@));
                }
                accounts.push(account);
            },
        }
        i += 1;
    }
    true
}

proof fn lemma_rest_is_not_reached(triplets: Seq<TripletView>, n: int)
    requires
        0 <= n <= triplets.len(),
        entries_of(triplets.take(n)) is Err,
        forall|i: int| 0 <= i < n ==> readable(#[trigger] triplets[i]),
    ensures
        reached_are_readable(triplets),
{
    assert forall|i: int|
        0 <= i < triplets.len() && entries_of(triplets.take(i)) is Ok implies readable(
        #[trigger] triplets[i],
    ) by {
        if i >= n {
            assert(triplets.take(i).take(n) =~= triplets.take(n));
            lemma_error_stays(triplets.take(i), n);
        }
    }
}

/// Whether a way to an account names the sources of one of the mail accounts.
pub open spec fn names_its_sources(
    binding: EdsAccountBinding,
    triplets: Seq<MailTriplet>,
) -> bool {
    exists|j: int|
        0 <= j < triplets.len() && (#[trigger] triplets[j]).identity is Some
            && triplets[j].transport is Some && binding.account_uid@ == triplets[j].account.uid@
            && binding.identity_uid@ == (triplets[j].identity->0).uid@
            && binding.transport_uid@ == (triplets[j].transport->0).uid@
}

/// Makes the catalog of the accounts in a snapshot.
pub fn from_registry(snapshot: &Snapshot) -> (result: Result<AccountCatalog, CatalogError>)
    requires
        reached_are_readable(registry::triplet_views(snapshot.triplets@)),
    ensures
        match (result, entries_of(registry::triplet_views(snapshot.triplets@))) {
            (Ok(catalog), Ok(entries)) => {
                &&& catalog.accounts@.len() == catalog.bindings@.len()
                &&& catalog.entries().to_multiset() == entries.to_multiset()
                &&& in_catalog_order(catalog.entries())
                &&& forall|i: int|
                    0 <= i < catalog.accounts@.len() ==> (#[trigger] catalog.accounts@[i])@.valid()
                &&& forall|i: int|
                    0 <= i < catalog.bindings@.len() ==> names_its_sources(
                        #[trigger] catalog.bindings@[i],
                        snapshot.triplets@,
                    )
            },
            (Err(error), Err(expected)) => error@ == expected,
            _ => false,
        },
{
    let ghost views = registry::triplet_views(snapshot.triplets@);
    let mut catalog = AccountCatalog { accounts: Vec::new(), bindings: Vec::new() };
    let ghost mut entries: Seq<Entry> = Seq::empty();
    proof {
        broadcast use vstd::seq_lib::group_to_multiset_ensures;

        assert(catalog.entries() =~= entries);
        assert(views.take(0) =~= Seq::empty());
    }
    let mut i: usize = 0;
    while i < snapshot.triplets.len()
        invariant
            i <= snapshot.triplets.len(),
            views == registry::triplet_views(snapshot.triplets@),
            reached_are_readable(views),
            entries_of(views.take(i as int)) == Ok::<Seq<Entry>, CatalogErrorView>(entries),
            catalog.accounts@.len() == catalog.bindings@.len(),
            catalog.entries().to_multiset() == entries.to_multiset(),
            in_catalog_order(catalog.entries()),
            forall|j: int|
                0 <= j < catalog.accounts@.len() ==> (#[trigger] catalog.accounts@[j])@.valid(),
            forall|j: int|
                0 <= j < catalog.bindings@.len() ==> names_its_sources(
                    #[trigger] catalog.bindings@[j],
                    snapshot.triplets@,
                ),
        decreases snapshot.triplets.len() - i,
    {
        proof {
            assert(views.take(i + 1).drop_last() =~= views.take(i as int));
            assert(views.take(i + 1).last() == snapshot.triplets@[i as int]@);
            assert(readable(views[i as int]));
        }
        match account_from_triplet(&snapshot.triplets[i]) {
            Err(error) => {
                proof {
                    lemma_error_stays(views, i + 1);
                }
                return Err(error);
            },
            Ok(None) => {},
            Ok(Some(entry)) => {
                let (account, binding) = entry;
                proof {
                    lemma_same_accounts(catalog.entries(), entries, account@.id);
                    assert(lists(catalog.entries(), account@.id) <==> exists|j: int|
                        0 <= j < catalog.accounts@.len() && (#[trigger] catalog.accounts@[j])@.id
                            == account@.id) by {
                        if lists(catalog.entries(), account@.id) {
                            let j = choose|j: int|
                                0 <= j < catalog.entries().len() && (#[trigger] catalog.entries()[j]).0.id
                                    == account@.id;
                            assert(catalog.accounts@[j]@.id == account@.id);
                        }
                        if exists|j: int|
                            0 <= j < catalog.accounts@.len() && (#[trigger] catalog.accounts@[j])@.id
                                == account@.id {
                            let j = choose|j: int|
                                0 <= j < catalog.accounts@.len() && (
                                #[trigger] catalog.accounts@[j])@.id == account@.id;
                            assert(catalog.entries()[j].0.id == account@.id);
                        }
                    }
                    lemma_account_id(views[i as int]);
                }
                if lists_account(&catalog.accounts, account.id()) {
                    proof {
                        lemma_error_stays(views, i + 1);
                    }
                    return Err(CatalogError::DuplicateRoute(account.id().0.clone()));
                }
                let ghost line = (account@, binding@);
                proof {
                    let source = snapshot.triplets@[i as int];
                    assert(source@.identity is Some && source@.transport is Some);
                    assert(names_its_sources(binding, snapshot.triplets@));
                }
                insert_entry(&mut catalog, account, binding);
                proof {
                    broadcast use vstd::seq_lib::group_to_multiset_ensures;

                    entries = entries.push(line);
                }
            },
        }
        i += 1;
    }
    assert(views.take(i as int) =~= views);
    Ok(catalog)
}

proof fn lemma_account_id(triplet: TripletView)
    requires
        presentable(triplet),
    ensures
        account_of(triplet).id == account::filled(triplet.goa_account_id)->0,
{
}

proof fn lemma_error_stays(triplets: Seq<TripletView>, n: int)
    requires
        0 <= n <= triplets.len(),
        entries_of(triplets.take(n)) is Err,
    ensures
        entries_of(triplets) == entries_of(triplets.take(n)),
    decreases triplets.len() - n,
{
    if n < triplets.len() {
        assert(triplets.take(n + 1).drop_last() =~= triplets.take(n));
        lemma_error_stays(triplets, n + 1);
    } else {
        assert(triplets.take(n) =~= triplets);
    }
}

proof fn lemma_same_accounts(a: Seq<Entry>, b: Seq<Entry>, id: Seq<char>)
    requires
        a.to_multiset() == b.to_multiset(),
    ensures
        lists(a, id) == lists(b, id),
{
    broadcast use vstd::seq_lib::group_to_multiset_ensures;

    if lists(a, id) {
        let i = choose|i: int| 0 <= i < a.len() && (#[trigger] a[i]).0.id == id;
        assert(a.contains(a[i]));
        assert(b.to_multiset().count(a[i]) > 0);
        assert(b.contains(a[i]));
        let j = choose|j: int| 0 <= j < b.len() && b[j] == a[i];
        assert(b[j].0.id == id);
    }
    if lists(b, id) {
        let i = choose|i: int| 0 <= i < b.len() && (#[trigger] b[i]).0.id == id;
        assert(b.contains(b[i]));
        assert(a.to_multiset().count(b[i]) > 0);
        assert(a.contains(b[i]));
        let j = choose|j: int| 0 <= j < a.len() && a[j] == b[i];
        assert(a[j].0.id == id);
    }
}

/// The mailboxes of the identities whose address is not `primary_key`.
pub open spec fn alias_mailboxes(aliases: Seq<IdentityView>, primary_key: Seq<char>) -> Seq<
    Seq<char>,
>
    decreases aliases.len(),
{
    if aliases.len() == 0 {
        Seq::empty()
    } else if aliases.last().key() == primary_key {
        alias_mailboxes(aliases.drop_last(), primary_key)
    } else {
        alias_mailboxes(aliases.drop_last(), primary_key).push(aliases.last().mailbox())
    }
}

/// What a source stores as the aliases of an account.
pub open spec fn serialized_aliases(account: AccountView) -> Option<Seq<char>> {
    let mailboxes = alias_mailboxes(
        account.aliases,
        address::normalized(account.primary_address),
    );
    if mailboxes.len() == 0 {
        None
    } else {
        Some(text::joined(mailboxes, ", "@))
    }
}

/// What a source stores as the aliases of an account.
pub fn serialize_identity_aliases(account: &MailAccount) -> (aliases: Option<String>)
    ensures
        text::view_opt(aliases) == serialized_aliases(account@),
{
    let ghost view = account@;
    let ghost primary_key = address::normalized(view.primary_address);
    let list = account.aliases();
    let mut mailboxes: Vec<String> = Vec::new();
    let mut i: usize = 0;
    while i < list.len()
        invariant
            i <= list@.len(),
            view == account@,
            primary_key == address::normalized(view.primary_address),
            account::identities(list@) == view.aliases,
            text::views(mailboxes@) == alias_mailboxes(view.aliases.take(i as int), primary_key),
        decreases list@.len() - i,
    {
        let ghost before = text::views(mailboxes@);
        proof {
            assert(view.aliases.take(i + 1).drop_last() =~= view.aliases.take(i as int));
            assert(view.aliases.take(i + 1).last() == list@[i as int]@);
        }
        if !account.is_primary_identity(list[i].address.as_str()) {
            let mailbox = list[i].mailbox();
            let ghost value = mailbox@;
            mailboxes.push(mailbox);
            assert(text::views(mailboxes@) =~= before.push(value));
        }
        i += 1;
    }
    assert(view.aliases.take(i as int) =~= view.aliases);
    if mailboxes.len() == 0 {
        None
    } else {
        Some(text::join(&mailboxes, ", "))
    }
}

/// Whether the addresses of the identities hold none of the characters that mean
/// something in a mailbox list.
pub open spec fn plain_addresses(aliases: Seq<IdentityView>) -> bool {
    forall|i: int|
        0 <= i < aliases.len() ==> address::is_plain(
            text::trimmed((#[trigger] aliases[i]).address),
        ) && text::trimmed(aliases[i].address).len() > 0
}

/// What a source stores as the aliases of an account splits into the mailboxes of these
/// aliases, whatever their names hold, and each is told apart as its identity is.
pub proof fn lemma_stored_aliases_are_read_back(account: AccountView)
    requires
        plain_addresses(account.aliases),
        serialized_aliases(account) is Some,
    ensures
        address::mailboxes_of(serialized_aliases(account)->0) == alias_mailboxes(
            account.aliases,
            address::normalized(account.primary_address),
        ),
{
    let primary_key = address::normalized(account.primary_address);
    lemma_alias_mailboxes_are_items(account.aliases, primary_key);
    address::lemma_joined_mailboxes_are_listed(alias_mailboxes(account.aliases, primary_key));
}

proof fn lemma_alias_mailboxes_are_items(aliases: Seq<IdentityView>, primary_key: Seq<char>)
    requires
        plain_addresses(aliases),
    ensures
        ({
            let list = alias_mailboxes(aliases, primary_key);
            &&& forall|i: int| 0 <= i < list.len() ==> address::is_whole(#[trigger] list[i])
            &&& forall|i: int|
                0 <= i < list.len() ==> (#[trigger] list[i]).len() > 0 && text::trimmed(list[i])
                    == list[i]
        }),
    decreases aliases.len(),
{
    if aliases.len() > 0 {
        let rest = aliases.drop_last();
        assert forall|i: int| 0 <= i < rest.len() implies address::is_plain(
            text::trimmed((#[trigger] rest[i]).address),
        ) && text::trimmed(rest[i].address).len() > 0 by {
            assert(rest[i] == aliases[i]);
        }
        lemma_alias_mailboxes_are_items(rest, primary_key);
        assert(aliases[aliases.len() - 1] == aliases.last());
        account::lemma_mailbox_is_one_item(aliases.last());
        let before = alias_mailboxes(rest, primary_key);
        let list = alias_mailboxes(aliases, primary_key);
        assert forall|i: int| 0 <= i < list.len() implies address::is_whole(#[trigger] list[i]) by {
            if i < before.len() {
                assert(list[i] == before[i]);
            }
        }
        assert forall|i: int| 0 <= i < list.len() implies (#[trigger] list[i]).len() > 0
            && text::trimmed(list[i]) == list[i] by {
            if i < before.len() {
                assert(list[i] == before[i]);
            }
        }
    }
}

/// What the identity source of an account stores.
#[derive(Debug, PartialEq, Eq)]
pub struct StoredIdentityRecord {
    pub name: Option<String>,
    pub reply_to: Option<String>,
    pub aliases: Option<String>,
    pub extension: Option<IdentityExtension>,
    pub extension_needs_rewrite: bool,
}

/// What an identity source stores, as a value.
#[verifier::ext_equal]
pub struct StoredRecordView {
    pub name: Option<Seq<char>>,
    pub reply_to: Option<Seq<char>>,
    pub aliases: Option<Seq<char>>,
    pub extension: Option<IdentityExtensionView>,
    pub extension_needs_rewrite: bool,
}

impl View for StoredIdentityRecord {
    type V = StoredRecordView;

    open spec fn view(&self) -> StoredRecordView {
        StoredRecordView {
            name: text::view_opt(self.name),
            reply_to: text::view_opt(self.reply_to),
            aliases: text::view_opt(self.aliases),
            extension: match self.extension {
                Some(value) => Some(value@),
                None => None,
            },
            extension_needs_rewrite: self.extension_needs_rewrite,
        }
    }
}

impl Clone for StoredIdentityRecord {
    fn clone(&self) -> (r: Self)
        ensures
            r@ == self@,
    {
        StoredIdentityRecord {
            name: text::clone_opt(&self.name),
            reply_to: text::clone_opt(&self.reply_to),
            aliases: text::clone_opt(&self.aliases),
            extension: match &self.extension {
                Some(value) => Some(value.clone()),
                None => None,
            },
            extension_needs_rewrite: self.extension_needs_rewrite,
        }
    }
}

/// What the identity source of an account is to store.
#[derive(Debug, PartialEq, Eq)]
pub struct DesiredIdentityRecord {
    pub name: Option<String>,
    pub reply_to: Option<String>,
    pub aliases: Option<String>,
    pub extension: IdentityExtension,
}

/// What an identity source is to store, as a value.
#[verifier::ext_equal]
pub struct DesiredRecordView {
    pub name: Option<Seq<char>>,
    pub reply_to: Option<Seq<char>>,
    pub aliases: Option<Seq<char>>,
    pub extension: IdentityExtensionView,
}

impl View for DesiredIdentityRecord {
    type V = DesiredRecordView;

    open spec fn view(&self) -> DesiredRecordView {
        DesiredRecordView {
            name: text::view_opt(self.name),
            reply_to: text::view_opt(self.reply_to),
            aliases: text::view_opt(self.aliases),
            extension: self.extension@,
        }
    }
}

impl Clone for DesiredIdentityRecord {
    fn clone(&self) -> (r: Self)
        ensures
            r@ == self@,
    {
        DesiredIdentityRecord {
            name: text::clone_opt(&self.name),
            reply_to: text::clone_opt(&self.reply_to),
            aliases: text::clone_opt(&self.aliases),
            extension: self.extension.clone(),
        }
    }
}

/// What `source` stores.
pub open spec fn stored_record(source: SourceView) -> StoredRecordView {
    StoredRecordView {
        name: account::filled(source.identity_name),
        reply_to: account::filled(source.identity_reply_to),
        aliases: account::filled(source.identity_aliases),
        extension: match source.identity_extension {
            registry::ExtensionStateView::Valid(loaded) => Some(loaded.extension),
            _ => None,
        },
        extension_needs_rewrite: source.identity_extension
            matches registry::ExtensionStateView::Valid(loaded) && loaded.needs_rewrite,
    }
}

/// What the identity source of `account` is to store.
pub open spec fn desired_record(
    account: AccountView,
    previous: Option<IdentityExtensionView>,
    fresh: Seq<Seq<char>>,
) -> DesiredRecordView {
    let primary = account.identity(account.primary_address)->0;
    DesiredRecordView {
        name: nonblank(primary.display_name),
        reply_to: account::filled(primary.reply_to),
        aliases: serialized_aliases(account),
        extension: extension_to_store(account, previous, fresh),
    }
}

/// Whether a source stores what it is to store.
pub open spec fn is_stored(desired: DesiredRecordView, stored: StoredRecordView) -> bool {
    !stored.extension_needs_rewrite && desired.name == stored.name && desired.reply_to
        == stored.reply_to && desired.aliases == stored.aliases && stored.extension == Some(
        desired.extension,
    )
}

impl StoredIdentityRecord {
    /// What `identity` stores.
    pub fn from_source(identity: &Source) -> (record: Self)
        ensures
            record@ == stored_record(identity@),
    {
        let extension = match identity.identity_extension.as_valid() {
            Some(extension) => Some(extension.clone()),
            None => None,
        };
        StoredIdentityRecord {
            name: nonempty_trimmed_opt(&identity.identity_name),
            reply_to: nonempty_trimmed_opt(&identity.identity_reply_to),
            aliases: nonempty_trimmed_opt(&identity.identity_aliases),
            extension,
            extension_needs_rewrite: identity.identity_extension.needs_rewrite(),
        }
    }
}

fn same_signature(left: &SignatureMetadata, right: &SignatureMetadata) -> (r: bool)
    ensures
        r == (left@ == right@),
{
    left.uid == right.uid && left.display_name == right.display_name && left.contents
        == right.contents && left.mime_type == right.mime_type
}

fn same_extension(left: &IdentityExtension, right: &IdentityExtension) -> (r: bool)
    ensures
        r == (left@ == right@),
{
    let ghost a = left@.identities;
    let ghost b = right@.identities;
    if left.account_label != right.account_label || left.default_address != right.default_address
        || left.identities.len() != right.identities.len() {
        assert(a.len() == left.identities@.len() && b.len() == right.identities@.len());
        return false;
    }
    let mut i: usize = 0;
    while i < left.identities.len()
        invariant
            i <= left.identities@.len(),
            left.identities@.len() == right.identities@.len(),
            a == registry::metadata_views(left.identities@),
            b == registry::metadata_views(right.identities@),
            a == left@.identities,
            b == right@.identities,
            forall|j: int| 0 <= j < i ==> a[j] == b[j],
        decreases left.identities@.len() - i,
    {
        let x = &left.identities[i];
        let y = &right.identities[i];
        if x.address != y.address || x.reply_to != y.reply_to || !same_signature(
            &x.signatures.html,
            &y.signatures.html,
        ) || !same_signature(&x.signatures.text, &y.signatures.text) {
            proof {
                assert(a[i as int] == x@);
                assert(b[i as int] == y@);
                assert(x@ != y@);
            }
            return false;
        }
        i += 1;
    }
    assert(a =~= b);
    true
}

impl DesiredIdentityRecord {
    /// What the identity source of `account` is to store. `previous` is what it stores,
    /// and `fresh` holds two unused names for each identity.
    pub fn from_account(
        account: &MailAccount,
        previous: Option<&IdentityExtension>,
        fresh: &Vec<String>,
    ) -> (record: Self)
        requires
            account@.valid(),
            fresh@.len() >= 2 * account@.aliases.len(),
        ensures
            record@ == desired_record(
                account@,
                match previous {
                    Some(previous) => Some(previous@),
                    None => None,
                },
                text::views(fresh@),
            ),
    {
        let primary = account.primary_identity();
        DesiredIdentityRecord {
            name: nonempty_trimmed(primary.display_name.as_str()),
            reply_to: nonempty_trimmed_opt(&primary.reply_to),
            aliases: serialize_identity_aliases(account),
            extension: identity_extension_from_account(account, previous, fresh),
        }
    }

    /// Whether a source stores what it is to store.
    pub fn matches(&self, stored: &StoredIdentityRecord) -> (r: bool)
        ensures
            r == is_stored(self@, stored@),
    {
        let same_stored = match &stored.extension {
            Some(extension) => same_extension(extension, &self.extension),
            None => false,
        };
        !stored.extension_needs_rewrite && text::same_opt(&self.name, &stored.name)
            && text::same_opt(&self.reply_to, &stored.reply_to) && text::same_opt(
            &self.aliases,
            &stored.aliases,
        ) && same_stored
    }
}

/// Why identities cannot be stored.
#[derive(Debug, PartialEq, Eq)]
pub enum SaveError {
    Catalog(CatalogError),
    /// The account is not in the catalog.
    AbsentAccount(String),
    /// The identity source of the account is gone.
    LostIdentity(String),
}

/// Why identities cannot be stored, as a value.
#[verifier::ext_equal]
pub enum SaveErrorView {
    Catalog(CatalogErrorView),
    AbsentAccount(Seq<char>),
    LostIdentity(Seq<char>),
}

impl View for SaveError {
    type V = SaveErrorView;

    open spec fn view(&self) -> SaveErrorView {
        match self {
            SaveError::Catalog(error) => SaveErrorView::Catalog(error@),
            SaveError::AbsentAccount(id) => SaveErrorView::AbsentAccount(id@),
            SaveError::LostIdentity(uid) => SaveErrorView::LostIdentity(uid@),
        }
    }
}

impl SaveError {
    /// What is reported.
    pub fn message(&self) -> (message: String)
        ensures
            self@ matches SaveErrorView::AbsentAccount(id) ==> message@ == "mail account '"@ + id
                + "' is absent from EDS"@,
            self@ matches SaveErrorView::LostIdentity(uid) ==> message@ == "EDS identity '"@ + uid
                + "' disappeared"@,
            self@ matches SaveErrorView::Catalog(CatalogErrorView::DuplicateRoute(id)) ==> message@
                == "EDS exposes more than one mail route for account '"@ + id + seq!['\''],
            self@ matches SaveErrorView::Catalog(CatalogErrorView::InvalidExtension(uid))
                ==> message@ == "EDS mail identity '"@ + uid
                + "' contains an invalid identity extension"@,
    {
        match self {
            SaveError::Catalog(error) => error.message(),
            SaveError::AbsentAccount(id) => {
                let mut message = "mail account '".to_owned();
                message.append(id.as_str());
                message.append("' is absent from EDS");
                message
            },
            SaveError::LostIdentity(uid) => {
                let mut message = "EDS identity '".to_owned();
                message.append(uid.as_str());
                message.append("' disappeared");
                message
            },
        }
    }
}

/// The way to the account `id`.
pub open spec fn route_of(entries: Seq<Entry>, id: Seq<char>) -> Option<BindingView>
    decreases entries.len(),
{
    if entries.len() == 0 {
        None
    } else {
        match route_of(entries.drop_last(), id) {
            Some(binding) => Some(binding),
            None => if entries.last().0.id == id {
                Some(entries.last().1)
            } else {
                None
            },
        }
    }
}

/// Whether no account is listed twice.
pub open spec fn unique_accounts(entries: Seq<Entry>) -> bool {
    forall|i: int, j: int|
        #![trigger entries[i], entries[j]]
        0 <= i < j < entries.len() ==> entries[i].0.id != entries[j].0.id
}

/// A catalog lists no account twice, and the way to an account is listed under the
/// name of the account.
pub proof fn lemma_catalog_lists_each_account_once(triplets: Seq<TripletView>)
    ensures
        entries_of(triplets) matches Ok(entries) ==> unique_accounts(entries) && forall|i: int|
            0 <= i < entries.len() ==> (#[trigger] entries[i]).1.account_id == entries[i].0.id,
    decreases triplets.len(),
{
    if triplets.len() > 0 {
        lemma_catalog_lists_each_account_once(triplets.drop_last());
        if let Ok(entries) = entries_of(triplets) {
            let before = entries_of(triplets.drop_last())->Ok_0;
            assert forall|i: int, j: int|
                #![trigger entries[i], entries[j]]
                0 <= i < j < entries.len() implies entries[i].0.id != entries[j].0.id by {
                assert(entries[i] == before[i]);
                if j < before.len() {
                    assert(entries[j] == before[j]);
                }
            }
            assert forall|i: int| 0 <= i < entries.len() implies (
            #[trigger] entries[i]).1.account_id == entries[i].0.id by {
                if i < before.len() {
                    assert(entries[i] == before[i]);
                }
            }
        }
    }
}

/// The way to an account is the one that its line names.
pub proof fn lemma_route_of(entries: Seq<Entry>, id: Seq<char>, i: int)
    requires
        unique_accounts(entries),
        0 <= i < entries.len(),
        entries[i].0.id == id,
    ensures
        route_of(entries, id) == Some(entries[i].1),
    decreases entries.len(),
{
    let rest = entries.drop_last();
    assert forall|a: int, b: int|
        #![trigger rest[a], rest[b]]
        0 <= a < b < rest.len() implies rest[a].0.id != rest[b].0.id by {
        assert(rest[a] == entries[a] && rest[b] == entries[b]);
    }
    if i < rest.len() {
        lemma_route_of(rest, id, i);
    } else {
        if route_of(rest, id) is Some {
            lemma_route_is_listed(rest, id);
            let j = choose|j: int| 0 <= j < rest.len() && (#[trigger] rest[j]).0.id == id;
            assert(entries[j].0.id == entries[i].0.id);
        }
    }
}

/// There is a way to an account just where it is listed.
pub proof fn lemma_route_is_listed(entries: Seq<Entry>, id: Seq<char>)
    ensures
        route_of(entries, id) is Some <==> lists(entries, id),
    decreases entries.len(),
{
    if entries.len() > 0 {
        let rest = entries.drop_last();
        lemma_route_is_listed(rest, id);
        if lists(rest, id) {
            let j = choose|j: int| 0 <= j < rest.len() && (#[trigger] rest[j]).0.id == id;
            assert(entries[j].0.id == id);
        }
        if entries.last().0.id == id {
            assert(entries[entries.len() - 1].0.id == id);
        }
        if lists(entries, id) && entries.last().0.id != id {
            let j = choose|j: int| 0 <= j < entries.len() && (#[trigger] entries[j]).0.id == id;
            assert(rest[j].0.id == id);
        }
    }
}

/// What has to be written to store the identities of `account`.
pub open spec fn update_of(
    account: AccountView,
    identity_uid: Seq<char>,
    desired: DesiredRecordView,
) -> UpdateView {
    let primary_key = (account.identity(account.primary_address)->0).key();
    let primary = metadata_of(desired.extension.identities, primary_key)->0;
    UpdateView {
        identity_uid,
        name: desired.name,
        reply_to: desired.reply_to,
        aliases: desired.aliases,
        account_label: desired.extension.account_label,
        default_address: desired.extension.default_address,
        primary_signature_uid: if is_signature_uid(primary.signatures.html.uid) {
            primary.signatures.html.uid
        } else {
            primary.signatures.text.uid
        },
        identities: desired.extension.identities,
    }
}

/// What has to be written for `account`: nothing where it is stored already.
pub open spec fn save_of(
    account: AccountView,
    entries: Seq<Entry>,
    triplets: Seq<TripletView>,
    fresh: Seq<Seq<char>>,
) -> Result<Option<UpdateView>, SaveErrorView> {
    match route_of(entries, account.id) {
        None => Err(SaveErrorView::AbsentAccount(account.id)),
        Some(binding) => match identity_write::identity_source(triplets, binding.identity_uid) {
            None => Err(SaveErrorView::LostIdentity(binding.identity_uid)),
            Some(source) => {
                let stored = stored_record(source);
                let desired = desired_record(account, stored.extension, fresh);
                if is_stored(desired, stored) {
                    Ok(None)
                } else {
                    Ok(Some(update_of(account, binding.identity_uid, desired)))
                }
            },
        },
    }
}

/// What has to be written for the accounts, in their order, or the first reason why
/// nothing can be written. The account that lives in memory is left out.
pub open spec fn saves_of(
    accounts: Seq<AccountView>,
    entries: Seq<Entry>,
    triplets: Seq<TripletView>,
    fresh: Seq<Seq<Seq<char>>>,
) -> Result<Seq<UpdateView>, SaveErrorView>
    decreases accounts.len(),
{
    if accounts.len() == 0 {
        Ok(Seq::empty())
    } else {
        match saves_of(accounts.drop_last(), entries, triplets, fresh) {
            Err(error) => Err(error),
            Ok(saves) => if accounts.last().id == stub::STUB_ACCOUNT_ID@ {
                Ok(saves)
            } else {
                match save_of(accounts.last(), entries, triplets, fresh[accounts.len() - 1]) {
                    Err(error) => Err(error),
                    Ok(None) => Ok(saves),
                    Ok(Some(update)) => Ok(saves.push(update)),
                }
            },
        }
    }
}

/// The values of a list of accounts.
pub open spec fn account_views(list: Seq<MailAccount>) -> Seq<AccountView> {
    list.map_values(|account: MailAccount| account@)
}

/// The values of lists of names.
pub open spec fn name_lists(list: Seq<Vec<String>>) -> Seq<Seq<Seq<char>>> {
    list.map_values(|names: Vec<String>| text::views(names@))
}

/// The values of a list of updates.
pub open spec fn update_views(list: Seq<IdentityUpdate>) -> Seq<UpdateView> {
    list.map_values(|update: IdentityUpdate| update@)
}

/// Whether all accounts live in memory alone.
pub open spec fn only_stubs(accounts: Seq<AccountView>) -> bool {
    forall|i: int| 0 <= i < accounts.len() ==> (#[trigger] accounts[i]).id == stub::STUB_ACCOUNT_ID@
}

fn find_binding(bindings: &Vec<EdsAccountBinding>, id: &MailAccountId) -> (found: Option<usize>)
    ensures
        match found {
            Some(i) => i < bindings@.len() && bindings@[i as int]@.account_id == id@,
            None => forall|i: int|
                0 <= i < bindings@.len() ==> (#[trigger] bindings@[i])@.account_id != id@,
        },
{
    let mut i: usize = 0;
    while i < bindings.len()
        invariant
            i <= bindings.len(),
            forall|j: int| 0 <= j < i ==> (#[trigger] bindings@[j])@.account_id != id@,
        decreases bindings.len() - i,
    {
        if bindings[i].account_id.0 == id.0 {
            return Some(i);
        }
        i += 1;
    }
    None
}

proof fn lemma_primary_metadata_exists(
    account: AccountView,
    previous: Option<IdentityExtensionView>,
    fresh: Seq<Seq<char>>,
)
    requires
        account.valid(),
    ensures
        metadata_of(
            extension_to_store(account, previous, fresh).identities,
            (account.identity(account.primary_address)->0).key(),
        ) is Some,
{
    let key = address::normalized(account.primary_address);
    let at = account::position_of(account.aliases, key);
    assert(account.aliases[at].key() == key);
    let identities = extension_to_store(account, previous, fresh).identities;
    assert(address::normalized(identities[at].address) == key);
    lemma_metadata_is_found(identities, key, at);
}

proof fn lemma_metadata_is_found(identities: Seq<IdentityMetadataView>, key: Seq<char>, i: int)
    requires
        0 <= i < identities.len(),
        address::normalized(identities[i].address) == key,
    ensures
        metadata_of(identities, key) is Some,
    decreases identities.len(),
{
    if i < identities.len() - 1 {
        lemma_metadata_is_found(identities.drop_last(), key, i);
    }
}

/// Works out what has to be written for one account.
fn plan_identity_save(
    account: &MailAccount,
    catalog: &AccountCatalog,
    snapshot: &Snapshot,
    fresh: &Vec<String>,
    Ghost(entries): Ghost<Seq<Entry>>,
) -> (result: Result<Option<IdentityUpdate>, SaveError>)
    requires
        account@.valid(),
        fresh@.len() >= 2 * account@.aliases.len(),
        catalog.accounts@.len() == catalog.bindings@.len(),
        catalog.entries().to_multiset() == entries.to_multiset(),
        unique_accounts(entries),
        forall|i: int|
            0 <= i < entries.len() ==> (#[trigger] entries[i]).1.account_id == entries[i].0.id,
    ensures
        match (
            result,
            save_of(
                account@,
                entries,
                registry::triplet_views(snapshot.triplets@),
                text::views(fresh@),
            ),
        ) {
            (Ok(Some(update)), Ok(Some(expected))) => update@ == expected,
            (Ok(None), Ok(None)) => true,
            (Err(error), Err(expected)) => error@ == expected,
            _ => false,
        },
{
    let found = find_binding(&catalog.bindings, account.id());
    proof {
        lemma_binding_is_route(catalog.entries(), entries, account@.id);
        match found {
            Some(at) => {
                assert(catalog.entries()[at as int].1.account_id == account@.id);
            },
            None => {
                assert forall|i: int| 0 <= i < catalog.entries().len() implies (
                #[trigger] catalog.entries()[i]).1.account_id != account@.id by {
                    assert(catalog.bindings@[i]@.account_id != account@.id);
                }
            },
        }
    }
    let binding = match found {
        Some(at) => &catalog.bindings[at],
        None => return Err(SaveError::AbsentAccount(account.id().0.clone())),
    };
    let source = match identity_write::find_identity_source(snapshot, binding.identity_uid.as_str()) {
        Some(source) => source,
        None => return Err(SaveError::LostIdentity(binding.identity_uid.clone())),
    };
    let stored = StoredIdentityRecord::from_source(source);
    let previous = match &stored.extension {
        Some(extension) => Some(extension),
        None => None,
    };
    let desired = DesiredIdentityRecord::from_account(account, previous, fresh);
    if desired.matches(&stored) {
        return Ok(None);
    }
    proof {
        lemma_primary_metadata_exists(account@, stored@.extension, text::views(fresh@));
    }
    let primary_key = address::normalized_mailbox_address(
        account.primary_identity().address.as_str(),
    );
    let at: usize = find_metadata(&desired.extension.identities, &primary_key).unwrap();
    let signatures = &desired.extension.identities[at].signatures;
    let primary_signature_uid = if registry::names_signature(signatures.html.uid.as_str()) {
        signatures.html.uid.clone()
    } else {
        signatures.text.uid.clone()
    };
    Ok(
        Some(
            IdentityUpdate {
                identity_uid: binding.identity_uid.clone(),
                name: desired.name,
                reply_to: desired.reply_to,
                aliases: desired.aliases,
                account_label: desired.extension.account_label,
                default_address: desired.extension.default_address,
                primary_signature_uid,
                identities: desired.extension.identities,
            },
        ),
    )
}

proof fn lemma_binding_is_route(catalog: Seq<Entry>, entries: Seq<Entry>, id: Seq<char>)
    requires
        catalog.to_multiset() == entries.to_multiset(),
        unique_accounts(entries),
        forall|i: int|
            0 <= i < entries.len() ==> (#[trigger] entries[i]).1.account_id == entries[i].0.id,
    ensures
        forall|i: int|
            0 <= i < catalog.len() && (#[trigger] catalog[i]).1.account_id == id ==> route_of(
                entries,
                id,
            ) == Some(catalog[i].1),
        (forall|i: int| 0 <= i < catalog.len() ==> (#[trigger] catalog[i]).1.account_id != id)
            ==> route_of(entries, id) is None,
{
    broadcast use vstd::seq_lib::group_to_multiset_ensures;

    assert forall|i: int|
        0 <= i < catalog.len() && (#[trigger] catalog[i]).1.account_id == id implies route_of(
        entries,
        id,
    ) == Some(catalog[i].1) by {
        assert(catalog.contains(catalog[i]));
        assert(entries.to_multiset().count(catalog[i]) > 0);
        assert(entries.contains(catalog[i]));
        let j = choose|j: int| 0 <= j < entries.len() && entries[j] == catalog[i];
        assert(entries[j].1.account_id == entries[j].0.id);
        lemma_route_of(entries, id, j);
    }
    if forall|i: int| 0 <= i < catalog.len() ==> (#[trigger] catalog[i]).1.account_id != id {
        lemma_route_is_listed(entries, id);
        if lists(entries, id) {
            let j = choose|j: int| 0 <= j < entries.len() && (#[trigger] entries[j]).0.id == id;
            assert(entries.contains(entries[j]));
            assert(catalog.to_multiset().count(entries[j]) > 0);
            assert(catalog.contains(entries[j]));
            let i = choose|i: int| 0 <= i < catalog.len() && catalog[i] == entries[j];
            assert(catalog[i].1.account_id == id);
        }
    }
}

/// Works out what has to be written to store the identities of the accounts. `fresh`
/// holds for each account two unused names for each of its identities. Where one
/// account cannot be stored, nothing is.
pub fn save_identities(
    accounts: &Vec<MailAccount>,
    snapshot: &Snapshot,
    fresh: &Vec<Vec<String>>,
) -> (result: Result<Vec<IdentityUpdate>, SaveError>)
    requires
        !only_stubs(account_views(accounts@)) ==> reached_are_readable(
            registry::triplet_views(snapshot.triplets@),
        ),
        forall|i: int| 0 <= i < accounts@.len() ==> (#[trigger] accounts@[i])@.valid(),
        fresh@.len() == accounts@.len(),
        forall|i: int|
            0 <= i < accounts@.len() ==> (#[trigger] fresh@[i])@.len() >= 2
                * accounts@[i]@.aliases.len(),
    ensures
        ({
            let triplets = registry::triplet_views(snapshot.triplets@);
            if only_stubs(account_views(accounts@)) {
                result matches Ok(updates) && updates@.len() == 0
            } else {
                match entries_of(triplets) {
                    Err(expected) => result matches Err(error) && error@ == SaveErrorView::Catalog(
                        expected,
                    ),
                    Ok(entries) => match (
                        result,
                        saves_of(
                            account_views(accounts@),
                            entries,
                            triplets,
                            name_lists(fresh@),
                        ),
                    ) {
                        (Ok(updates), Ok(expected)) => update_views(updates@) == expected,
                        (Err(error), Err(expected)) => error@ == expected,
                        _ => false,
                    },
                }
            }
        }),
{
    let ghost views = account_views(accounts@);
    let ghost triplets = registry::triplet_views(snapshot.triplets@);
    let ghost names = name_lists(fresh@);
    let mut updates: Vec<IdentityUpdate> = Vec::new();
    let mut nothing = true;
    let mut k: usize = 0;
    while k < accounts.len()
        invariant
            k <= accounts@.len(),
            views == account_views(accounts@),
            nothing == (forall|i: int|
                0 <= i < k ==> (#[trigger] views[i]).id == stub::STUB_ACCOUNT_ID@),
        decreases accounts@.len() - k,
    {
        assert(views[k as int] == accounts@[k as int]@);
        if !stub::is_stub_account_id(accounts[k].id()) {
            nothing = false;
        }
        k += 1;
    }
    if nothing {
        return Ok(updates);
    }
    let catalog = match from_registry(snapshot) {
        Ok(catalog) => catalog,
        Err(error) => return Err(SaveError::Catalog(error)),
    };
    let ghost entries = entries_of(triplets)->Ok_0;
    proof {
        lemma_catalog_lists_each_account_once(triplets);
        assert(views.take(0) =~= Seq::empty());
        assert(update_views(updates@) =~= Seq::empty());
    }
    let mut i: usize = 0;
    while i < accounts.len()
        invariant
            i <= accounts@.len(),
            views == account_views(accounts@),
            triplets == registry::triplet_views(snapshot.triplets@),
            names == name_lists(fresh@),
            forall|j: int| 0 <= j < accounts@.len() ==> (#[trigger] accounts@[j])@.valid(),
            fresh@.len() == accounts@.len(),
            forall|j: int|
                0 <= j < accounts@.len() ==> (#[trigger] fresh@[j])@.len() >= 2
                    * accounts@[j]@.aliases.len(),
            catalog.accounts@.len() == catalog.bindings@.len(),
            catalog.entries().to_multiset() == entries.to_multiset(),
            unique_accounts(entries),
            forall|j: int|
                0 <= j < entries.len() ==> (#[trigger] entries[j]).1.account_id == entries[j].0.id,
            entries_of(triplets) == Ok::<Seq<Entry>, CatalogErrorView>(entries),
            !only_stubs(views),
            saves_of(views.take(i as int), entries, triplets, names) == Ok::<
                Seq<UpdateView>,
                SaveErrorView,
            >(update_views(updates@)),
        decreases accounts@.len() - i,
    {
        let ghost before = update_views(updates@);
        proof {
            assert(views.take(i + 1).drop_last() =~= views.take(i as int));
            assert(views.take(i + 1).last() == accounts@[i as int]@);
            assert(names[i as int] == text::views(fresh@[i as int]@));
            assert(fresh@[i as int]@.len() >= 2 * accounts@[i as int]@.aliases.len());
        }
        if !stub::is_stub_account_id(accounts[i].id()) {
            match plan_identity_save(&accounts[i], &catalog, snapshot, &fresh[i], Ghost(entries)) {
                Err(error) => {
                    proof {
                        lemma_save_error_stays(views, entries, triplets, names, i + 1);
                    }
                    return Err(error);
                },
                Ok(None) => {},
                Ok(Some(update)) => {
                    let ghost value = update@;
                    updates.push(update);
                    assert(update_views(updates@) =~= before.push(value));
                },
            }
        }
        i += 1;
    }
    assert(views.take(i as int) =~= views);
    Ok(updates)
}

proof fn lemma_save_error_stays(
    accounts: Seq<AccountView>,
    entries: Seq<Entry>,
    triplets: Seq<TripletView>,
    fresh: Seq<Seq<Seq<char>>>,
    n: int,
)
    requires
        0 <= n <= accounts.len(),
        saves_of(accounts.take(n), entries, triplets, fresh) is Err,
    ensures
        saves_of(accounts, entries, triplets, fresh) == saves_of(
            accounts.take(n),
            entries,
            triplets,
            fresh,
        ),
    decreases accounts.len() - n,
{
    if n < accounts.len() {
        assert(accounts.take(n + 1).drop_last() =~= accounts.take(n));
        lemma_save_error_stays(accounts, entries, triplets, fresh, n + 1);
    } else {
        assert(accounts.take(n) =~= accounts);
    }
}

/// Once what is desired is stored, nothing has to be written any more: the stored
/// signatures are taken over as they are.
pub proof fn lemma_stored_identities_need_no_write(
    account: AccountView,
    previous: Option<IdentityExtensionView>,
    fresh: Seq<Seq<char>>,
    later: Seq<Seq<char>>,
)
    requires
        account.valid(),
        forall|i: int| 0 <= i < 2 * account.aliases.len() ==> is_signature_uid(#[trigger] fresh[i]),
    ensures
        ({
            let stored = desired_record(account, previous, fresh);
            is_stored(
                desired_record(account, Some(stored.extension), later),
                StoredRecordView {
                    name: stored.name,
                    reply_to: stored.reply_to,
                    aliases: stored.aliases,
                    extension: Some(stored.extension),
                    extension_needs_rewrite: false,
                },
            )
        }),
{
    let stored = extension_to_store(account, previous, fresh);
    let again = extension_to_store(account, Some(stored), later);
    let old_ones = match previous {
        Some(previous) => previous.identities,
        None => Seq::empty(),
    };
    assert forall|i: int| 0 <= i < account.aliases.len() implies again.identities[i]
        == stored.identities[i] by {
        let identity = account.aliases[i];
        lemma_metadata_of_stored(account, old_ones, fresh, i);
        let first = identity_to_store(account, i, old_ones, fresh);
        assert(stored.identities[i] == first);
        assert(metadata_of(stored.identities, identity.key()) == Some(first));
        assert(is_signature_uid(fresh[2 * i]));
        assert(is_signature_uid(fresh[2 * i + 1]));
    }
    assert(again.identities =~= stored.identities);
}

proof fn lemma_metadata_of_stored(
    account: AccountView,
    old_ones: Seq<IdentityMetadataView>,
    fresh: Seq<Seq<char>>,
    i: int,
)
    requires
        account.valid(),
        0 <= i < account.aliases.len(),
    ensures
        metadata_of(
            Seq::new(
                account.aliases.len(),
                |k: int| identity_to_store(account, k, old_ones, fresh),
            ),
            account.aliases[i].key(),
        ) == Some(identity_to_store(account, i, old_ones, fresh)),
{
    let list = Seq::new(
        account.aliases.len(),
        |k: int| identity_to_store(account, k, old_ones, fresh),
    );
    let key = account.aliases[i].key();
    assert forall|k: int| 0 <= k < list.len() && k != i implies address::normalized(
        (#[trigger] list[k]).address,
    ) != key by {
        if k < i {
            assert(account.aliases[k].key() != account.aliases[i].key());
        } else {
            assert(account.aliases[i].key() != account.aliases[k].key());
        }
    }
    lemma_only_metadata(list, key, i);
}

proof fn lemma_only_metadata(list: Seq<IdentityMetadataView>, key: Seq<char>, i: int)
    requires
        0 <= i < list.len(),
        address::normalized(list[i].address) == key,
        forall|k: int|
            0 <= k < list.len() && k != i ==> address::normalized((#[trigger] list[k]).address)
                != key,
    ensures
        metadata_of(list, key) == Some(list[i]),
    decreases list.len(),
{
    let rest = list.drop_last();
    if i < rest.len() {
        assert forall|k: int| 0 <= k < rest.len() && k != i implies address::normalized(
            (#[trigger] rest[k]).address,
        ) != key by {
            assert(rest[k] == list[k]);
        }
        lemma_only_metadata(rest, key, i);
    } else {
        assert forall|k: int| 0 <= k < rest.len() implies address::normalized(
            (#[trigger] rest[k]).address,
        ) != key by {
            assert(rest[k] == list[k]);
        }
        lemma_no_metadata(rest, key);
    }
}

proof fn lemma_no_metadata(list: Seq<IdentityMetadataView>, key: Seq<char>)
    requires
        forall|k: int|
            0 <= k < list.len() ==> address::normalized((#[trigger] list[k]).address) != key,
    ensures
        metadata_of(list, key) is None,
    decreases list.len(),
{
    if list.len() > 0 {
        let rest = list.drop_last();
        assert forall|k: int| 0 <= k < rest.len() implies address::normalized(
            (#[trigger] rest[k]).address,
        ) != key by {
            assert(rest[k] == list[k]);
        }
        lemma_no_metadata(rest, key);
        assert(address::normalized(list[list.len() - 1].address) != key);
    }
}

/// Whether the standard part of an identity source, as the account `standard`, holds what
/// `account` keeps there: the addresses with their names, and where answers to the primary
/// identity go.
pub open spec fn is_standard_part(standard: AccountView, account: AccountView) -> bool {
    &&& standard.valid()
    &&& standard.id == account.id
    &&& standard.primary_address == account.primary_address
    &&& forall|key: Seq<char>| #[trigger]
        account::has_key(standard.aliases, key) <==> account::has_key(account.aliases, key)
    &&& forall|i: int|
        #![trigger account.aliases[i]]
        0 <= i < account.aliases.len() ==> {
            let own = account.aliases[i];
            let kept = standard.aliases[account::position_of(standard.aliases, own.key())];
            &&& kept.address == own.address
            &&& kept.display_name == own.display_name
            &&& own.key() == address::normalized(account.primary_address) ==> kept.reply_to
                == own.reply_to
        }
}

proof fn lemma_last_metadata_of_stored(
    account: AccountView,
    old_ones: Seq<IdentityMetadataView>,
    fresh: Seq<Seq<char>>,
    n: int,
    i: int,
)
    requires
        account.valid(),
        0 <= i < n <= account.aliases.len(),
    ensures
        last_metadata_of(
            Seq::new(n as nat, |k: int| identity_to_store(account, k, old_ones, fresh)),
            account.aliases[i].key(),
        ) == Some(identity_to_store(account, i, old_ones, fresh)),
    decreases n,
{
    let list = Seq::new(n as nat, |k: int| identity_to_store(account, k, old_ones, fresh));
    let rest = Seq::new((n - 1) as nat, |k: int| identity_to_store(account, k, old_ones, fresh));
    assert(list.drop_last() =~= rest);
    if i < n - 1 {
        assert(account.aliases[i].key() != account.aliases[n - 1].key());
        lemma_last_metadata_of_stored(account, old_ones, fresh, n - 1, i);
    }
}

proof fn lemma_stored_identity_is_restored(
    standard: AccountView,
    account: AccountView,
    old_ones: Seq<IdentityMetadataView>,
    fresh: Seq<Seq<char>>,
    i: int,
)
    requires
        account.valid(),
        is_standard_part(standard, account),
        0 <= i < account.aliases.len(),
    ensures
        with_metadata(
            standard.aliases[account::position_of(standard.aliases, account.aliases[i].key())],
            Some(identity_to_store(account, i, old_ones, fresh)),
            account.aliases[i].key() == address::normalized(account.primary_address),
        ) == account.aliases[i],
{
    let own = account.aliases[i];
    let stored = identity_to_store(account, i, old_ones, fresh);
    assert(own.tidied() == own);
    text::lemma_trimmed_identity(Seq::empty());
    assert(stored.signatures.html.contents =~= own.signature.html);
    assert(stored.signatures.text.contents =~= own.signature.text);
    if own.key() != address::normalized(account.primary_address) {
        assert(nonblank(stored.reply_to) == own.reply_to);
    }
}

proof fn lemma_stored_order(
    standard: AccountView,
    account: AccountView,
    old_ones: Seq<IdentityMetadataView>,
    fresh: Seq<Seq<char>>,
    n: int,
)
    requires
        account.valid(),
        is_standard_part(standard, account),
        account.aliases[0].key() == address::normalized(account.primary_address),
        1 <= n <= account.aliases.len(),
    ensures
        ({
            let stored = Seq::new(
                account.aliases.len(),
                |k: int| identity_to_store(account, k, old_ones, fresh),
            );
            let primary_key = address::normalized(account.primary_address);
            arranged(
                extension_keys(primary_key, stored).take(n + 1),
                standard.aliases,
                stored,
                primary_key,
            ) == account.aliases.take(n)
        }),
    decreases n,
{
    let stored = Seq::new(
        account.aliases.len(),
        |k: int| identity_to_store(account, k, old_ones, fresh),
    );
    let primary_key = address::normalized(account.primary_address);
    let keys = extension_keys(primary_key, stored);
    assert forall|k: int| 0 <= k < account.aliases.len() implies #[trigger] keys[k + 1]
        == account.aliases[k].key() by {
        assert(stored[k].address == account.aliases[k].address);
    }
    let part = keys.take(n + 1);
    let rest = keys.take(n);
    assert(part.drop_last() =~= rest);
    if n == 1 {
        let first = keys.take(1);
        assert(first =~= seq![primary_key]);
        assert(first.drop_last() =~= Seq::empty());
        assert(keys[1] == primary_key);
        assert(rest.contains(rest[0]));
        assert(part.last() == primary_key);
        account::lemma_position_of(account.aliases, 0);
        assert(account::has_key(standard.aliases, primary_key));
        lemma_last_metadata_of_stored(
            account,
            old_ones,
            fresh,
            account.aliases.len() as int,
            0,
        );
        lemma_stored_identity_is_restored(standard, account, old_ones, fresh, 0);
        assert(arranged(Seq::empty(), standard.aliases, stored, primary_key) =~= Seq::empty());
        assert(arranged(first, standard.aliases, stored, primary_key) =~= account.aliases.take(1));
    } else {
        let i = n - 1;
        lemma_stored_order(standard, account, old_ones, fresh, n - 1);
        assert(part.last() == account.aliases[i].key());
        assert(!rest.contains(part.last())) by {
            if rest.contains(part.last()) {
                let k = choose|k: int| 0 <= k < rest.len() && rest[k] == part.last();
                if k == 0 {
                    assert(account.aliases[0].key() != account.aliases[i].key());
                } else {
                    assert(keys[(k - 1) + 1] == account.aliases[k - 1].key());
                    assert(account.aliases[k - 1].key() != account.aliases[i].key());
                }
            }
        }
        account::lemma_position_of(account.aliases, i);
        assert(account::has_key(standard.aliases, account.aliases[i].key()));
        lemma_last_metadata_of_stored(
            account,
            old_ones,
            fresh,
            account.aliases.len() as int,
            i,
        );
        lemma_stored_identity_is_restored(standard, account, old_ones, fresh, i);
        assert(account.aliases.take(n) =~= account.aliases.take(n - 1).push(account.aliases[i]));
    }
}

proof fn lemma_all_are_listed(standard: Seq<IdentityView>, keys: Seq<Seq<char>>)
    requires
        forall|i: int| 0 <= i < standard.len() ==> keys.contains((#[trigger] standard[i]).key()),
    ensures
        unlisted(standard, keys) == Seq::<IdentityView>::empty(),
    decreases standard.len(),
{
    if standard.len() > 0 {
        let rest = standard.drop_last();
        assert forall|i: int| 0 <= i < rest.len() implies keys.contains(
            (#[trigger] rest[i]).key(),
        ) by {
            assert(rest[i] == standard[i]);
        }
        assert(keys.contains(standard[standard.len() - 1].key()));
        lemma_all_are_listed(rest, keys);
    }
}

/// What was stored of an account gives the account back, whatever was stored before: the
/// extension, applied to the standard part of the source, restores the label, the order
/// of the identities, their reply addresses and signatures, and the default identity.
pub proof fn lemma_stored_extension_restores_the_account(
    standard: AccountView,
    account: AccountView,
    previous: Option<IdentityExtensionView>,
    fresh: Seq<Seq<char>>,
)
    requires
        account.valid(),
        account.aliases[0].key() == address::normalized(account.primary_address),
        text::trimmed(account.display_name) == account.display_name,
        account.display_name.len() > 0,
        is_standard_part(standard, account),
    ensures
        extended(standard, extension_to_store(account, previous, fresh)) == account,
{
    let extension = extension_to_store(account, previous, fresh);
    let old_ones = match previous {
        Some(previous) => previous.identities,
        None => Seq::empty(),
    };
    let stored = extension.identities;
    let n = account.aliases.len() as int;
    let primary_key = address::normalized(account.primary_address);
    let own = account::position_of(account.aliases, primary_key);
    assert(0 <= own < n);
    let at = account::position_of(standard.aliases, primary_key);
    assert(standard.aliases[at].key() == primary_key);
    assert(stored =~= Seq::new(
        account.aliases.len(),
        |k: int| identity_to_store(account, k, old_ones, fresh),
    ));
    let keys = extension_keys(primary_key, stored);
    lemma_stored_order(standard, account, old_ones, fresh, n);
    assert(keys.take(n + 1) =~= keys);
    assert(account.aliases.take(n) =~= account.aliases);
    assert forall|i: int| 0 <= i < standard.aliases.len() implies keys.contains(
        (#[trigger] standard.aliases[i]).key(),
    ) by {
        let key = standard.aliases[i].key();
        account::lemma_position_of(standard.aliases, i);
        assert(account::has_key(account.aliases, key));
        let k = account::position_of(account.aliases, key);
        assert(account.aliases[k].key() == key);
        assert(stored[k].address == account.aliases[k].address);
        assert(keys[k + 1] == key);
    }
    lemma_all_are_listed(standard.aliases, keys);
    let aliases = extended_aliases(standard.aliases, stored, primary_key);
    assert(aliases =~= account.aliases);
    assert(account::tidied_all(aliases) =~= account.aliases) by {
        assert forall|i: int| 0 <= i < n implies #[trigger] account::tidied_all(aliases)[i]
            == account.aliases[i] by {
            assert(account.aliases[i].tidied() == account.aliases[i]);
        }
    }
    let chosen = account::position_of(
        account.aliases,
        address::normalized(account.default_address),
    );
    assert(account.aliases[chosen].key() == address::normalized(account.default_address));
}

/// An account that is stored as it stands, and read again, is the same.
pub proof fn lemma_stored_account_is_read_back(
    account: AccountView,
    previous: Option<IdentityExtensionView>,
    fresh: Seq<Seq<char>>,
)
    requires
        account.valid(),
        account.aliases[0].key() == address::normalized(account.primary_address),
        text::trimmed(account.display_name) == account.display_name,
        account.display_name.len() > 0,
    ensures
        extended(account, extension_to_store(account, previous, fresh)) == account,
{
    assert forall|i: int|
        #![trigger account.aliases[i]]
        0 <= i < account.aliases.len() implies account::position_of(
        account.aliases,
        account.aliases[i].key(),
    ) == i by {
        account::lemma_position_of(account.aliases, i);
    }
    lemma_stored_extension_restores_the_account(account, account, previous, fresh);
}

} // verus!
