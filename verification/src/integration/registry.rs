//! Account sources and what the mail client reads out of them.
use crate::model::address;
use crate::text;
use std::collections::hash_map::DefaultHasher;
use std::hash::Hasher;
use vstd::prelude::*;
use vstd::std_specs::hash::DefaultHasherAdditionalSpecFns;
use vstd::string::StringSliceAdditionalSpecFns;

pub mod identity_write;

verus! {

/// One mailbox of an address list, taken apart.
#[derive(Debug, PartialEq, Eq)]
pub struct DecodedAddress {
    pub address: String,
    pub display_name: Option<String>,
}

/// A mailbox of an address list, as a value.
#[verifier::ext_equal]
pub struct DecodedAddressView {
    pub address: Seq<char>,
    pub display_name: Option<Seq<char>>,
}

impl View for DecodedAddress {
    type V = DecodedAddressView;

    open spec fn view(&self) -> DecodedAddressView {
        DecodedAddressView {
            address: self.address@,
            display_name: text::view_opt(self.display_name),
        }
    }
}

impl Clone for DecodedAddress {
    fn clone(&self) -> (r: Self)
        ensures
            r@ == self@,
    {
        DecodedAddress {
            address: self.address.clone(),
            display_name: text::clone_opt(&self.display_name),
        }
    }
}

/// The values of a list of mailboxes.
pub open spec fn decoded_views(list: Seq<DecodedAddress>) -> Seq<DecodedAddressView> {
    list.map_values(|item: DecodedAddress| item@)
}

/// A copy of a list of mailboxes.
pub fn clone_decoded(list: &Vec<DecodedAddress>) -> (r: Vec<DecodedAddress>)
    ensures
        decoded_views(r@) == decoded_views(list@),
{
    let mut r: Vec<DecodedAddress> = Vec::new();
    let mut i: usize = 0;
    while i < list.len()
        invariant
            i <= list.len(),
            decoded_views(r@) == decoded_views(list@).take(i as int),
        decreases list.len() - i,
    {
        let ghost prefix = decoded_views(r@);
        r.push(list[i].clone());
        assert(decoded_views(r@) =~= prefix.push(list@[i as int]@));
        assert(decoded_views(list@).take(i + 1) =~= prefix.push(list@[i as int]@));
        i += 1;
    }
    assert(decoded_views(list@).take(i as int) =~= decoded_views(list@));
    r
}

/// A signature as it is stored.
#[derive(Debug, PartialEq, Eq)]
pub struct SignatureMetadata {
    pub uid: String,
    pub display_name: String,
    pub contents: String,
    pub mime_type: String,
}

/// A stored signature, as a value.
#[verifier::ext_equal]
pub struct SignatureMetadataView {
    pub uid: Seq<char>,
    pub display_name: Seq<char>,
    pub contents: Seq<char>,
    pub mime_type: Seq<char>,
}

impl View for SignatureMetadata {
    type V = SignatureMetadataView;

    open spec fn view(&self) -> SignatureMetadataView {
        SignatureMetadataView {
            uid: self.uid@,
            display_name: self.display_name@,
            contents: self.contents@,
            mime_type: self.mime_type@,
        }
    }
}

impl Clone for SignatureMetadata {
    fn clone(&self) -> (r: Self)
        ensures
            r@ == self@,
    {
        SignatureMetadata {
            uid: self.uid.clone(),
            display_name: self.display_name.clone(),
            contents: self.contents.clone(),
            mime_type: self.mime_type.clone(),
        }
    }
}

/// The two stored forms of a signature.
#[derive(Debug, PartialEq, Eq)]
pub struct SignatureSources {
    pub html: SignatureMetadata,
    pub text: SignatureMetadata,
}

/// The two stored forms of a signature, as a value.
#[verifier::ext_equal]
pub struct SignatureSourcesView {
    pub html: SignatureMetadataView,
    pub text: SignatureMetadataView,
}

impl View for SignatureSources {
    type V = SignatureSourcesView;

    open spec fn view(&self) -> SignatureSourcesView {
        SignatureSourcesView {
            html: self.html@,
            text: self.text@,
        }
    }
}

impl Clone for SignatureSources {
    fn clone(&self) -> (r: Self)
        ensures
            r@ == self@,
    {
        SignatureSources {
            html: self.html.clone(),
            text: self.text.clone(),
        }
    }
}

/// What is stored of an identity beside its address and name.
#[derive(Debug, PartialEq, Eq)]
pub struct IdentityMetadata {
    pub address: String,
    pub reply_to: String,
    pub signatures: SignatureSources,
}

/// What is stored of an identity, as a value.
#[verifier::ext_equal]
pub struct IdentityMetadataView {
    pub address: Seq<char>,
    pub reply_to: Seq<char>,
    pub signatures: SignatureSourcesView,
}

impl View for IdentityMetadata {
    type V = IdentityMetadataView;

    open spec fn view(&self) -> IdentityMetadataView {
        IdentityMetadataView {
            address: self.address@,
            reply_to: self.reply_to@,
            signatures: self.signatures@,
        }
    }
}

impl Clone for IdentityMetadata {
    fn clone(&self) -> (r: Self)
        ensures
            r@ == self@,
    {
        IdentityMetadata {
            address: self.address.clone(),
            reply_to: self.reply_to.clone(),
            signatures: self.signatures.clone(),
        }
    }
}

/// The values of a list of stored identities.
pub open spec fn metadata_views(list: Seq<IdentityMetadata>) -> Seq<IdentityMetadataView> {
    list.map_values(|item: IdentityMetadata| item@)
}

/// A copy of a list of stored identities.
pub fn clone_metadata(list: &Vec<IdentityMetadata>) -> (r: Vec<IdentityMetadata>)
    ensures
        metadata_views(r@) == metadata_views(list@),
{
    let mut r: Vec<IdentityMetadata> = Vec::new();
    let mut i: usize = 0;
    while i < list.len()
        invariant
            i <= list.len(),
            metadata_views(r@) == metadata_views(list@).take(i as int),
        decreases list.len() - i,
    {
        let ghost prefix = metadata_views(r@);
        r.push(list[i].clone());
        assert(metadata_views(r@) =~= prefix.push(list@[i as int]@));
        assert(metadata_views(list@).take(i + 1) =~= prefix.push(list@[i as int]@));
        i += 1;
    }
    assert(metadata_views(list@).take(i as int) =~= metadata_views(list@));
    r
}

/// What is stored of the identities of an account.
#[derive(Debug, PartialEq, Eq)]
pub struct IdentityExtension {
    pub account_label: String,
    pub default_address: String,
    pub identities: Vec<IdentityMetadata>,
}

/// What is stored of the identities of an account, as a value.
#[verifier::ext_equal]
pub struct IdentityExtensionView {
    pub account_label: Seq<char>,
    pub default_address: Seq<char>,
    pub identities: Seq<IdentityMetadataView>,
}

impl View for IdentityExtension {
    type V = IdentityExtensionView;

    open spec fn view(&self) -> IdentityExtensionView {
        IdentityExtensionView {
            account_label: self.account_label@,
            default_address: self.default_address@,
            identities: metadata_views(self.identities@),
        }
    }
}

impl Clone for IdentityExtension {
    fn clone(&self) -> (r: Self)
        ensures
            r@ == self@,
    {
        IdentityExtension {
            account_label: self.account_label.clone(),
            default_address: self.default_address.clone(),
            identities: clone_metadata(&self.identities),
        }
    }
}

/// What was read of the identities of an account.
#[derive(Debug, PartialEq, Eq)]
pub struct LoadedIdentityExtension {
    pub extension: IdentityExtension,
    pub needs_rewrite: bool,
}

/// What was read of the identities of an account, as a value.
#[verifier::ext_equal]
pub struct LoadedExtensionView {
    pub extension: IdentityExtensionView,
    pub needs_rewrite: bool,
}

impl View for LoadedIdentityExtension {
    type V = LoadedExtensionView;

    open spec fn view(&self) -> LoadedExtensionView {
        LoadedExtensionView {
            extension: self.extension@,
            needs_rewrite: self.needs_rewrite,
        }
    }
}

impl Clone for LoadedIdentityExtension {
    fn clone(&self) -> (r: Self)
        ensures
            r@ == self@,
    {
        LoadedIdentityExtension {
            extension: self.extension.clone(),
            needs_rewrite: self.needs_rewrite,
        }
    }
}

/// Whether an account stores anything of its identities, and whether it can be used.
#[derive(Debug, PartialEq, Eq, Default)]
pub enum IdentityExtensionState {
    #[default]
    Absent,
    Valid(LoadedIdentityExtension),
    Invalid,
}

/// The state of the stored identities, as a value.
#[verifier::ext_equal]
pub enum ExtensionStateView {
    Absent,
    Valid(LoadedExtensionView),
    Invalid,
}

impl View for IdentityExtensionState {
    type V = ExtensionStateView;

    open spec fn view(&self) -> ExtensionStateView {
        match self {
            IdentityExtensionState::Absent => ExtensionStateView::Absent,
            IdentityExtensionState::Valid(loaded) => ExtensionStateView::Valid(loaded@),
            IdentityExtensionState::Invalid => ExtensionStateView::Invalid,
        }
    }
}

impl Clone for IdentityExtensionState {
    fn clone(&self) -> (r: Self)
        ensures
            r@ == self@,
    {
        match self {
            IdentityExtensionState::Absent => IdentityExtensionState::Absent,
            IdentityExtensionState::Valid(loaded) => IdentityExtensionState::Valid(loaded.clone()),
            IdentityExtensionState::Invalid => IdentityExtensionState::Invalid,
        }
    }
}

impl IdentityExtensionState {
    /// What can be used of the stored identities.
    pub fn as_valid(&self) -> (extension: Option<&IdentityExtension>)
        ensures
            match self@ {
                ExtensionStateView::Valid(loaded) => extension matches Some(found) && found@
                    == loaded.extension,
                _ => extension is None,
            },
    {
        match self {
            IdentityExtensionState::Valid(loaded) => Some(&loaded.extension),
            _ => None,
        }
    }

    /// Whether more was stored than can be used.
    pub fn needs_rewrite(&self) -> (r: bool)
        ensures
            r == (self@ matches ExtensionStateView::Valid(loaded) && loaded.needs_rewrite),
    {
        match self {
            IdentityExtensionState::Valid(loaded) => loaded.needs_rewrite,
            _ => false,
        }
    }
}

/// One source of a mail account.
#[derive(Debug, Default)]
pub struct Source {
    pub uid: String,
    pub parent: Option<String>,
    pub enabled: bool,
    pub identity_name: Option<String>,
    pub identity_address: Option<String>,
    pub identity_reply_to: Option<String>,
    pub identity_aliases: Option<String>,
    pub identity_alias_addresses: Vec<DecodedAddress>,
    pub identity_signature: Option<SignatureMetadata>,
    pub identity_extension: IdentityExtensionState,
    pub backend_name: Option<String>,
    pub auth_method: Option<String>,
    pub mailbox_configuration_hash: u64,
    pub configuration_hash: u64,
}

/// A source of a mail account, as a value.
#[verifier::ext_equal]
pub struct SourceView {
    pub uid: Seq<char>,
    pub parent: Option<Seq<char>>,
    pub enabled: bool,
    pub identity_name: Option<Seq<char>>,
    pub identity_address: Option<Seq<char>>,
    pub identity_reply_to: Option<Seq<char>>,
    pub identity_aliases: Option<Seq<char>>,
    pub identity_alias_addresses: Seq<DecodedAddressView>,
    pub identity_signature: Option<SignatureMetadataView>,
    pub identity_extension: ExtensionStateView,
    pub backend_name: Option<Seq<char>>,
    pub auth_method: Option<Seq<char>>,
    pub mailbox_configuration_hash: u64,
    pub configuration_hash: u64,
}

impl View for Source {
    type V = SourceView;

    open spec fn view(&self) -> SourceView {
        SourceView {
            uid: self.uid@,
            parent: text::view_opt(self.parent),
            enabled: self.enabled,
            identity_name: text::view_opt(self.identity_name),
            identity_address: text::view_opt(self.identity_address),
            identity_reply_to: text::view_opt(self.identity_reply_to),
            identity_aliases: text::view_opt(self.identity_aliases),
            identity_alias_addresses: decoded_views(self.identity_alias_addresses@),
            identity_signature: match self.identity_signature {
                Some(value) => Some(value@),
                None => None,
            },
            identity_extension: self.identity_extension@,
            backend_name: text::view_opt(self.backend_name),
            auth_method: text::view_opt(self.auth_method),
            mailbox_configuration_hash: self.mailbox_configuration_hash,
            configuration_hash: self.configuration_hash,
        }
    }
}

impl Clone for Source {
    fn clone(&self) -> (r: Self)
        ensures
            r@ == self@,
    {
        Source {
            uid: self.uid.clone(),
            parent: text::clone_opt(&self.parent),
            enabled: self.enabled,
            identity_name: text::clone_opt(&self.identity_name),
            identity_address: text::clone_opt(&self.identity_address),
            identity_reply_to: text::clone_opt(&self.identity_reply_to),
            identity_aliases: text::clone_opt(&self.identity_aliases),
            identity_alias_addresses: clone_decoded(&self.identity_alias_addresses),
            identity_signature: match &self.identity_signature {
                Some(value) => Some(value.clone()),
                None => None,
            },
            identity_extension: self.identity_extension.clone(),
            backend_name: text::clone_opt(&self.backend_name),
            auth_method: text::clone_opt(&self.auth_method),
            mailbox_configuration_hash: self.mailbox_configuration_hash,
            configuration_hash: self.configuration_hash,
        }
    }
}

/// The sources that make up one mail account.
#[derive(Debug)]
pub struct MailTriplet {
    pub account: Source,
    pub identity: Option<Source>,
    pub transport: Option<Source>,
    pub goa_account_id: Option<String>,
    pub goa_name: Option<String>,
    pub mail_enabled: Option<bool>,
}

/// The sources of a mail account, as a value.
#[verifier::ext_equal]
pub struct TripletView {
    pub account: SourceView,
    pub identity: Option<SourceView>,
    pub transport: Option<SourceView>,
    pub goa_account_id: Option<Seq<char>>,
    pub goa_name: Option<Seq<char>>,
    pub mail_enabled: Option<bool>,
}

impl View for MailTriplet {
    type V = TripletView;

    open spec fn view(&self) -> TripletView {
        TripletView {
            account: self.account@,
            identity: match self.identity {
                Some(value) => Some(value@),
                None => None,
            },
            transport: match self.transport {
                Some(value) => Some(value@),
                None => None,
            },
            goa_account_id: text::view_opt(self.goa_account_id),
            goa_name: text::view_opt(self.goa_name),
            mail_enabled: self.mail_enabled,
        }
    }
}

impl Clone for MailTriplet {
    fn clone(&self) -> (r: Self)
        ensures
            r@ == self@,
    {
        MailTriplet {
            account: self.account.clone(),
            identity: match &self.identity {
                Some(value) => Some(value.clone()),
                None => None,
            },
            transport: match &self.transport {
                Some(value) => Some(value.clone()),
                None => None,
            },
            goa_account_id: text::clone_opt(&self.goa_account_id),
            goa_name: text::clone_opt(&self.goa_name),
            mail_enabled: self.mail_enabled,
        }
    }
}

/// The values of a list of triplets.
pub open spec fn triplet_views(list: Seq<MailTriplet>) -> Seq<TripletView> {
    list.map_values(|item: MailTriplet| item@)
}

/// All mail accounts at one time.
#[derive(Debug, Clone, Default)]
pub struct Snapshot {
    pub triplets: Vec<MailTriplet>,
}

/// What one source says by itself.
#[derive(Debug)]
pub struct SourceInfo {
    pub uid: String,
    pub parent: Option<String>,
    pub enabled: bool,
    pub direct_goa_account_id: Option<String>,
    pub direct_goa_name: Option<String>,
    pub direct_collection_mail_enabled: Option<bool>,
    pub direct_mail_account_backend_name: Option<String>,
    pub direct_mail_transport_backend_name: Option<String>,
    pub direct_identity_uid: Option<String>,
    pub direct_transport_uid: Option<String>,
    pub direct_name: Option<String>,
    pub direct_address: Option<String>,
    pub direct_reply_to: Option<String>,
    pub direct_aliases: Option<String>,
    pub direct_alias_addresses: Vec<DecodedAddress>,
    pub direct_signature: Option<SignatureMetadata>,
    pub direct_identity_extension: IdentityExtensionState,
    pub direct_auth_method: Option<String>,
    pub mailbox_configuration_hash: u64,
    pub serialized_configuration: String,
    pub is_account: bool,
    pub is_identity: bool,
    pub is_transport: bool,
}

/// What a source says by itself, as a value.
#[verifier::ext_equal]
pub struct InfoView {
    pub uid: Seq<char>,
    pub parent: Option<Seq<char>>,
    pub enabled: bool,
    pub direct_goa_account_id: Option<Seq<char>>,
    pub direct_goa_name: Option<Seq<char>>,
    pub direct_collection_mail_enabled: Option<bool>,
    pub direct_mail_account_backend_name: Option<Seq<char>>,
    pub direct_mail_transport_backend_name: Option<Seq<char>>,
    pub direct_identity_uid: Option<Seq<char>>,
    pub direct_transport_uid: Option<Seq<char>>,
    pub direct_name: Option<Seq<char>>,
    pub direct_address: Option<Seq<char>>,
    pub direct_reply_to: Option<Seq<char>>,
    pub direct_aliases: Option<Seq<char>>,
    pub direct_alias_addresses: Seq<DecodedAddressView>,
    pub direct_signature: Option<SignatureMetadataView>,
    pub direct_identity_extension: ExtensionStateView,
    pub direct_auth_method: Option<Seq<char>>,
    pub mailbox_configuration_hash: u64,
    pub serialized_configuration: Seq<char>,
    pub is_account: bool,
    pub is_identity: bool,
    pub is_transport: bool,
}

impl View for SourceInfo {
    type V = InfoView;

    open spec fn view(&self) -> InfoView {
        InfoView {
            uid: self.uid@,
            parent: text::view_opt(self.parent),
            enabled: self.enabled,
            direct_goa_account_id: text::view_opt(self.direct_goa_account_id),
            direct_goa_name: text::view_opt(self.direct_goa_name),
            direct_collection_mail_enabled: self.direct_collection_mail_enabled,
            direct_mail_account_backend_name: text::view_opt(self.direct_mail_account_backend_name),
            direct_mail_transport_backend_name: text::view_opt(self.direct_mail_transport_backend_name),
            direct_identity_uid: text::view_opt(self.direct_identity_uid),
            direct_transport_uid: text::view_opt(self.direct_transport_uid),
            direct_name: text::view_opt(self.direct_name),
            direct_address: text::view_opt(self.direct_address),
            direct_reply_to: text::view_opt(self.direct_reply_to),
            direct_aliases: text::view_opt(self.direct_aliases),
            direct_alias_addresses: decoded_views(self.direct_alias_addresses@),
            direct_signature: match self.direct_signature {
                Some(value) => Some(value@),
                None => None,
            },
            direct_identity_extension: self.direct_identity_extension@,
            direct_auth_method: text::view_opt(self.direct_auth_method),
            mailbox_configuration_hash: self.mailbox_configuration_hash,
            serialized_configuration: self.serialized_configuration@,
            is_account: self.is_account,
            is_identity: self.is_identity,
            is_transport: self.is_transport,
        }
    }
}

impl Clone for SourceInfo {
    fn clone(&self) -> (r: Self)
        ensures
            r@ == self@,
    {
        SourceInfo {
            uid: self.uid.clone(),
            parent: text::clone_opt(&self.parent),
            enabled: self.enabled,
            direct_goa_account_id: text::clone_opt(&self.direct_goa_account_id),
            direct_goa_name: text::clone_opt(&self.direct_goa_name),
            direct_collection_mail_enabled: self.direct_collection_mail_enabled,
            direct_mail_account_backend_name: text::clone_opt(&self.direct_mail_account_backend_name),
            direct_mail_transport_backend_name: text::clone_opt(&self.direct_mail_transport_backend_name),
            direct_identity_uid: text::clone_opt(&self.direct_identity_uid),
            direct_transport_uid: text::clone_opt(&self.direct_transport_uid),
            direct_name: text::clone_opt(&self.direct_name),
            direct_address: text::clone_opt(&self.direct_address),
            direct_reply_to: text::clone_opt(&self.direct_reply_to),
            direct_aliases: text::clone_opt(&self.direct_aliases),
            direct_alias_addresses: clone_decoded(&self.direct_alias_addresses),
            direct_signature: match &self.direct_signature {
                Some(value) => Some(value.clone()),
                None => None,
            },
            direct_identity_extension: self.direct_identity_extension.clone(),
            direct_auth_method: text::clone_opt(&self.direct_auth_method),
            mailbox_configuration_hash: self.mailbox_configuration_hash,
            serialized_configuration: self.serialized_configuration.clone(),
            is_account: self.is_account,
            is_identity: self.is_identity,
            is_transport: self.is_transport,
        }
    }
}

/// The values of a list of sources.
pub open spec fn info_views(list: Seq<SourceInfo>) -> Seq<InfoView> {
    list.map_values(|info: SourceInfo| info@)
}

/// The source `uid`. Of two sources with one name the later counts.
pub open spec fn lookup(infos: Seq<InfoView>, uid: Seq<char>) -> Option<InfoView>
    decreases infos.len(),
{
    if infos.len() == 0 {
        None
    } else if infos.last().uid == uid {
        Some(infos.last())
    } else {
        lookup(infos.drop_last(), uid)
    }
}

/// The source that `info` names as its parent.
pub open spec fn parent_of(infos: Seq<InfoView>, info: InfoView) -> Option<InfoView> {
    match info.parent {
        Some(uid) => lookup(infos, uid),
        None => None,
    }
}

/// The source `k` steps above `info`.
pub open spec fn ancestor(infos: Seq<InfoView>, info: InfoView, k: nat) -> Option<InfoView>
    decreases k,
{
    if k == 0 {
        Some(info)
    } else {
        match ancestor(infos, info, (k - 1) as nat) {
            Some(below) => parent_of(infos, below),
            None => None,
        }
    }
}

/// A value that a source has from the nearest source above it, if it has none itself.
#[derive(Clone, Copy, PartialEq, Eq, Structural)]
pub enum InheritedField {
    GoaAccountId,
    GoaName,
    MailEnabled,
}

/// Whether `info` itself says something of `field`.
pub open spec fn says(info: InfoView, field: InheritedField) -> bool {
    match field {
        InheritedField::GoaAccountId => info.direct_goa_account_id is Some,
        InheritedField::GoaName => info.direct_goa_name is Some,
        InheritedField::MailEnabled => info.direct_collection_mail_enabled is Some,
    }
}

/// Whether the source `k` steps above `info` says something of `field`.
pub open spec fn says_at(
    infos: Seq<InfoView>,
    info: InfoView,
    field: InheritedField,
    k: nat,
) -> bool {
    match ancestor(infos, info, k) {
        Some(source) => says(source, field),
        None => false,
    }
}

/// Whether the source `k` steps above `info` is the nearest that says something of
/// `field`.
pub open spec fn nearest_at(
    infos: Seq<InfoView>,
    info: InfoView,
    field: InheritedField,
    k: nat,
) -> bool {
    &&& says_at(infos, info, field, k)
    &&& forall|j: nat| j < k ==> !#[trigger] says_at(infos, info, field, j)
}

/// The nearest of `info` and the sources above it that says something of `field`.
pub open spec fn nearest(infos: Seq<InfoView>, info: InfoView, field: InheritedField) -> Option<
    InfoView,
> {
    if exists|k: nat| nearest_at(infos, info, field, k) {
        ancestor(infos, info, choose|k: nat| nearest_at(infos, info, field, k))
    } else {
        None
    }
}

/// The account at the online service that owns `info`.
pub open spec fn inherited_goa_account_id(infos: Seq<InfoView>, info: InfoView) -> Option<
    Seq<char>,
> {
    match nearest(infos, info, InheritedField::GoaAccountId) {
        Some(source) => source.direct_goa_account_id,
        None => None,
    }
}

/// The name that the online service has for the account of `info`.
pub open spec fn inherited_goa_name(infos: Seq<InfoView>, info: InfoView) -> Option<Seq<char>> {
    match nearest(infos, info, InheritedField::GoaName) {
        Some(source) => source.direct_goa_name,
        None => None,
    }
}

/// Whether mail is switched on in the collection of `info`.
pub open spec fn inherited_mail_enabled(infos: Seq<InfoView>, info: InfoView) -> Option<bool> {
    match nearest(infos, info, InheritedField::MailEnabled) {
        Some(source) => source.direct_collection_mail_enabled,
        None => None,
    }
}

/// Where the source `uid` stands.
fn find_info(infos: &Vec<SourceInfo>, uid: &str) -> (found: Option<usize>)
    ensures
        match found {
            Some(i) => i < infos@.len() && lookup(info_views(infos@), uid@) == Some(
                infos@[i as int]@,
            ),
            None => lookup(info_views(infos@), uid@) is None,
        },
{
    let ghost views = info_views(infos@);
    let mut i: usize = infos.len();
    assert(views.take(i as int) =~= views);
    while i > 0
        invariant
            i <= infos.len(),
            views == info_views(infos@),
            lookup(views, uid@) == lookup(views.take(i as int), uid@),
        decreases i,
    {
        assert(views.take(i as int).drop_last() =~= views.take(i - 1));
        assert(views.take(i as int).last() == infos@[i - 1]@);
        if text::same(infos[i - 1].uid.as_str(), uid) {
            return Some(i - 1);
        }
        i -= 1;
    }
    None
}

proof fn lemma_lookup_names_the_source(infos: Seq<InfoView>, uid: Seq<char>)
    ensures
        lookup(infos, uid) matches Some(info) ==> info.uid == uid && infos.contains(info),
    decreases infos.len(),
{
    if infos.len() > 0 {
        if infos.last().uid == uid {
            assert(infos[infos.len() - 1] == infos.last());
        } else {
            lemma_lookup_names_the_source(infos.drop_last(), uid);
            if let Some(info) = lookup(infos.drop_last(), uid) {
                let i = choose|i: int| 0 <= i < infos.len() - 1 && infos.drop_last()[i] == info;
                assert(infos[i] == info);
            }
        }
    }
}

/// Names that differ and are all found are at most as many as there are sources.
proof fn lemma_distinct_names_are_few(infos: Seq<InfoView>, names: Seq<Seq<char>>)
    requires
        names.no_duplicates(),
        forall|i: int| 0 <= i < names.len() ==> lookup(infos, #[trigger] names[i]) is Some,
    ensures
        names.len() <= infos.len(),
{
    let uids = infos.map_values(|info: InfoView| info.uid);
    assert forall|name: Seq<char>| names.to_set().contains(name) implies uids.to_set().contains(
        name,
    ) by {
        let i = choose|i: int| 0 <= i < names.len() && names[i] == name;
        assert(lookup(infos, names[i]) is Some);
        lemma_lookup_names_the_source(infos, name);
        let info = lookup(infos, name)->0;
        let j = choose|j: int| 0 <= j < infos.len() && infos[j] == info;
        assert(uids[j] == name);
        assert(uids.contains(name));
    }
    vstd::seq_lib::seq_to_set_is_finite(uids);
    vstd::set_lib::lemma_len_subset(names.to_set(), uids.to_set());
    names.unique_seq_to_set();
    uids.lemma_cardinality_of_set();
}

/// Once a source comes up again on the way up, so does all that is above it.
proof fn lemma_ancestors_repeat(infos: Seq<InfoView>, info: InfoView, j: nat, k: nat, n: nat)
    requires
        ancestor(infos, info, j) == ancestor(infos, info, k),
    ensures
        ancestor(infos, info, j + n) == ancestor(infos, info, k + n),
    decreases n,
{
    if n > 0 {
        lemma_ancestors_repeat(infos, info, j, k, (n - 1) as nat);
        assert((j + n - 1) as nat == j + (n - 1) as nat);
        assert((k + n - 1) as nat == k + (n - 1) as nat);
    }
}

/// If the way up comes back to a source without meeting `field`, it never meets it.
proof fn lemma_no_value_in_cycle(
    infos: Seq<InfoView>,
    info: InfoView,
    field: InheritedField,
    j: nat,
    k: nat,
    n: nat,
)
    requires
        j < k,
        ancestor(infos, info, j) == ancestor(infos, info, k),
        forall|m: nat| m < k ==> !#[trigger] says_at(infos, info, field, m),
    ensures
        !says_at(infos, info, field, n),
    decreases n,
{
    if n >= k {
        let below = (n - (k - j)) as nat;
        lemma_no_value_in_cycle(infos, info, field, j, k, below);
        lemma_ancestors_repeat(infos, info, j, k, (n - k) as nat);
        assert(j + (n - k) as nat == below);
        assert(k + (n - k) as nat == n);
    }
}

/// Above a source that has no parent there is none.
proof fn lemma_nothing_above_the_top(infos: Seq<InfoView>, info: InfoView, k: nat, n: nat)
    requires
        ancestor(infos, info, k) is None,
        n >= k,
    ensures
        ancestor(infos, info, n) is None,
    decreases n,
{
    if n > k {
        lemma_nothing_above_the_top(infos, info, k, (n - 1) as nat);
    }
}

/// No two sources on the way up are both the nearest.
pub proof fn lemma_nearest_is_unique(
    infos: Seq<InfoView>,
    info: InfoView,
    field: InheritedField,
    k: nat,
)
    requires
        nearest_at(infos, info, field, k),
    ensures
        nearest(infos, info, field) == ancestor(infos, info, k),
{
    let chosen = choose|n: nat| nearest_at(infos, info, field, n);
    assert(nearest_at(infos, info, field, chosen));
    if chosen < k {
        assert(!says_at(infos, info, field, chosen));
    } else if k < chosen {
        assert(!says_at(infos, info, field, k));
    }
}

impl SourceInfo {
    /// Whether the source itself says something of `field`.
    fn says_itself(&self, field: InheritedField) -> (r: bool)
        ensures
            r == says(self@, field),
    {
        match field {
            InheritedField::GoaAccountId => self.direct_goa_account_id.is_some(),
            InheritedField::GoaName => self.direct_goa_name.is_some(),
            InheritedField::MailEnabled => self.direct_collection_mail_enabled.is_some(),
        }
    }
}

/// The nearest of `info` and the sources above it that says something of `field`. A
/// way up that leads in a circle ends where it meets a source again.
pub fn inherited_source_value<'a>(
    info: &'a SourceInfo,
    infos: &'a Vec<SourceInfo>,
    field: InheritedField,
) -> (found: Option<&'a SourceInfo>)
    ensures
        match found {
            Some(source) => nearest(info_views(infos@), info@, field) == Some(source@),
            None => nearest(info_views(infos@), info@, field) is None,
        },
{
    let ghost views = info_views(infos@);
    let ghost start = info@;
    if info.says_itself(field) {
        proof {
            assert(says_at(views, start, field, 0));
            assert(nearest_at(views, start, field, 0));
            lemma_nearest_is_unique(views, start, field, 0);
        }
        return Some(info);
    }
    let mut visited: Vec<String> = Vec::new();
    let mut current: &SourceInfo = info;
    let ghost mut k: nat = 0;
    proof {
        assert(!says_at(views, start, field, 0));
    }
    loop
        invariant
            views == info_views(infos@),
            start == info@,
            k == visited@.len(),
            ancestor(views, start, k) == Some(current@),
            forall|m: nat| m <= k ==> !#[trigger] says_at(views, start, field, m),
            text::views(visited@).no_duplicates(),
            forall|i: int|
                0 <= i < visited@.len() ==> ancestor(views, start, (i + 1) as nat) == lookup(
                    views,
                    #[trigger] text::views(visited@)[i],
                ),
            forall|i: int|
                0 <= i < visited@.len() ==> lookup(
                    views,
                    #[trigger] text::views(visited@)[i],
                ) is Some,
            visited@.len() <= infos@.len(),
        decreases infos@.len() - visited@.len(),
    {
        let ghost next: nat = k + 1;
        let found = match &current.parent {
            Some(uid) => {
                if text::contains(&visited, uid.as_str()) {
                    proof {
                        let names = text::views(visited@);
                        let i = choose|i: int| 0 <= i < names.len() && names[i] == uid@;
                        let j = (i + 1) as nat;
                        assert(ancestor(views, start, j) == lookup(views, names[i]));
                        assert(ancestor(views, start, next) == ancestor(views, start, j));
                        assert forall|n: nat| !#[trigger] nearest_at(views, start, field, n) by {
                            lemma_no_value_in_cycle(views, start, field, j, next, n);
                        }
                    }
                    return None;
                }
                find_info(infos, uid.as_str())
            },
            None => None,
        };
        match found {
            None => {
                proof {
                    assert(ancestor(views, start, next) is None);
                    assert forall|n: nat| !#[trigger] nearest_at(views, start, field, n) by {
                        if n <= k {
                            assert(!says_at(views, start, field, n));
                        } else {
                            lemma_nothing_above_the_top(views, start, next, n);
                        }
                    }
                }
                return None;
            },
            Some(index) => {
                let parent = &infos[index];
                if parent.says_itself(field) {
                    proof {
                        assert(says_at(views, start, field, next));
                        assert(nearest_at(views, start, field, next));
                        lemma_nearest_is_unique(views, start, field, next);
                    }
                    return Some(parent);
                }
                let ghost names = text::views(visited@);
                proof {
                    lemma_lookup_names_the_source(views, current@.parent->0);
                    assert(!says_at(views, start, field, next));
                }
                visited.push(parent.uid.clone());
                proof {
                    let after = text::views(visited@);
                    assert(after =~= names.push(parent@.uid));
                    assert(after.no_duplicates());
                    assert forall|i: int| 0 <= i < visited@.len() implies ancestor(
                        views,
                        start,
                        (i + 1) as nat,
                    ) == lookup(views, #[trigger] after[i]) by {
                        if i < names.len() {
                            assert(after[i] == names[i]);
                        }
                    }
                    assert forall|i: int| 0 <= i < visited@.len() implies lookup(
                        views,
                        #[trigger] after[i],
                    ) is Some by {
                        if i < names.len() {
                            assert(after[i] == names[i]);
                        }
                    }
                    lemma_distinct_names_are_few(views, after);
                    k = next;
                }
                current = parent;
            },
        }
    }
}

/// Whether the `n` sources from `info` upwards differ in their names, and the way up
/// ends there or comes back to one of them.
pub open spec fn is_lineage(infos: Seq<InfoView>, info: InfoView, n: nat) -> bool {
    &&& forall|k: nat| k < n ==> (#[trigger] ancestor(infos, info, k)) is Some
    &&& forall|j: nat, k: nat|
        #![trigger ancestor(infos, info, j), ancestor(infos, info, k)]
        j < k < n ==> ancestor(infos, info, j)->0.uid != ancestor(infos, info, k)->0.uid
    &&& match ancestor(infos, info, n) {
        Some(next) => exists|k: nat| k < n && (#[trigger] ancestor(infos, info, k))->0.uid == next.uid,
        None => true,
    }
}

/// `info` and the sources above it, up to the top or to where the way up leads in a
/// circle.
pub open spec fn lineage(infos: Seq<InfoView>, info: InfoView) -> Seq<InfoView> {
    Seq::new(
        choose|n: nat| is_lineage(infos, info, n),
        |k: int| ancestor(infos, info, k as nat)->0,
    )
}

proof fn lemma_lineage_length(infos: Seq<InfoView>, info: InfoView, n: nat)
    requires
        is_lineage(infos, info, n),
    ensures
        lineage(infos, info) == Seq::new(n, |k: int| ancestor(infos, info, k as nat)->0),
{
    let m = choose|m: nat| is_lineage(infos, info, m);
    assert(is_lineage(infos, info, m));
    lemma_lineage_ends_once(infos, info, m, n);
    lemma_lineage_ends_once(infos, info, n, m);
}

proof fn lemma_lineage_ends_once(infos: Seq<InfoView>, info: InfoView, m: nat, n: nat)
    requires
        is_lineage(infos, info, m),
        is_lineage(infos, info, n),
    ensures
        m >= n,
{
    if m < n {
        assert(ancestor(infos, info, m) is Some);
        let next = ancestor(infos, info, m)->0;
        let k = choose|k: nat| k < m && (#[trigger] ancestor(infos, info, k))->0.uid == next.uid;
        assert(ancestor(infos, info, k)->0.uid != ancestor(infos, info, m)->0.uid);
    }
}

/// What is hashed for a text: its bytes, then a byte that no text holds.
pub open spec fn text_chunks(s: Seq<char>) -> Seq<Seq<u8>> {
    seq![vstd::utf8::encode_utf8(s), seq![0xffu8]]
}

/// The word that tells whether an optional value is there, its least significant byte
/// first: the derived `Hash` of `Option` feeds this on a machine with such words of 64 bits.
pub open spec fn tag_word(present: bool) -> Seq<u8> {
    seq![
        if present {
            1u8
        } else {
            0u8
        },
        0u8,
        0u8,
        0u8,
        0u8,
        0u8,
        0u8,
        0u8,
    ]
}

/// What is hashed for an optional text.
pub open spec fn optional_chunks(value: Option<Seq<char>>) -> Seq<Seq<u8>> {
    match value {
        Some(s) => seq![tag_word(true)] + text_chunks(s),
        None => seq![tag_word(false)],
    }
}

/// What is hashed for an optional choice.
pub open spec fn choice_chunks(value: Option<bool>) -> Seq<Seq<u8>> {
    match value {
        Some(chosen) => seq![
            tag_word(true),
            seq![if chosen {
                1u8
            } else {
                0u8
            }],
        ],
        None => seq![tag_word(false)],
    }
}

/// What is hashed for the folders that an identity uses for sent messages and drafts.
pub open spec fn mailbox_chunks(
    sent: Option<Seq<char>>,
    use_sent_folder: Option<bool>,
    drafts: Option<Seq<char>>,
) -> Seq<Seq<u8>> {
    optional_chunks(sent) + choice_chunks(use_sent_folder) + optional_chunks(drafts)
}

/// What is hashed for sources: the name and the configuration of each.
pub open spec fn configuration_chunks(sources: Seq<InfoView>) -> Seq<Seq<u8>>
    decreases sources.len(),
{
    if sources.len() == 0 {
        Seq::empty()
    } else {
        configuration_chunks(sources.drop_last()) + text_chunks(sources.last().uid) + text_chunks(
            sources.last().serialized_configuration,
        )
    }
}

fn hash_byte(hasher: &mut DefaultHasher, byte: u8)
    ensures
        final(hasher)@ == old(hasher)@.push(seq![byte]),
{
    let mut bytes: Vec<u8> = Vec::new();
    bytes.push(byte);
    hasher.write(bytes.as_slice());
    assert(bytes@ =~= seq![byte]);
}

fn hash_text(hasher: &mut DefaultHasher, value: &str)
    ensures
        final(hasher)@ == old(hasher)@ + text_chunks(value@),
{
    hasher.write(value.as_bytes());
    hash_byte(hasher, 0xff);
    assert(hasher@ =~= old(hasher)@ + text_chunks(value@));
}

fn hash_tag(hasher: &mut DefaultHasher, present: bool)
    ensures
        final(hasher)@ == old(hasher)@.push(tag_word(present)),
{
    let tag: u8 = if present {
        1
    } else {
        0
    };
    let bytes: [u8; 8] = [tag, 0, 0, 0, 0, 0, 0, 0];
    hasher.write(bytes.as_slice());
    assert(bytes@ =~= tag_word(present));
}

fn hash_optional(hasher: &mut DefaultHasher, value: &Option<String>)
    ensures
        final(hasher)@ == old(hasher)@ + optional_chunks(text::view_opt(*value)),
{
    hash_tag(hasher, value.is_some());
    if let Some(text) = value {
        hash_text(hasher, text.as_str());
    }
    assert(hasher@ =~= old(hasher)@ + optional_chunks(text::view_opt(*value)));
}

fn hash_choice(hasher: &mut DefaultHasher, value: Option<bool>)
    ensures
        final(hasher)@ == old(hasher)@ + choice_chunks(value),
{
    hash_tag(hasher, value.is_some());
    if let Some(chosen) = value {
        let byte: u8 = if chosen {
            1
        } else {
            0
        };
        hash_byte(hasher, byte);
    }
    assert(hasher@ =~= old(hasher)@ + choice_chunks(value));
}

/// A number that changes when the folders change in which an identity stores what it
/// sent and what it drafts.
pub fn mailbox_configuration_hash(
    sent: &Option<String>,
    use_sent_folder: Option<bool>,
    drafts: &Option<String>,
) -> (hash: u64)
    ensures
        hash == DefaultHasher::spec_finish(
            optional_chunks(text::view_opt(*sent)) + choice_chunks(use_sent_folder)
                + optional_chunks(text::view_opt(*drafts)),
        ),
        hash == DefaultHasher::spec_finish(
            mailbox_chunks(text::view_opt(*sent), use_sent_folder, text::view_opt(*drafts)),
        ),
{
    let mut hasher = DefaultHasher::new();
    hash_optional(&mut hasher, sent);
    hash_choice(&mut hasher, use_sent_folder);
    hash_optional(&mut hasher, drafts);
    let ghost expected = optional_chunks(text::view_opt(*sent)) + choice_chunks(use_sent_folder)
        + optional_chunks(text::view_opt(*drafts));
    assert(hasher@ =~= expected);
    hasher.finish()
}

/// A number that changes when the configuration of a source or of one above it
/// changes.
pub fn source_configuration_hash(source: &SourceInfo, sources: &Vec<SourceInfo>) -> (hash: u64)
    ensures
        hash == DefaultHasher::spec_finish(
            configuration_chunks(lineage(info_views(sources@), source@)),
        ),
{
    let ghost views = info_views(sources@);
    let ghost start = source@;
    let mut hasher = DefaultHasher::new();
    let mut visited: Vec<String> = Vec::new();
    let mut current: &SourceInfo = source;
    let ghost mut met: Seq<InfoView> = Seq::empty();
    loop
        invariant_except_break
            views == info_views(sources@),
            start == source@,
            met.len() == visited@.len(),
            ancestor(views, start, met.len()) == Some(current@),
            forall|k: nat| k < met.len() ==> #[trigger] ancestor(views, start, k) == Some(met[k as int]),
            forall|i: int| 0 <= i < met.len() ==> (#[trigger] text::views(visited@)[i]) == met[i].uid,
            text::views(visited@).no_duplicates(),
            forall|i: int|
                0 < i < met.len() ==> lookup(views, #[trigger] text::views(visited@)[i]) is Some,
            met.len() > 0 ==> lookup(views, current@.uid) is Some,
            met.len() <= sources@.len() + 1,
            hasher@ == configuration_chunks(met),
        ensures
            is_lineage(views, start, met.len()),
            met == Seq::new(met.len(), |k: int| ancestor(views, start, k as nat)->0),
            hasher@ == configuration_chunks(met),
        decreases sources@.len() + 1 - met.len(),
    {
        let ghost names = text::views(visited@);
        if text::contains(&visited, current.uid.as_str()) {
            proof {
                let i = choose|i: int| 0 <= i < names.len() && names[i] == current@.uid;
                assert(ancestor(views, start, i as nat) == Some(met[i]));
                lemma_met_is_lineage(views, start, met, names);
            }
            break;
        }
        hash_text(&mut hasher, current.uid.as_str());
        hash_text(&mut hasher, current.serialized_configuration.as_str());
        let ghost before = met;
        visited.push(current.uid.clone());
        proof {
            met = met.push(current@);
            assert(met.drop_last() =~= before);
            assert(text::views(visited@) =~= names.push(current@.uid));
            assert(hasher@ =~= configuration_chunks(met));
            assert forall|k: nat| k < met.len() implies #[trigger] ancestor(views, start, k) == Some(
                met[k as int],
            ) by {}
            lemma_names_after_the_first_are_few(views, text::views(visited@));
        }
        let found = match &current.parent {
            Some(uid) => find_info(sources, uid.as_str()),
            None => None,
        };
        match found {
            Some(index) => {
                proof {
                    lemma_lookup_names_the_source(views, current@.parent->0);
                    assert(ancestor(views, start, met.len()) == Some(sources@[index as int]@));
                }
                current = &sources[index];
            },
            None => {
                proof {
                    assert(ancestor(views, start, met.len()) is None);
                    lemma_met_is_lineage(views, start, met, text::views(visited@));
                }
                break;
            },
        }
    }
    proof {
        lemma_lineage_length(views, start, met.len());
    }
    hasher.finish()
}

proof fn lemma_met_is_lineage(
    infos: Seq<InfoView>,
    info: InfoView,
    met: Seq<InfoView>,
    names: Seq<Seq<char>>,
)
    requires
        names.len() == met.len(),
        names.no_duplicates(),
        forall|k: nat| k < met.len() ==> #[trigger] ancestor(infos, info, k) == Some(met[k as int]),
        forall|i: int| 0 <= i < met.len() ==> (#[trigger] names[i]) == met[i].uid,
        match ancestor(infos, info, met.len()) {
            Some(next) => names.contains(next.uid),
            None => true,
        },
    ensures
        is_lineage(infos, info, met.len()),
        met == Seq::new(met.len(), |k: int| ancestor(infos, info, k as nat)->0),
{
    assert forall|j: nat, k: nat|
        #![trigger ancestor(infos, info, j), ancestor(infos, info, k)]
        j < k < met.len() implies ancestor(infos, info, j)->0.uid != ancestor(
        infos,
        info,
        k,
    )->0.uid by {
        assert(names[j as int] == met[j as int].uid);
        assert(names[k as int] == met[k as int].uid);
    }
    if let Some(next) = ancestor(infos, info, met.len()) {
        let i = choose|i: int| 0 <= i < names.len() && names[i] == next.uid;
        assert(ancestor(infos, info, i as nat)->0.uid == next.uid);
    }
    let all = Seq::new(met.len(), |k: int| ancestor(infos, info, k as nat)->0);
    assert forall|k: int| 0 <= k < met.len() implies met[k] == all[k] by {
        assert(ancestor(infos, info, k as nat) == Some(met[k]));
    }
    assert(met =~= all);
}

proof fn lemma_names_after_the_first_are_few(infos: Seq<InfoView>, names: Seq<Seq<char>>)
    requires
        names.len() > 0,
        names.no_duplicates(),
        forall|i: int| 0 < i < names.len() ==> lookup(infos, #[trigger] names[i]) is Some,
    ensures
        names.len() <= infos.len() + 1,
{
    let rest = names.skip(1);
    assert forall|i: int| 0 <= i < rest.len() implies lookup(infos, #[trigger] rest[i]) is Some by {
        assert(rest[i] == names[i + 1]);
    }
    lemma_distinct_names_are_few(infos, rest);
}

/// Every way up ends or leads in a circle.
proof fn lemma_lineage_exists(infos: Seq<InfoView>, info: InfoView, met: Seq<InfoView>) -> (n: nat)
    requires
        forall|k: nat| k < met.len() ==> #[trigger] ancestor(infos, info, k) == Some(met[k as int]),
        met.map_values(|m: InfoView| m.uid).no_duplicates(),
    ensures
        is_lineage(infos, info, n),
    decreases infos.len() + 1 - met.len(),
{
    let names = met.map_values(|m: InfoView| m.uid);
    assert forall|i: int| 0 < i < names.len() implies lookup(infos, #[trigger] names[i]) is Some by {
        assert(ancestor(infos, info, i as nat) == Some(met[i]));
        assert(ancestor(infos, info, (i - 1) as nat) == Some(met[i - 1]));
        lemma_lookup_names_the_source(infos, met[i - 1].parent->0);
    }
    if names.len() > 0 {
        lemma_names_after_the_first_are_few(infos, names);
    }
    match ancestor(infos, info, met.len()) {
        Some(next) => {
            if names.contains(next.uid) {
                lemma_met_is_lineage(infos, info, met, names);
                met.len()
            } else {
                let more = met.push(next);
                let more_names = more.map_values(|m: InfoView| m.uid);
                assert(more_names =~= names.push(next.uid));
                assert forall|i: int| 0 < i < more_names.len() implies lookup(
                    infos,
                    #[trigger] more_names[i],
                ) is Some by {
                    assert(ancestor(infos, info, i as nat) == Some(more[i]));
                    assert(ancestor(infos, info, (i - 1) as nat) == Some(more[i - 1]));
                    lemma_lookup_names_the_source(infos, more[i - 1].parent->0);
                }
                lemma_names_after_the_first_are_few(infos, more_names);
                lemma_lineage_exists(infos, info, more)
            }
        },
        None => {
            lemma_met_is_lineage(infos, info, met, names);
            met.len()
        },
    }
}

/// The hash of a source covers what the sources above it say: it is taken over the
/// configuration of `source` and of its parent, where that has another name.
pub proof fn lemma_lineage_holds_the_parent(infos: Seq<InfoView>, source: InfoView)
    requires
        parent_of(infos, source) is Some,
        parent_of(infos, source)->0.uid != source.uid,
    ensures
        lineage(infos, source).len() >= 2,
        lineage(infos, source)[0] == source,
        lineage(infos, source)[1] == parent_of(infos, source)->0,
{
    let n = lemma_lineage_exists(infos, source, Seq::empty());
    lemma_lineage_length(infos, source, n);
    reveal_with_fuel(ancestor, 3);
    if n == 0 {
        assert(ancestor(infos, source, 0) == Some(source));
    } else if n == 1 {
        let next = ancestor(infos, source, 1)->0;
        let k = choose|k: nat| k < 1 && (#[trigger] ancestor(infos, source, k))->0.uid == next.uid;
        assert(k == 0);
    }
}

/// Whether a source is part of a mail account.
pub open spec fn is_mail_source(info: InfoView) -> bool {
    info.is_account || info.is_identity || info.is_transport
}

/// The source of a mail account that `info` describes.
pub open spec fn source_of(infos: Seq<InfoView>, info: InfoView) -> SourceView {
    SourceView {
        uid: info.uid,
        parent: info.parent,
        enabled: info.enabled,
        identity_name: info.direct_name,
        identity_address: info.direct_address,
        identity_reply_to: info.direct_reply_to,
        identity_aliases: info.direct_aliases,
        identity_alias_addresses: info.direct_alias_addresses,
        identity_signature: info.direct_signature,
        identity_extension: info.direct_identity_extension,
        backend_name: if info.is_account {
            info.direct_mail_account_backend_name
        } else if info.is_transport {
            info.direct_mail_transport_backend_name
        } else {
            None
        },
        auth_method: info.direct_auth_method,
        mailbox_configuration_hash: info.mailbox_configuration_hash,
        configuration_hash: DefaultHasher::spec_finish(configuration_chunks(lineage(infos, info))),
    }
}

/// The source `uid` among those of mail accounts.
pub open spec fn lookup_mail(infos: Seq<InfoView>, uid: Seq<char>) -> Option<InfoView>
    decreases infos.len(),
{
    if infos.len() == 0 {
        None
    } else if is_mail_source(infos.last()) && infos.last().uid == uid {
        Some(infos.last())
    } else {
        lookup_mail(infos.drop_last(), uid)
    }
}

/// The source of a mail account with the name `uid`.
pub open spec fn mail_source(infos: Seq<InfoView>, uid: Option<Seq<char>>) -> Option<SourceView> {
    match uid {
        Some(uid) => match lookup_mail(infos, uid) {
            Some(info) => Some(source_of(infos, info)),
            None => None,
        },
        None => None,
    }
}

/// The source with the name `uid`, of whatever kind.
pub open spec fn named(infos: Seq<InfoView>, uid: Option<Seq<char>>) -> Option<InfoView> {
    match uid {
        Some(uid) => lookup(infos, uid),
        None => None,
    }
}

/// The mail account that the account source `info` describes. It belongs to an online
/// account only where all three sources belong to the same one.
pub open spec fn triplet_of(infos: Seq<InfoView>, info: InfoView) -> TripletView {
    let identity = named(infos, info.direct_identity_uid);
    let transport_uid = match identity {
        Some(identity) => identity.direct_transport_uid,
        None => None,
    };
    let transport = named(infos, transport_uid);
    let account_owner = inherited_goa_account_id(infos, info);
    let identity_owner = match identity {
        Some(identity) => inherited_goa_account_id(infos, identity),
        None => None,
    };
    let transport_owner = match transport {
        Some(transport) => inherited_goa_account_id(infos, transport),
        None => None,
    };
    let identity_name = match identity {
        Some(identity) => inherited_goa_name(infos, identity),
        None => None,
    };
    let transport_name = match transport {
        Some(transport) => inherited_goa_name(infos, transport),
        None => None,
    };
    TripletView {
        account: mail_source(infos, Some(info.uid))->0,
        identity: mail_source(infos, info.direct_identity_uid),
        transport: mail_source(infos, transport_uid),
        goa_account_id: if account_owner is Some && account_owner == identity_owner && account_owner
            == transport_owner {
            account_owner
        } else {
            None
        },
        goa_name: if identity_name is Some {
            identity_name
        } else if inherited_goa_name(infos, info) is Some {
            inherited_goa_name(infos, info)
        } else {
            transport_name
        },
        mail_enabled: inherited_mail_enabled(infos, info),
    }
}

/// The mail accounts that `infos` describe, those of `part` only.
pub open spec fn triplets_of(infos: Seq<InfoView>, part: Seq<InfoView>) -> Seq<TripletView>
    decreases part.len(),
{
    if part.len() == 0 {
        Seq::empty()
    } else if part.last().is_account {
        triplets_of(infos, part.drop_last()).push(triplet_of(infos, part.last()))
    } else {
        triplets_of(infos, part.drop_last())
    }
}

/// Where the source `uid` stands among those of mail accounts.
fn find_mail_info(infos: &Vec<SourceInfo>, uid: &str) -> (found: Option<usize>)
    ensures
        match found {
            Some(i) => i < infos@.len() && lookup_mail(info_views(infos@), uid@) == Some(
                infos@[i as int]@,
            ),
            None => lookup_mail(info_views(infos@), uid@) is None,
        },
{
    let ghost views = info_views(infos@);
    let mut i: usize = infos.len();
    assert(views.take(i as int) =~= views);
    while i > 0
        invariant
            i <= infos.len(),
            views == info_views(infos@),
            lookup_mail(views, uid@) == lookup_mail(views.take(i as int), uid@),
        decreases i,
    {
        assert(views.take(i as int).drop_last() =~= views.take(i - 1));
        assert(views.take(i as int).last() == infos@[i - 1]@);
        let info = &infos[i - 1];
        if (info.is_account || info.is_identity || info.is_transport) && text::same(
            info.uid.as_str(),
            uid,
        ) {
            return Some(i - 1);
        }
        i -= 1;
    }
    None
}

fn source_entry(infos: &Vec<SourceInfo>, info: &SourceInfo) -> (source: Source)
    ensures
        source@ == source_of(info_views(infos@), info@),
{
    let backend_name = if info.is_account {
        text::clone_opt(&info.direct_mail_account_backend_name)
    } else if info.is_transport {
        text::clone_opt(&info.direct_mail_transport_backend_name)
    } else {
        None
    };
    let identity_signature = match &info.direct_signature {
        Some(signature) => Some(signature.clone()),
        None => None,
    };
    Source {
        uid: info.uid.clone(),
        parent: text::clone_opt(&info.parent),
        enabled: info.enabled,
        identity_name: text::clone_opt(&info.direct_name),
        identity_address: text::clone_opt(&info.direct_address),
        identity_reply_to: text::clone_opt(&info.direct_reply_to),
        identity_aliases: text::clone_opt(&info.direct_aliases),
        identity_alias_addresses: clone_decoded(&info.direct_alias_addresses),
        identity_signature,
        identity_extension: info.direct_identity_extension.clone(),
        backend_name,
        auth_method: text::clone_opt(&info.direct_auth_method),
        mailbox_configuration_hash: info.mailbox_configuration_hash,
        configuration_hash: source_configuration_hash(info, infos),
    }
}

fn entry_named(infos: &Vec<SourceInfo>, uid: &Option<String>) -> (source: Option<Source>)
    ensures
        match source {
            Some(source) => mail_source(info_views(infos@), text::view_opt(*uid)) == Some(source@),
            None => mail_source(info_views(infos@), text::view_opt(*uid)) is None,
        },
{
    match uid {
        Some(uid) => match find_mail_info(infos, uid.as_str()) {
            Some(index) => Some(source_entry(infos, &infos[index])),
            None => None,
        },
        None => None,
    }
}

fn info_named<'a>(infos: &'a Vec<SourceInfo>, uid: &Option<String>) -> (info: Option<&'a SourceInfo>)
    ensures
        match info {
            Some(info) => named(info_views(infos@), text::view_opt(*uid)) == Some(info@),
            None => named(info_views(infos@), text::view_opt(*uid)) is None,
        },
{
    match uid {
        Some(uid) => match find_info(infos, uid.as_str()) {
            Some(index) => Some(&infos[index]),
            None => None,
        },
        None => None,
    }
}

fn goa_owner(infos: &Vec<SourceInfo>, info: &SourceInfo) -> (owner: Option<String>)
    ensures
        text::view_opt(owner) == inherited_goa_account_id(info_views(infos@), info@),
{
    match inherited_source_value(info, infos, InheritedField::GoaAccountId) {
        Some(source) => text::clone_opt(&source.direct_goa_account_id),
        None => None,
    }
}

fn goa_display_name(infos: &Vec<SourceInfo>, info: &SourceInfo) -> (name: Option<String>)
    ensures
        text::view_opt(name) == inherited_goa_name(info_views(infos@), info@),
{
    match inherited_source_value(info, infos, InheritedField::GoaName) {
        Some(source) => text::clone_opt(&source.direct_goa_name),
        None => None,
    }
}

fn account_triplet(infos: &Vec<SourceInfo>, index: usize) -> (triplet: MailTriplet)
    requires
        index < infos@.len(),
        infos@[index as int].is_account,
    ensures
        triplet@ == triplet_of(info_views(infos@), infos@[index as int]@),
{
    let ghost views = info_views(infos@);
    let info = &infos[index];
    let identity = info_named(infos, &info.direct_identity_uid);
    let transport_uid = match identity {
        Some(identity) => text::clone_opt(&identity.direct_transport_uid),
        None => None,
    };
    let transport = info_named(infos, &transport_uid);
    let account_owner = goa_owner(infos, info);
    let identity_owner = match identity {
        Some(identity) => goa_owner(infos, identity),
        None => None,
    };
    let transport_owner = match transport {
        Some(transport) => goa_owner(infos, transport),
        None => None,
    };
    let goa_account_id = if account_owner.is_some() && text::same_opt(
        &account_owner,
        &identity_owner,
    ) && text::same_opt(&account_owner, &transport_owner) {
        account_owner
    } else {
        None
    };
    let mut goa_name = match identity {
        Some(identity) => goa_display_name(infos, identity),
        None => None,
    };
    if goa_name.is_none() {
        goa_name = goa_display_name(infos, info);
    }
    if goa_name.is_none() {
        goa_name = match transport {
            Some(transport) => goa_display_name(infos, transport),
            None => None,
        };
    }
    let mail_enabled = match inherited_source_value(info, infos, InheritedField::MailEnabled) {
        Some(source) => source.direct_collection_mail_enabled,
        None => None,
    };
    proof {
        lemma_mail_source_is_found(views, index as int);
    }
    let own_uid: Option<String> = Some(info.uid.clone());
    let account = entry_named(infos, &own_uid);
    MailTriplet {
        account: account.unwrap(),
        identity: entry_named(infos, &info.direct_identity_uid),
        transport: entry_named(infos, &transport_uid),
        goa_account_id,
        goa_name,
        mail_enabled,
    }
}

proof fn lemma_mail_source_is_found(infos: Seq<InfoView>, index: int)
    requires
        0 <= index < infos.len(),
        is_mail_source(infos[index]),
    ensures
        lookup_mail(infos, infos[index].uid) is Some,
    decreases infos.len(),
{
    if index < infos.len() - 1 {
        lemma_mail_source_is_found(infos.drop_last(), index);
    }
}

/// The mail accounts that a list of sources describes.
pub fn build_snapshot(infos: &Vec<SourceInfo>) -> (snapshot: Snapshot)
    ensures
        triplet_views(snapshot.triplets@) == triplets_of(info_views(infos@), info_views(infos@)),
{
    let ghost views = info_views(infos@);
    let mut triplets: Vec<MailTriplet> = Vec::new();
    let mut i: usize = 0;
    while i < infos.len()
        invariant
            i <= infos.len(),
            views == info_views(infos@),
            triplet_views(triplets@) == triplets_of(views, views.take(i as int)),
        decreases infos.len() - i,
    {
        let ghost before = triplet_views(triplets@);
        assert(views.take(i + 1).drop_last() =~= views.take(i as int));
        assert(views.take(i + 1).last() == infos@[i as int]@);
        if infos[i].is_account {
            let triplet = account_triplet(infos, i);
            let ghost value = triplet@;
            triplets.push(triplet);
            assert(triplet_views(triplets@) =~= before.push(value));
        }
        i += 1;
    }
    assert(views.take(i as int) =~= views);
    Snapshot { triplets }
}

/// The name that stands for "no signature".
pub const NO_SIGNATURE: &'static str = "none";

/// The type of a signature that is plain text.
pub const PLAIN_TEXT: &'static str = "text/plain";

/// Where the text of a signature comes from.
#[derive(Debug)]
pub enum SignatureRequest {
    /// There is no text to load.
    Empty(SignatureMetadata),
    /// The name cannot be that of a signature.
    Rejected,
    /// The signature of that name is to be loaded.
    Fetch,
}

/// The signature without a text.
pub open spec fn empty_signature(uid: Seq<char>) -> SignatureMetadataView {
    SignatureMetadataView {
        uid,
        display_name: Seq::empty(),
        contents: Seq::empty(),
        mime_type: PLAIN_TEXT@,
    }
}

/// The signature without a text.
pub fn empty_signature_metadata(uid: String) -> (signature: SignatureMetadata)
    ensures
        signature@ == empty_signature(uid@),
{
    SignatureMetadata {
        uid,
        display_name: String::new(),
        contents: String::new(),
        mime_type: PLAIN_TEXT.to_owned(),
    }
}

/// What has to be done to load the signature `uid`.
pub fn signature_request(uid: &str) -> (request: SignatureRequest)
    ensures
        match request {
            SignatureRequest::Empty(signature) => uid@ == NO_SIGNATURE@ && signature@
                == empty_signature(uid@),
            SignatureRequest::Rejected => uid@ != NO_SIGNATURE@ && (uid@.len() == 0 || uid@.contains(
                '\0',
            )),
            SignatureRequest::Fetch => uid@ != NO_SIGNATURE@ && uid@.len() > 0 && !uid@.contains(
                '\0',
            ),
        },
{
    if text::same(uid, NO_SIGNATURE) {
        return SignatureRequest::Empty(empty_signature_metadata(uid.to_owned()));
    }
    if uid.is_empty() || text::contains_char(uid, '\0') {
        SignatureRequest::Rejected
    } else {
        SignatureRequest::Fetch
    }
}

/// The signature made of what was read of its source.
pub fn loaded_signature(
    uid: String,
    display_name: Option<String>,
    contents: String,
    mime_type: Option<String>,
) -> (signature: SignatureMetadata)
    ensures
        signature@ == (SignatureMetadataView {
            uid: uid@,
            display_name: text::view_opt(display_name).unwrap_or(Seq::empty()),
            contents: contents@,
            mime_type: text::view_opt(mime_type).unwrap_or(PLAIN_TEXT@),
        }),
{
    let display_name = match display_name {
        Some(name) => name,
        None => String::new(),
    };
    let mime_type = match mime_type {
        Some(mime_type) => mime_type,
        None => PLAIN_TEXT.to_owned(),
    };
    SignatureMetadata { uid, display_name, contents, mime_type }
}

/// Whether an identity names a signature of its own.
pub fn names_signature(uid: &str) -> (r: bool)
    ensures
        r == (uid@.len() > 0 && uid@ != NO_SIGNATURE@),
{
    !uid.is_empty() && !text::same(uid, NO_SIGNATURE)
}

/// One stored identity before its signatures are loaded.
#[derive(Debug)]
pub struct IdentityRecord {
    pub address: String,
    pub reply_to: String,
    pub html_uid: String,
    pub text_uid: String,
}

/// One stored identity before its signatures are loaded, as a value.
#[verifier::ext_equal]
pub struct RecordView {
    pub address: Seq<char>,
    pub reply_to: Seq<char>,
    pub html_uid: Seq<char>,
    pub text_uid: Seq<char>,
}

impl View for IdentityRecord {
    type V = RecordView;

    open spec fn view(&self) -> RecordView {
        RecordView {
            address: self.address@,
            reply_to: self.reply_to@,
            html_uid: self.html_uid@,
            text_uid: self.text_uid@,
        }
    }
}

impl Clone for IdentityRecord {
    fn clone(&self) -> (r: Self)
        ensures
            r@ == self@,
    {
        IdentityRecord {
            address: self.address.clone(),
            reply_to: self.reply_to.clone(),
            html_uid: self.html_uid.clone(),
            text_uid: self.text_uid.clone(),
        }
    }
}

/// The values of a list of stored identities.
pub open spec fn record_views(list: Seq<IdentityRecord>) -> Seq<RecordView> {
    list.map_values(|record: IdentityRecord| record@)
}

/// The identities for which signatures are to be loaded.
#[derive(Debug)]
pub struct ExtensionRequest {
    pub account_label: String,
    pub default_address: String,
    pub records: Vec<IdentityRecord>,
    pub stored_count: usize,
}

/// What was found of the stored identities of an account.
#[derive(Debug)]
pub enum ExtensionReading {
    Absent,
    Invalid,
    Load(ExtensionRequest),
}

/// The record that four fields in a row make up.
pub open spec fn record_at(fields: Seq<Seq<char>>, i: int) -> RecordView {
    RecordView {
        address: fields[4 * i],
        reply_to: fields[4 * i + 1],
        html_uid: fields[4 * i + 2],
        text_uid: fields[4 * i + 3],
    }
}

/// The records that the fields make up.
pub open spec fn records_of(fields: Seq<Seq<char>>) -> Seq<RecordView> {
    Seq::new((fields.len() / 4) as nat, |i: int| record_at(fields, i))
}

/// Whether one of `records` has the address `key`.
pub open spec fn represents(records: Seq<RecordView>, key: Seq<char>) -> bool {
    exists|i: int|
        0 <= i < records.len() && address::normalized((#[trigger] records[i]).address) == key
}

/// The records of addresses that the account has, the first of each.
pub open spec fn accepted_records(
    records: Seq<RecordView>,
    identity_address: Option<Seq<char>>,
    aliases: Seq<DecodedAddressView>,
) -> Seq<RecordView>
    decreases records.len(),
{
    if records.len() == 0 {
        Seq::empty()
    } else {
        let kept = accepted_records(records.drop_last(), identity_address, aliases);
        let key = address::normalized(records.last().address);
        if is_standard_address(key, identity_address, aliases) && !represents(kept, key) {
            kept.push(records.last())
        } else {
            kept
        }
    }
}

/// Whether `key` is the address of the account or of one of its aliases.
pub open spec fn is_standard_address(
    key: Seq<char>,
    identity_address: Option<Seq<char>>,
    aliases: Seq<DecodedAddressView>,
) -> bool {
    &&& key.len() > 0
    &&& {
        ||| identity_address matches Some(own) && address::normalized(own) == key
        ||| exists|i: int|
            0 <= i < aliases.len() && address::normalized((#[trigger] aliases[i]).address) == key
    }
}

fn standard_address(
    key: &String,
    identity_address: &Option<String>,
    aliases: &Vec<DecodedAddress>,
) -> (r: bool)
    ensures
        r == is_standard_address(
            key@,
            text::view_opt(*identity_address),
            decoded_views(aliases@),
        ),
{
    if key.as_str().is_empty() {
        return false;
    }
    if let Some(own) = identity_address {
        if address::normalized_mailbox_address(own.as_str()) == *key {
            return true;
        }
    }
    let mut i: usize = 0;
    while i < aliases.len()
        invariant
            i <= aliases.len(),
            key@.len() > 0,
            !(text::view_opt(*identity_address) matches Some(own) && address::normalized(own)
                == key@),
            forall|j: int|
                0 <= j < i ==> address::normalized((#[trigger] decoded_views(aliases@)[j]).address)
                    != key@,
        decreases aliases.len() - i,
    {
        if address::normalized_mailbox_address(aliases[i].address.as_str()) == *key {
            assert(address::normalized(decoded_views(aliases@)[i as int].address) == key@);
            return true;
        }
        i += 1;
    }
    false
}

fn represented(records: &Vec<IdentityRecord>, key: &String) -> (r: bool)
    ensures
        r == represents(record_views(records@), key@),
{
    let mut i: usize = 0;
    while i < records.len()
        invariant
            i <= records.len(),
            forall|j: int|
                0 <= j < i ==> address::normalized((#[trigger] record_views(records@)[j]).address)
                    != key@,
        decreases records.len() - i,
    {
        if address::normalized_mailbox_address(records[i].address.as_str()) == *key {
            assert(address::normalized(record_views(records@)[i as int].address) == key@);
            return true;
        }
        i += 1;
    }
    false
}

/// Reads what an account stores of its identities. Records of addresses that the
/// account does not have, and second records of one address, are left out.
pub fn read_identity_extension(
    present: bool,
    account_label: Option<String>,
    default_address: Option<String>,
    fields: &Vec<String>,
    identity_address: &Option<String>,
    alias_addresses: &Vec<DecodedAddress>,
) -> (reading: ExtensionReading)
    ensures
        reading is Absent <==> !present,
        reading is Load <==> present && (text::view_opt(account_label) matches Some(label)
            && text::trimmed(label).len() > 0) && (text::view_opt(default_address) matches Some(own)
            && own.len() > 0) && fields@.len() % 4 == 0,
        reading matches ExtensionReading::Load(request) ==> {
            &&& Some(request.account_label@) == text::view_opt(account_label)
            &&& Some(request.default_address@) == text::view_opt(default_address)
            &&& record_views(request.records@) == accepted_records(
                records_of(text::views(fields@)),
                text::view_opt(*identity_address),
                decoded_views(alias_addresses@),
            )
            &&& request.stored_count == fields@.len() / 4
        },
{
    if !present {
        return ExtensionReading::Absent;
    }
    let account_label = match account_label {
        Some(label) if !text::trim(label.as_str()).is_empty() => label,
        _ => return ExtensionReading::Invalid,
    };
    let default_address = match default_address {
        Some(address) if !address.as_str().is_empty() => address,
        _ => return ExtensionReading::Invalid,
    };
    if fields.len() % 4 != 0 {
        return ExtensionReading::Invalid;
    }
    let length: usize = fields.len();
    let stored_count: usize = length / 4;
    let ghost all = records_of(text::views(fields@));
    let ghost own = text::view_opt(*identity_address);
    let ghost aliases = decoded_views(alias_addresses@);
    let mut records: Vec<IdentityRecord> = Vec::new();
    let mut i: usize = 0;
    while i < stored_count
        invariant
            i <= stored_count,
            length == fields@.len(),
            stored_count == length / 4,
            length % 4 == 0,
            all == records_of(text::views(fields@)),
            own == text::view_opt(*identity_address),
            aliases == decoded_views(alias_addresses@),
            record_views(records@) == accepted_records(all.take(i as int), own, aliases),
        decreases stored_count - i,
    {
        assert(4 * i + 3 < length);
        let record = IdentityRecord {
            address: fields[4 * i].clone(),
            reply_to: fields[4 * i + 1].clone(),
            html_uid: fields[4 * i + 2].clone(),
            text_uid: fields[4 * i + 3].clone(),
        };
        let ghost kept = record_views(records@);
        proof {
            assert(all.take(i + 1).drop_last() =~= all.take(i as int));
            assert(all.take(i + 1).last() == record@);
        }
        let key = address::normalized_mailbox_address(record.address.as_str());
        if standard_address(&key, identity_address, alias_addresses) && !represented(
            &records,
            &key,
        ) {
            let ghost value = record@;
            records.push(record);
            assert(record_views(records@) =~= kept.push(value));
        }
        i += 1;
    }
    assert(all.take(i as int) =~= all);
    ExtensionReading::Load(ExtensionRequest { account_label, default_address, records, stored_count })
}

/// The identities made of records and of the signatures that were loaded for them, two
/// for each record.
pub open spec fn assembled(
    records: Seq<RecordView>,
    signatures: Seq<Option<SignatureMetadataView>>,
) -> Seq<IdentityMetadataView> {
    Seq::new(
        records.len(),
        |i: int|
            IdentityMetadataView {
                address: records[i].address,
                reply_to: records[i].reply_to,
                signatures: SignatureSourcesView {
                    html: signatures[2 * i]->0,
                    text: signatures[2 * i + 1]->0,
                },
            },
    )
}

/// The values of a list of signatures.
pub open spec fn signature_views(list: Seq<Option<SignatureMetadata>>) -> Seq<
    Option<SignatureMetadataView>,
> {
    list.map_values(
        |signature: Option<SignatureMetadata>|
            match signature {
                Some(signature) => Some(signature@),
                None => None,
            },
    )
}

/// Whether each of `n` records has both its signatures.
pub open spec fn all_loaded(signatures: Seq<Option<SignatureMetadataView>>, n: nat) -> bool {
    &&& signatures.len() >= 2 * n
    &&& forall|i: int| 0 <= i < 2 * n ==> (#[trigger] signatures[i]) is Some
}

/// Puts records and the signatures that were loaded for them together. `signatures`
/// holds for each record the formatted one and the plain one; `None` stands for one
/// that could not be loaded.
pub fn assemble_identity_extension(
    request: ExtensionRequest,
    signatures: &Vec<Option<SignatureMetadata>>,
) -> (state: IdentityExtensionState)
    ensures
        state@ == (if all_loaded(signature_views(signatures@), request.records@.len()) {
            ExtensionStateView::Valid(
                LoadedExtensionView {
                    extension: IdentityExtensionView {
                        account_label: request.account_label@,
                        default_address: request.default_address@,
                        identities: assembled(
                            record_views(request.records@),
                            signature_views(signatures@),
                        ),
                    },
                    needs_rewrite: request.records@.len() != request.stored_count,
                },
            )
        } else {
            ExtensionStateView::Invalid
        }),
{
    let ghost loaded = signature_views(signatures@);
    let ghost records = record_views(request.records@);
    let mut identities: Vec<IdentityMetadata> = Vec::new();
    let mut i: usize = 0;
    while i < request.records.len()
        invariant
            i <= request.records.len(),
            loaded == signature_views(signatures@),
            records == record_views(request.records@),
            signatures@.len() >= 2 * i,
            forall|j: int| 0 <= j < 2 * i ==> (#[trigger] loaded[j]) is Some,
            metadata_views(identities@) == assembled(records, loaded).take(i as int),
        decreases request.records.len() - i,
    {
        let remaining: usize = signatures.len() - i - i;
        if remaining < 2 {
            return IdentityExtensionState::Invalid;
        }
        match (&signatures[i + i], &signatures[i + i + 1]) {
            (Some(html), Some(plain)) => {
                let ghost before = metadata_views(identities@);
                let identity = IdentityMetadata {
                    address: request.records[i].address.clone(),
                    reply_to: request.records[i].reply_to.clone(),
                    signatures: SignatureSources { html: html.clone(), text: plain.clone() },
                };
                let ghost value = identity@;
                identities.push(identity);
                proof {
                    assert(loaded[2 * i] == Some(html@));
                    assert(loaded[2 * i + 1] == Some(plain@));
                    assert(metadata_views(identities@) =~= before.push(value));
                    assert(assembled(records, loaded).take(i + 1) =~= before.push(value));
                }
            },
            _ => {
                proof {
                    assert(loaded[2 * i] is None || loaded[2 * i + 1] is None);
                }
                return IdentityExtensionState::Invalid;
            },
        }
        i += 1;
    }
    assert(assembled(records, loaded).take(i as int) =~= assembled(records, loaded));
    let needs_rewrite = identities.len() != request.stored_count;
    IdentityExtensionState::Valid(
        LoadedIdentityExtension {
            extension: IdentityExtension {
                account_label: request.account_label,
                default_address: request.default_address,
                identities,
            },
            needs_rewrite,
        },
    )
}

/// No address has two of the accepted records, and each is an address of the account.
pub proof fn lemma_accepted_records_are_distinct(
    records: Seq<RecordView>,
    identity_address: Option<Seq<char>>,
    aliases: Seq<DecodedAddressView>,
)
    ensures
        ({
            let kept = accepted_records(records, identity_address, aliases);
            &&& kept.len() <= records.len()
            &&& forall|i: int, j: int|
                #![trigger kept[i], kept[j]]
                0 <= i < j < kept.len() ==> address::normalized(kept[i].address)
                    != address::normalized(kept[j].address)
            &&& forall|i: int|
                0 <= i < kept.len() ==> is_standard_address(
                    address::normalized((#[trigger] kept[i]).address),
                    identity_address,
                    aliases,
                )
        }),
    decreases records.len(),
{
    if records.len() > 0 {
        lemma_accepted_records_are_distinct(records.drop_last(), identity_address, aliases);
        let before = accepted_records(records.drop_last(), identity_address, aliases);
        let kept = accepted_records(records, identity_address, aliases);
        assert forall|i: int, j: int|
            #![trigger kept[i], kept[j]]
            0 <= i < j < kept.len() implies address::normalized(kept[i].address)
            != address::normalized(kept[j].address) by {
            assert(before[i] == kept[i]);
        }
    }
}

} // verus!
