//! Writing the identities of an account back to its sources.
use crate::integration::registry;
use crate::integration::registry::{
    clone_metadata, IdentityMetadata, IdentityMetadataView, SignatureMetadata,
    SignatureMetadataView, Snapshot, Source, SourceView, TripletView,
};
use crate::text;
use vstd::prelude::*;

verus! {

/// The identity source `uid`, of the first account that has it.
pub open spec fn identity_source(triplets: Seq<TripletView>, uid: Seq<char>) -> Option<SourceView>
    decreases triplets.len(),
{
    if triplets.len() == 0 {
        None
    } else {
        match identity_source(triplets.drop_last(), uid) {
            Some(source) => Some(source),
            None => match triplets.last().identity {
                Some(source) if source.uid == uid => Some(source),
                _ => None,
            },
        }
    }
}

/// The identities that are stored in `source` and can be used.
pub open spec fn stored_identities(source: Option<SourceView>) -> Seq<IdentityMetadataView> {
    match source {
        Some(source) => match source.identity_extension {
            registry::ExtensionStateView::Valid(loaded) => loaded.extension.identities,
            _ => Seq::empty(),
        },
        None => Seq::empty(),
    }
}

/// The signatures of identities, the formatted one of each before the plain one.
pub open spec fn signatures_of(identities: Seq<IdentityMetadataView>) -> Seq<SignatureMetadataView>
    decreases identities.len(),
{
    if identities.len() == 0 {
        Seq::empty()
    } else {
        signatures_of(identities.drop_last()) + seq![
            identities.last().signatures.html,
            identities.last().signatures.text,
        ]
    }
}

/// Whether one of `signatures` has the name `uid`.
pub open spec fn has_uid(signatures: Seq<SignatureMetadataView>, uid: Seq<char>) -> bool {
    exists|i: int| 0 <= i < signatures.len() && (#[trigger] signatures[i]).uid == uid
}

proof fn lemma_has_uid_step(identities: Seq<IdentityMetadataView>, uid: Seq<char>)
    requires
        identities.len() > 0,
    ensures
        has_uid(signatures_of(identities), uid) <==> has_uid(
            signatures_of(identities.drop_last()),
            uid,
        ) || identities.last().signatures.html.uid == uid
            || identities.last().signatures.text.uid == uid,
{
    let before = signatures_of(identities.drop_last());
    let after = signatures_of(identities);
    if has_uid(before, uid) {
        let i = choose|i: int| 0 <= i < before.len() && (#[trigger] before[i]).uid == uid;
        assert(after[i].uid == uid);
    }
    assert(after[before.len() as int] == identities.last().signatures.html);
    assert(after[before.len() as int + 1] == identities.last().signatures.text);
    if has_uid(after, uid) {
        let i = choose|i: int| 0 <= i < after.len() && (#[trigger] after[i]).uid == uid;
        if i < before.len() {
            assert(before[i].uid == uid);
        }
    }
}

/// The identity source `uid`, of the first account that has it.
pub fn find_identity_source<'a>(snapshot: &'a Snapshot, uid: &str) -> (source: Option<&'a Source>)
    ensures
        match source {
            Some(source) => identity_source(registry::triplet_views(snapshot.triplets@), uid@)
                == Some(source@),
            None => identity_source(registry::triplet_views(snapshot.triplets@), uid@) is None,
        },
{
    let ghost triplets = registry::triplet_views(snapshot.triplets@);
    let mut found: Option<&Source> = None;
    let mut i: usize = 0;
    while i < snapshot.triplets.len()
        invariant
            i <= snapshot.triplets.len(),
            triplets == registry::triplet_views(snapshot.triplets@),
            match found {
                Some(source) => identity_source(triplets.take(i as int), uid@) == Some(source@),
                None => identity_source(triplets.take(i as int), uid@) is None,
            },
        decreases snapshot.triplets.len() - i,
    {
        proof {
            assert(triplets.take(i + 1).drop_last() =~= triplets.take(i as int));
            assert(triplets.take(i + 1).last() == snapshot.triplets@[i as int]@);
        }
        if found.is_none() {
            if let Some(identity) = &snapshot.triplets[i].identity {
                if text::same(identity.uid.as_str(), uid) {
                    found = Some(identity);
                }
            }
        }
        i += 1;
    }
    assert(triplets.take(i as int) =~= triplets);
    found
}

/// The names of the signatures that an identity source has of its own, in order.
pub fn previous_signature_uids(snapshot: &Snapshot, identity_uid: &str) -> (uids: Vec<String>)
    ensures
        text::ordered(text::views(uids@)),
        forall|uid: Seq<char>| #[trigger]
            text::views(uids@).contains(uid) <==> uid.len() > 0 && uid != registry::NO_SIGNATURE@
                && has_uid(
                signatures_of(
                    stored_identities(
                        identity_source(
                            registry::triplet_views(snapshot.triplets@),
                            identity_uid@,
                        ),
                    ),
                ),
                uid,
            ),
{
    let ghost triplets = registry::triplet_views(snapshot.triplets@);
    let ghost stored = stored_identities(identity_source(triplets, identity_uid@));
    let mut uids: Vec<String> = Vec::new();
    if let Some(identity) = find_identity_source(snapshot, identity_uid) {
        if let Some(extension) = identity.identity_extension.as_valid() {
            let mut k: usize = 0;
            while k < extension.identities.len()
                invariant
                    k <= extension.identities.len(),
                    stored == registry::metadata_views(extension.identities@),
                    text::ordered(text::views(uids@)),
                    forall|uid: Seq<char>| #[trigger]
                        text::views(uids@).contains(uid) <==> uid.len() > 0 && uid
                            != registry::NO_SIGNATURE@ && has_uid(
                            signatures_of(stored.take(k as int)),
                            uid,
                        ),
                decreases extension.identities.len() - k,
            {
                proof {
                    assert(stored.take(k + 1).drop_last() =~= stored.take(k as int));
                    assert(stored.take(k + 1).last() == extension.identities@[k as int]@);
                    assert forall|uid: Seq<char>| #[trigger]
                        has_uid(signatures_of(stored.take(k + 1)), uid) <==> has_uid(
                            signatures_of(stored.take(k as int)),
                            uid,
                        ) || extension.identities@[k as int]@.signatures.html.uid == uid
                            || extension.identities@[k as int]@.signatures.text.uid == uid by {
                        lemma_has_uid_step(stored.take(k + 1), uid);
                    }
                }
                let signatures = &extension.identities[k].signatures;
                if registry::names_signature(signatures.html.uid.as_str()) {
                    text::insert_ordered(&mut uids, signatures.html.uid.as_str());
                }
                if registry::names_signature(signatures.text.uid.as_str()) {
                    text::insert_ordered(&mut uids, signatures.text.uid.as_str());
                }
                k += 1;
            }
            assert(stored.take(k as int) =~= stored);
        }
    }
    uids
}

/// What is to be stored of the identities of an account.
#[derive(Debug)]
pub struct IdentityUpdate {
    pub identity_uid: String,
    pub name: Option<String>,
    pub reply_to: Option<String>,
    pub aliases: Option<String>,
    pub account_label: String,
    pub default_address: String,
    pub primary_signature_uid: String,
    pub identities: Vec<IdentityMetadata>,
}

/// What is to be stored of the identities of an account, as a value.
#[verifier::ext_equal]
pub struct UpdateView {
    pub identity_uid: Seq<char>,
    pub name: Option<Seq<char>>,
    pub reply_to: Option<Seq<char>>,
    pub aliases: Option<Seq<char>>,
    pub account_label: Seq<char>,
    pub default_address: Seq<char>,
    pub primary_signature_uid: Seq<char>,
    pub identities: Seq<IdentityMetadataView>,
}

impl View for IdentityUpdate {
    type V = UpdateView;

    open spec fn view(&self) -> UpdateView {
        UpdateView {
            identity_uid: self.identity_uid@,
            name: text::view_opt(self.name),
            reply_to: text::view_opt(self.reply_to),
            aliases: text::view_opt(self.aliases),
            account_label: self.account_label@,
            default_address: self.default_address@,
            primary_signature_uid: self.primary_signature_uid@,
            identities: registry::metadata_views(self.identities@),
        }
    }
}

impl Clone for IdentityUpdate {
    fn clone(&self) -> (r: Self)
        ensures
            r@ == self@,
    {
        IdentityUpdate {
            identity_uid: self.identity_uid.clone(),
            name: text::clone_opt(&self.name),
            reply_to: text::clone_opt(&self.reply_to),
            aliases: text::clone_opt(&self.aliases),
            account_label: self.account_label.clone(),
            default_address: self.default_address.clone(),
            primary_signature_uid: self.primary_signature_uid.clone(),
            identities: clone_metadata(&self.identities),
        }
    }
}

/// Which text cannot be stored because it holds a NUL character.
#[derive(Debug, Clone, Copy, PartialEq, Eq, Structural)]
pub enum IdentityWriteError {
    IdentityUid,
    Name,
    ReplyTo,
    Aliases,
    AccountLabel,
    DefaultAddress,
    PrimarySignatureUid,
    Metadata,
}

impl IdentityWriteError {
    /// What is reported.
    pub fn message(self) -> (message: &'static str)
        ensures
            message@ == (match self {
                IdentityWriteError::IdentityUid => "identity uid contains interior NUL"@,
                IdentityWriteError::Name => "identity name contains interior NUL"@,
                IdentityWriteError::ReplyTo => "identity reply-to contains interior NUL"@,
                IdentityWriteError::Aliases => "identity aliases contain interior NUL"@,
                IdentityWriteError::AccountLabel => "identity account label contains interior NUL"@,
                IdentityWriteError::DefaultAddress => "default identity address contains interior NUL"@,
                IdentityWriteError::PrimarySignatureUid => "primary signature uid contains interior NUL"@,
                IdentityWriteError::Metadata => "identity metadata contains interior NUL"@,
            }),
    {
        match self {
            IdentityWriteError::IdentityUid => "identity uid contains interior NUL",
            IdentityWriteError::Name => "identity name contains interior NUL",
            IdentityWriteError::ReplyTo => "identity reply-to contains interior NUL",
            IdentityWriteError::Aliases => "identity aliases contain interior NUL",
            IdentityWriteError::AccountLabel => "identity account label contains interior NUL",
            IdentityWriteError::DefaultAddress => "default identity address contains interior NUL",
            IdentityWriteError::PrimarySignatureUid => "primary signature uid contains interior NUL",
            IdentityWriteError::Metadata => "identity metadata contains interior NUL",
        }
    }
}

/// What is written, and what is to be created before it and removed behind it.
#[derive(Debug)]
pub struct IdentityWrite {
    pub identity_uid: String,
    pub name: String,
    pub reply_to: String,
    pub aliases: String,
    pub account_label: String,
    pub default_address: String,
    pub primary_signature_uid: String,
    pub records: Vec<String>,
    pub staged: Vec<SignatureMetadata>,
    pub stale: Vec<String>,
}

/// The fields under which identities are stored, four for each.
pub open spec fn stored_fields(identities: Seq<IdentityMetadataView>) -> Seq<Seq<char>>
    decreases identities.len(),
{
    if identities.len() == 0 {
        Seq::empty()
    } else {
        stored_fields(identities.drop_last()) + seq![
            identities.last().address,
            identities.last().reply_to,
            identities.last().signatures.html.uid,
            identities.last().signatures.text.uid,
        ]
    }
}

/// The signatures that have to be created: those that are none of `previous`.
pub open spec fn to_stage(
    signatures: Seq<SignatureMetadataView>,
    previous: Seq<Seq<char>>,
) -> Seq<SignatureMetadataView>
    decreases signatures.len(),
{
    if signatures.len() == 0 {
        Seq::empty()
    } else if signatures.last().uid == registry::NO_SIGNATURE@ || previous.contains(
        signatures.last().uid,
    ) {
        to_stage(signatures.drop_last(), previous)
    } else {
        to_stage(signatures.drop_last(), previous).push(signatures.last())
    }
}

/// Those of `previous` that `signatures` do not name any more.
pub open spec fn out_of_use(
    previous: Seq<Seq<char>>,
    signatures: Seq<SignatureMetadataView>,
) -> Seq<Seq<char>>
    decreases previous.len(),
{
    if previous.len() == 0 {
        Seq::empty()
    } else if has_uid(signatures, previous.last()) {
        out_of_use(previous.drop_last(), signatures)
    } else {
        out_of_use(previous.drop_last(), signatures).push(previous.last())
    }
}

/// Whether one of `texts` holds a NUL character.
pub open spec fn any_nul(texts: Seq<Seq<char>>) -> bool {
    exists|i: int| 0 <= i < texts.len() && (#[trigger] texts[i]).contains('\0')
}

/// The text that is stored for an optional one.
pub open spec fn or_empty(value: Option<Seq<char>>) -> Seq<char> {
    value.unwrap_or(Seq::empty())
}

/// The first text of `update` that cannot be stored.
pub open spec fn refusal(update: UpdateView) -> Option<IdentityWriteError> {
    if update.identity_uid.contains('\0') {
        Some(IdentityWriteError::IdentityUid)
    } else if or_empty(update.name).contains('\0') {
        Some(IdentityWriteError::Name)
    } else if or_empty(update.reply_to).contains('\0') {
        Some(IdentityWriteError::ReplyTo)
    } else if or_empty(update.aliases).contains('\0') {
        Some(IdentityWriteError::Aliases)
    } else if update.account_label.contains('\0') {
        Some(IdentityWriteError::AccountLabel)
    } else if update.default_address.contains('\0') {
        Some(IdentityWriteError::DefaultAddress)
    } else if update.primary_signature_uid.contains('\0') {
        Some(IdentityWriteError::PrimarySignatureUid)
    } else if any_nul(stored_fields(update.identities)) {
        Some(IdentityWriteError::Metadata)
    } else {
        None
    }
}

fn unwrap_text(value: &Option<String>) -> (r: String)
    ensures
        r@ == or_empty(text::view_opt(*value)),
{
    match value {
        Some(text) => text.clone(),
        None => String::new(),
    }
}

fn stores_nul(texts: &Vec<String>) -> (r: bool)
    ensures
        r == any_nul(text::views(texts@)),
{
    let mut i: usize = 0;
    while i < texts.len()
        invariant
            i <= texts.len(),
            forall|j: int| 0 <= j < i ==> !(#[trigger] text::views(texts@)[j]).contains('\0'),
        decreases texts.len() - i,
    {
        if text::contains_char(texts[i].as_str(), '\0') {
            assert(text::views(texts@)[i as int].contains('\0'));
            return true;
        }
        i += 1;
    }
    false
}

/// The fields and the signatures of identities.
fn flatten(identities: &Vec<IdentityMetadata>) -> (flat: (Vec<String>, Vec<SignatureMetadata>))
    ensures
        text::views(flat.0@) == stored_fields(registry::metadata_views(identities@)),
        signature_list(flat.1@) == signatures_of(registry::metadata_views(identities@)),
{
    let ghost views = registry::metadata_views(identities@);
    let mut fields: Vec<String> = Vec::new();
    let mut signatures: Vec<SignatureMetadata> = Vec::new();
    let mut i: usize = 0;
    while i < identities.len()
        invariant
            i <= identities.len(),
            views == registry::metadata_views(identities@),
            text::views(fields@) == stored_fields(views.take(i as int)),
            signature_list(signatures@) == signatures_of(views.take(i as int)),
        decreases identities.len() - i,
    {
        let ghost before = text::views(fields@);
        let ghost held = signature_list(signatures@);
        let identity = &identities[i];
        fields.push(identity.address.clone());
        fields.push(identity.reply_to.clone());
        fields.push(identity.signatures.html.uid.clone());
        fields.push(identity.signatures.text.uid.clone());
        signatures.push(identity.signatures.html.clone());
        signatures.push(identity.signatures.text.clone());
        proof {
            assert(views.take(i + 1).drop_last() =~= views.take(i as int));
            assert(views.take(i + 1).last() == identity@);
            assert(text::views(fields@) =~= before + seq![
                identity@.address,
                identity@.reply_to,
                identity@.signatures.html.uid,
                identity@.signatures.text.uid,
            ]);
            assert(signature_list(signatures@) =~= held + seq![
                identity@.signatures.html,
                identity@.signatures.text,
            ]);
        }
        i += 1;
    }
    assert(views.take(i as int) =~= views);
    (fields, signatures)
}

/// The values of a list of signatures.
pub open spec fn signature_list(list: Seq<SignatureMetadata>) -> Seq<SignatureMetadataView> {
    list.map_values(|signature: SignatureMetadata| signature@)
}

fn signatures_to_stage(
    signatures: Vec<SignatureMetadata>,
    previous: &Vec<String>,
) -> (staged: Vec<SignatureMetadata>)
    ensures
        signature_list(staged@) == to_stage(signature_list(signatures@), text::views(previous@)),
{
    let ghost all = signature_list(signatures@);
    let mut staged: Vec<SignatureMetadata> = Vec::new();
    for signature in it: signatures
        invariant
            all == signature_list(it.seq()),
            signature_list(staged@) == to_stage(all.take(it.index()), text::views(previous@)),
    {
        let ghost before = signature_list(staged@);
        let ghost value = signature@;
        proof {
            assert(all.take(it.index() + 1).drop_last() =~= all.take(it.index()));
            assert(all.take(it.index() + 1).last() == value);
        }
        if !text::same(signature.uid.as_str(), registry::NO_SIGNATURE) && !text::contains(
            previous,
            signature.uid.as_str(),
        ) {
            staged.push(signature);
            assert(signature_list(staged@) =~= before.push(value));
        }
    }
    assert(all.take(all.len() as int) =~= all);
    staged
}

fn names_uid(signatures: &Vec<SignatureMetadata>, uid: &str) -> (r: bool)
    ensures
        r == has_uid(signature_list(signatures@), uid@),
{
    let mut i: usize = 0;
    while i < signatures.len()
        invariant
            i <= signatures.len(),
            forall|j: int| 0 <= j < i ==> (#[trigger] signature_list(signatures@)[j]).uid != uid@,
        decreases signatures.len() - i,
    {
        if text::same(signatures[i].uid.as_str(), uid) {
            assert(signature_list(signatures@)[i as int].uid == uid@);
            return true;
        }
        i += 1;
    }
    false
}

fn stale_signatures(previous: &Vec<String>, signatures: &Vec<SignatureMetadata>) -> (stale: Vec<
    String,
>)
    ensures
        text::views(stale@) == out_of_use(text::views(previous@), signature_list(signatures@)),
{
    let ghost names = text::views(previous@);
    let mut stale: Vec<String> = Vec::new();
    let mut i: usize = 0;
    while i < previous.len()
        invariant
            i <= previous.len(),
            names == text::views(previous@),
            text::views(stale@) == out_of_use(
                names.take(i as int),
                signature_list(signatures@),
            ),
        decreases previous.len() - i,
    {
        let ghost before = text::views(stale@);
        proof {
            assert(names.take(i + 1).drop_last() =~= names.take(i as int));
            assert(names.take(i + 1).last() == previous@[i as int]@);
        }
        if !names_uid(signatures, previous[i].as_str()) {
            stale.push(previous[i].clone());
            assert(text::views(stale@) =~= before.push(previous@[i as int]@));
        }
        i += 1;
    }
    assert(names.take(i as int) =~= names);
    stale
}

/// Works out what has to be written, created and removed to store `update`, where the
/// account has the signatures `previous` of its own.
pub fn plan_identity_write(update: &IdentityUpdate, previous: &Vec<String>) -> (plan: Result<
    IdentityWrite,
    IdentityWriteError,
>)
    ensures
        match plan {
            Err(error) => refusal(update@) == Some(error),
            Ok(plan) => {
                &&& refusal(update@) is None
                &&& plan.identity_uid@ == update@.identity_uid
                &&& plan.name@ == or_empty(update@.name)
                &&& plan.reply_to@ == or_empty(update@.reply_to)
                &&& plan.aliases@ == or_empty(update@.aliases)
                &&& plan.account_label@ == update@.account_label
                &&& plan.default_address@ == update@.default_address
                &&& plan.primary_signature_uid@ == update@.primary_signature_uid
                &&& text::views(plan.records@) == stored_fields(update@.identities)
                &&& signature_list(plan.staged@) == to_stage(
                    signatures_of(update@.identities),
                    text::views(previous@),
                )
                &&& text::views(plan.stale@) == out_of_use(
                    text::views(previous@),
                    signatures_of(update@.identities),
                )
            },
        },
{
    if text::contains_char(update.identity_uid.as_str(), '\0') {
        return Err(IdentityWriteError::IdentityUid);
    }
    let name = unwrap_text(&update.name);
    if text::contains_char(name.as_str(), '\0') {
        return Err(IdentityWriteError::Name);
    }
    let reply_to = unwrap_text(&update.reply_to);
    if text::contains_char(reply_to.as_str(), '\0') {
        return Err(IdentityWriteError::ReplyTo);
    }
    let aliases = unwrap_text(&update.aliases);
    if text::contains_char(aliases.as_str(), '\0') {
        return Err(IdentityWriteError::Aliases);
    }
    if text::contains_char(update.account_label.as_str(), '\0') {
        return Err(IdentityWriteError::AccountLabel);
    }
    if text::contains_char(update.default_address.as_str(), '\0') {
        return Err(IdentityWriteError::DefaultAddress);
    }
    if text::contains_char(update.primary_signature_uid.as_str(), '\0') {
        return Err(IdentityWriteError::PrimarySignatureUid);
    }
    let (records, signatures) = flatten(&update.identities);
    if stores_nul(&records) {
        return Err(IdentityWriteError::Metadata);
    }
    let stale = stale_signatures(previous, &signatures);
    let staged = signatures_to_stage(signatures, previous);
    Ok(
        IdentityWrite {
            identity_uid: update.identity_uid.clone(),
            name,
            reply_to,
            aliases,
            account_label: update.account_label.clone(),
            default_address: update.default_address.clone(),
            primary_signature_uid: update.primary_signature_uid.clone(),
            records,
            staged,
            stale,
        },
    )
}

/// Which text of a signature cannot be stored because it holds a NUL character.
#[derive(Debug, Clone, Copy, PartialEq, Eq, Structural)]
pub enum SignatureWriteError {
    Uid,
    DisplayName,
    MimeType,
}

/// Whether a signature can be stored.
pub fn check_signature(signature: &SignatureMetadata) -> (result: Result<(), SignatureWriteError>)
    ensures
        result == (if signature@.uid.contains('\0') {
            Err(SignatureWriteError::Uid)
        } else if signature@.display_name.contains('\0') {
            Err(SignatureWriteError::DisplayName)
        } else if signature@.mime_type.contains('\0') {
            Err(SignatureWriteError::MimeType)
        } else {
            Ok(())
        }),
{
    if text::contains_char(signature.uid.as_str(), '\0') {
        Err(SignatureWriteError::Uid)
    } else if text::contains_char(signature.display_name.as_str(), '\0') {
        Err(SignatureWriteError::DisplayName)
    } else if text::contains_char(signature.mime_type.as_str(), '\0') {
        Err(SignatureWriteError::MimeType)
    } else {
        Ok(())
    }
}

/// What is done next to store identities.
#[derive(Debug, Clone, Copy, PartialEq, Eq, Structural)]
pub enum WriteStep {
    /// Create a signature.
    Stage { index: usize },
    /// Store the identities.
    Commit,
    /// Remove a signature that was created, because storing failed.
    RemoveStaged { index: usize, created: usize },
    /// Remove a signature that is not used any more.
    RemoveStale { index: usize },
    Succeeded,
    Failed,
}

/// The first thing to do.
pub open spec fn first_step_of(staged: nat) -> WriteStep {
    if staged > 0 {
        WriteStep::Stage { index: 0 }
    } else {
        WriteStep::Commit
    }
}

/// What is done behind `step`, which succeeded or not.
pub open spec fn next_step_of(step: WriteStep, success: bool, staged: nat, stale: nat) -> WriteStep {
    match step {
        WriteStep::Stage { index } => if !success {
            rollback_of(index as nat)
        } else if index + 1 < staged {
            WriteStep::Stage { index: (index + 1) as usize }
        } else {
            WriteStep::Commit
        },
        WriteStep::Commit => if !success {
            rollback_of(staged)
        } else if stale > 0 {
            WriteStep::RemoveStale { index: 0 }
        } else {
            WriteStep::Succeeded
        },
        WriteStep::RemoveStaged { index, created } => if index + 1 < created {
            WriteStep::RemoveStaged { index: (index + 1) as usize, created }
        } else {
            WriteStep::Failed
        },
        WriteStep::RemoveStale { index } => if index + 1 < stale {
            WriteStep::RemoveStale { index: (index + 1) as usize }
        } else {
            WriteStep::Succeeded
        },
        WriteStep::Succeeded => WriteStep::Succeeded,
        WriteStep::Failed => WriteStep::Failed,
    }
}

/// What is done when storing failed with `created` signatures created.
pub open spec fn rollback_of(created: nat) -> WriteStep {
    if created > 0 {
        WriteStep::RemoveStaged { index: 0, created: created as usize }
    } else {
        WriteStep::Failed
    }
}

impl IdentityWrite {
    /// The first thing to do to store identities.
    pub fn first_step(&self) -> (step: WriteStep)
        ensures
            step == first_step_of(self.staged@.len()),
    {
        if self.staged.len() > 0 {
            WriteStep::Stage { index: 0 }
        } else {
            WriteStep::Commit
        }
    }

    /// What to do behind `step`, which succeeded or not. A failure to remove a signature
    /// changes nothing.
    pub fn next_step(&self, step: WriteStep, success: bool) -> (next: WriteStep)
        ensures
            next == next_step_of(step, success, self.staged@.len(), self.stale@.len()),
    {
        let staged: usize = self.staged.len();
        let stale: usize = self.stale.len();
        match step {
            WriteStep::Stage { index } => if !success {
                Self::rollback(index)
            } else if staged > 0 && index < staged - 1 {
                WriteStep::Stage { index: index + 1 }
            } else {
                WriteStep::Commit
            },
            WriteStep::Commit => if !success {
                Self::rollback(staged)
            } else if stale > 0 {
                WriteStep::RemoveStale { index: 0 }
            } else {
                WriteStep::Succeeded
            },
            WriteStep::RemoveStaged { index, created } => if created > 0 && index < created - 1 {
                WriteStep::RemoveStaged { index: index + 1, created }
            } else {
                WriteStep::Failed
            },
            WriteStep::RemoveStale { index } => if stale > 0 && index < stale - 1 {
                WriteStep::RemoveStale { index: index + 1 }
            } else {
                WriteStep::Succeeded
            },
            WriteStep::Succeeded => WriteStep::Succeeded,
            WriteStep::Failed => WriteStep::Failed,
        }
    }

    fn rollback(created: usize) -> (step: WriteStep)
        ensures
            step == rollback_of(created as nat),
    {
        if created > 0 {
            WriteStep::RemoveStaged { index: 0, created }
        } else {
            WriteStep::Failed
        }
    }
}

/// What is done behind steps that succeeded or not as `outcomes` say.
pub open spec fn step_after(outcomes: Seq<bool>, staged: nat, stale: nat) -> WriteStep
    decreases outcomes.len(),
{
    if outcomes.len() == 0 {
        first_step_of(staged)
    } else {
        next_step_of(
            step_after(outcomes.drop_last(), staged, stale),
            outcomes.last(),
            staged,
            stale,
        )
    }
}

/// How many signatures were created, and whether the identities were stored, when the
/// steps went as `outcomes` say.
pub open spec fn created_by(outcomes: Seq<bool>, staged: nat, stale: nat) -> nat
    decreases outcomes.len(),
{
    if outcomes.len() == 0 {
        0
    } else {
        let before = created_by(outcomes.drop_last(), staged, stale);
        if step_after(outcomes.drop_last(), staged, stale) is Stage && outcomes.last() {
            before + 1
        } else {
            before
        }
    }
}

/// Whether the identities were stored.
pub open spec fn stored_by(outcomes: Seq<bool>, staged: nat, stale: nat) -> bool
    decreases outcomes.len(),
{
    outcomes.len() > 0 && (stored_by(outcomes.drop_last(), staged, stale) || (step_after(
        outcomes.drop_last(),
        staged,
        stale,
    ) is Commit && outcomes.last()))
}

/// Whatever fails on the way: the signatures are created in order before the
/// identities are stored; a write that fails takes back exactly the signatures that
/// were created; signatures are taken out of use only once the identities are stored;
/// and a write succeeds only if they are.
pub proof fn lemma_failed_write_takes_back_what_it_created(
    outcomes: Seq<bool>,
    staged: nat,
    stale: nat,
)
    requires
        staged <= usize::MAX,
        stale <= usize::MAX,
    ensures
        match step_after(outcomes, staged, stale) {
            WriteStep::Stage { index } => index < staged && created_by(outcomes, staged, stale)
                == index && !stored_by(outcomes, staged, stale),
            WriteStep::Commit => created_by(outcomes, staged, stale) == staged && !stored_by(
                outcomes,
                staged,
                stale,
            ),
            WriteStep::RemoveStaged { index, created } => index < created && created_by(
                outcomes,
                staged,
                stale,
            ) == created && !stored_by(outcomes, staged, stale),
            WriteStep::RemoveStale { index } => index < stale && created_by(outcomes, staged, stale)
                == staged && stored_by(outcomes, staged, stale),
            WriteStep::Succeeded => created_by(outcomes, staged, stale) == staged && stored_by(
                outcomes,
                staged,
                stale,
            ),
            WriteStep::Failed => !stored_by(outcomes, staged, stale),
        },
    decreases outcomes.len(),
{
    if outcomes.len() > 0 {
        lemma_failed_write_takes_back_what_it_created(outcomes.drop_last(), staged, stale);
    }
}

/// What is created differs from what the account had, and what is removed is named by
/// no identity any more.
pub proof fn lemma_written_signatures_stay(
    identities: Seq<IdentityMetadataView>,
    previous: Seq<Seq<char>>,
)
    ensures
        forall|i: int|
            0 <= i < to_stage(signatures_of(identities), previous).len() ==> !previous.contains(
                (#[trigger] to_stage(signatures_of(identities), previous)[i]).uid,
            ),
        forall|i: int|
            0 <= i < out_of_use(previous, signatures_of(identities)).len() ==> !has_uid(
                signatures_of(identities),
                #[trigger] out_of_use(previous, signatures_of(identities))[i],
            ),
{
    lemma_staged_are_new(signatures_of(identities), previous);
    lemma_stale_are_unused(previous, signatures_of(identities));
}

proof fn lemma_staged_are_new(signatures: Seq<SignatureMetadataView>, previous: Seq<Seq<char>>)
    ensures
        forall|i: int|
            0 <= i < to_stage(signatures, previous).len() ==> !previous.contains(
                (#[trigger] to_stage(signatures, previous)[i]).uid,
            ),
    decreases signatures.len(),
{
    if signatures.len() > 0 {
        lemma_staged_are_new(signatures.drop_last(), previous);
        let rest = to_stage(signatures.drop_last(), previous);
        assert forall|i: int| 0 <= i < to_stage(signatures, previous).len() implies !previous.contains(
            (#[trigger] to_stage(signatures, previous)[i]).uid,
        ) by {
            if i < rest.len() {
                assert(rest[i] == to_stage(signatures, previous)[i]);
            }
        }
    }
}

proof fn lemma_stale_are_unused(previous: Seq<Seq<char>>, signatures: Seq<SignatureMetadataView>)
    ensures
        forall|i: int|
            0 <= i < out_of_use(previous, signatures).len() ==> !has_uid(
                signatures,
                #[trigger] out_of_use(previous, signatures)[i],
            ),
    decreases previous.len(),
{
    if previous.len() > 0 {
        lemma_stale_are_unused(previous.drop_last(), signatures);
        let rest = out_of_use(previous.drop_last(), signatures);
        assert forall|i: int| 0 <= i < out_of_use(previous, signatures).len() implies !has_uid(
            signatures,
            #[trigger] out_of_use(previous, signatures)[i],
        ) by {
            if i < rest.len() {
                assert(rest[i] == out_of_use(previous, signatures)[i]);
            }
        }
    }
}

/// Which text of a mailbox configuration cannot be stored because it holds a NUL
/// character.
#[derive(Debug, Clone, Copy, PartialEq, Eq, Structural)]
pub enum MailboxConfigurationError {
    IdentityUid,
    DraftsUri,
    SentUri,
}

/// Whether the folders of an identity can be stored.
pub fn check_mailbox_configuration(
    identity_uid: &str,
    drafts_uri: &str,
    sent_uri: &str,
) -> (result: Result<(), MailboxConfigurationError>)
    ensures
        result == (if identity_uid@.contains('\0') {
            Err(MailboxConfigurationError::IdentityUid)
        } else if drafts_uri@.contains('\0') {
            Err(MailboxConfigurationError::DraftsUri)
        } else if sent_uri@.contains('\0') {
            Err(MailboxConfigurationError::SentUri)
        } else {
            Ok(())
        }),
{
    if text::contains_char(identity_uid, '\0') {
        Err(MailboxConfigurationError::IdentityUid)
    } else if text::contains_char(drafts_uri, '\0') {
        Err(MailboxConfigurationError::DraftsUri)
    } else if text::contains_char(sent_uri, '\0') {
        Err(MailboxConfigurationError::SentUri)
    } else {
        Ok(())
    }
}

/// Whether an identity stores its drafts and what it sent in these folders already.
pub fn mailbox_configuration_is_current(
    current_drafts: &Option<String>,
    current_sent: &Option<String>,
    uses_sent_folder: bool,
    drafts_uri: &str,
    sent_uri: &str,
) -> (r: bool)
    ensures
        r == (text::view_opt(*current_drafts) == Some(drafts_uri@) && text::view_opt(*current_sent)
            == Some(sent_uri@) && uses_sent_folder),
{
    match (current_drafts, current_sent) {
        (Some(drafts), Some(sent)) => uses_sent_folder && text::same(drafts.as_str(), drafts_uri)
            && text::same(sent.as_str(), sent_uri),
        _ => false,
    }
}

} // verus!
