use std::collections::hash_map::DefaultHasher;
use std::hash::{Hash, Hasher};

use pigeon::integration::account::{
    apply_identity_extension, from_registry, identity_extension_from_account, save_identities, snapshot_is_readable, serialize_identity_aliases,
    signature_source, CatalogError, DesiredIdentityRecord, SaveError, StoredIdentityRecord,
};
use pigeon::integration::camel::decoded_address;
use pigeon::integration::identity::import_eds_aliases;
use pigeon::integration::registry::identity_write::{
    check_mailbox_configuration, check_signature, mailbox_configuration_is_current,
    plan_identity_write, previous_signature_uids, IdentityUpdate, IdentityWriteError, MailboxConfigurationError,
    SignatureWriteError, WriteStep,
};
use pigeon::integration::registry::{
    assemble_identity_extension, build_snapshot, inherited_source_value,
    loaded_signature, mailbox_configuration_hash, read_identity_extension, signature_request,
    source_configuration_hash, DecodedAddress, ExtensionReading, IdentityExtension,
    IdentityExtensionState, IdentityMetadata, InheritedField, MailTriplet, SignatureMetadata,
    SignatureRequest, SignatureSources, Snapshot, Source, SourceInfo,
};
use pigeon::model::account::{MailAccount, MailAccountId, SendingIdentity, Signature};

fn metadata(address: &str, reply_to: &str) -> IdentityMetadata {
    IdentityMetadata {
        address: address.into(),
        reply_to: reply_to.into(),
        signatures: SignatureSources {
            html: SignatureMetadata {
                uid: "none".into(),
                display_name: String::new(),
                contents: format!("<p>{address}</p>"),
                mime_type: "text/html".into(),
            },
            text: SignatureMetadata {
                uid: "none".into(),
                display_name: String::new(),
                contents: address.into(),
                mime_type: "text/plain".into(),
            },
        },
    }
}

fn triplet(account_id: &str, source_prefix: &str) -> MailTriplet {
    MailTriplet {
        account: Source {
            uid: format!("{source_prefix}-account"),
            parent: Some(format!("{source_prefix}-collection")),
            enabled: true,
            backend_name: Some("imapx".into()),
            ..Source::default()
        },
        identity: Some(Source {
            uid: format!("{source_prefix}-identity"),
            enabled: true,
            identity_name: Some("Owner".into()),
            identity_address: Some(format!("{source_prefix}@example.com")),
            ..Source::default()
        }),
        transport: Some(Source {
            uid: format!("{source_prefix}-transport"),
            enabled: true,
            backend_name: Some("smtp".into()),
            ..Source::default()
        }),
        goa_account_id: Some(account_id.into()),
        goa_name: Some("Account".into()),
        mail_enabled: Some(true),
    }
}

fn owner() -> MailAccount {
    MailAccount::new(
        MailAccountId("account".into()),
        "Account".into(),
        SendingIdentity::new(
            "owner@example.com".into(),
            "Owner".into(),
            None,
            Default::default(),
        ),
    )
}

fn alias(name: Option<&str>, address: &str) -> DecodedAddress {
    DecodedAddress {
        address: address.into(),
        display_name: name.map(str::to_string),
    }
}

fn fresh() -> Vec<String> {
    (0..16).map(|index| format!("fresh-{index}")).collect()
}

fn source(uid: &str, parent: Option<&str>) -> SourceInfo {
    SourceInfo {
        uid: uid.into(),
        parent: parent.map(str::to_string),
        enabled: true,
        direct_goa_account_id: None,
        direct_goa_name: None,
        direct_collection_mail_enabled: None,
        direct_mail_account_backend_name: None,
        direct_mail_transport_backend_name: None,
        direct_identity_uid: None,
        direct_transport_uid: None,
        direct_name: None,
        direct_address: None,
        direct_reply_to: None,
        direct_aliases: None,
        direct_alias_addresses: Vec::new(),
        direct_signature: None,
        direct_identity_extension: IdentityExtensionState::Absent,
        direct_auth_method: None,
        mailbox_configuration_hash: 0,
        serialized_configuration: String::new(),
        is_account: false,
        is_identity: false,
        is_transport: false,
    }
}

#[test]
fn standard_aliases_are_serialized_from_the_complete_address_set() {
    let mut account = owner();
    assert!(account.add_identity(SendingIdentity::new(
        "alias@example.com".into(),
        "Alias".into(),
        None,
        Default::default(),
    )));
    assert_eq!(
        serialize_identity_aliases(&account).as_deref(),
        Some("\"Alias\" <alias@example.com>")
    );
}

#[test]
fn standard_alias_roundtrip_preserves_explicit_and_absent_display_names() {
    let mut account = owner();
    let names = [
        ("same@example.com", "same@example.com"),
        ("bare@example.net", ""),
        ("quoted@example.test", r#"Doe, Jane "Nickname" C:\Mail"#),
        ("jose@example.test", "José"),
    ];
    for (address, name) in names {
        assert!(account.add_identity(SendingIdentity::new(
            address.into(),
            name.into(),
            None,
            Default::default(),
        )));
    }
    let serialized = serialize_identity_aliases(&account);
    assert_eq!(
        serialized.as_deref(),
        Some(
            r#""same@example.com" <same@example.com>, bare@example.net, "Doe, Jane \"Nickname\" C:\\Mail" <quoted@example.test>, "José" <jose@example.test>"#
        )
    );
    let mut source = triplet("account", "owner");
    let identity = source.identity.as_mut().unwrap();
    identity.identity_aliases = serialized;
    identity.identity_alias_addresses = names
        .iter()
        .map(|(address, name)| {
            decoded_address(
                if name.is_empty() { None } else { Some(name.to_string()) },
                Some(address.to_string()),
            )
            .unwrap()
        })
        .collect();
    let (accounts, _) = from_registry(&Snapshot { triplets: vec![source] })
        .unwrap()
        .into_parts();

    assert_eq!(accounts[0].aliases(), account.aliases());
}

#[test]
fn account_display_fallback_does_not_become_the_primary_sender_name() {
    for name in [None, Some("  ")] {
        for goa_name in [Some("Account label"), None] {
            let mut source = triplet("account", "owner");
            source.identity.as_mut().unwrap().identity_name = name.map(str::to_string);
            source.goa_name = goa_name.map(str::to_string);
            let (accounts, _) = from_registry(&Snapshot { triplets: vec![source] })
                .unwrap()
                .into_parts();
            let account = &accounts[0];

            assert!(account.primary_identity().display_name.is_empty());
            assert_eq!(account.primary_identity().mailbox(), "owner@example.com");
            assert_eq!(account.display_name, goa_name.unwrap_or("owner@example.com"));
            assert!(DesiredIdentityRecord::from_account(account, None, &fresh())
                .name
                .is_none());
        }
    }
}

#[test]
fn duplicate_complete_routes_fail_at_the_account_boundary() {
    let snapshot = Snapshot {
        triplets: vec![
            triplet("same-account", "first"),
            triplet("same-account", "second"),
        ],
    };

    assert!(from_registry(&snapshot).is_err());
    assert_eq!(
        from_registry(&snapshot).err(),
        Some(CatalogError::DuplicateRoute("same-account".into()))
    );
}

#[test]
fn invalid_identity_extension_fails_catalog_normalization() {
    let mut invalid = triplet("account", "invalid");
    invalid.identity.as_mut().unwrap().identity_extension = IdentityExtensionState::Invalid;
    let snapshot = Snapshot {
        triplets: vec![invalid],
    };

    assert!(from_registry(&snapshot).is_err());
    assert!(matches!(
        from_registry(&snapshot).err(),
        Some(CatalogError::InvalidExtension(_))
    ));
}

#[test]
fn an_unusable_triplet_has_no_account() {
    let mut disabled = triplet("account", "owner");
    disabled.account.enabled = false;
    let mut unowned = triplet("account", "owner");
    unowned.goa_account_id = None;
    let mut mailless = triplet("account", "owner");
    mailless.mail_enabled = Some(false);
    let (accounts, bindings) = from_registry(&Snapshot {
        triplets: vec![disabled, unowned, mailless],
    })
    .unwrap()
    .into_parts();
    assert!(accounts.is_empty());
    assert!(bindings.is_empty());
}

#[test]
fn signature_source_reuse_requires_the_same_complete_eds_value() {
    let previous = SignatureMetadata {
        uid: "existing-signature".into(),
        display_name: "sender@example.com".into(),
        contents: "Regards".into(),
        mime_type: "text/plain".into(),
    };

    assert_eq!(
        signature_source(
            Some(&previous),
            "sender@example.com",
            "Regards",
            "text/plain",
            "fresh-signature",
        ),
        previous
    );

    let changed = signature_source(
        Some(&previous),
        "other@example.com",
        "Regards",
        "text/plain",
        "fresh-signature",
    );
    assert_ne!(changed.uid, previous.uid);
    assert_eq!(changed.uid, "fresh-signature");
    assert_eq!(changed.display_name, "other@example.com");
}

#[test]
fn extension_orders_native_members_and_appends_unrepresented_aliases() {
    let mut account = MailAccount::new(
        MailAccountId("account".into()),
        "Native account".into(),
        SendingIdentity::new(
            "owner@example.com".into(),
            "Owner".into(),
            None,
            Default::default(),
        ),
    );
    for address in ["later@example.com", "first@example.com", "new@example.com"] {
        assert!(account.add_identity(SendingIdentity::new(
            address.into(),
            address.into(),
            None,
            Default::default(),
        )));
    }
    let extension = IdentityExtension {
        account_label: "Account".into(),
        default_address: "first@example.com".into(),
        identities: vec![
            metadata("owner@example.com", "ignored@example.com"),
            metadata("first@example.com", "reply@example.com"),
            metadata("later@example.com", ""),
        ],
    };

    apply_identity_extension(&mut account, &extension);

    assert_eq!(
        account
            .aliases()
            .iter()
            .map(|identity| identity.address.as_str())
            .collect::<Vec<_>>(),
        [
            "owner@example.com",
            "first@example.com",
            "later@example.com",
            "new@example.com",
        ]
    );
    assert_eq!(account.display_name, "Account");
    assert_eq!(account.default_identity().address, "first@example.com");
    assert_eq!(
        account
            .identity("first@example.com")
            .and_then(|identity| identity.reply_to.as_deref()),
        Some("reply@example.com")
    );
    assert_eq!(account.primary_identity().reply_to, None);
}

#[test]
fn extensionless_eds_aliases_use_the_native_address_set() {
    let mut account = MailAccount::new(
        MailAccountId("account-1".into()),
        "Account".into(),
        SendingIdentity::new(
            "owner@example.com".into(),
            "Owner".into(),
            None,
            Default::default(),
        ),
    );
    import_eds_aliases(
        &mut account,
        &vec![
            alias(Some("Old"), "same@example.com"),
            alias(Some("Owner Alias"), "owner@example.com"),
            alias(Some("New"), "SAME@example.com"),
        ],
    );

    let primary = account.primary_identity();
    assert_eq!(primary.address, "owner@example.com");
    assert_eq!(account.aliases().len(), 2);
    assert_eq!(account.aliases()[1].address, "SAME@example.com");
    assert_eq!(account.aliases()[1].display_name, "New");
}

#[test]
fn extensionless_eds_alias_import_is_repeatable() {
    let load = || {
        let mut account = MailAccount::new(
            MailAccountId("account-1".into()),
            "Account".into(),
            SendingIdentity::new(
                "owner@example.com".into(),
                "Owner".into(),
                None,
                Default::default(),
            ),
        );
        import_eds_aliases(
            &mut account,
            &vec![
                alias(Some("Same"), "same@example.com"),
                alias(Some("Same"), "same@example.com"),
            ],
        );
        account
    };

    let first = load();
    let second = load();
    assert_eq!(first.aliases().len(), 2);
    assert_eq!(second.aliases().len(), 2);
    assert_eq!(first, second);
}

#[test]
fn saved_identities_are_written_only_when_they_change() {
    let mut source = triplet("account", "owner");
    let snapshot = Snapshot {
        triplets: vec![source.clone()],
    };
    let (accounts, _) = from_registry(&snapshot).unwrap().into_parts();
    let updates = save_identities(&accounts, &snapshot, &vec![fresh()]).unwrap();
    assert_eq!(updates.len(), 1);
    assert_eq!(updates[0].identity_uid, "owner-identity");
    assert_eq!(updates[0].account_label, "Owner");
    assert_eq!(updates[0].default_address, "owner@example.com");

    let identity = source.identity.as_mut().unwrap();
    let (present, label, default) = (
        true,
        Some(updates[0].account_label.clone()),
        Some(updates[0].default_address.clone()),
    );
    let first = &updates[0].identities[0];
    let reading = read_identity_extension(
        present,
        label,
        default,
        &vec![
            first.address.clone(),
            first.reply_to.clone(),
            first.signatures.html.uid.clone(),
            first.signatures.text.uid.clone(),
        ],
        &identity.identity_address,
        &Vec::new(),
    );
    let request = match reading {
        ExtensionReading::Load(request) => request,
        _ => panic!("a written extension is read back"),
    };
    identity.identity_extension = assemble_identity_extension(
        request,
        &vec![
            Some(first.signatures.html.clone()),
            Some(first.signatures.text.clone()),
        ],
    );
    let snapshot = Snapshot {
        triplets: vec![source],
    };
    assert!(save_identities(&accounts, &snapshot, &vec![fresh()])
        .unwrap()
        .is_empty());
}

#[test]
fn identities_are_saved_only_for_known_accounts() {
    let snapshot = Snapshot {
        triplets: vec![triplet("other", "other")],
    };
    assert_eq!(
        save_identities(&vec![owner()], &snapshot, &vec![fresh()]).err(),
        Some(SaveError::AbsentAccount("account".into()))
    );
}

#[test]
fn a_stored_record_matches_what_it_was_written_from() {
    let account = owner();
    let desired = DesiredIdentityRecord::from_account(&account, None, &fresh());
    let stored = StoredIdentityRecord {
        name: desired.name.clone(),
        reply_to: desired.reply_to.clone(),
        aliases: desired.aliases.clone(),
        extension: Some(desired.extension.clone()),
        extension_needs_rewrite: false,
    };
    assert!(desired.matches(&stored));
    let mut outdated = stored.clone();
    outdated.extension_needs_rewrite = true;
    assert!(!desired.matches(&outdated));
    let mut renamed = stored;
    renamed.name = Some("Other".into());
    assert!(!desired.matches(&renamed));
}

#[test]
fn snapshot_inherits_goa_metadata_across_a_complete_mail_triplet() {
    let mut collection = source("collection", None);
    collection.direct_goa_account_id = Some("account-example".into());
    collection.direct_goa_name = Some("Example Account".into());
    collection.direct_collection_mail_enabled = Some(true);

    let mut account = source("account", Some("collection"));
    account.is_account = true;
    account.direct_mail_account_backend_name = Some("imapx".into());
    account.direct_identity_uid = Some("identity".into());
    let mut identity = source("identity", Some("collection"));
    identity.is_identity = true;
    identity.direct_transport_uid = Some("transport".into());
    identity.direct_address = Some("identity@example.invalid".into());
    let mut transport = source("transport", Some("collection"));
    transport.is_transport = true;
    transport.direct_mail_transport_backend_name = Some("smtp".into());

    let snapshot = build_snapshot(&vec![collection, account, identity, transport]);

    assert_eq!(snapshot.triplets.len(), 1);
    let triplet = &snapshot.triplets[0];
    assert_eq!(triplet.goa_account_id.as_deref(), Some("account-example"));
    assert_eq!(triplet.goa_name.as_deref(), Some("Example Account"));
    assert_eq!(triplet.mail_enabled, Some(true));
    assert_eq!(
        triplet
            .identity
            .as_ref()
            .unwrap()
            .identity_address
            .as_deref(),
        Some("identity@example.invalid")
    );
}

#[test]
fn triplet_rejects_conflicting_inherited_goa_ownership() {
    let mut collection = source("collection", None);
    collection.direct_goa_account_id = Some("account-one".into());

    let mut account = source("account", Some("collection"));
    account.is_account = true;
    account.direct_identity_uid = Some("identity".into());
    let mut identity = source("identity", Some("collection"));
    identity.is_identity = true;
    identity.direct_goa_account_id = Some("account-two".into());
    identity.direct_transport_uid = Some("transport".into());
    let mut transport = source("transport", Some("collection"));
    transport.is_transport = true;

    let snapshot = build_snapshot(&vec![collection, account, identity, transport]);

    assert_eq!(snapshot.triplets.len(), 1);
    assert_eq!(snapshot.triplets[0].goa_account_id, None);
}

#[test]
fn inherited_values_stop_at_a_parent_cycle() {
    let first = source("first", Some("second"));
    let second = source("second", Some("first"));
    let sources = vec![first.clone(), second];

    let inherited = inherited_source_value(&first, &sources, InheritedField::GoaAccountId);

    assert!(inherited.is_none());
}

#[test]
fn source_configuration_hash_includes_ancestor_settings() {
    let mut collection = source("collection", None);
    collection.serialized_configuration = "[Collection]\nBackendName=first".into();
    let account = source("account", Some("collection"));
    let first_sources = vec![collection.clone(), account.clone()];
    let first = source_configuration_hash(&account, &first_sources);

    collection.serialized_configuration = "[Collection]\nBackendName=second".into();
    let second_sources = vec![collection, account.clone()];

    assert_ne!(first, source_configuration_hash(&account, &second_sources));
}

#[test]
fn mailbox_settings_have_different_hashes() {
    let sent = Some("folder://local/Sent".to_string());
    let first = mailbox_configuration_hash(&sent, Some(true), &None);
    assert_eq!(first, mailbox_configuration_hash(&sent, Some(true), &None));
    assert_ne!(first, mailbox_configuration_hash(&sent, Some(false), &None));
    assert_ne!(first, mailbox_configuration_hash(&None, Some(true), &sent));
}

#[test]
fn mailbox_settings_are_hashed_as_optional_values() {
    let texts = [None, Some(String::new()), Some("folder://local/Sent".to_string())];
    for sent in &texts {
        for drafts in &texts {
            for use_sent_folder in [None, Some(false), Some(true)] {
                let mut hasher = DefaultHasher::new();
                sent.hash(&mut hasher);
                use_sent_folder.hash(&mut hasher);
                drafts.hash(&mut hasher);
                assert_eq!(
                    mailbox_configuration_hash(sent, use_sent_folder, drafts),
                    hasher.finish()
                );
            }
        }
    }
}

#[test]
fn only_a_named_signature_is_fetched() {
    assert!(matches!(signature_request("none"), SignatureRequest::Empty(_)));
    assert!(matches!(signature_request("signature-1"), SignatureRequest::Fetch));
    assert!(matches!(signature_request(""), SignatureRequest::Rejected));
}

fn identity_update() -> IdentityUpdate {
    let mut identity = metadata("owner@example.com", "");
    identity.signatures.text = SignatureMetadata {
        uid: "new-signature".into(),
        display_name: "owner@example.com".into(),
        contents: "Regards".into(),
        mime_type: "text/plain".into(),
    };
    identity.signatures.html.uid = "kept-signature".into();
    IdentityUpdate {
        identity_uid: "owner-identity".into(),
        name: Some("Owner".into()),
        reply_to: None,
        aliases: None,
        account_label: "Account".into(),
        default_address: "owner@example.com".into(),
        primary_signature_uid: "new-signature".into(),
        identities: vec![identity],
    }
}

#[test]
fn an_identity_is_written_after_its_signatures_and_before_old_ones_are_removed() {
    let update = identity_update();
    let plan = plan_identity_write(
        &update,
        &vec!["kept-signature".into(), "old-signature".into()],
    )
    .unwrap();
    assert_eq!(plan.reply_to, "");
    assert_eq!(
        plan.records,
        ["owner@example.com", "", "kept-signature", "new-signature"]
    );
    assert_eq!(plan.staged.len(), 1);
    assert_eq!(plan.stale, ["old-signature"]);

    let mut step = plan.first_step();
    let mut steps = vec![step];
    while !matches!(step, WriteStep::Succeeded | WriteStep::Failed) {
        step = plan.next_step(step, true);
        steps.push(step);
    }
    assert_eq!(
        steps,
        [
            WriteStep::Stage { index: 0 },
            WriteStep::Commit,
            WriteStep::RemoveStale { index: 0 },
            WriteStep::Succeeded,
        ]
    );
}

#[test]
fn an_identity_with_an_interior_nul_is_not_written() {
    let error = |change: fn(&mut IdentityUpdate)| {
        let mut update = identity_update();
        change(&mut update);
        plan_identity_write(&update, &Vec::new()).err()
    };
    assert_eq!(
        error(|update| update.identity_uid = "a\0".into()),
        Some(IdentityWriteError::IdentityUid)
    );
    assert_eq!(
        error(|update| update.name = Some("a\0".into())),
        Some(IdentityWriteError::Name)
    );
    assert_eq!(
        error(|update| update.reply_to = Some("a\0".into())),
        Some(IdentityWriteError::ReplyTo)
    );
    assert_eq!(
        error(|update| update.aliases = Some("a\0".into())),
        Some(IdentityWriteError::Aliases)
    );
    assert_eq!(
        error(|update| update.account_label = "a\0".into()),
        Some(IdentityWriteError::AccountLabel)
    );
    assert_eq!(
        error(|update| update.default_address = "a\0".into()),
        Some(IdentityWriteError::DefaultAddress)
    );
    assert_eq!(
        error(|update| update.primary_signature_uid = "a\0".into()),
        Some(IdentityWriteError::PrimarySignatureUid)
    );
    assert_eq!(
        error(|update| update.identities[0].address = "a\0".into()),
        Some(IdentityWriteError::Metadata)
    );
}

#[test]
fn a_signature_with_an_interior_nul_is_not_written() {
    let signature = identity_update().identities[0].signatures.text.clone();
    assert_eq!(check_signature(&signature), Ok(()));
    let mut uid = signature.clone();
    uid.uid = "a\0".into();
    assert_eq!(check_signature(&uid), Err(SignatureWriteError::Uid));
    let mut name = signature.clone();
    name.display_name = "a\0".into();
    assert_eq!(check_signature(&name), Err(SignatureWriteError::DisplayName));
    let mut kind = signature;
    kind.mime_type = "a\0".into();
    assert_eq!(check_signature(&kind), Err(SignatureWriteError::MimeType));
}

#[test]
fn mailbox_configuration_is_written_only_when_it_changes() {
    assert_eq!(check_mailbox_configuration("uid", "drafts", "sent"), Ok(()));
    assert_eq!(
        check_mailbox_configuration("\0", "drafts", "sent"),
        Err(MailboxConfigurationError::IdentityUid)
    );
    assert_eq!(
        check_mailbox_configuration("uid", "\0", "sent"),
        Err(MailboxConfigurationError::DraftsUri)
    );
    assert_eq!(
        check_mailbox_configuration("uid", "drafts", "\0"),
        Err(MailboxConfigurationError::SentUri)
    );
    let drafts = Some("drafts".to_string());
    let sent = Some("sent".to_string());
    assert!(mailbox_configuration_is_current(&drafts, &sent, true, "drafts", "sent"));
    assert!(!mailbox_configuration_is_current(&drafts, &sent, false, "drafts", "sent"));
    assert!(!mailbox_configuration_is_current(&None, &sent, true, "drafts", "sent"));
}

#[test]
fn a_default_signature_is_empty() {
    assert_eq!(
        Signature::default(),
        Signature {
            html: String::new(),
            text: String::new()
        }
    );
}

#[test]
fn a_signature_without_a_kind_is_plain_text() {
    let signature = loaded_signature("uid".into(), None, "Regards".into(), None);
    assert_eq!(signature.display_name, "");
    assert_eq!(signature.mime_type, "text/plain");
    assert_eq!(signature.contents, "Regards");
}

#[test]
fn the_signatures_of_an_identity_are_named_once_and_in_order() {
    let mut stored = triplet("account", "owner");
    let mut identity = metadata("owner@example.com", "");
    identity.signatures.html.uid = "b".into();
    identity.signatures.text.uid = "a".into();
    let reading = read_identity_extension(
        true,
        Some("Account".into()),
        Some("owner@example.com".into()),
        &vec![
            "owner@example.com".into(),
            String::new(),
            "b".into(),
            "a".into(),
        ],
        &Some("owner@example.com".into()),
        &Vec::new(),
    );
    let request = match reading {
        ExtensionReading::Load(request) => request,
        _ => panic!("the extension can be read"),
    };
    stored.identity.as_mut().unwrap().identity_extension = assemble_identity_extension(
        request,
        &vec![
            Some(identity.signatures.html),
            Some(identity.signatures.text),
        ],
    );
    let snapshot = Snapshot {
        triplets: vec![stored],
    };
    assert_eq!(
        previous_signature_uids(&snapshot, "owner-identity"),
        ["a", "b"]
    );
    assert!(previous_signature_uids(&snapshot, "other").is_empty());
}

#[test]
fn an_account_without_an_address_cannot_be_read() {
    assert!(snapshot_is_readable(&Snapshot {
        triplets: vec![triplet("account", "owner")]
    }));
    let mut blank = triplet("account", "owner");
    blank.identity.as_mut().unwrap().identity_address = Some("<>".into());
    assert!(!snapshot_is_readable(&Snapshot {
        triplets: vec![blank]
    }));
}

#[test]
fn what_is_stored_of_an_account_gives_it_back() {
    let mut account = owner();
    assert!(account.add_identity(SendingIdentity::new(
        "second@example.com".into(),
        "Second".into(),
        Some("answers@example.com".into()),
        Signature { html: "<p>Second</p>".into(), text: "Second".into() },
    )));
    assert!(account.add_identity(SendingIdentity::new(
        "third@example.com".into(),
        String::new(),
        None,
        Signature { html: String::new(), text: "Third".into() },
    )));
    assert!(account.set_default_identity("THIRD@example.com"));
    assert!(account.rename("Label".into()));
    let stored = identity_extension_from_account(&account, None, &fresh());
    let again = identity_extension_from_account(&account, Some(&stored), &fresh());

    let mut same = account.clone();
    apply_identity_extension(&mut same, &again);
    assert_eq!(same, account);

    let mut standard = owner();
    import_eds_aliases(
        &mut standard,
        &vec![alias(None, "third@example.com"), alias(Some("Second"), "second@example.com")],
    );
    assert_ne!(standard, account);
    apply_identity_extension(&mut standard, &stored);
    assert_eq!(standard, account);
}

#[test]
fn a_snapshot_is_read_up_to_its_first_error() {
    let mut invalid = triplet("first", "one");
    invalid.identity.as_mut().unwrap().identity_extension = IdentityExtensionState::Invalid;
    let mut unreadable = triplet("second", "two");
    unreadable.identity.as_mut().unwrap().identity_address = Some("<>".into());
    let stops = Snapshot { triplets: vec![invalid, unreadable.clone()] };
    assert!(snapshot_is_readable(&stops));
    assert!(from_registry(&stops).is_err());
    let reaches = Snapshot { triplets: vec![triplet("first", "one"), unreadable.clone()] };
    assert!(!snapshot_is_readable(&reaches));
    let repeats = Snapshot {
        triplets: vec![triplet("first", "one"), triplet("first", "three"), unreadable],
    };
    assert!(snapshot_is_readable(&repeats));
    assert!(matches!(from_registry(&repeats), Err(CatalogError::DuplicateRoute(_))));
}
