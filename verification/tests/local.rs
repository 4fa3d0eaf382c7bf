use pigeon::integration::account::{EdsAccountBinding, RouteFingerprint};
use pigeon::integration::camel::{
    MessageSyncState, DELIVERY_COPY_REQUIRED, DELIVERY_PROVIDER_COPY, DELIVERY_SUBMITTING,
};
use pigeon::integration::local::delivery::{
    classify_delivery, has_outbox_messages, outbox_delivery_metadata, outbox_delivery_records,
    plan_submission, project_outbox, sent_delivery_metadata, sent_delivery_records, DeliveryError,
    DeliveryPlacement, DeliveryState, DeliverySynchronization, OutboxSubmission,
    RemoteSentEvidence, SentStep, StepOutcome, SubmissionStep, UnknownMarker,
};
use pigeon::integration::local::draft::{DraftError, DraftReplayOutcome, DraftSet, DraftStep};
use pigeon::integration::local::{
    load_drafts, load_outbox_projection, load_sent_projection, refresh_target, FolderListing, LocalError, LocalFolder, LocalMailbox, SaveFailure, SaveMode,
    SaveStep,
};
use pigeon::integration::mailbox::MailboxConversations;
use pigeon::model::account::MailAccountId;
use pigeon::model::mail::{
    ConversationId, ConversationSummary, DraftMessage, FolderId, FolderKind, MailFolder,
};
use std::collections::{HashMap, HashSet};

fn binding() -> EdsAccountBinding {
    EdsAccountBinding {
        account_id: MailAccountId("account-1".into()),
        account_uid: "account-source".into(),
        account_parent_uid: "collection-source".into(),
        account_backend_name: "imapx".into(),
        account_auth_method: None,
        identity_uid: "identity-source".into(),
        transport_uid: "transport-source".into(),
        transport_backend_name: "smtp".into(),
        transport_auth_method: None,
        route_fingerprint: RouteFingerprint {
            account: 0,
            transport: 0,
            mailbox: 0,
        },
    }
}

fn summary(id: &str) -> ConversationSummary {
    ConversationSummary {
        id: ConversationId(id.into()),
        folder_id: FolderId(
            id.split_once('\u{1f}')
                .expect("fixture conversation IDs contain a folder")
                .0
                .into(),
        ),
        subject: id.into(),
        participants: Vec::new(),
        message_count: 1,
        unread_count: 1,
        attachment_count: 0,
        starred: false,
        last_updated_unix_ms: 0,
        preview: String::new(),
    }
}

fn draft_summary(uid: &str) -> ConversationSummary {
    let mut draft = summary(&format!("collection-source/Drafts\u{1f}{uid}"));
    draft.subject = uid.into();
    draft.unread_count = 0;
    draft
}

fn draft_state(uid: &str, message_id_hash: u64, superseded: bool) -> MessageSyncState {
    MessageSyncState {
        conversation_id: ConversationId(format!("collection-source/Drafts\u{1f}{uid}")),
        message_id_hash,
        delivery_state: None,
        draft_synced: false,
        draft_superseded: superseded,
    }
}

fn outbox_state(uid: &str, message_id_hash: u64, marker: Option<&str>) -> MessageSyncState {
    MessageSyncState {
        conversation_id: ConversationId(format!("collection-source/Outbox\u{1f}{uid}")),
        message_id_hash,
        delivery_state: marker.map(str::to_string),
        draft_synced: false,
        draft_superseded: false,
    }
}

fn outbox_summary(uid: &str) -> ConversationSummary {
    summary(&format!("collection-source/Outbox\u{1f}{uid}"))
}

#[test]
fn folder_ids_and_conversation_ownership_share_one_collection_scope() {
    let binding = binding();
    let mailbox = LocalMailbox::new(&binding);
    assert_eq!(
        mailbox.folder_id(LocalFolder::Outbox),
        FolderId("collection-source/Outbox".into())
    );
    assert_eq!(
        mailbox.folder_uri(&mailbox.folder_id(LocalFolder::Drafts).0),
        "folder://local/collection-source/Drafts"
    );
    assert_eq!(
        mailbox.folder_uri(&mailbox.folder_id(LocalFolder::Sent).0),
        "folder://local/collection-source/Sent"
    );
    assert!(mailbox.contains(&ConversationId(
        "collection-source/Outbox\u{1f}uid-1".into()
    )));
    assert!(mailbox.contains(&ConversationId(
        "collection-source/Sent\u{1f}uid-2".into()
    )));
    assert!(!mailbox.contains(&ConversationId(
        "collection-source-other/Outbox\u{1f}uid-1".into()
    )));
    assert!(!mailbox.contains(&ConversationId(
        "collection-source/Other\u{1f}uid-2".into()
    )));
    assert!(!mailbox.contains(&ConversationId(
        "collection-source/Drafts/Nested\u{1f}uid-2".into()
    )));
    assert!(!mailbox.contains(&ConversationId("malformed".into())));
    assert!(!mailbox.contains(&ConversationId("collection-source\u{1f}uid-3".into())));
}

#[test]
fn draft_replacement_cannot_cross_local_collections_or_folder_roles() {
    let binding = binding();
    let mailbox = LocalMailbox::new(&binding);
    assert!(mailbox.contains_in(
        LocalFolder::Drafts,
        &ConversationId("collection-source/Drafts\u{1f}old".into()),
    ));
    assert!(!mailbox.contains_in(
        LocalFolder::Drafts,
        &ConversationId("collection-source/Outbox\u{1f}old".into()),
    ));
    assert!(!mailbox.contains_in(
        LocalFolder::Drafts,
        &ConversationId("other/Drafts\u{1f}old".into()),
    ));
    assert!(!mailbox.contains_in(
        LocalFolder::Drafts,
        &ConversationId("collection-source/Sent\u{1f}old".into()),
    ));
}

#[test]
fn local_projection_replaces_only_its_previous_local_rows() {
    let binding = binding();
    let mailbox = LocalMailbox::new(&binding);
    let mut folders = vec![MailFolder {
        id: FolderId("remote-drafts".into()),
        name: "Drafts".into(),
        unread_count: 0,
        kind: FolderKind::Drafts,
    }];
    let mut conversations = MailboxConversations::new();
    conversations.insert(
        FolderId("remote-drafts".into()),
        vec![
            summary("remote-drafts\u{1f}remote"),
            summary("collection-source/Drafts\u{1f}old-local"),
        ],
    );

    mailbox.project_folder(
        LocalFolder::Drafts,
        vec![summary("collection-source/Drafts\u{1f}new-local")],
        &mut folders,
        &mut conversations,
    );

    let shown = conversations.get(&FolderId("remote-drafts".into())).unwrap();
    let ids = shown
        .iter()
        .map(|summary| summary.id.0.as_str())
        .collect::<HashSet<_>>();
    assert_eq!(
        ids,
        HashSet::from([
            "remote-drafts\u{1f}remote",
            "collection-source/Drafts\u{1f}new-local",
        ])
    );
    assert!(shown
        .iter()
        .all(|summary| summary.folder_id == FolderId("remote-drafts".into())));
    assert_eq!(folders[0].unread_count, 2);
}

#[test]
fn unsubmitted_delivery_stays_in_outbox() {
    assert_eq!(
        classify_delivery(
            DeliveryState::Queued,
            17,
            &mut HashMap::from([(17, 1)]),
        ),
        DeliveryPlacement::Outbox
    );
}

#[test]
fn remote_sent_proof_resolves_an_uncertain_submission() {
    assert_eq!(
        classify_delivery(
            DeliveryState::SubmissionUncertain,
            17,
            &mut HashMap::from([(17, 1)]),
        ),
        DeliveryPlacement::Retire
    );
}

#[test]
fn provider_copy_expectation_waits_for_matching_remote_sent_proof() {
    assert_eq!(
        classify_delivery(
            DeliveryState::ProviderCopyExpected,
            17,
            &mut HashMap::new(),
        ),
        DeliveryPlacement::Sent
    );
    assert_eq!(
        classify_delivery(
            DeliveryState::ProviderCopyExpected,
            17,
            &mut HashMap::from([(18, 1)]),
        ),
        DeliveryPlacement::Sent
    );
}

#[test]
fn ordinary_smtp_submission_uses_the_generic_sent_copy_path() {
    let state = DeliveryState::from_marker(Some(DELIVERY_COPY_REQUIRED), DeliveryState::Queued)
        .expect("ordinary SMTP completion has one unambiguous state");
    assert_eq!(state, DeliveryState::NeedsRemoteCopy);
    assert_eq!(
        classify_delivery(state, 17, &mut HashMap::new()),
        DeliveryPlacement::Sent
    );
}

#[test]
fn a_transport_managed_sent_copy_waits_for_provider_evidence() {
    assert_eq!(
        DeliveryState::from_marker(Some(DELIVERY_PROVIDER_COPY), DeliveryState::Queued)
            .expect("transport-managed completion has one unambiguous state"),
        DeliveryState::ProviderCopyExpected
    );
}

#[test]
fn interrupted_submission_is_held_without_automatic_resubmission() {
    let state = DeliveryState::from_marker(Some(DELIVERY_SUBMITTING), DeliveryState::Queued)
        .expect("a started submission has one recovery state");
    assert_eq!(state, DeliveryState::SubmissionUncertain);
    assert_eq!(
        classify_delivery(state, 17, &mut HashMap::new()),
        DeliveryPlacement::Held
    );
    assert_ne!(state, DeliveryState::Queued);
    assert!(state.belongs_in_outbox());
}

#[test]
fn durable_delivery_markers_remain_delivery_evidence_after_restart() {
    assert!(matches!(
        classify_delivery(
            DeliveryState::ProviderCopyExpected,
            17,
            &mut HashMap::new(),
        ),
        DeliveryPlacement::Sent | DeliveryPlacement::Retire
    ));
    assert!(matches!(
        classify_delivery(DeliveryState::NeedsRemoteCopy, 17, &mut HashMap::new()),
        DeliveryPlacement::Sent | DeliveryPlacement::Retire
    ));
    assert_eq!(
        classify_delivery(DeliveryState::Queued, 17, &mut HashMap::new()),
        DeliveryPlacement::Outbox
    );
}

#[test]
fn each_remote_copy_retires_only_one_acknowledged_local_copy() {
    let mut remote = HashMap::from([(17, 1)]);
    assert_eq!(
        classify_delivery(DeliveryState::NeedsRemoteCopy, 17, &mut remote),
        DeliveryPlacement::Retire
    );
    assert_eq!(
        classify_delivery(DeliveryState::ProviderCopyExpected, 17, &mut remote),
        DeliveryPlacement::Sent
    );
}

#[test]
fn delivery_never_infers_send_state_from_an_incomplete_camel_snapshot() {
    let mut summary = outbox_summary("queued");
    summary.subject = String::new();
    summary.unread_count = 0;
    let state = outbox_state("queued", 17, None);

    assert!(outbox_delivery_records(vec![summary.clone()], &Vec::new()).is_err());
    assert!(outbox_delivery_records(Vec::new(), &vec![state.clone()]).is_err());
    let mut missing_message_id = state.clone();
    missing_message_id.message_id_hash = 0;
    assert!(outbox_delivery_records(vec![summary.clone()], &vec![missing_message_id]).is_err());
    let mut invalid_delivery_state = state.clone();
    invalid_delivery_state.delivery_state = Some("invalid".into());
    assert!(
        outbox_delivery_records(vec![summary.clone()], &vec![invalid_delivery_state]).is_err()
    );
    let mut draft_state = state.clone();
    draft_state.draft_superseded = true;
    assert!(outbox_delivery_records(vec![summary.clone()], &vec![draft_state]).is_err());
    assert!(outbox_delivery_records(vec![summary], &vec![state.clone(), state]).is_err());
}

#[test]
fn each_incomplete_delivery_has_its_error() {
    let error = |summaries, states| outbox_delivery_records(summaries, &states).err();
    let id = "collection-source/Outbox\u{1f}queued".to_string();
    let state = outbox_state("queued", 17, None);
    assert_eq!(
        error(vec![outbox_summary("queued")], Vec::new()),
        Some(DeliveryError::NoState(id.clone()))
    );
    assert_eq!(
        error(Vec::new(), vec![state.clone()]),
        Some(DeliveryError::NoSummary(id.clone()))
    );
    assert_eq!(
        error(vec![outbox_summary("queued")], vec![state.clone(), state.clone()]),
        Some(DeliveryError::DuplicateState(id.clone()))
    );
    let mut draft = state.clone();
    draft.draft_synced = true;
    assert_eq!(
        error(vec![outbox_summary("queued")], vec![draft]),
        Some(DeliveryError::DraftState(id.clone()))
    );
    assert!(matches!(
        error(
            vec![outbox_summary("queued")],
            vec![outbox_state("queued", 17, Some("invalid"))]
        ),
        Some(DeliveryError::UnknownMarker { .. })
    ));
    assert_eq!(
        DeliveryState::from_marker(Some("invalid"), DeliveryState::Queued),
        Err(UnknownMarker("invalid".into()))
    );
}

#[test]
fn draft_replay_requires_one_explicit_current_revision_per_message_id() {
    let state = |uid: &str, superseded: bool| draft_state(uid, 17, superseded);

    let revisions = DraftSet::from_states(&vec![state("old", true), state("current", false)])
        .expect("one current revision should be unambiguous")
        .revisions;
    assert_eq!(revisions.len(), 1);
    assert_eq!(
        revisions[0].conversation_id.0,
        "collection-source/Drafts\u{1f}current"
    );
    assert_eq!(revisions[0].obsolete.len(), 1);
    assert_eq!(
        revisions[0].obsolete[0].0,
        "collection-source/Drafts\u{1f}old"
    );
    assert!(!revisions[0].recover_superseded_marker);

    let recovered = DraftSet::from_states(&vec![state("only", true)])
        .expect("a sole interrupted revision remains the current draft")
        .revisions;
    assert!(recovered[0].recover_superseded_marker);

    assert!(DraftSet::from_states(&vec![state("one", false), state("two", false)]).is_err());
    let mut missing_message_id = state("missing-id", false);
    missing_message_id.message_id_hash = 0;
    assert!(DraftSet::from_states(&vec![missing_message_id]).is_err());
    let mut delivery_state = state("delivery-state", false);
    delivery_state.delivery_state = Some(DELIVERY_PROVIDER_COPY.into());
    assert!(DraftSet::from_states(&vec![delivery_state]).is_err());
}

#[test]
fn each_ambiguous_draft_has_its_error() {
    let error = |states: Vec<MessageSyncState>| DraftSet::from_states(&states).err();
    let id = "collection-source/Drafts\u{1f}one".to_string();
    assert_eq!(
        error(vec![draft_state("one", 17, false), draft_state("one", 18, false)]),
        Some(DraftError::DuplicateState(id.clone()))
    );
    let mut delivery = draft_state("one", 17, false);
    delivery.delivery_state = Some(DELIVERY_PROVIDER_COPY.into());
    assert_eq!(error(vec![delivery]), Some(DraftError::DeliveryState(id.clone())));
    assert_eq!(
        error(vec![draft_state("one", 0, false)]),
        Some(DraftError::NoMessageId(id))
    );
    assert_eq!(
        error(vec![draft_state("one", 17, false), draft_state("two", 17, false)]),
        Some(DraftError::NoUniqueCurrent(17))
    );
}

#[test]
fn draft_projection_exposes_only_the_current_revision() {
    let drafts = DraftSet::from_states(&vec![
        draft_state("old", 17, true),
        draft_state("current", 17, false),
    ])
    .expect("draft state should be unambiguous");

    let projected = drafts
        .project_complete(vec![draft_summary("old"), draft_summary("current")])
        .expect("complete Camel snapshots should project");
    assert_eq!(projected.len(), 1);
    assert_eq!(projected[0].subject, "current");
    assert!(drafts
        .project_matches(vec![draft_summary("old")])
        .expect("superseded search matches are valid but invisible")
        .is_empty());
    assert!(drafts.project_complete(vec![draft_summary("current")]).is_err());
    assert!(drafts.project_matches(vec![draft_summary("unknown")]).is_err());
}

#[test]
fn each_projection_that_does_not_fit_has_its_error() {
    let drafts = DraftSet::from_states(&vec![draft_state("one", 17, false)]).unwrap();
    let id = |uid: &str| format!("collection-source/Drafts\u{1f}{uid}");
    assert_eq!(
        drafts
            .project_complete(vec![draft_summary("one"), draft_summary("one")])
            .err(),
        Some(DraftError::DuplicateSummary(id("one")))
    );
    assert_eq!(
        drafts.project_complete(Vec::new()).err(),
        Some(DraftError::NoSummary(id("one")))
    );
    assert_eq!(
        drafts
            .project_complete(vec![draft_summary("one"), draft_summary("two")])
            .err(),
        Some(DraftError::NoState(id("two")))
    );
    assert_eq!(
        drafts.project_matches(vec![draft_summary("two")]).err(),
        Some(DraftError::UnknownMatch(id("two")))
    );
}

#[test]
fn delivery_retires_every_local_revision_before_draft_replay() {
    let replay = DraftSet::from_states(&vec![
        draft_state("sent-old", 17, true),
        draft_state("sent-current", 17, false),
        draft_state("pending", 18, false),
    ])
    .expect("draft revisions should be unambiguous")
    .into_replay(&HashSet::from([17]));

    assert_eq!(replay.pending.len(), 1);
    assert_eq!(replay.pending[0].message_id_hash, 18);
    assert_eq!(
        replay
            .delivered
            .iter()
            .map(|id| id.0.rsplit_once('\u{1f}').unwrap().1)
            .collect::<HashSet<_>>(),
        HashSet::from(["sent-old", "sent-current"])
    );
}

#[test]
fn camel_delivery_marker_forms_one_unambiguous_business_state() {
    assert_eq!(
        DeliveryState::from_marker(None, DeliveryState::Queued).unwrap(),
        DeliveryState::Queued
    );
    assert_eq!(
        DeliveryState::from_marker(Some(DELIVERY_PROVIDER_COPY), DeliveryState::Queued).unwrap(),
        DeliveryState::ProviderCopyExpected
    );
    assert_eq!(
        DeliveryState::from_marker(Some(DELIVERY_COPY_REQUIRED), DeliveryState::Queued).unwrap(),
        DeliveryState::NeedsRemoteCopy
    );
    assert!(DeliveryState::from_marker(Some("invalid"), DeliveryState::Queued).is_err());
    assert_eq!(
        DeliveryState::from_marker(None, DeliveryState::NeedsRemoteCopy).unwrap(),
        DeliveryState::NeedsRemoteCopy
    );
    assert!(DeliveryState::Queued.belongs_in_outbox());
    assert!(DeliveryState::SubmissionUncertain.belongs_in_outbox());
    assert!(!DeliveryState::ProviderCopyExpected.belongs_in_outbox());
    assert!(!DeliveryState::NeedsRemoteCopy.belongs_in_outbox());

    let unmarked = outbox_state("unmarked", 17, None);
    assert_eq!(
        outbox_delivery_metadata(&unmarked).unwrap().0,
        DeliveryState::Queued
    );
    assert_eq!(
        sent_delivery_metadata(&unmarked).unwrap().0,
        DeliveryState::NeedsRemoteCopy
    );
}

#[test]
fn a_delivered_message_leaves_the_outbox_projection() {
    let records = outbox_delivery_records(
        vec![outbox_summary("queued"), outbox_summary("delivered")],
        &vec![
            outbox_state("queued", 17, None),
            outbox_state("delivered", 18, Some(DELIVERY_PROVIDER_COPY)),
        ],
    )
    .unwrap();
    let projection = project_outbox(records);
    assert_eq!(projection.outbox.len(), 1);
    assert_eq!(projection.outbox[0].id.0, "collection-source/Outbox\u{1f}queued");
    assert_eq!(projection.sent.len(), 1);
    assert!(has_outbox_messages(&vec![outbox_state("queued", 17, None)]).unwrap());
    assert!(!has_outbox_messages(&vec![outbox_state(
        "delivered",
        18,
        Some(DELIVERY_PROVIDER_COPY)
    )])
    .unwrap());
}

#[test]
fn only_a_queued_message_is_submitted() {
    let records = outbox_delivery_records(
        vec![
            outbox_summary("queued"),
            outbox_summary("uncertain"),
            outbox_summary("delivered"),
        ],
        &vec![
            outbox_state("queued", 17, None),
            outbox_state("uncertain", 18, Some(DELIVERY_SUBMITTING)),
            outbox_state("delivered", 19, Some(DELIVERY_COPY_REQUIRED)),
        ],
    )
    .unwrap();
    let plan = plan_submission(&records);
    assert_eq!(plan.submissions.len(), 1);
    assert_eq!(plan.submissions[0].0, "collection-source/Outbox\u{1f}queued");
    assert_eq!(plan.finished.len(), 1);
    assert_eq!(plan.finished[0].0, "collection-source/Outbox\u{1f}delivered");
}

#[test]
fn a_submission_runs_once_through_its_steps() {
    let sent = StepOutcome::Sent {
        provider_saved_copy: true,
    };
    let begin = SubmissionStep::Begin;
    assert_eq!(begin.next_step(StepOutcome::Succeeded), SubmissionStep::Send);
    assert_eq!(begin.next_step(StepOutcome::Failed), SubmissionStep::Failed);
    assert_eq!(
        SubmissionStep::Send.next_step(sent),
        SubmissionStep::Complete {
            provider_saved_copy: true
        }
    );
    assert_eq!(
        SubmissionStep::Send.next_step(StepOutcome::Failed),
        SubmissionStep::Failed
    );
}

#[test]
fn remote_copies_retire_what_waits_in_the_outbox() {
    let records = outbox_delivery_records(
        vec![outbox_summary("queued"), outbox_summary("uncertain")],
        &vec![
            outbox_state("queued", 17, None),
            outbox_state("uncertain", 18, Some(DELIVERY_SUBMITTING)),
        ],
    )
    .unwrap();
    let mut submission = OutboxSubmission {
        outbox: vec![outbox_summary("queued"), outbox_summary("uncertain")],
        delivered_message_id_hashes: HashSet::new(),
    };
    let mut evidence = RemoteSentEvidence::from_states(&vec![
        outbox_state("a", 17, None),
        outbox_state("b", 18, None),
    ]);
    let retired = submission.resolve(&records, &mut evidence);
    assert_eq!(retired, [ConversationId("collection-source/Outbox\u{1f}uncertain".into())]);
    assert_eq!(submission.outbox.len(), 1);
    assert!(submission.delivered_message_id_hashes.contains(&18));
}

#[test]
fn a_sent_message_is_uploaded_where_the_provider_keeps_no_copy() {
    let sent_state = |uid: &str, hash: u64, marker: Option<&str>| MessageSyncState {
        conversation_id: ConversationId(format!("collection-source/Sent\u{1f}{uid}")),
        message_id_hash: hash,
        delivery_state: marker.map(str::to_string),
        draft_synced: false,
        draft_superseded: false,
    };
    let sent_summary = |uid: &str| summary(&format!("collection-source/Sent\u{1f}{uid}"));
    let records = sent_delivery_records(
        vec![sent_summary("there"), sent_summary("upload"), sent_summary("wait")],
        &vec![
            sent_state("there", 17, None),
            sent_state("upload", 18, Some(DELIVERY_COPY_REQUIRED)),
            sent_state("wait", 19, Some(DELIVERY_PROVIDER_COPY)),
        ],
    )
    .unwrap();
    let mut submission = OutboxSubmission {
        outbox: Vec::new(),
        delivered_message_id_hashes: HashSet::new(),
    };
    let mut evidence =
        RemoteSentEvidence::from_states(&vec![sent_state("remote", 17, None)]);
    let reconciliation = submission.reconcile_sent(&records, &mut evidence, true);
    assert_eq!(
        reconciliation.steps,
        [
            SentStep::Retire(ConversationId("collection-source/Sent\u{1f}there".into())),
            SentStep::Upload(ConversationId("collection-source/Sent\u{1f}upload".into())),
        ]
    );
    assert_eq!(reconciliation.uploaded, 1);
    assert_eq!(reconciliation.awaiting_provider, 1);
    let synchronization = DeliverySynchronization::new(submission, &reconciliation, records);
    assert!(synchronization.remote_changed);
    assert!(synchronization.convergence_incomplete);
}

#[test]
fn a_draft_is_stored_at_the_provider_before_it_goes() {
    let binding = binding();
    let mailbox = LocalMailbox::new(&binding);
    let remote = vec![MessageSyncState {
        conversation_id: ConversationId("Drafts\u{1f}remote".into()),
        message_id_hash: 17,
        delivery_state: None,
        draft_synced: false,
        draft_superseded: false,
    }];
    let plan = mailbox
        .replay_drafts(
            &vec![draft_state("one", 17, false)],
            Some(&remote),
            &HashSet::new(),
        )
        .unwrap();
    assert!(plan.remote_changed);
    let local = ConversationId("collection-source/Drafts\u{1f}one".into());
    assert_eq!(
        plan.steps,
        [
            DraftStep::DeleteRemote(ConversationId("Drafts\u{1f}remote".into())),
            DraftStep::AppendRemote(local.clone()),
            DraftStep::MarkSynced(local.clone()),
            DraftStep::DeleteLocal(local),
        ]
    );
    assert!(!DraftReplayOutcome::new(&plan, true, 0).convergence_incomplete);
    assert!(DraftReplayOutcome::new(&plan, true, 1).convergence_incomplete);
    assert!(!DraftReplayOutcome::new(&plan, false, 1).convergence_incomplete);
}

#[test]
fn local_search_shows_each_message_once_in_the_visible_folder() {
    let binding = binding();
    let mailbox = LocalMailbox::new(&binding);
    let folders = vec![MailFolder {
        id: FolderId("remote-drafts".into()),
        name: "Drafts".into(),
        unread_count: 0,
        kind: FolderKind::Drafts,
    }];
    let empty = || FolderListing {
        summaries: Vec::new(),
        states: Vec::new(),
    };
    let found = mailbox
        .search(
            &folders,
            FolderListing {
                summaries: vec![draft_summary("one")],
                states: vec![draft_state("one", 17, false)],
            },
            empty(),
            empty(),
        )
        .unwrap();
    assert_eq!(found.len(), 1);
    assert_eq!(found[0].folder_id, FolderId("remote-drafts".into()));

    assert_eq!(
        mailbox
            .search(
                &folders,
                FolderListing {
                    summaries: vec![draft_summary("two")],
                    states: Vec::new(),
                },
                empty(),
                empty(),
            )
            .err(),
        Some(LocalError::Draft(DraftError::UnknownMatch(
            "collection-source/Drafts\u{1f}two".into()
        )))
    );
    assert_eq!(
        mailbox
            .search(
                &folders,
                empty(),
                FolderListing {
                    summaries: vec![outbox_summary("two")],
                    states: Vec::new(),
                },
                empty(),
            )
            .err(),
        Some(LocalError::UnknownDeliveryMatch(
            "collection-source/Outbox\u{1f}two".into()
        ))
    );
    assert_eq!(
        mailbox
            .search(
                &folders,
                empty(),
                empty(),
                FolderListing {
                    summaries: vec![summary("collection-source/Sent\u{1f}two")],
                    states: Vec::new(),
                },
            )
            .err(),
        Some(LocalError::UnknownSentMatch(
            "collection-source/Sent\u{1f}two".into()
        ))
    );
}

#[test]
fn a_failed_save_takes_the_mark_of_the_replaced_draft_back() {
    let mode = SaveMode {
        replaces: true,
        deliver: false,
    };
    assert_eq!(mode.first_step(), SaveStep::MarkSuperseded);
    assert_eq!(mode.next_step(SaveStep::MarkSuperseded, true), SaveStep::Append);
    assert_eq!(
        mode.next_step(SaveStep::Append, false),
        SaveStep::UnmarkSuperseded(SaveFailure::Append)
    );
    assert_eq!(
        mode.next_step(SaveStep::UnmarkSuperseded(SaveFailure::Append), true),
        SaveStep::Failed(SaveFailure::Append)
    );
    let fresh = SaveMode {
        replaces: false,
        deliver: true,
    };
    assert_eq!(fresh.first_step(), SaveStep::Append);
    assert_eq!(fresh.next_step(SaveStep::Append, true), SaveStep::EnsureOutbox);
}

#[test]
fn a_message_is_saved_in_the_local_drafts() {
    let binding = binding();
    let mailbox = LocalMailbox::new(&binding);
    let mut draft = DraftMessage::empty(MailAccountId("account-1".into()), "me@example.test".into());
    draft.subject = "Subject".into();
    draft.conversation_id = Some(ConversationId(
        "collection-source/Drafts\u{1f}old".into(),
    ));
    let prepared = draft.into_prepared().unwrap();
    let request = mailbox.draft_request(&prepared);
    assert_eq!(request.folder_id, FolderId("collection-source/Drafts".into()));
    assert_eq!(request.subject, "Subject");
    assert!(request.is_draft);
    assert_eq!(
        mailbox.superseded_draft(&prepared),
        Some(ConversationId("collection-source/Drafts\u{1f}old".into()))
    );
    assert_eq!(
        refresh_target(&ConversationId("collection-source/Drafts\u{1f}old".into())),
        Some(FolderId("collection-source/Drafts".into()))
    );
    assert_eq!(refresh_target(&ConversationId("malformed".into())), None);
}

#[test]
fn the_rows_of_the_local_folders_are_read_from_their_listings() {
    let drafts = load_drafts(FolderListing {
        summaries: vec![draft_summary("old"), draft_summary("current")],
        states: vec![
            draft_state("old", 17, true),
            draft_state("current", 17, false),
        ],
    })
    .unwrap();
    assert_eq!(drafts.len(), 1);
    assert_eq!(drafts[0].subject, "current");

    let projection = load_outbox_projection(FolderListing {
        summaries: vec![outbox_summary("queued"), outbox_summary("delivered")],
        states: vec![
            outbox_state("queued", 17, None),
            outbox_state("delivered", 18, Some(DELIVERY_COPY_REQUIRED)),
        ],
    })
    .unwrap();
    assert_eq!(projection.outbox.len(), 1);

    let sent = load_sent_projection(
        projection.sent,
        FolderListing {
            summaries: Vec::new(),
            states: Vec::new(),
        },
    )
    .unwrap();
    assert_eq!(sent.len(), 1);
    assert_eq!(sent[0].id.0, "collection-source/Outbox\u{1f}delivered");
}

#[test]
fn a_submission_ends_with_what_is_left() {
    let binding = binding();
    let mailbox = LocalMailbox::new(&binding);
    let plan = mailbox
        .submit_outbox(FolderListing {
            summaries: vec![outbox_summary("queued"), outbox_summary("delivered")],
            states: vec![
                outbox_state("queued", 17, None),
                outbox_state("delivered", 18, Some(DELIVERY_COPY_REQUIRED)),
            ],
        })
        .unwrap();
    assert_eq!(plan.submissions.len(), 1);
    assert!(plan.delivered_message_id_hashes.contains(&18));
    let submission = mailbox
        .finish_submission(
            plan,
            FolderListing {
                summaries: vec![outbox_summary("held")],
                states: vec![outbox_state("held", 19, Some(DELIVERY_SUBMITTING))],
            },
        )
        .unwrap();
    assert_eq!(submission.outbox.len(), 1);
    assert!(submission.delivered_message_id_hashes.contains(&18));
}

#[test]
fn local_rows_are_shown_among_those_of_the_provider() {
    let binding = binding();
    let mailbox = LocalMailbox::new(&binding);
    let shown = FolderId("remote-drafts".into());
    let mut rows = vec![summary("remote-drafts\u{1f}remote")];
    mailbox.merge_cached_role(
        LocalFolder::Drafts,
        &shown,
        &mut rows,
        vec![draft_summary("local")],
    );
    assert_eq!(rows.len(), 2);
    assert!(rows.iter().all(|row| row.folder_id == shown));
    assert_eq!(
        mailbox.append_failure(),
        "EDS local message append failed for folder 'collection-source/Drafts'"
    );
}
