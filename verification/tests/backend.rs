use pigeon::integration::account::{EdsAccountBinding, RouteFingerprint};
use pigeon::integration::backend::actions::{MessageActionQueue, MessageFlagIntent};
use pigeon::integration::backend::cache::{
    conversation_projection_is_consistent, ConversationLoad, ConversationPublication,
    MailboxCache, MoveError, RemotePublication,
};
use pigeon::integration::backend::pool::{unavailable_message, Activation, BackendPool};
use pigeon::integration::backend::{
    check_recipients, folders_of_queued_delivery, folders_of_saved_draft, folders_to_refresh,
    projection_sources, replay_flag_intents, slice_conversations, stored_query,
    summary_contains_query, AccountBackend, AttachmentFill, CacheFill, FlagStep, ConversationPage, ListingStep, MessageFlagChange, NoRecipient,
    RefreshEvent, RefreshStep, RefreshedMailbox, RemoteFolders,
};
use pigeon::integration::local::delivery::DeliverySynchronization;
use pigeon::integration::local::draft::DraftReplayOutcome;
use pigeon::integration::local::{LocalFolder, LocalFolderNames, LocalMailbox};
use pigeon::integration::mailbox::MailboxConversations;
use pigeon::integration::stub::{stub_account, stub_account_id, StubBackend, StubError, StubMailboxStore};
use pigeon::model::account::MailAccountId;
use pigeon::model::mail::{
    ConversationId, ConversationSummary, DraftMessage, FolderId, FolderKind, MailFolder,
    MailboxMode, WriteOutcome, CONVERSATION_PAGE_SIZE,
};
use std::collections::HashSet;
use std::sync::Arc;

fn route() -> EdsAccountBinding {
    binding("account-1")
}

fn binding(id: &str) -> EdsAccountBinding {
    EdsAccountBinding {
        account_id: MailAccountId(id.into()),
        account_uid: format!("{id}-source"),
        account_parent_uid: format!("{id}-collection"),
        account_backend_name: "test".into(),
        account_auth_method: None,
        identity_uid: format!("{id}-identity"),
        transport_uid: format!("{id}-transport"),
        transport_backend_name: "test".into(),
        transport_auth_method: None,
        route_fingerprint: RouteFingerprint {
            account: 0,
            transport: 0,
            mailbox: 0,
        },
    }
}

fn summary(folder: &str, id: &str, unread_count: u32) -> ConversationSummary {
    ConversationSummary {
        id: ConversationId(format!("{folder}\u{1f}{id}")),
        folder_id: FolderId(folder.into()),
        subject: id.into(),
        participants: Vec::new(),
        message_count: 1,
        unread_count,
        attachment_count: 0,
        starred: false,
        last_updated_unix_ms: 0,
        preview: String::new(),
    }
}

fn folder(id: &str, kind: FolderKind, unread_count: u32) -> MailFolder {
    MailFolder {
        id: FolderId(id.into()),
        name: id.into(),
        unread_count,
        kind,
    }
}

#[test]
fn cached_summary_search_covers_subject_preview_and_participants_case_insensitively() {
    let summary = ConversationSummary {
        id: ConversationId("folder\u{1f}uid".into()),
        folder_id: FolderId("folder".into()),
        subject: "Quarterly Plan".into(),
        participants: vec!["Example Person <person@example.com>".into()],
        message_count: 1,
        unread_count: 0,
        attachment_count: 0,
        starred: false,
        last_updated_unix_ms: 0,
        preview: "The launch is ready".into(),
    };

    assert!(summary_contains_query(&summary, "quarterly"));
    assert!(summary_contains_query(&summary, "LAUNCH"));
    assert!(summary_contains_query(&summary, "person@example.com"));
    assert!(!summary_contains_query(&summary, "missing"));
}

#[test]
fn a_search_ignores_the_case_of_every_letter() {
    let mut row = summary("inbox", "ÄRGER", 0);
    row.preview = "Plan".into();
    assert!(summary_contains_query(&row, "ärger"));
    assert!(summary_contains_query(&row, "ger plan"));
}

#[test]
fn summary_change_and_folder_count_commit_together() {
    let mut cache = MailboxCache::default();
    let folder_id = FolderId("inbox".into());
    cache.install_folders_if_absent(vec![MailFolder {
        id: folder_id.clone(),
        name: "Inbox".into(),
        unread_count: 1,
        kind: FolderKind::Inbox,
    }]);
    cache
        .conversations
        .insert(folder_id, vec![summary("inbox", "message", 1)]);

    cache.record_message_change(
        &ConversationId("inbox\u{1f}message".into()),
        MessageFlagChange::Read(true),
    );

    assert_eq!(cache.folders().unwrap()[0].unread_count, 0);
    assert_eq!(cache.revision(), 1);
}

#[test]
fn an_unloaded_message_change_still_invalidates_an_older_snapshot() {
    let mut cache = MailboxCache::default();
    let revision = cache.revision();

    cache.record_message_change(
        &ConversationId("drafts\u{1f}unloaded".into()),
        MessageFlagChange::Read(true),
    );

    assert_eq!(cache.revision(), revision.wrapping_add(1));
    assert_eq!(
        cache.publish_remote(
            &route(),
            revision,
            Vec::new(),
            MailboxConversations::new(),
            &MessageActionQueue::new(),
        ),
        RemotePublication::Stale
    );
    assert_eq!(cache.conversations.len(), 0);
}

#[test]
fn local_change_prevents_an_older_remote_snapshot_from_publishing() {
    let mut cache = MailboxCache::default();
    let revision = cache.revision();
    cache.local_revision = revision.wrapping_add(1);
    let actions = MessageActionQueue::new();

    assert_eq!(
        cache.publish_remote(
            &route(),
            revision,
            Vec::new(),
            MailboxConversations::new(),
            &actions,
        ),
        RemotePublication::Stale
    );
}

#[test]
fn local_change_prevents_an_older_lazy_folder_read_from_publishing() {
    let mut cache = MailboxCache::default();
    let folder_id = FolderId("drafts".into());
    let revision = match cache.begin_conversation_load(&folder_id) {
        ConversationLoad::Required { revision } => revision,
        ConversationLoad::Cached(_) => panic!("an empty cache must require a load"),
    };
    cache.record_message_change(
        &ConversationId("drafts\u{1f}new".into()),
        MessageFlagChange::Starred(true),
    );

    assert!(matches!(
        cache.publish_conversations(
            &route(),
            &folder_id,
            revision,
            vec![summary("drafts", "old", 1)],
            &MessageActionQueue::new(),
        ),
        ConversationPublication::Stale
    ));
    assert!(cache.conversations(&folder_id).is_none());
}

#[test]
fn local_projection_invalidation_removes_rows_and_derived_count() {
    let mut cache = MailboxCache::default();
    let folder_id = FolderId("drafts".into());
    cache.install_folders_if_absent(vec![MailFolder {
        id: folder_id.clone(),
        name: "Drafts".into(),
        unread_count: 1,
        kind: FolderKind::Drafts,
    }]);
    cache
        .conversations
        .insert(folder_id, vec![summary("drafts", "old", 1)]);

    let binding = route();
    let mailbox = LocalMailbox::new(&binding);
    let invalidated = cache.invalidate_local(&mailbox, &vec![LocalFolder::Drafts]);

    assert_eq!(invalidated, vec![FolderId("drafts".into())]);
    assert!(cache.conversations(&FolderId("drafts".into())).is_none());
    assert_eq!(cache.folders().unwrap()[0].unread_count, 0);
    assert_eq!(cache.revision(), 1);
}

#[test]
fn local_projection_invalidation_adds_a_newly_nonempty_outbox() {
    let mut cache = MailboxCache::default();
    let binding = route();
    let mailbox = LocalMailbox::new(&binding);
    cache.install_folders_if_absent(vec![MailFolder {
        id: FolderId("drafts".into()),
        name: "Drafts".into(),
        unread_count: 1,
        kind: FolderKind::Drafts,
    }]);
    cache
        .conversations
        .insert(FolderId("drafts".into()), vec![summary("drafts", "old", 1)]);
    let local_folders = vec![LocalFolder::Drafts, LocalFolder::Outbox];
    let invalidated = cache.invalidate_local(&mailbox, &local_folders);

    assert_eq!(invalidated.len(), 2);
    assert!(cache.conversations(&FolderId("drafts".into())).is_none());
    assert_eq!(cache.folders().unwrap().len(), 2);
    assert!(cache
        .conversations(&mailbox.folder_id(LocalFolder::Outbox))
        .is_none());
    assert_eq!(cache.revision(), 1);
}

#[test]
fn a_move_needs_a_known_message_and_a_known_folder() {
    let mut cache = MailboxCache::default();
    let message = ConversationId("inbox\u{1f}message".into());
    let archive = FolderId("archive".into());
    assert_eq!(
        cache.resolve_move(&message, &archive).err(),
        Some(MoveError::NoFolders)
    );
    cache.install_folders_if_absent(vec![
        folder("inbox", FolderKind::Inbox, 1),
        folder("archive", FolderKind::Archive, 0),
    ]);
    assert_eq!(
        cache.resolve_move(&message, &FolderId("absent".into())).err(),
        Some(MoveError::UnknownDestination("absent".into()))
    );
    assert_eq!(
        cache.resolve_move(&message, &archive).err(),
        Some(MoveError::UnknownConversation("inbox\u{1f}message".into()))
    );
    cache
        .conversations
        .insert(FolderId("inbox".into()), vec![summary("inbox", "message", 1)]);
    let (destination, row) = cache.resolve_move(&message, &archive).unwrap();
    assert_eq!(destination, archive);
    assert_eq!(row.subject, "message");
}

#[test]
fn folders_fit_together_when_no_message_is_in_two() {
    let mut conversations = MailboxConversations::new();
    conversations.insert(FolderId("inbox".into()), vec![summary("inbox", "a", 0)]);
    assert!(conversation_projection_is_consistent(&conversations));
    conversations.insert(FolderId("archive".into()), vec![summary("inbox", "a", 0)]);
    assert!(!conversation_projection_is_consistent(&conversations));
}

#[test]
fn a_page_is_a_part_of_the_rows() {
    let rows = vec![
        summary("inbox", "a", 0),
        summary("inbox", "b", 0),
        summary("inbox", "c", 0),
    ];
    let page = slice_conversations(&rows, 1, 1);
    assert_eq!(page.len(), 1);
    assert_eq!(page[0].subject, "b");
    assert!(slice_conversations(&rows, 3, 5).is_empty());
    assert_eq!(slice_conversations(&rows, 1, 50).len(), 2);
    assert_eq!(slice_conversations(&rows, 1, 0).len(), 2);
}

#[test]
fn the_pages_of_a_folder_make_up_its_rows() {
    let rows: Vec<ConversationSummary> =
        (0..7).map(|index| summary("inbox", &index.to_string(), 0)).collect();
    for limit in 1..9 {
        let mut joined = Vec::new();
        for page in 0..8 {
            joined.extend(slice_conversations(&rows, page * limit, limit));
        }
        assert_eq!(joined, rows);
    }
}

#[test]
fn a_marked_message_waits_to_be_told_to_the_provider() {
    let mut backend = AccountBackend::new(route());
    let mut queue = MessageActionQueue::new();
    let page = ConversationPage { offset: 0, limit: 10 };
    let inbox = FolderId("inbox".into());
    let revision = match backend.begin_listing(&inbox, page) {
        ListingStep::Load { revision } => revision,
        _ => panic!("nothing is cached yet"),
    };
    match backend.finish_listing(&queue, &inbox, page, revision, vec![summary("inbox", "a", 1)]) {
        ListingStep::Done(rows) => assert_eq!(rows.len(), 1),
        _ => panic!("nothing has changed meanwhile"),
    }
    let message = ConversationId("inbox\u{1f}a".into());
    assert_eq!(
        backend.set_message_flag(&mut queue, &message, MessageFlagChange::Read(true)),
        WriteOutcome::Queued
    );
    assert_eq!(backend.unresolved_message_action_count(&queue), 1);
    let found = backend.search(&queue, "a", Vec::new(), Vec::new());
    assert_eq!(found.len(), 1);
    assert_eq!(found[0].unread_count, 0);
    let local = ConversationId("account-1-collection/Drafts\u{1f}b".into());
    assert_eq!(
        backend.set_message_flag(&mut queue, &local, MessageFlagChange::Read(true)),
        WriteOutcome::Applied
    );
    assert_eq!(queue.len(), 1);
    assert!(matches!(backend.fill_message_cache(&local, false), CacheFill::Settled(false)));
    assert!(matches!(backend.fill_message_cache(&message, false), CacheFill::Fetch));
    assert!(matches!(backend.fill_message_cache(&message, true), CacheFill::Settled(true)));
}

#[test]
fn a_moved_message_is_shown_where_it_goes() {
    let mut backend = AccountBackend::new(route());
    let mut queue = MessageActionQueue::new();
    backend.install_folders(
        LocalFolderNames::untranslated(),
        vec![
            folder("inbox", FolderKind::Inbox, 1),
            folder("archive", FolderKind::Archive, 0),
        ],
        false,
    );
    backend
        .cached_mailbox
        .conversations
        .insert(FolderId("inbox".into()), vec![summary("inbox", "a", 1)]);
    backend
        .cached_mailbox
        .conversations
        .insert(FolderId("archive".into()), Vec::new());
    let message = ConversationId("inbox\u{1f}a".into());
    assert_eq!(
        backend.move_to_folder(&mut queue, &message, &FolderId("archive".into())),
        Ok(WriteOutcome::Queued)
    );
    let shown = backend
        .cached_mailbox
        .conversations(&FolderId("archive".into()))
        .unwrap();
    assert_eq!(shown.len(), 1);
    assert_eq!(shown[0].folder_id, FolderId("archive".into()));
    let local = ConversationId("account-1-collection/Drafts\u{1f}b".into());
    assert_eq!(
        backend.move_to_folder(&mut queue, &local, &FolderId("archive".into())),
        Err(MoveError::LocalMessage)
    );
}

#[test]
fn a_refresh_publishes_the_remote_and_the_local_rows() {
    let mut backend = AccountBackend::new(route());
    let queue = MessageActionQueue::new();
    let mut conversations = MailboxConversations::new();
    conversations.insert(FolderId("inbox".into()), vec![summary("inbox", "a", 1)]);
    let revision = backend.cached_mailbox.revision();
    let outcome = backend.publish_refresh(
        &queue,
        LocalFolderNames::untranslated(),
        revision,
        RefreshedMailbox {
            folders: vec![folder("inbox", FolderKind::Inbox, 0)],
            conversations,
            drafts: vec![summary("account-1-collection/Drafts", "draft", 0)],
            delivery: DeliverySynchronization {
                outbox: Vec::new(),
                sent: Vec::new(),
                delivered_message_id_hashes: HashSet::new(),
                remote_changed: false,
                convergence_incomplete: false,
            },
            replay: DraftReplayOutcome {
                remote_changed: false,
                convergence_incomplete: true,
            },
        },
    );
    assert!(outcome.convergence_incomplete);
    assert!(!outcome.projection_stale);
    let folders = backend.cached_mailbox.folders().unwrap();
    assert!(folders.iter().any(|folder| folder.kind == FolderKind::Drafts));
    assert_eq!(
        folders.iter().find(|folder| folder.kind == FolderKind::Inbox).unwrap().unread_count,
        1
    );
}

#[test]
fn a_refresh_runs_forward() {
    let remote = RemoteFolders {
        sent: false,
        drafts: false,
    };
    let mut step = RefreshStep::SubmitOutbox;
    let mut seen = 0;
    while !matches!(step, RefreshStep::Refreshed | RefreshStep::Failed) {
        step = step.next_step(RefreshEvent::Succeeded, remote);
        seen += 1;
        assert!(seen < 20);
    }
    assert_eq!(step, RefreshStep::Refreshed);
    assert_eq!(
        RefreshStep::Publish.next_step(RefreshEvent::Failed, remote),
        RefreshStep::Failed
    );
}

#[test]
fn every_folder_with_messages_of_the_provider_is_refreshed() {
    let ids = folders_to_refresh(&vec![
        folder("inbox", FolderKind::Inbox, 0),
        folder("archive", FolderKind::Archive, 0),
    ]);
    assert!(ids.contains(&FolderId("inbox".into())));
}

#[derive(Debug)]
enum Backend {
    Stub(StubBackend),
    Account(AccountBackend),
}

fn test_pool() -> BackendPool<Arc<Backend>> {
    BackendPool::with_action_queue(
        Arc::new(Backend::Stub(StubBackend::new(stub_account_id()))),
        MessageActionQueue::new(),
    )
}

struct ActivatedBackend {
    backend: Arc<Backend>,
    mode: MailboxMode,
}

/// Activates an account while no backend can be built.
fn activate(
    pool: &BackendPool<Arc<Backend>>,
    account_id: &MailAccountId,
) -> Result<ActivatedBackend, &'static str> {
    match pool.activate_account(account_id) {
        Activation::Active { backend, mode } => Ok(ActivatedBackend {
            backend: backend.clone(),
            mode,
        }),
        Activation::Build(_) => Err("the service is unavailable"),
        Activation::Unavailable => Err("the account is unavailable"),
    }
}

fn install_activated_backend(
    pool: &mut BackendPool<Arc<Backend>>,
    catalog: &mut Vec<EdsAccountBinding>,
    account_id: MailAccountId,
) -> Arc<Backend> {
    let backend = Arc::new(Backend::Account(AccountBackend::new(binding(&account_id.0))));
    catalog.push(binding(&account_id.0));
    pool.update_binding_catalog(catalog);
    pool.complete_activation(&account_id, backend.clone());
    backend
}

#[test]
fn unknown_accounts_are_not_materialized_as_stub_backends() {
    let unknown = MailAccountId("unknown-account".into());
    let pool = test_pool();

    assert!(activate(&pool, &unknown).is_err());
    assert!(pool.is_idle());
    assert!(pool.lease_account_backend(&unknown).is_none());
}

#[test]
fn stub_operations_use_normal_routing_without_materialization() {
    let pool = test_pool();
    let account_id = stub_account_id();
    let conversation_id = ConversationId("stub-account".into());
    let mut draft = DraftMessage::empty(
        account_id.clone(),
        "Stub Sender <stub@example.invalid>".into(),
    );

    let activated = activate(&pool, &account_id).unwrap();
    assert!(Arc::ptr_eq(
        &activated.backend,
        pool.lease_account_backend(&account_id).unwrap()
    ));
    assert_eq!(activated.mode, MailboxMode::NoAccount);
    let backend = match &*activated.backend {
        Backend::Stub(backend) => backend,
        Backend::Account(_) => panic!("the stub account has the stub backend"),
    };
    let refreshed = backend.refresh();
    assert!(!refreshed.convergence_incomplete);

    let folders = backend.list_folders();
    assert!(!folders.is_empty());
    let conversations =
        backend.list_conversations(&folders[0].id, 0, CONVERSATION_PAGE_SIZE);
    assert!(!conversations.is_empty());

    assert_eq!(
        backend.set_read(&conversation_id, true).unwrap(),
        WriteOutcome::Unchanged
    );
    assert!(backend
        .queue_delivery(&draft.clone().into_prepared().unwrap())
        .is_err());
    draft.to.push("recipient@example.invalid".into());
    let prepared = draft.into_prepared().unwrap();
    assert!(backend.save_draft(&prepared).is_none());
    assert_eq!(
        backend.queue_delivery(&prepared).unwrap(),
        WriteOutcome::Unchanged
    );
    assert!(pool.is_idle());
}

#[test]
fn catalog_binding_is_available_without_mailbox_activation() {
    let mut pool = test_pool();
    let account_id = MailAccountId("settings-target".into());
    let initial = binding(&account_id.0);
    assert_eq!(
        pool.update_binding_catalog(&vec![initial.clone()]),
        [account_id.clone()]
    );
    assert!(pool.update_binding_catalog(&vec![initial.clone()]).is_empty());

    let mut changed = initial;
    changed.route_fingerprint.mailbox = 1;
    assert_eq!(
        pool.update_binding_catalog(&vec![changed.clone()]),
        [account_id.clone()]
    );

    let resolved = pool
        .catalog_binding(&account_id)
        .expect("settings writes should resolve an inactive catalog account");

    assert_eq!(resolved, changed);
    assert!(pool.is_idle());
}

#[test]
fn failed_activation_does_not_install_an_unavailable_backend() {
    let mut pool = test_pool();
    let account_id = MailAccountId("unavailable-account".into());
    pool.update_binding_catalog(&vec![binding(&account_id.0)]);

    assert!(activate(&pool, &account_id).is_err());
    assert!(pool.lease_account_backend(&account_id).is_none());
    assert!(activate(&pool, &account_id).is_err());
}

#[test]
fn catalog_diff_preserves_unchanged_routes_and_retires_removed_routes() {
    let retained = MailAccountId("retained-account".into());
    let removed = MailAccountId("removed-account".into());
    let unmaterialized = MailAccountId("unmaterialized-account".into());
    let mut pool = test_pool();
    let mut catalog = Vec::new();
    let retained_backend = install_activated_backend(&mut pool, &mut catalog, retained.clone());
    let removed_backend = install_activated_backend(&mut pool, &mut catalog, removed.clone());
    let changed = pool.update_binding_catalog(&vec![
        binding("retained-account"),
        binding("removed-account"),
        binding("unmaterialized-account"),
    ]);
    assert_eq!(changed, [unmaterialized.clone()]);
    assert!(!Arc::ptr_eq(&retained_backend, &removed_backend));
    let retained_lease = activate(&pool, &retained).unwrap();
    assert!(Arc::ptr_eq(&retained_backend, &retained_lease.backend));
    assert!(Arc::ptr_eq(
        &retained_backend,
        pool.lease_account_backend(&retained).unwrap()
    ));
    assert!(pool.lease_account_backend(&unmaterialized).is_none());
    assert!(pool.lease_account_backend(&removed).is_some());
    assert!(pool.catalog_binding(&unmaterialized).is_some());

    let removed_lease = activate(&pool, &removed).unwrap();
    assert!(Arc::ptr_eq(&removed_backend, &removed_lease.backend));
    assert!(Arc::ptr_eq(
        &removed_backend,
        pool.lease_account_backend(&removed).unwrap()
    ));

    let changed = pool.update_binding_catalog(&vec![binding("retained-account")]);
    assert_eq!(changed, [removed.clone(), unmaterialized.clone()]);
    assert!(activate(&pool, &removed).is_err());
    assert!(Arc::ptr_eq(&removed_backend, &removed_lease.backend));
    assert!(Arc::ptr_eq(
        &retained_backend,
        pool.lease_account_backend(&retained).unwrap()
    ));
    assert!(pool.lease_account_backend(&removed).is_none());
    assert!(pool.lease_account_backend(&unmaterialized).is_none());
}

#[test]
fn leased_backend_survives_future_route_invalidation() {
    let account_id = MailAccountId("draining-account".into());
    let mut pool = test_pool();
    let mut catalog = Vec::new();
    let backend = install_activated_backend(&mut pool, &mut catalog, account_id.clone());
    let lease = pool
        .lease_account_backend(&account_id)
        .expect("a materialized account should be leasable")
        .clone();
    assert!(Arc::ptr_eq(&backend, &lease));

    pool.update_binding_catalog(&Vec::new());

    assert!(pool.lease_account_backend(&account_id).is_none());
    assert!(Arc::ptr_eq(&backend, &lease));
}

#[test]
fn changed_route_retires_the_previous_backend_before_lazy_reactivation() {
    let account_id = MailAccountId("changed-account".into());
    let mut pool = test_pool();
    let mut catalog = Vec::new();
    let _previous_lease = install_activated_backend(&mut pool, &mut catalog, account_id.clone());
    let mut changed_binding = binding(&account_id.0);
    changed_binding.transport_backend_name = "changed".into();

    assert_eq!(
        pool.update_binding_catalog(&vec![changed_binding.clone()]),
        [account_id.clone()]
    );
    assert!(pool.lease_account_backend(&account_id).is_none());
    assert_eq!(pool.catalog_binding(&account_id), Some(changed_binding));
    assert!(activate(&pool, &account_id).is_err());
}

#[test]
fn seeded_stub_is_read_only_and_searchable() {
    let store = StubMailboxStore::seeded();
    let detail = store
        .message_detail("stub-account")
        .expect("seeded stub message should remain available");
    assert!(detail.unread);
    assert_eq!(store.conversations(&FolderId("inbox".into())).len(), 2);
    assert!(store.conversations(&FolderId("sent".into())).is_empty());
    assert_eq!(store.search("three-pane").len(), 1);
    assert!(store.search("not present").is_empty());
}

#[test]
fn backend_writes_validate_then_leave_the_stub_unchanged() {
    let backend = StubBackend::new(stub_account_id());
    let known = ConversationId("stub-account".into());
    let unknown = ConversationId("absent-message".into());
    let before = backend.store.conversations(&FolderId("inbox".into()));

    assert!(backend.fill_message_cache(&known));
    assert!(!backend.fill_message_cache(&unknown));
    assert!(backend.get_cached_message_detail(&unknown).is_none());
    assert!(backend
        .materialize_attachment(&known, "absent-attachment")
        .is_none());
    assert_eq!(
        backend.set_read(&known, true).unwrap(),
        WriteOutcome::Unchanged
    );
    assert_eq!(
        backend
            .move_to_folder(&known, &FolderId("trash".into()))
            .unwrap(),
        WriteOutcome::Unchanged
    );
    assert!(backend.set_read(&unknown, true).is_err());
    assert!(backend
        .move_to_folder(&known, &FolderId("absent-folder".into()))
        .is_err());

    let mut draft = DraftMessage::empty(
        stub_account_id(),
        "Sender <sender@example.invalid>".into(),
    );
    assert!(backend
        .queue_delivery(&draft.clone().into_prepared().unwrap())
        .is_err());
    draft.to.push("recipient@example.invalid".into());
    let prepared = draft.into_prepared().unwrap();
    assert!(backend.save_draft(&prepared).is_none());
    assert_eq!(
        backend.queue_delivery(&prepared).unwrap(),
        WriteOutcome::Unchanged
    );

    assert_eq!(backend.store.conversations(&FolderId("inbox".into())), before);
    assert!(backend.store.conversations(&FolderId("drafts".into())).is_empty());
    assert!(backend.store.conversations(&FolderId("sent".into())).is_empty());
}

#[test]
fn the_stub_says_what_it_does_not_hold() {
    let backend = StubBackend::new(stub_account_id());
    let known = ConversationId("stub-account".into());
    let error = backend
        .set_starred(&ConversationId("absent".into()), true)
        .unwrap_err();
    assert_eq!(error, StubError::UnknownConversation("absent".into()));
    assert_eq!(error.message(), "stub conversation 'absent' is unavailable");
    let error = backend
        .move_to_folder(&known, &FolderId("absent".into()))
        .unwrap_err();
    assert_eq!(error, StubError::UnknownFolder("absent".into()));
    assert_eq!(error.message(), "stub folder 'absent' is unavailable");
    let folders = backend.list_folders();
    assert_eq!(folders.len(), 5);
    assert_eq!(folders[0].unread_count, 1);
    assert_eq!(backend.search("MAIL ACCOUNT").len(), 1);
    assert_eq!(
        stub_account().default_identity().mailbox(),
        "\"Pigeon Mail\" <welcome@pigeon.invalid>"
    );
}

#[test]
fn a_message_without_recipients_is_not_sent() {
    let draft = DraftMessage::empty(stub_account_id(), "me@example.test".into());
    assert_eq!(
        check_recipients(&draft.into_prepared().unwrap()),
        Err(NoRecipient)
    );
    assert_eq!(NoRecipient.message(), "message has no recipients");
}

#[test]
fn a_local_folder_is_read_here_and_where_it_is_shown() {
    let binding = route();
    let mailbox = LocalMailbox::new(&binding);
    let local_drafts = mailbox.folder_id(LocalFolder::Drafts);
    let remote = vec![folder("remote-drafts", FolderKind::Drafts, 0)];
    let sources = projection_sources(&mailbox, &remote, &FolderId("remote-drafts".into()));
    assert_eq!(sources.local, Some(LocalFolder::Drafts));
    assert!(sources.remote);
    let local = vec![MailFolder {
        id: local_drafts.clone(),
        name: "Drafts".into(),
        unread_count: 0,
        kind: FolderKind::Drafts,
    }];
    let sources = projection_sources(&mailbox, &local, &local_drafts);
    assert_eq!(sources.local, Some(LocalFolder::Drafts));
    assert!(!sources.remote);
    assert_eq!(folders_of_saved_draft(), [LocalFolder::Drafts]);
    assert_eq!(
        folders_of_queued_delivery(),
        [LocalFolder::Drafts, LocalFolder::Outbox]
    );
}

#[test]
fn the_provider_is_told_of_each_mark() {
    let id = ConversationId("inbox\u{1f}a".into());
    let steps = replay_flag_intents(&vec![MessageFlagIntent {
        conversation_id: id.clone(),
        read: Some(true),
        starred: Some(false),
    }]);
    assert_eq!(
        steps,
        [
            FlagStep::SetRead(id.clone(), true),
            FlagStep::SetStarred(id, false),
        ]
    );
}

#[test]
fn a_failed_listing_is_tried_again_only_after_a_change() {
    let mut backend = AccountBackend::new(route());
    let page = ConversationPage { offset: 0, limit: 0 };
    let inbox = FolderId("inbox".into());
    let revision = backend.cached_mailbox.revision();
    assert!(matches!(
        backend.recover_listing(&inbox, page, revision),
        ListingStep::Failed
    ));
    backend.cached_mailbox.record_message_change(
        &ConversationId("inbox\u{1f}a".into()),
        MessageFlagChange::Read(true),
    );
    assert!(matches!(
        backend.recover_listing(&inbox, page, revision),
        ListingStep::Load { .. }
    ));
}

#[test]
fn an_opened_message_shows_the_marks_that_wait() {
    let backend = AccountBackend::new(route());
    let mut queue = MessageActionQueue::new();
    let id = ConversationId("inbox\u{1f}a".into());
    queue.queue_starred(route(), id.clone(), true);
    let mut detail = StubMailboxStore::seeded()
        .message_detail("stub-navigation")
        .unwrap();
    detail.conversation_id = id.clone();
    let shown = backend
        .read_cached_message_detail(&queue, &id, Some(detail))
        .unwrap();
    assert!(shown.starred);
    assert!(backend.read_cached_message_detail(&queue, &id, None).is_none());
}

#[test]
fn an_attachment_is_fetched_where_it_is_not_cached() {
    let backend = AccountBackend::new(route());
    let remote = ConversationId("inbox\u{1f}a".into());
    let local = ConversationId("account-1-collection/Drafts\u{1f}b".into());
    assert_eq!(
        backend.materialize_attachment(&remote, Some("file:///a".into())),
        AttachmentFill::Settled(Some("file:///a".into()))
    );
    assert_eq!(
        backend.materialize_attachment(&remote, None),
        AttachmentFill::Fetch
    );
    assert_eq!(
        backend.materialize_attachment(&local, None),
        AttachmentFill::Settled(None)
    );
}

#[test]
fn stores_are_searched_in_lower_case() {
    assert_eq!(stored_query("ÄRGER Plan"), "ärger plan");
    assert_eq!(
        unavailable_message(&MailAccountId("gone".into())),
        "mail account 'gone' is unavailable"
    );
}
