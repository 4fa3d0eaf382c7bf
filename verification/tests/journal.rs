use pigeon::integration::journal::{
    apply_flag_overlay, apply_move_overlay, upsert_flags, upsert_move, JournalUnavailable,
    PendingMailActionStore, PendingMessageFlags, PendingMove,
};
use pigeon::integration::mailbox::MailboxConversations;
use pigeon::model::account::MailAccountId;
use pigeon::model::mail::{ConversationId, ConversationSummary, FolderId};

fn summary(id: &str, subject: &str, unread_count: u32) -> ConversationSummary {
    ConversationSummary {
        id: ConversationId(id.into()),
        folder_id: FolderId("inbox".into()),
        subject: subject.into(),
        participants: vec!["Sender".into()],
        message_count: 1,
        unread_count,
        attachment_count: 0,
        starred: false,
        last_updated_unix_ms: 10,
        preview: "preview".into(),
    }
}

fn pending(account: &str, id: &str, destination: &str) -> PendingMove {
    PendingMove {
        account_id: MailAccountId(account.into()),
        destination_folder_id: FolderId(destination.into()),
        summary: summary(id, id, 1),
    }
}

fn folder(id: &str) -> FolderId {
    FolderId(id.into())
}

fn mailbox(entries: Vec<(&str, Vec<ConversationSummary>)>) -> MailboxConversations {
    let mut mailbox = MailboxConversations::new();
    for (id, conversations) in entries {
        mailbox.insert(folder(id), conversations);
    }
    mailbox
}

#[test]
fn journal_overlay_moves_one_cached_summary_to_destination() {
    let account = MailAccountId("account-1".into());
    let mut cache = mailbox(vec![
        ("inbox", vec![summary("m1", "one", 1)]),
        ("archive", vec![summary("m2", "two", 0)]),
    ]);

    apply_move_overlay(
        &account,
        &vec![pending("account-1", "m1", "archive")],
        &mut cache,
    );

    assert!(cache.get(&folder("inbox")).unwrap().is_empty());
    let archived = cache.get(&folder("archive")).unwrap();
    assert_eq!(archived.len(), 2);
    assert_eq!(archived.iter().filter(|item| item.id.0 == "m1").count(), 1);
}

#[test]
fn overlay_is_idempotent_and_ignores_other_accounts() {
    let account = MailAccountId("account-1".into());
    let mut cache = mailbox(vec![
        ("inbox", vec![summary("m1", "one", 1)]),
        ("archive", Vec::new()),
    ]);
    let moves = vec![
        pending("account-1", "m1", "archive"),
        pending("account-2", "m2", "archive"),
    ];

    apply_move_overlay(&account, &moves, &mut cache);
    apply_move_overlay(&account, &moves, &mut cache);

    assert_eq!(cache.get(&folder("archive")).unwrap().len(), 1);
    assert_eq!(cache.get(&folder("archive")).unwrap()[0].id.0, "m1");
}

#[test]
fn journal_overlay_does_not_make_an_unloaded_destination_look_complete() {
    let account = MailAccountId("account-1".into());
    let mut cache = mailbox(vec![("inbox", vec![summary("m1", "one", 1)])]);

    apply_move_overlay(
        &account,
        &vec![pending("account-1", "m1", "archive")],
        &mut cache,
    );

    assert!(cache.get(&folder("inbox")).unwrap().is_empty());
    assert!(!cache.contains_folder(&folder("archive")));
}

#[test]
fn journal_newer_move_replaces_the_destination() {
    let mut moves = vec![pending("account-1", "m1", "archive")];
    upsert_move(&mut moves, pending("account-1", "m1", "trash"));

    assert_eq!(moves.len(), 1);
    assert_eq!(moves[0].destination_folder_id.0, "trash");
}

#[test]
fn remote_reconciliation_is_scoped_and_keeps_still_pending_sources() {
    let store = PendingMailActionStore::open(
        Some(vec![
            pending("account-1", "still-remote", "archive"),
            pending("account-1", "already-moved", "trash"),
            pending("account-2", "not-refreshed", "archive"),
        ]),
        Some(Vec::new()),
    );
    let remote_ids = vec![ConversationId("still-remote".into())];

    let moves = store
        .discard_missing_remote_sources(&MailAccountId("account-1".into()), &remote_ids)
        .unwrap();

    assert_eq!(moves.len(), 2);
    assert!(moves
        .iter()
        .any(|pending| pending.summary.id.0 == "still-remote"));
    assert!(moves
        .iter()
        .any(|pending| pending.account_id.0 == "account-2"));
}

#[test]
fn journal_newer_flag_values_merge_without_losing_the_other_flag() {
    let account = MailAccountId("account-1".into());
    let conversation = ConversationId("inbox\u{1f}uid".into());
    let mut flags = Vec::new();

    upsert_flags(
        &mut flags,
        account.clone(),
        conversation.clone(),
        Some(true),
        None,
    );
    upsert_flags(
        &mut flags,
        account.clone(),
        conversation.clone(),
        None,
        Some(true),
    );
    upsert_flags(&mut flags, account, conversation, Some(false), None);

    assert_eq!(flags.len(), 1);
    assert_eq!(flags[0].read, Some(false));
    assert_eq!(flags[0].starred, Some(true));
}

#[test]
fn pending_flags_overlay_remote_summaries_and_is_account_scoped() {
    let account = MailAccountId("account-1".into());
    let id = ConversationId("inbox\u{1f}uid".into());
    let pending = PendingMessageFlags {
        account_id: account.clone(),
        conversation_id: id.clone(),
        read: Some(true),
        starred: Some(true),
    };
    let other = PendingMessageFlags {
        account_id: MailAccountId("account-2".into()),
        conversation_id: id.clone(),
        read: Some(false),
        starred: Some(false),
    };
    let mut conversations = mailbox(vec![("inbox", vec![summary(&id.0, "one", 1)])]);

    apply_flag_overlay(&account, &vec![other, pending], &mut conversations);

    assert_eq!(conversations.get(&folder("inbox")).unwrap()[0].unread_count, 0);
    assert!(conversations.get(&folder("inbox")).unwrap()[0].starred);
}

#[test]
fn unreadable_lists_are_not_replaced() {
    let store = PendingMailActionStore::open(None, None);
    assert_eq!(
        store.queue_move(pending("account-1", "m1", "archive")).err(),
        Some(JournalUnavailable::Moves)
    );
    assert_eq!(
        store
            .queue_read(
                MailAccountId("account-1".into()),
                ConversationId("m1".into()),
                true,
            )
            .err(),
        Some(JournalUnavailable::Flags)
    );
    assert!(store.for_account(&MailAccountId("account-1".into())).is_empty());
}

#[test]
fn committed_lists_are_kept() {
    let account = MailAccountId("account-1".into());
    let mut store = PendingMailActionStore::open(Some(Vec::new()), Some(Vec::new()));
    for index in 0..8 {
        let next = store
            .queue_move(pending(&format!("account-{index}"), "m1", "archive"))
            .unwrap();
        store.commit_moves(next);
    }
    assert_eq!(store.for_account(&account).len(), 1);
    let next = store
        .queue_starred(account.clone(), ConversationId("m1".into()), true)
        .unwrap();
    store.commit_flags(next);
    assert_eq!(store.flags_for_account(&account).len(), 1);

    let next = store
        .remove_completed(&account, &vec![ConversationId("m1".into())])
        .unwrap();
    assert_eq!(next.len(), 7);
    let next = store
        .remove_completed_flags(&account, &vec![ConversationId("m1".into())])
        .unwrap();
    assert!(next.is_empty());
}
