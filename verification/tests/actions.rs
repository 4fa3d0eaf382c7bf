use pigeon::integration::account::{EdsAccountBinding, RouteFingerprint};
use pigeon::integration::backend::actions::{
    apply_flag_overlay, apply_move_overlay, MessageActionQueue, MessageFlagIntent, MoveIntent,
};
use pigeon::integration::mailbox::MailboxConversations;
use pigeon::model::account::MailAccountId;
use pigeon::model::mail::{
    ConversationId, ConversationSummary, FolderId, MessageBody, MessageDetail, MessageId,
};

fn route(id: &str) -> EdsAccountBinding {
    EdsAccountBinding {
        account_id: MailAccountId(id.into()),
        account_uid: format!("{id}-account"),
        account_parent_uid: format!("{id}-collection"),
        account_backend_name: "imapx".into(),
        account_auth_method: None,
        identity_uid: format!("{id}-identity"),
        transport_uid: format!("{id}-transport"),
        transport_backend_name: "smtp".into(),
        transport_auth_method: None,
        route_fingerprint: RouteFingerprint {
            account: 0,
            transport: 0,
            mailbox: 0,
        },
    }
}

fn summary(id: &str, subject: &str, unread_count: u32) -> ConversationSummary {
    ConversationSummary {
        id: ConversationId(id.into()),
        folder_id: FolderId("inbox".into()),
        subject: subject.into(),
        participants: vec!["Sender".into()],
        message_count: 1,
        unread_count,
        attachment_count: 0,
        starred: false,
        last_updated_unix_ms: 10,
        preview: "preview".into(),
    }
}

fn intent(id: &str, destination: &str) -> MoveIntent {
    MoveIntent {
        destination_folder_id: FolderId(destination.into()),
        summary: summary(id, id, 1),
    }
}

fn folder(id: &str) -> FolderId {
    FolderId(id.into())
}

fn mailbox(entries: Vec<(&str, Vec<ConversationSummary>)>) -> MailboxConversations {
    let mut mailbox = MailboxConversations::new();
    for (id, conversations) in entries {
        mailbox.insert(folder(id), conversations);
    }
    mailbox
}

#[test]
fn actions_overlay_moves_one_cached_summary_to_destination() {
    let mut cache = mailbox(vec![
        ("inbox", vec![summary("m1", "one", 1)]),
        ("archive", vec![summary("m2", "two", 0)]),
    ]);

    apply_move_overlay(&vec![intent("m1", "archive")], &mut cache);

    assert!(cache.get(&folder("inbox")).unwrap().is_empty());
    let archived = cache.get(&folder("archive")).unwrap();
    assert_eq!(archived.len(), 2);
    assert_eq!(archived.iter().filter(|item| item.id.0 == "m1").count(), 1);
    assert_eq!(
        archived
            .iter()
            .find(|item| item.id.0 == "m1")
            .unwrap()
            .folder_id,
        folder("archive")
    );
}

#[test]
fn overlay_is_idempotent() {
    let mut cache = mailbox(vec![
        ("inbox", vec![summary("m1", "one", 1)]),
        ("archive", Vec::new()),
    ]);
    let moves = vec![intent("m1", "archive")];

    apply_move_overlay(&moves, &mut cache);
    apply_move_overlay(&moves, &mut cache);

    assert_eq!(cache.get(&folder("archive")).unwrap().len(), 1);
    assert_eq!(cache.get(&folder("archive")).unwrap()[0].id.0, "m1");
}

#[test]
fn repeated_move_projection_preserves_current_message_metadata() {
    let route = route("account-1");
    let mut queue = MessageActionQueue::new();
    queue.queue_move(route.clone(), intent("m1", "archive"));
    let mut current = summary("m1", "updated", 0);
    current.starred = true;
    let mut cache = mailbox(vec![("inbox", vec![current]), ("archive", Vec::new())]);

    queue.apply_to_projection(&route, &mut cache);
    let archived = &cache.get(&folder("archive")).unwrap()[0];
    assert_eq!(archived.subject, "updated");
    assert_eq!(archived.unread_count, 0);
    assert!(archived.starred);

    let mut changed = archived.clone();
    changed.preview = "new preview".into();
    cache.insert(folder("archive"), vec![changed]);
    queue.apply_to_projection(&route, &mut cache);
    let archived = cache.get(&folder("archive")).unwrap();
    assert_eq!(archived.len(), 1);
    assert_eq!(archived[0].subject, "updated");
    assert_eq!(archived[0].preview, "new preview");
    assert_eq!(archived[0].unread_count, 0);
    assert!(archived[0].starred);
}

#[test]
fn move_projection_uses_retained_metadata_when_the_source_is_not_loaded() {
    let mut cache = mailbox(vec![("archive", Vec::new())]);
    let moves = vec![intent("m1", "archive")];

    apply_move_overlay(&moves, &mut cache);

    let archived = cache.get(&folder("archive")).unwrap();
    assert_eq!(archived.len(), 1);
    assert_eq!(archived[0].id, ConversationId("m1".into()));
    assert_eq!(archived[0].folder_id, folder("archive"));
}

#[test]
fn flat_projection_applies_every_pending_change_to_search_results() {
    let route = route("account-1");
    let mut store = MessageActionQueue::new();
    store.queue_move(route.clone(), intent("m1", "archive"));
    store.queue_read(route.clone(), ConversationId("m1".into()), true);
    store.queue_starred(route.clone(), ConversationId("m1".into()), true);
    let mut matches = vec![summary("m1", "one", 1)];

    store.apply_to_summaries(&route, &mut matches);

    assert_eq!(matches[0].folder_id, folder("archive"));
    assert_eq!(matches[0].unread_count, 0);
    assert!(matches[0].starred);
}

#[test]
fn mailbox_projection_applies_one_route_snapshot_across_moves_and_flags() {
    let route = route("account-1");
    let mut store = MessageActionQueue::new();
    store.queue_move(route.clone(), intent("m1", "archive"));
    store.queue_read(route.clone(), ConversationId("m1".into()), true);
    let mut cache = mailbox(vec![
        ("inbox", vec![summary("m1", "one", 1)]),
        ("archive", Vec::new()),
    ]);

    assert!(store.apply_to_projection(&route, &mut cache));

    assert!(cache.get(&folder("inbox")).unwrap().is_empty());
    assert_eq!(cache.get(&folder("archive")).unwrap().len(), 1);
    assert_eq!(cache.get(&folder("archive")).unwrap()[0].unread_count, 0);
}

#[test]
fn actions_overlay_does_not_make_an_unloaded_destination_look_complete() {
    let mut cache = mailbox(vec![("inbox", vec![summary("m1", "one", 1)])]);

    apply_move_overlay(&vec![intent("m1", "archive")], &mut cache);

    assert!(cache.get(&folder("inbox")).unwrap().is_empty());
    assert!(!cache.contains_folder(&folder("archive")));
}

#[test]
fn actions_newer_move_replaces_the_destination() {
    let mut store = MessageActionQueue::new();
    let route = route("account-1");
    store.queue_move(route.clone(), intent("m1", "archive"));
    store.queue_move(route.clone(), intent("m1", "trash"));

    let moves = store.moves_for_route(&route);
    assert_eq!(moves.len(), 1);
    assert_eq!(moves[0].destination_folder_id.0, "trash");
}

#[test]
fn old_refresh_acknowledgement_cannot_remove_a_newer_move() {
    let mut store = MessageActionQueue::new();
    let route = route("account-1");

    store.queue_move(route.clone(), intent("message", "archive"));
    let replayed = store.moves_for_route(&route);
    store.queue_move(route.clone(), intent("message", "trash"));
    store.remove_completed_moves(&route, &replayed);

    let retained = store.moves_for_route(&route);
    assert_eq!(retained.len(), 1);
    assert_eq!(retained[0].destination_folder_id.0, "trash");
    store.remove_completed_moves(&route, &retained);
    assert!(store.moves_for_route(&route).is_empty());
}

#[test]
fn actions_newer_flag_values_merge_without_losing_the_other_flag() {
    let route = route("account-1");
    let conversation = ConversationId("inbox\u{1f}uid".into());
    let mut store = MessageActionQueue::new();
    store.queue_read(route.clone(), conversation.clone(), true);
    store.queue_starred(route.clone(), conversation.clone(), true);
    store.queue_read(route.clone(), conversation, false);

    let flags = store.flags_for_route(&route);
    assert_eq!(flags.len(), 1);
    assert_eq!(flags[0].read, Some(false));
    assert_eq!(flags[0].starred, Some(true));
}

#[test]
fn old_refresh_acknowledgement_cannot_remove_newer_flag_intent() {
    let mut store = MessageActionQueue::new();
    let route = route("account-1");
    let conversation = ConversationId("inbox\u{1f}uid".into());

    store.queue_read(route.clone(), conversation.clone(), true);
    let replayed = store.flags_for_route(&route);
    store.queue_read(route.clone(), conversation, false);
    store.remove_completed_flags(&route, &replayed);

    let retained = store.flags_for_route(&route);
    assert_eq!(retained.len(), 1);
    assert_eq!(retained[0].read, Some(false));
    store.remove_completed_flags(&route, &retained);
    assert!(store.flags_for_route(&route).is_empty());
}

#[test]
fn acknowledgement_clears_observed_fields_without_replaying_a_new_independent_flag() {
    let mut store = MessageActionQueue::new();
    let route = route("account-1");
    let conversation = ConversationId("inbox\u{1f}uid".into());

    store.queue_read(route.clone(), conversation.clone(), true);
    let replayed = store.flags_for_route(&route);
    store.queue_starred(route.clone(), conversation, true);
    store.remove_completed_flags(&route, &replayed);

    let retained = store.flags_for_route(&route);
    assert_eq!(retained.len(), 1);
    assert_eq!(retained[0].read, None);
    assert_eq!(retained[0].starred, Some(true));
}

#[test]
fn pending_flags_overlay_remote_summaries() {
    let id = ConversationId("inbox\u{1f}uid".into());
    let intents = vec![MessageFlagIntent {
        conversation_id: id.clone(),
        read: Some(true),
        starred: Some(true),
    }];
    let mut summaries = vec![summary(&id.0, "one", 1)];

    apply_flag_overlay(&intents, &mut summaries);

    assert_eq!(summaries[0].unread_count, 0);
    assert!(summaries[0].starred);
}

#[test]
fn changed_route_cannot_observe_or_acknowledge_an_older_routes_actions() {
    let mut store = MessageActionQueue::new();
    let old_route = route("account-1");
    let mut new_route = old_route.clone();
    new_route.route_fingerprint.transport = 1;
    store.queue_move(old_route.clone(), intent("message", "archive"));
    store.queue_read(new_route.clone(), ConversationId("message".into()), true);

    let old_moves = store.moves_for_route(&old_route);
    assert_eq!(old_moves.len(), 1);
    assert!(store.moves_for_route(&new_route).is_empty());
    assert!(store.flags_for_route(&old_route).is_empty());
    assert_eq!(store.flags_for_route(&new_route).len(), 1);
    assert_eq!(store.len_for_route(&old_route), 1);
    assert_eq!(store.len_for_route(&new_route), 1);

    store.remove_completed_moves(&new_route, &old_moves);
    assert_eq!(store.moves_for_route(&old_route), old_moves);
    assert_eq!(store.len(), 2);
}

#[test]
fn acknowledging_one_action_kind_preserves_the_routes_other_intents() {
    let mut store = MessageActionQueue::new();
    let route = route("account-1");
    store.queue_move(route.clone(), intent("message", "archive"));
    store.queue_read(route.clone(), ConversationId("message".into()), true);

    let moves = store.moves_for_route(&route);
    store.remove_completed_moves(&route, &moves);

    assert!(store.moves_for_route(&route).is_empty());
    assert_eq!(store.flags_for_route(&route).len(), 1);
    assert_eq!(store.len(), 1);
}

#[test]
fn every_route_keeps_its_own_move() {
    let mut queue = MessageActionQueue::new();
    for index in 0..8 {
        queue.queue_move(
            route(&format!("account-{index}")),
            intent(
                &format!("message-{index}"),
                if index % 2 == 0 { "archive" } else { "trash" },
            ),
        );
    }

    assert_eq!(queue.len(), 8);
    for index in 0..8 {
        assert_eq!(queue.moves_for_route(&route(&format!("account-{index}"))).len(), 1);
    }
}

#[test]
fn pending_flags_overlay_the_opened_message() {
    let mut queue = MessageActionQueue::new();
    let route = route("account-1");
    queue.queue_read(route.clone(), ConversationId("m1".into()), true);
    queue.queue_starred(route.clone(), ConversationId("m1".into()), true);
    let mut detail = MessageDetail {
        message_id: MessageId("id".into()),
        conversation_id: ConversationId("m1".into()),
        subject: String::new(),
        from: String::new(),
        to: Vec::new(),
        cc: Vec::new(),
        bcc: Vec::new(),
        reply_to: None,
        date_unix_secs: 0,
        starred: false,
        unread: true,
        attachments: Vec::new(),
        body: MessageBody::Empty,
    };

    queue.apply_flag_overlay_to_detail(&route, &mut detail);

    assert!(detail.starred);
    assert!(!detail.unread);
}

#[test]
fn an_unread_mark_counts_one_message() {
    let mut summaries = vec![summary("m1", "one", 0), summary("m2", "two", 3)];
    let unread = |id: &str| MessageFlagIntent {
        conversation_id: ConversationId(id.into()),
        read: Some(false),
        starred: None,
    };

    apply_flag_overlay(&vec![unread("m1"), unread("m2")], &mut summaries);

    assert_eq!(summaries[0].unread_count, 1);
    assert_eq!(summaries[1].unread_count, 1);
}

#[test]
fn a_queue_without_actions_changes_no_projection() {
    let queue = MessageActionQueue::new();
    let mut cache = mailbox(vec![("inbox", vec![summary("m1", "one", 1)])]);
    assert!(!queue.apply_to_projection(&route("account-1"), &mut cache));
    assert_eq!(cache.get(&folder("inbox")).unwrap()[0].unread_count, 1);
}
