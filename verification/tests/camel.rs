use pigeon::integration::camel::{
    build_message_detail, choose_message_timestamp, classify_folder_kind, collect_conversations,
    compact_participant, completion_marker, compose_conversation_id, exported_attachment, flag_value,
    folder_needs_refresh, message_sync_state, search_conversations, service_config_source,
    tag_was_stored,
    conversation_from_message_info, conversation_id_parts, flag_was_marked_for_sync,
    flag_was_stored, folder_uri, load_folder_tree, local_folder_path_prefixes,
    parse_attachment_records, prepare_append, search_expression, serialize_attachment_uris,
    serialize_recipients, stored_message, AppendError, AppendMessageRequest, AttachmentError,
    CamelAccessMode, ConfigSource, DetailError, EmptyUri, FolderInfo, MessageAccess, ParentSource, HeaderAddress, InteriorNul, LineError, MessageInfo,
    MimeMessage, StoredMessageError, DELIVERY_COPY_REQUIRED, DELIVERY_PROVIDER_COPY,
    FOLDER_TYPE_INBOX, FOLDER_TYPE_SENT, MESSAGE_ATTACHMENTS, MESSAGE_FLAGGED,
    MESSAGE_FOLDER_FLAGGED, MESSAGE_SEEN,
};
use pigeon::model::mail::{ConversationId, FolderId, FolderKind};

fn info(flags: u32) -> MessageInfo {
    MessageInfo {
        flags,
        subject: Some("Subject".into()),
        from: Some("Jane <jane@example.test>".into()),
        preview: Some("Preview".into()),
        date_sent: 7,
        date_received: 9,
    }
}

fn mime() -> MimeMessage {
    MimeMessage {
        message_id: Some("message-id".into()),
        subject: Some("Real subject".into()),
        from: vec![HeaderAddress {
            name: Some("Jane".into()),
            email: Some("jane@example.test".into()),
        }],
        reply_to: Vec::new(),
        to: vec![HeaderAddress {
            name: None,
            email: Some("me@example.test".into()),
        }],
        cc: Vec::new(),
        bcc: Vec::new(),
        html: None,
        text: Some("Hello".into()),
        attachments: Some("a%20b.txt\t1".into()),
        date_sent: 7,
        date_received: 9,
    }
}

fn request() -> AppendMessageRequest {
    AppendMessageRequest {
        message_id: None,
        folder_id: FolderId("local/Drafts".into()),
        from: "me@example.test".into(),
        reply_to: None,
        to: vec!["you@example.test".into()],
        cc: Vec::new(),
        bcc: Vec::new(),
        subject: "Subject".into(),
        html_body: "<p>Hello</p>".into(),
        plain_body: "Hello".into(),
        attachment_uris: vec!["file:///tmp/a".into()],
        is_draft: true,
    }
}

#[test]
fn nested_local_folder_creation_includes_each_parent() {
    assert_eq!(
        local_folder_path_prefixes("collection/Drafts/Autosaved").unwrap(),
        vec![
            "collection",
            "collection/Drafts",
            "collection/Drafts/Autosaved"
        ]
    );
}

#[test]
fn single_local_folder_creation_has_no_synthetic_parent() {
    assert_eq!(
        local_folder_path_prefixes("Drafts").unwrap(),
        vec!["Drafts"]
    );
}

#[test]
fn malformed_local_folder_paths_are_rejected() {
    for path in [
        "",
        "/Drafts",
        "Drafts/",
        "account//Drafts",
        "account/./Drafts",
        "account/../Drafts",
    ] {
        assert!(
            local_folder_path_prefixes(path).is_err(),
            "accepted {path:?}"
        );
    }
}

#[test]
fn attachment_uris_preserve_order_and_skip_empty_values() {
    let serialized = serialize_attachment_uris(&vec![
        "file:///tmp/first.txt".into(),
        "  ".into(),
        "file:///tmp/second.bin".into(),
    ])
    .unwrap();
    assert_eq!(
        serialized,
        "file:///tmp/first.txt\nfile:///tmp/second.bin"
    );
}

#[test]
fn attachment_uri_line_breaks_cannot_corrupt_the_wire_format() {
    assert!(serialize_attachment_uris(&vec!["file:///tmp/a\nb".into()]).is_err());
    assert!(serialize_attachment_uris(&vec!["file:///tmp/a\rb".into()]).is_err());
}

#[test]
fn recipient_line_breaks_cannot_create_extra_address_records() {
    assert!(
        serialize_recipients(&vec!["person@example.com\nBcc: hidden@example.com".into()]).is_err()
    );
    assert!(serialize_recipients(&vec!["person@example.com\rhidden@example.com".into()]).is_err());
}

#[test]
fn recipients_are_joined_by_line_breaks_and_hold_no_nul() {
    assert_eq!(
        serialize_recipients(&vec!["a@example.test".into(), "".into(), "b@example.test".into()]),
        Ok("a@example.test\nb@example.test".to_string())
    );
    assert_eq!(
        serialize_recipients(&vec!["a\nb".into()]),
        Err(LineError::LineBreak)
    );
    assert_eq!(
        serialize_recipients(&vec!["a\0b".into()]),
        Err(LineError::InteriorNul)
    );
}

#[test]
fn attachment_records_preserve_delimiters_and_duplicate_display_names() {
    let records = parse_attachment_records(
        "same%09name%0A100%25.txt\t1\nsame%09name%0A100%25.txt\t2",
    )
    .unwrap();

    assert_eq!(records.len(), 2);
    assert_eq!(records[0].display_name, "same\tname\n100%.txt");
    assert_eq!(records[1].display_name, records[0].display_name);
    assert_eq!(records[0].location.cached_token(), Some("1"));
    assert_eq!(records[1].location.cached_token(), Some("2"));
}

#[test]
fn malformed_attachment_records_fail_at_the_camel_boundary() {
    for records in ["", "name", "name\t0", "name\tnot-a-token", "%FF\t1"] {
        assert!(parse_attachment_records(records).is_err());
    }
}

#[test]
fn each_malformed_attachment_record_has_its_error() {
    let error = |records: &str| parse_attachment_records(records).err();
    assert_eq!(error(""), Some(AttachmentError::Empty));
    assert_eq!(error("name"), Some(AttachmentError::NoSeparator));
    assert_eq!(error("%FF\t1"), Some(AttachmentError::NameNotUtf8));
    assert_eq!(error("name\tnot-a-token"), Some(AttachmentError::InvalidToken));
    assert_eq!(error("name\t0"), Some(AttachmentError::Incomplete));
    assert_eq!(error("\t1"), Some(AttachmentError::Incomplete));
}

#[test]
fn search_expression_covers_headers_and_cached_body() {
    let expression = search_expression("project", true).unwrap();
    assert!(expression.starts_with("(match-all (or "));
    assert!(expression.ends_with("))"));
    for field in ["subject", "from", "to", "cc"] {
        assert!(expression.contains(&format!("(header-contains \"{field}\" \"project\")")));
    }
    assert!(expression.contains("(body-contains \"project\")"));
}

#[test]
fn remote_search_expression_never_invokes_provider_body_search() {
    let expression = search_expression("project", false).unwrap();
    assert!(!expression.contains("body-contains"));
}

#[test]
fn search_expression_escapes_sexp_string_metacharacters() {
    let expression = search_expression("a\\b\"c'd", true).unwrap();
    assert!(expression.contains("\"a\\\\b\\\"c'd\""));
}

#[test]
fn search_expression_rejects_interior_nul() {
    assert!(search_expression("before\0after", true).is_err());
    assert_eq!(search_expression("\0", false), Err(InteriorNul));
}

#[test]
fn conversation_ids_name_their_folder_and_message() {
    let id = compose_conversation_id("INBOX/Lists", "42");
    assert_eq!(id, "INBOX/Lists\u{1f}42");
    assert_eq!(conversation_id_parts(&id), Some(("INBOX/Lists", "42")));
    assert_eq!(conversation_id_parts("no separator"), None);
}

#[test]
fn only_cached_access_does_not_load_a_message() {
    assert!(!CamelAccessMode::CachedOnly.may_load_message());
    assert!(CamelAccessMode::Local.may_load_message());
    assert!(CamelAccessMode::Online.may_load_message());
}

#[test]
fn a_finished_submission_says_who_keeps_the_copy() {
    assert_eq!(completion_marker(true), DELIVERY_PROVIDER_COPY);
    assert_eq!(completion_marker(false), DELIVERY_COPY_REQUIRED);
}

#[test]
fn a_flag_is_checked_after_it_is_written() {
    assert!(flag_was_stored(MESSAGE_SEEN, MESSAGE_SEEN, true));
    assert!(!flag_was_stored(MESSAGE_SEEN, MESSAGE_SEEN, false));
    assert!(flag_was_stored(0, MESSAGE_SEEN, false));
    assert!(flag_was_marked_for_sync(
        MESSAGE_SEEN | MESSAGE_FOLDER_FLAGGED,
        MESSAGE_SEEN,
        true
    ));
    assert!(!flag_was_marked_for_sync(MESSAGE_SEEN, MESSAGE_SEEN, true));
}

#[test]
fn a_message_becomes_a_summary() {
    let summary = conversation_from_message_info(
        &info(MESSAGE_FLAGGED | MESSAGE_ATTACHMENTS),
        "INBOX",
        "42",
    );
    assert_eq!(summary.id.0, "INBOX\u{1f}42");
    assert_eq!(summary.folder_id.0, "INBOX");
    assert_eq!(summary.subject, "Subject");
    assert_eq!(summary.participants, ["Jane"]);
    assert_eq!(summary.unread_count, 1);
    assert_eq!(summary.attachment_count, 1);
    assert!(summary.starred);
    assert_eq!(summary.last_updated_unix_ms, 7000);
    assert_eq!(
        conversation_from_message_info(&info(MESSAGE_SEEN), "INBOX", "42").unread_count,
        0
    );
}

#[test]
fn participants_are_shown_by_name() {
    assert_eq!(compact_participant("Jane Doe <jane@example.test>"), "Jane Doe");
    assert_eq!(compact_participant("jane@example.test"), "jane@example.test");
}

#[test]
fn the_first_known_time_of_a_message_counts() {
    assert_eq!(choose_message_timestamp(9, 7), 9);
    assert_eq!(choose_message_timestamp(0, 7), 7);
}

#[test]
fn a_page_is_cut_from_the_newest_messages() {
    let row = |uid: &str, sent: i64| {
        let mut info = info(0);
        info.date_sent = sent;
        conversation_from_message_info(&info, "INBOX", uid)
    };
    let page = collect_conversations(vec![row("1", 10), row("2", 30), row("3", 20)], 1, 1);
    assert_eq!(page.len(), 1);
    assert_eq!(page[0].id.0, "INBOX\u{1f}3");
}

#[test]
fn a_message_is_opened_with_its_parts() {
    let id = ConversationId("INBOX\u{1f}42".into());
    let detail = build_message_detail("42", &id, &info(MESSAGE_FLAGGED), mime(), None).unwrap();
    assert_eq!(detail.message_id.0, "message-id");
    assert_eq!(detail.conversation_id, id);
    assert_eq!(detail.subject, "Real subject");
    assert_eq!(detail.to, ["me@example.test"]);
    assert!(detail.starred);
    assert!(detail.unread);
    assert_eq!(detail.attachments[0].display_name, "a b.txt");
    assert_eq!(detail.body.presentation_text(), "Hello");

    let mut broken = mime();
    broken.attachments = Some("name".into());
    assert_eq!(
        build_message_detail("42", &id, &info(0), broken, None).err(),
        Some(DetailError::Attachments(AttachmentError::NoSeparator))
    );
}

#[test]
fn a_message_is_opened_with_a_text_made_elsewhere() {
    let id = ConversationId("INBOX\u{1f}42".into());
    let hanging = || {
        let mut message = mime();
        message.text = None;
        message.html = Some(
            "<table><tr><td colspan=\"2\">a</td><td rowspan=\"2\">b</td></tr></table>".into(),
        );
        message
    };
    assert_eq!(
        build_message_detail("42", &id, &info(0), hanging(), None).err(),
        Some(DetailError::Body)
    );
    let detail =
        build_message_detail("42", &id, &info(0), hanging(), Some("a b\n")).unwrap();
    assert_eq!(detail.subject, "Real subject");
    assert_eq!(detail.body.presentation_text(), "a b");
    let mut broken = hanging();
    broken.attachments = Some("name".into());
    assert_eq!(
        build_message_detail("42", &id, &info(0), broken, Some("")).err(),
        Some(DetailError::Attachments(AttachmentError::NoSeparator))
    );
    let mut plain = hanging();
    plain.html = Some("<p>Shown</p>".into());
    let detail = build_message_detail("42", &id, &info(0), plain, Some("other")).unwrap();
    assert_eq!(detail.body.presentation_text(), "Shown");
}

#[test]
fn an_appended_message_must_fit_the_bridge() {
    let lists = prepare_append("source", &request()).unwrap();
    assert_eq!(lists.to, "you@example.test");
    assert_eq!(lists.attachment_uris, "file:///tmp/a");

    let error = |change: fn(&mut AppendMessageRequest)| {
        let mut request = request();
        change(&mut request);
        prepare_append("source", &request).err()
    };
    assert_eq!(
        error(|request| request.folder_id = FolderId("a\0b".into())),
        Some(AppendError::FolderName)
    );
    assert_eq!(
        prepare_append("a\0b", &request()).err(),
        Some(AppendError::SourceUid)
    );
    assert_eq!(
        error(|request| request.message_id = Some("a\0b".into())),
        Some(AppendError::MessageId)
    );
    assert_eq!(
        error(|request| request.from = "a\0b".into()),
        Some(AppendError::From)
    );
    assert_eq!(
        error(|request| request.reply_to = Some("a\0b".into())),
        Some(AppendError::ReplyTo)
    );
    assert_eq!(
        error(|request| request.to = vec!["a\nb".into()]),
        Some(AppendError::Recipient(LineError::LineBreak))
    );
    assert_eq!(
        error(|request| request.subject = "a\0b".into()),
        Some(AppendError::Subject)
    );
    assert_eq!(
        error(|request| request.html_body = "a\0b".into()),
        Some(AppendError::HtmlBody)
    );
    assert_eq!(
        error(|request| request.plain_body = "a\0b".into()),
        Some(AppendError::PlainBody)
    );
    assert_eq!(
        error(|request| request.attachment_uris = vec!["a\0b".into()]),
        Some(AppendError::Attachment(LineError::InteriorNul))
    );
}

#[test]
fn a_stored_message_needs_both_of_its_names() {
    let folder = FolderId("local/Drafts".into());
    let stored =
        stored_message(&folder, Some("7".into()), Some("message-id".into())).unwrap();
    assert_eq!(stored.conversation_id.0, "local/Drafts\u{1f}7");
    assert_eq!(stored.message_id.0, "message-id");
    assert_eq!(
        stored_message(&folder, None, Some("message-id".into())).err(),
        Some(StoredMessageError::NoUid)
    );
    assert_eq!(
        stored_message(&folder, Some("7".into()), None).err(),
        Some(StoredMessageError::NoMessageId)
    );
}

#[test]
fn folders_are_listed_by_their_role() {
    let folder = |name: &str, flags: u32, unread: i32| FolderInfo {
        full_name: Some(name.into()),
        display_name: Some(name.into()),
        unread,
        flags,
    };
    let folders = load_folder_tree(&vec![
        folder("Lists", 0, -1),
        folder("Sent", FOLDER_TYPE_SENT, 0),
        folder("INBOX", FOLDER_TYPE_INBOX, 3),
    ])
    .unwrap();
    let names: Vec<&str> = folders.iter().map(|folder| folder.name.as_str()).collect();
    assert_eq!(names, ["INBOX", "Sent", "Lists"]);
    assert_eq!(folders[0].unread_count, 3);
    assert_eq!(folders[2].unread_count, 0);
    assert_eq!(classify_folder_kind(FOLDER_TYPE_INBOX), FolderKind::Inbox);
    assert_eq!(classify_folder_kind(0), FolderKind::Custom);
}

#[test]
fn a_folder_is_named_by_its_service() {
    assert_eq!(folder_uri("local", "Drafts"), "folder://local/Drafts");
}

#[test]
fn a_message_is_read_where_its_store_allows_it() {
    assert_eq!(
        CamelAccessMode::CachedOnly.message_access(true),
        MessageAccess::Cached
    );
    assert_eq!(
        CamelAccessMode::CachedOnly.message_access(false),
        MessageAccess::Unavailable
    );
    assert_eq!(
        CamelAccessMode::Online.message_access(false),
        MessageAccess::Load
    );
}

#[test]
fn a_service_is_configured_from_the_nearest_source() {
    let known = |configures| ParentSource::Known { configures };
    assert_eq!(
        service_config_source(true, ParentSource::Unknown, false),
        Some(ConfigSource::Account)
    );
    assert_eq!(
        service_config_source(false, known(true), true),
        Some(ConfigSource::Parent)
    );
    assert_eq!(
        service_config_source(false, known(false), true),
        Some(ConfigSource::Account)
    );
    assert_eq!(service_config_source(false, ParentSource::Unknown, true), None);
    assert_eq!(service_config_source(false, ParentSource::Absent, false), None);
}

#[test]
fn a_stored_tag_is_compared_with_what_was_written() {
    assert!(tag_was_stored(&Some("submitting".into()), "submitting"));
    assert!(!tag_was_stored(&Some("other".into()), "submitting"));
    assert!(!tag_was_stored(&None, "submitting"));
    assert_eq!(flag_value(MESSAGE_SEEN, true), MESSAGE_SEEN);
    assert_eq!(flag_value(MESSAGE_SEEN, false), 0);
}

#[test]
fn the_state_of_a_message_is_kept_under_its_name() {
    let state = message_sync_state(
        &FolderId("local/Outbox".into()),
        "7",
        17,
        Some("submitting".into()),
        false,
        true,
    );
    assert_eq!(state.conversation_id.0, "local/Outbox\u{1f}7");
    assert_eq!(state.message_id_hash, 17);
    assert_eq!(state.delivery_state.as_deref(), Some("submitting"));
    assert!(!state.draft_synced);
    assert!(state.draft_superseded);
}

#[test]
fn what_several_folders_hold_is_found_once() {
    let row = |uid: &str, sent: i64| {
        let mut info = info(0);
        info.date_sent = sent;
        conversation_from_message_info(&info, "INBOX", uid)
    };
    let results = search_conversations(vec![
        vec![row("1", 10), row("2", 30)],
        Vec::new(),
        vec![row("1", 10), row("3", 20)],
    ]);
    let ids: Vec<&str> = results.iter().map(|row| row.id.0.as_str()).collect();
    assert_eq!(ids, ["INBOX\u{1f}2", "INBOX\u{1f}3", "INBOX\u{1f}1"]);
}

#[test]
fn an_exported_attachment_has_a_file() {
    assert_eq!(
        exported_attachment("file:///tmp/a".into()),
        Ok("file:///tmp/a".to_string())
    );
    assert_eq!(exported_attachment(String::new()), Err(EmptyUri));
}

#[test]
fn a_folder_without_known_messages_is_read_again() {
    assert!(folder_needs_refresh(0, 3));
    assert!(!folder_needs_refresh(0, 0));
    assert!(!folder_needs_refresh(1, 3));
}
