use pigeon::logging::{default_filter, error_category};
use pigeon::model::account::{MailAccount, MailAccountId, SendingIdentity, Signature};
use pigeon::model::address::{normalized_mailbox_address, split_mailbox_list};
use pigeon::model::event::{RefreshFailureKind, RequestId};
use pigeon::model::html::can_be_rendered;
use pigeon::model::mail::{
    escape_html_text, plain_text_to_html, sort_and_deduplicate_conversations, sort_conversations,
    AttachmentInfo, AttachmentLocation, AttachmentSource, ConversationId, ConversationSummary,
    DraftBody, DraftMessage, FolderId, MailtoRequest, MessageBody, TextRange, WriteOutcome,
};
use pigeon::model::settings::AppSettings;

fn summary(subject: &str, updated: i64) -> ConversationSummary {
    ConversationSummary {
        id: ConversationId("same-message".into()),
        folder_id: FolderId("inbox".into()),
        subject: subject.into(),
        participants: Vec::new(),
        message_count: 1,
        unread_count: 0,
        attachment_count: 0,
        starred: false,
        last_updated_unix_ms: updated,
        preview: String::new(),
    }
}

fn identity(address: &str, name: &str) -> SendingIdentity {
    SendingIdentity::new(address.into(), name.into(), None, Signature::default())
}

fn account() -> MailAccount {
    MailAccount::new(
        MailAccountId("account-1".into()),
        "Account".into(),
        identity("primary@example.com", "Primary"),
    )
}

#[test]
fn mailbox_lists_split_only_at_top_level_commas() {
    assert_eq!(
        split_mailbox_list(
            r#""Doe, Jane" <jane@example.test>, "A \"Quoted\" Name" <quoted@example.test>, bare@example.test"#,
        ),
        [
            r#""Doe, Jane" <jane@example.test>"#,
            r#""A \"Quoted\" Name" <quoted@example.test>"#,
            "bare@example.test",
        ]
    );
}

#[test]
fn mailbox_lists_ignore_empty_items_and_keep_unclosed_input_intact() {
    assert_eq!(
        split_mailbox_list(", first@example.test, , second@example.test,"),
        ["first@example.test", "second@example.test"]
    );
    assert_eq!(
        split_mailbox_list(r#""Unclosed, Name <broken@example.test>"#),
        [r#""Unclosed, Name <broken@example.test>"#]
    );
}

#[test]
fn mailbox_lists_keep_commas_between_angle_brackets() {
    assert_eq!(
        split_mailbox_list("Route <@a.test,@b.test:c@d.test>, e@f.test"),
        ["Route <@a.test,@b.test:c@d.test>", "e@f.test"]
    );
    assert!(split_mailbox_list("").is_empty());
}

#[test]
fn normalization_compares_display_and_bare_mailboxes_by_exact_address() {
    assert_eq!(
        normalized_mailbox_address(" Example Person <Person@Example.Test> "),
        "person@example.test"
    );
    assert_eq!(
        normalized_mailbox_address("PERSON@example.test"),
        "person@example.test"
    );
    assert_eq!(normalized_mailbox_address("  "), "");
}

#[test]
fn conversation_deduplication_preserves_source_precedence_before_sorting() {
    let mut conversations = vec![summary("authoritative", 1), summary("stale", 2)];

    sort_and_deduplicate_conversations(&mut conversations);

    assert_eq!(conversations.len(), 1);
    assert_eq!(conversations[0].subject, "authoritative");
}

#[test]
fn conversations_are_sorted_with_the_newest_first() {
    let mut conversations = vec![summary("old", 1), summary("new", 3), summary("middle", 2)];

    sort_conversations(&mut conversations);

    let subjects: Vec<&str> = conversations.iter().map(|row| row.subject.as_str()).collect();
    assert_eq!(subjects, ["new", "middle", "old"]);
}

#[test]
fn write_outcomes_separate_visible_change_from_network_convergence() {
    assert!(!WriteOutcome::Unchanged.changed());
    assert!(!WriteOutcome::Unchanged.requires_convergence());
    assert!(WriteOutcome::Applied.changed());
    assert!(!WriteOutcome::Applied.requires_convergence());
    assert!(WriteOutcome::Queued.changed());
    assert!(WriteOutcome::Queued.requires_convergence());
}

#[test]
fn prepared_messages_accept_only_materialized_attachments() {
    let mut ready = DraftMessage::empty(MailAccountId("account".into()), "sender@example.com".into());
    ready.attachments.push(AttachmentInfo {
        display_name: "document.pdf".into(),
        location: AttachmentLocation::ExternalUri("file:///document.pdf".into()),
    });
    let prepared = ready.into_prepared().unwrap();
    assert_eq!(
        prepared.attachment_uris,
        vec!["file:///document.pdf".to_string()]
    );

    let mut unresolved =
        DraftMessage::empty(MailAccountId("account".into()), "sender@example.com".into());
    unresolved.attachments.push(AttachmentInfo {
        display_name: "cached.pdf".into(),
        location: AttachmentLocation::CachedToken("part-1".into()),
    });
    assert!(unresolved.into_prepared().is_err());
}

#[test]
fn a_draft_knows_where_its_cached_attachments_come_from() {
    let mut draft = DraftMessage::empty(MailAccountId("account".into()), "me@example.test".into());
    assert!(!draft.has_cached_attachments());
    assert!(draft.attachment_source().is_none());
    draft.attachments.push(AttachmentInfo {
        display_name: "cached.pdf".into(),
        location: AttachmentLocation::CachedToken("part-1".into()),
    });
    draft.set_attachment_source(Some(AttachmentSource {
        account_id: MailAccountId("account".into()),
        conversation_id: ConversationId("message".into()),
    }));
    assert!(draft.has_cached_attachments());
    assert_eq!(
        draft.attachment_source().map(|source| source.conversation_id.0.as_str()),
        Some("message")
    );
    assert_eq!(draft.attachments[0].location.cached_token(), Some("part-1"));
    assert_eq!(
        AttachmentLocation::ExternalUri("file:///a".into()).cached_token(),
        None
    );
}

#[test]
fn a_recipient_is_any_filled_address() {
    let mut draft = DraftMessage::empty(MailAccountId("account".into()), "me@example.test".into());
    draft.to.push("   ".into());
    assert!(!draft.into_prepared().unwrap().has_recipient());
    let mut draft = DraftMessage::empty(MailAccountId("account".into()), "me@example.test".into());
    draft.bcc.push("you@example.test".into());
    assert!(draft.into_prepared().unwrap().has_recipient());
}

#[test]
fn text_ranges_use_character_offsets_and_reject_invalid_boundaries() {
    let range = TextRange::for_segment("前缀", "签名");
    assert_eq!(range, TextRange { start: 2, end: 4 });
    assert_eq!(range.split("前缀签名尾部"), Some(("前缀", "签名", "尾部")));
    assert!(!TextRange { start: 4, end: 3 }.is_valid_for("text"));
    assert!(!TextRange { start: 0, end: 5 }.is_valid_for("text"));
}

#[test]
fn draft_body_never_retains_a_range_outside_its_text() {
    let mut body = DraftBody::default();
    body.set_text("short".into(), Some(TextRange { start: 0, end: 9 }));

    assert_eq!(body.text(), "short");
    assert!(body.text_signature().is_none());
}

#[test]
fn draft_body_keeps_a_range_within_its_text() {
    let mut body = DraftBody::default();
    body.replace(
        "<p>Hi</p>".into(),
        "Hi -- me".into(),
        Some(TextRange { start: 3, end: 8 }),
    );
    assert_eq!(body.html(), "<p>Hi</p>");
    assert_eq!(body.text_signature(), Some(TextRange { start: 3, end: 8 }));
    body.set_html("<p>Other</p>".into());
    assert_eq!(body.html(), "<p>Other</p>");
    assert_eq!(body.text(), "Hi -- me");
}

#[test]
fn mailto_is_empty_only_when_every_field_is_empty() {
    assert!(MailtoRequest::default().is_empty());
    for request in [
        MailtoRequest {
            to: vec!["to@example.test".into()],
            ..Default::default()
        },
        MailtoRequest {
            cc: vec!["cc@example.test".into()],
            ..Default::default()
        },
        MailtoRequest {
            bcc: vec!["bcc@example.test".into()],
            ..Default::default()
        },
        MailtoRequest {
            subject: "Subject".into(),
            ..Default::default()
        },
        MailtoRequest {
            body: "Body".into(),
            ..Default::default()
        },
    ] {
        assert!(!request.is_empty());
    }
}

#[test]
fn plain_text_html_conversion_escapes_content_and_normalizes_line_endings() {
    assert_eq!(plain_text_to_html(""), "");
    assert_eq!(
        plain_text_to_html("A < B & C\nSecond line"),
        "A &lt; B &amp; C<br>Second line"
    );
    assert_eq!(
        plain_text_to_html("One\r\nTwo\rThree"),
        "One<br>Two<br>Three"
    );
    assert_eq!(plain_text_to_html("Unicode: 鸽子"), "Unicode: 鸽子");
}

#[test]
fn html_text_escaping_covers_markup_and_attribute_delimiters() {
    assert_eq!(escape_html_text("<&>'\""), "&lt;&amp;&gt;&apos;&quot;");
}

#[test]
fn message_body_preserves_mime_parts_and_fills_only_missing_presentations() {
    let empty = MessageBody::from_parts(String::new(), String::new());
    assert!(empty.html_part().is_none());
    assert!(empty.text_part().is_none());
    assert_eq!(empty.presentation_html(), "");
    assert_eq!(empty.presentation_text(), "");

    let text = MessageBody::from_parts(String::new(), "A < B\nSecond line".into());
    assert!(text.html_part().is_none());
    assert_eq!(text.text_part(), Some("A < B\nSecond line"));
    assert_eq!(text.presentation_html(), "A &lt; B<br>Second line");

    let html = MessageBody::from_parts(
        "<p>First &amp; second</p><p>Third</p>".into(),
        String::new(),
    );
    assert_eq!(
        html.html_part(),
        Some("<p>First &amp; second</p><p>Third</p>")
    );
    assert!(html.text_part().is_none());
    assert!(html.presentation_text().contains("First & second"));
    assert!(html.presentation_text().contains("Third"));

    let alternative = MessageBody::from_parts("<strong>Rich</strong>".into(), "Plain".into());
    assert_eq!(alternative.html_part(), Some("<strong>Rich</strong>"));
    assert_eq!(alternative.text_part(), Some("Plain"));
    assert_eq!(alternative.presentation_html(), "<strong>Rich</strong>");
    assert_eq!(alternative.presentation_text(), "Plain");
}

#[test]
fn message_body_ignores_whitespace_only_parts_without_changing_real_content() {
    let empty = MessageBody::from_parts(" \n".into(), "\t".into());
    assert!(matches!(empty, MessageBody::Empty));

    let text = MessageBody::from_parts("  ".into(), "One\r\nTwo".into());
    assert!(text.html_part().is_none());
    assert_eq!(text.text_part(), Some("One\r\nTwo"));
    assert_eq!(text.presentation_html(), "One<br>Two");

    let html = MessageBody::from_parts("<p>Visible</p>".into(), " \n".into());
    assert!(html.text_part().is_none());
    assert_eq!(html.html_part(), Some("<p>Visible</p>"));
}

#[test]
fn html_only_presentation_text_handles_incomplete_real_world_markup() {
    let body = MessageBody::from_parts(
        "<section>First<br><strong>Second &amp; third".into(),
        String::new(),
    );

    assert!(body.presentation_text().contains("First"));
    assert!(body.presentation_text().contains("Second & third"));
    assert!(body.text_part().is_none());
}

#[test]
fn html_alone_is_shown_without_its_markup() {
    let body = MessageBody::try_from_parts("<p>Visible</p>".into(), String::new()).unwrap();
    assert!(body.presentation_text().contains("Visible"));
    assert!(!body.presentation_text().contains('<'));
    let rendered = MessageBody::from_rendered("<p>Visible</p>".into(), " ".into(), "Shown\n");
    assert_eq!(rendered.presentation_text(), "Shown");
    assert_eq!(rendered.presentation_html(), "<p>Visible</p>");
}

#[test]
fn hanging_cells_keep_html_from_being_shown_as_text() {
    let hanging = "<table><tr><td colspan=\"2\">a</td><td rowspan=\"2\">b</td></tr></table>";
    assert!(MessageBody::try_from_parts(hanging.into(), String::new()).is_none());
    assert!(MessageBody::try_from_parts(hanging.into(), "Text".into()).is_some());
    assert!(can_be_rendered("<table><tr><td ROWSPAN = '3'>a</td></tr></table>"));
    assert!(!can_be_rendered("<table><tr><td rowspan=3>a</td></tr></table><table></table>"));
    assert!(!can_be_rendered("<td rowspan=\"1&#48;\" colspan=2>a</td>"));
    assert!(can_be_rendered("<td rowspan=\"1\" colspan=\"3\">a</td>"));
    assert!(can_be_rendered("<td rowspan=0>a</td>"));
    assert!(can_be_rendered("<td rowspan=2>a</td><td colspan=1>a</td>"));
    assert!(!can_be_rendered("<td rowspan=2>a</td><td colspan=0>a</td>"));
    assert!(!can_be_rendered("<td rowspan=20 colspan=2>a</td>"));
    assert!(can_be_rendered("<p>rowspan and colspan</p>"));
}

#[test]
fn long_numbers_keep_html_from_being_shown_as_text() {
    assert!(!can_be_rendered("<td colspan=18446744073709551615>a</td><td>b</td>"));
    assert!(!can_be_rendered("<td colspan=\"&#49;&#48;\">a</td>"));
    assert!(can_be_rendered("<td colspan=999>a</td>"));
    assert!(!can_be_rendered("<td colspan=10000000>a</td>"));
    assert!(!can_be_rendered("<ol start=\"9223372036854775807\"><li>a<li>b</ol>"));
    assert!(!can_be_rendered("<ol start=\"-9223372036854775807\"><li>a<li>b</ol>"));
    assert!(can_be_rendered("<ol start=\"-3\"><li>a</ol>"));
    assert!(can_be_rendered("<a href=\"/?start=1700000000&amp;end=1700003600\">a</a>"));
}

#[test]
fn preformatted_text_is_shown_outside_tables() {
    assert!(can_be_rendered("<pre>a\tb</pre>"));
    assert!(can_be_rendered("<html><TABLE><tr><td><PRE>\t</PRE></td></tr></TABLE>"));
    for narrow in ["<blockquote>", "<ul><li>", "<OL><li>", "<dd>", "<h6>"] {
        assert!(!can_be_rendered(&format!("<table><tr><td>{narrow}<pre>\t</pre>")));
        assert!(can_be_rendered(&format!("{narrow}<pre>\t</pre>")));
    }
    assert!(!can_be_rendered(&format!("{}<pre>\t</pre>", "<ul>".repeat(3001))));
    let body = MessageBody::try_from_parts("<pre>a\tb</pre>".into(), String::new()).unwrap();
    assert_eq!(body.presentation_text(), "a       b");
}

#[test]
fn joining_characters_are_shown_where_no_line_is_broken() {
    assert!(can_be_rendered("<p>I \u{2764}\u{fe0f} it, it&#39;s \u{1f468}\u{200d}\u{1f469}</p>"));
    assert!(!can_be_rendered("<table><tr><td>\u{2764}\u{fe0f}</td></tr></table>"));
    assert!(!can_be_rendered("<table><tr><td>\u{2764}&#xFE0F;</td></tr></table>"));
    assert!(!can_be_rendered("<table><tr><td>\u{2764}&#0065039;</td></tr></table>"));
    assert!(!can_be_rendered("<table><tr><td>a&zwj;b</td></tr></table>"));
    assert!(can_be_rendered("<table><tr><td>it&#39;s &#x1f600; \u{1f600}&#8203;</td></tr></table>"));
    assert!(can_be_rendered(&"\u{200d}".repeat(32767)));
    assert!(!can_be_rendered(&"\u{200d}".repeat(32768)));
    assert!(can_be_rendered(&"a".repeat(32768)));
    assert!(can_be_rendered(&format!("\u{644}\u{627}{}", "<b>a</b>".repeat(100))));
    assert!(!can_be_rendered(&format!("\u{644}\u{627}{}", "<b>a</b>".repeat(150))));
    assert!(!can_be_rendered("\u{200d}\u{17d8}"));
}

#[test]
fn tables_are_shown_as_text() {
    let body = MessageBody::try_from_parts(
        "<table><tr><td colspan=2>it&#39;s</td></tr><tr><td>a</td><td>b</td></tr></table>".into(),
        String::new(),
    )
    .unwrap();
    assert!(body.presentation_text().contains("it's"));
    assert!(body.presentation_text().contains("b"));
    let controls = MessageBody::try_from_parts("ab\u{1}cd&#2;".repeat(20000), String::new());
    assert!(controls.unwrap().presentation_text().starts_with("abcdabcd"));
}

#[test]
fn mailbox_quotes_provider_display_names_safely() {
    assert_eq!(
        identity("a@example.com", "Doe, Jane").mailbox(),
        "\"Doe, Jane\" <a@example.com>"
    );
    assert_eq!(
        identity("a@example.com", "A \"B\"").mailbox(),
        "\"A \\\"B\\\"\" <a@example.com>"
    );
}

#[test]
fn a_nameless_identity_is_shown_by_its_address() {
    assert_eq!(identity("a@example.com", " ").mailbox(), "a@example.com");
    assert_eq!(
        identity("a@example.com", "").display_name_or_address(),
        "a@example.com"
    );
    assert_eq!(
        identity("a@example.com", "A").display_name_or_address(),
        "A"
    );
}

#[test]
fn account_uses_address_as_its_only_identity_key() {
    let mut account = account();
    assert!(account.add_identity(identity("alias@example.com", "Alias")));
    assert!(!account.add_identity(identity("ALIAS@example.com", "Duplicate")));
    assert!(account.set_default_identity("ALIAS@example.com"));
    assert_eq!(account.default_identity().display_name, "Alias");
    assert!(!account.remove_identity("alias@example.com"));
    assert!(account.set_default_identity("primary@example.com"));
    assert!(account.remove_identity("alias@example.com"));
}

#[test]
fn full_model_update_replaces_an_alias_address_without_a_second_key() {
    let mut account = account();
    assert!(account.add_identity(identity("old@example.com", "Alias")));
    assert!(account.set_default_identity("old@example.com"));
    assert!(account.update_identity(
        "old@example.com",
        "Renamed".into(),
        "new@example.com".into(),
        Some("reply@example.com".into()),
        Signature::default(),
    ));
    assert!(account.identity("old@example.com").is_none());
    assert_eq!(account.default_identity().address, "new@example.com");
}

#[test]
fn the_primary_identity_keeps_its_address() {
    let mut account = account();
    assert!(!account.remove_identity("primary@example.com"));
    assert!(account.is_primary_identity("PRIMARY@example.com"));
    assert!(account.is_default_identity("primary@example.com"));
    assert!(!account.rename("  ".into()));
    assert!(account.rename("Renamed".into()));
    assert_eq!(account.display_name(), "Renamed");
    assert_eq!(account.id().0, "account-1");
}

#[test]
fn identity_construction_establishes_shared_text_invariants() {
    let identity = SendingIdentity::new(
        "  alias@example.com  ".into(),
        "  Alias  ".into(),
        Some("   ".into()),
        Signature::default(),
    );

    assert_eq!(identity.address, "alias@example.com");
    assert_eq!(identity.display_name, "Alias");
    assert_eq!(identity.reply_to, None);
}

#[test]
fn development_build_enables_project_debug_logging_by_default() {
    assert_eq!(default_filter(true), "info,pigeon=debug");
}

#[test]
fn release_build_keeps_info_as_the_default_log_level() {
    assert_eq!(default_filter(false), "info");
}

#[test]
fn log_categories_name_the_kind_of_failure_alone() {
    assert_eq!(error_category(RefreshFailureKind::Connectivity), "connectivity");
    assert_eq!(error_category(RefreshFailureKind::Authentication), "authentication");
    assert_eq!(error_category(RefreshFailureKind::Storage), "storage");
    assert_eq!(error_category(RefreshFailureKind::Backend), "backend");
}

#[test]
fn requests_are_numbered_one_after_another() {
    let mut counter: u64 = 7;
    let first = RequestId::next(&mut counter);
    let second = RequestId::next(&mut counter);
    assert_eq!(first, RequestId::from(7));
    assert_eq!(second, RequestId::from(8));
    assert_eq!(RequestId::from(u64::MAX).wrapping_add(2), RequestId::from(1));
}

#[test]
fn html_is_preferred_until_it_is_switched_off() {
    let settings = AppSettings::default();
    assert!(settings.prefer_html_view);
    assert!(settings.selected_account_id.is_none());
}
