use pigeon::integration::settings::{load_settings, selected_account_value};
use pigeon::integration::webkit::{
    apply_composer_update, composer_document_of, wrap_composer_document, wrap_html_document,
    ComposerContent, ComposerUpdate, WebKitComposer,
};
use pigeon::model::account::MailAccountId;
use pigeon::model::settings::AppSettings;

fn update(generation: u64, html: &str, text: &str) -> ComposerUpdate {
    ComposerUpdate {
        generation,
        request_id: None,
        html: html.into(),
        text: text.into(),
    }
}

#[test]
fn composer_update_accepts_current_generation_and_normalizes_non_breaking_spaces() {
    let mut content = ComposerContent::default();

    assert!(apply_composer_update(
        &mut content,
        7,
        update(7, "<b>Hello</b>&nbsp;world", "Hello\u{a0}world"),
    ));
    assert_eq!(content.html, "<b>Hello</b>&nbsp;world");
    assert_eq!(content.text, "Hello world");
}

#[test]
fn stale_and_duplicate_composer_updates_do_not_emit_changes() {
    let mut content = ComposerContent {
        html: "<p>Current</p>".into(),
        text: "Current".into(),
    };

    assert!(!apply_composer_update(
        &mut content,
        4,
        update(3, "<p>Stale</p>", "Stale"),
    ));
    assert!(!apply_composer_update(
        &mut content,
        4,
        update(4, "<p>Current</p>", "Current"),
    ));
    assert_eq!(content.text, "Current");
}

#[test]
fn composer_document_encodes_untrusted_closing_script_markup() {
    let document = wrap_composer_document(
        "</script><img src='https://example.invalid/tracker' onerror='alert(1)'>",
        9,
    );

    assert!(!document.contains("</script><img"));
    assert!(document.contains("\\u003c/script>"));
    assert!(document.contains("default-src 'none'"));
    assert!(document.contains("generation: 9"));
}

#[test]
fn composer_document_preserves_empty_and_multiline_content_as_json() {
    let empty = wrap_composer_document("", 0);
    let multiline = wrap_composer_document("<p>One</p>\n<p>Two</p>", u64::MAX);

    assert!(empty.contains("document.body.innerHTML = \"\";"));
    assert!(empty.contains("html: currentHtml()"));
    assert!(empty.contains("querySelector('img,video,audio,table,hr')"));
    assert!(multiline.contains("\\u003cp>One\\u003c/p>\\n\\u003cp>Two\\u003c/p>"));
    assert!(multiline.contains(&format!("generation: {}", u64::MAX)));
}

#[test]
fn json_text_is_written_with_every_escape() {
    let body = "\u{8}\u{c}\t\r\"\\\u{1}\u{7f}é";
    let document = wrap_composer_document(body, 1);
    assert!(document.contains("document.body.innerHTML = \"\\b\\f\\t\\r\\\"\\\\\\u0001\u{7f}é\";"));
    assert_eq!(
        document,
        composer_document_of("\"\\b\\f\\t\\r\\\"\\\\\\u0001\u{7f}é\"", 1)
    );
}

#[test]
fn an_html_message_is_shown_in_a_document() {
    let document = wrap_html_document("<p>Hello</p>");
    assert!(document.starts_with("<html><head>"));
    assert!(document.ends_with("<p>Hello</p></body></html>"));
}

#[test]
fn a_capture_is_answered_once() {
    let mut composer = WebKitComposer::new();
    assert!(composer.set_content("<p>One</p>", "One").is_empty());
    let request = composer.capture_content();
    assert!(request.script.contains(&request.request_id.to_string()));

    let answer = ComposerUpdate {
        generation: 1,
        request_id: Some(request.request_id),
        html: "<p>Two</p>".into(),
        text: "Two".into(),
    };
    let receipt = composer.receive(answer);
    assert!(receipt.changed);
    assert_eq!(receipt.answered, Some(request.request_id));
    assert_eq!(composer.current_content().text, "Two");

    let repeated = ComposerUpdate {
        generation: 1,
        request_id: Some(request.request_id),
        html: "<p>Two</p>".into(),
        text: "Two".into(),
    };
    assert_eq!(composer.receive(repeated).answered, None);
}

#[test]
fn new_content_supersedes_the_captures_that_wait() {
    let mut composer = WebKitComposer::new();
    let first = composer.capture_content();
    let second = composer.capture_content();
    assert!(composer.abandon_capture(first.request_id));
    assert!(!composer.abandon_capture(first.request_id));
    assert_eq!(
        composer.set_content("<p>New</p>", "New"),
        [second.request_id]
    );
    assert!(composer.document().contains("\\u003cp>New"));
}

#[test]
fn stored_settings_are_read_back() {
    let settings = AppSettings {
        selected_account_id: Some(MailAccountId("account".into())),
        prefer_html_view: false,
    };
    let value = selected_account_value(&settings);
    assert_eq!(value, "account");
    assert_eq!(load_settings(&value, false), settings);
    assert_eq!(load_settings("", true).selected_account_id, None);
    assert_eq!(selected_account_value(&AppSettings::default()), "");
}
