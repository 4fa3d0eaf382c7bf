//! How the settings of the application are stored.
use crate::model::account::MailAccountId;
use crate::model::settings::AppSettings;
use vstd::prelude::*;

verus! {

/// The key of the account that was selected last.
pub const KEY_SELECTED_ACCOUNT_ID: &'static str = "selected-account-id";

/// The key of whether messages are shown as HTML.
pub const KEY_PREFER_HTML_VIEW: &'static str = "prefer-html-view";

/// The settings that are stored as `selected_account_id` and `prefer_html_view`: an empty
/// name stands for no account.
pub fn load_settings(selected_account_id: &str, prefer_html_view: bool) -> (settings: AppSettings)
    ensures
        settings.selected_account_id is Some <==> selected_account_id@.len() > 0,
        settings.selected_account_id is Some ==> settings.selected_account_id->0@
            == selected_account_id@,
        settings.prefer_html_view == prefer_html_view,
{
    AppSettings {
        selected_account_id: if selected_account_id.is_empty() {
            None
        } else {
            Some(MailAccountId(selected_account_id.to_owned()))
        },
        prefer_html_view,
    }
}

/// What the selected account is stored as.
pub open spec fn stored_account(settings: AppSettings) -> Seq<char> {
    match settings.selected_account_id {
        Some(id) => id@,
        None => Seq::empty(),
    }
}

/// What the selected account is stored as.
pub fn selected_account_value(settings: &AppSettings) -> (value: String)
    ensures
        value@ == stored_account(*settings),
{
    match &settings.selected_account_id {
        Some(id) => id.0.clone(),
        None => String::new(),
    }
}

/// Settings that were stored are read back, where the selected account has a name.
pub proof fn lemma_stored_settings_are_read_back(settings: AppSettings, read: AppSettings)
    requires
        settings.selected_account_id is Some ==> settings.selected_account_id->0@.len() > 0,
        read.selected_account_id is Some <==> stored_account(settings).len() > 0,
        read.selected_account_id is Some ==> read.selected_account_id->0@ == stored_account(
            settings,
        ),
    ensures
        read.selected_account_id is Some <==> settings.selected_account_id is Some,
        settings.selected_account_id is Some ==> read.selected_account_id->0@
            == settings.selected_account_id->0@,
{
}

} // verus!
