//! What the user chose.
use crate::model::account::MailAccountId;
use vstd::prelude::*;

verus! {

/// The settings of the application.
#[derive(Debug, PartialEq, Eq)]
pub struct AppSettings {
    pub selected_account_id: Option<MailAccountId>,
    pub prefer_html_view: bool,
}

impl Default for AppSettings {
    fn default() -> (settings: Self)
        ensures
            settings.selected_account_id is None,
            settings.prefer_html_view,
    {
        AppSettings { selected_account_id: None, prefer_html_view: true }
    }
}

impl Clone for AppSettings {
    fn clone(&self) -> (r: Self)
        ensures
            r == *self,
    {
        let selected_account_id = match &self.selected_account_id {
            Some(id) => Some(id.clone()),
            None => None,
        };
        AppSettings { selected_account_id, prefer_html_view: self.prefer_html_view }
    }
}

} // verus!
