//! What holds of the library as a whole, said of what goes in and what comes out.
pub mod accounts;
pub mod documents;
pub mod drafts;
pub mod folders;
pub mod journals;
pub mod lists;
pub mod mailboxes;
pub mod marks;
pub mod messages;
pub mod orders;
pub mod pools;
pub mod records;
pub mod sending;
pub mod stored;
pub mod texts;
