//! What connects the model to mail stores, account sources and views.
pub mod account;
pub mod backend;
pub mod camel;
pub mod identity;
pub mod journal;
pub mod local;
pub mod mailbox;
pub mod registry;
pub mod settings;
pub mod stub;
pub mod webkit;
