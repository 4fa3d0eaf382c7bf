//! The data that the mail client works on.
pub mod account;
pub mod address;
pub mod event;
pub mod html;
pub mod mail;
pub mod settings;
