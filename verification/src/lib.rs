//! Mailbox logic of a desktop mail client: accounts and sending identities,
//! mailbox projections, message delivery and draft synchronisation.

pub mod integration;
pub mod laws;
pub mod logging;
pub mod model;
pub mod text;
