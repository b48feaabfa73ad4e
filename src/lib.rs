//! Incremental change extraction for an append-only changelog and a feed of
//! posts: what is new in the unreleased section since the previous snapshot,
//! and how it is rendered into one notification message.

pub mod changelog;
pub mod feed;
pub mod lemmas;
pub mod message;
pub mod text;
