//! Verified core of a per-guild chat-bot configuration and notification
//! service.
//!
//! The crate models the bot's durable relational state (command prefixes,
//! named tags, and tag subscriptions) as an explicit store, [`db::ZweiDbConn`],
//! and proves the invariants that the surrounding bot relies on: tag names are
//! unique per guild after lowercasing, subscription rows never outlive their
//! tag, and the in-memory prefix cache ([`prefixes::ZweiPrefixes`]) never
//! diverges from the store when writes go through the provided operations.
//! On top of the store sit the best-effort batch operations for tag and
//! subscription management ([`subs`]) and the fan-out engine ([`fanout`])
//! that resolves a requested set of tags to the union of subscribers and
//! paginates the notification under a fixed message-size budget.
//!
//! Everything that talks to the outside world (the chat gateway, the SQL
//! backend, the config file) lives outside this crate and exchanges plain
//! values with it.

pub mod db;
pub mod errors;
pub mod fanout;
pub mod prefixes;
pub mod subs;
pub mod text;
pub mod zwei_conf;

pub use errors::ZweiErr;
