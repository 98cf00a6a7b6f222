//! A frecency-ranked directory store: it records the directories a user
//! visits, keeps their weights bounded by proportional aging, scores them by
//! rank and recency, and finds the best match for a list of keywords.

pub mod add;
pub mod codec;
pub mod config;
pub mod frecency;
pub mod lock;
pub mod matcher;
pub mod path;
pub mod query;
pub mod store;
pub mod text;
