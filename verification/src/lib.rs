//! A JSON-backed configuration store for a public-IP change notifier.
//!
//! - `document`: the tree-shaped document that is persisted, and its model;
//! - `equality`: `==` on documents;
//! - `path`: the path mutator, which writes a value at a dotted and
//!   bracketed path;
//! - `config`: the typed configuration record and its projection from a
//!   document;
//! - `json`: JSON text, read and printed by `serde_json`;
//! - `store`: what is read from the contents of the file, and what is
//!   written to it;
//! - `search`: the values that a document holds under a key;
//! - `settings`: the command line;
//! - `notifier`: the decisions of the watch, and the notification;
//! - `text`: small operations on text;
//! - `error`: the failures that the store reports.

pub mod config;
pub mod document;
pub mod equality;
pub mod error;
pub mod json;
pub mod notifier;
pub mod path;
pub mod search;
pub mod settings;
pub mod store;
pub mod text;
