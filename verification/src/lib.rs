//! A personal note index: note records with an ever-advancing identifier
//! sequence, label sets, and the `is:` / `not:` filter language that the
//! listing and search queries are built on.

pub mod app;
pub mod config;
pub mod error;
pub mod filter;
pub mod note;
pub mod paths;
pub mod state;
pub mod text;
