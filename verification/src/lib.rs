//! Core of a desktop sticky-notes utility.
//!
//! Every note is backed by a persisted record holding its content, color,
//! on-screen geometry, pin flag and soft-delete (archive) status.  This crate
//! holds the verified state layer: the record store with its CRUD and
//! soft-delete semantics, the note entity with its construction defaults, and
//! the session logic that turns host window events into store mutations.
//! File persistence and the windowing host live outside the library.

pub mod laws;
pub mod order;
pub mod paths;
pub mod session;
pub mod sticker;
pub mod store;
