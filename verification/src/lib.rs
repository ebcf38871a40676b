//! Core of a schema-migration sequencing tool for a wide-column database.
//!
//! The library holds the verified logic: the ordered registry of migration
//! names and its manifest format, the splitting of scripts into statements,
//! the current-pointer protocol, and the apply / rollback / redo / delete /
//! status transitions with their failure semantics. File and database I/O
//! live outside the library; callers hand in plain values and perform the
//! effects that the contracts here describe.

pub mod auth;
pub mod bytes;
pub mod db;
pub mod engine;
pub mod error;
pub mod registry;
pub mod script;
pub mod store;
