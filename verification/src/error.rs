//! The failure taxonomy. Every failure is fatal to the operation that hit
//! it: nothing is retried, and partial effects already committed are never
//! undone automatically.

use vstd::prelude::*;

verus! {

/// One distinct variant per failure case, so a caller can report each with
/// its own message.
#[derive(Debug)]
pub enum VagabondError {
    /// A migration name occurs twice: in the manifest, or handed to a
    /// registry append that already holds it. Holds the offending name.
    DuplicateName(Vec<u8>),
    /// A directory was to be created for a name that already has one.
    DirectoryExists(Vec<u8>),
    /// A script read or a removal was asked of a name with no directory.
    MissingDirectory(Vec<u8>),
    /// The database rejected a statement. Holds the exact statement text, so
    /// the operator can reconcile already-committed effects by hand.
    StatementFailed(Vec<u8>),
    /// There is no entry after the current pointer, or the registry is empty.
    NoMigrationToApply,
    /// A rollback was asked while no pointer is set.
    NothingToRollBack,
    /// A redo was asked while no pointer is set.
    NothingToRedo,
}

} // verus!
