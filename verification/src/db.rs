//! The backing database, modeled as a value: the tracking table's sole row
//! (the current pointer), and the log of every statement whose effects are
//! committed. Which statement the store would reject is part of the model,
//! so that statement-failure semantics can be stated and exercised.

use vstd::prelude::*;
use crate::bytes::{bytes_eq, copy_bytes, opt_view, views, Name};
use crate::error::VagabondError;

verus! {

/// One database session's observable state.
pub struct Database {
    /// The sole row of the tracking table: the most recently applied
    /// migration, or `None` when the table is empty.
    pub pointer: Option<Name>,
    /// Every statement executed so far, in order; their effects are
    /// committed and are never undone.
    pub log: Vec<Vec<u8>>,
    /// The statement text the store rejects, if any.
    pub rejects: Option<Vec<u8>>,
}

impl Database {
    /// The current pointer.
    pub open spec fn ptr(self) -> Option<Seq<u8>> {
        opt_view(self.pointer)
    }

    /// The committed statements, in execution order.
    pub open spec fn log_view(self) -> Seq<Seq<u8>> {
        views(self.log@)
    }

    /// The rejected statement text, if any.
    pub open spec fn rejects_view(self) -> Option<Seq<u8>> {
        opt_view(self.rejects)
    }

    /// Whether the store rejects `stmt`.
    pub open spec fn fails(self, stmt: Seq<u8>) -> bool {
        self.rejects_view() == Some(stmt)
    }

    /// A fresh session: empty tracking table, nothing executed, nothing
    /// rejected.
    pub fn new() -> (r: Database)
        ensures
            r.ptr() == None::<Seq<u8>>,
            r.log_view() == Seq::<Seq<u8>>::empty(),
            r.rejects_view() == None::<Seq<u8>>,
    {
        let r = Database { pointer: None, log: Vec::new(), rejects: None };
        proof {
            assert(r.log_view() =~~= Seq::<Seq<u8>>::empty());
        }
        r
    }

    /// Executes one statement. Its effects are committed, unless the store
    /// rejects it: then nothing changes, and the error carries the exact
    /// statement text so the operator can reconcile state by hand.
    pub fn execute(&mut self, stmt: &Vec<u8>) -> (r: Result<(), VagabondError>)
        ensures
            final(self).pointer == old(self).pointer,
            final(self).rejects == old(self).rejects,
            old(self).fails(stmt@) ==> final(self).log_view() == old(self).log_view()
                && (r matches Err(VagabondError::StatementFailed(s)) && s@ == stmt@),
            !old(self).fails(stmt@) ==> r is Ok
                && final(self).log_view() == old(self).log_view().push(stmt@),
    {
        let rejected = match &self.rejects {
            Some(f) => bytes_eq(f, stmt),
            None => false,
        };
        if rejected {
            return Err(VagabondError::StatementFailed(copy_bytes(stmt)));
        }
        let entry = copy_bytes(stmt);
        let ghost prev = self.log@;
        self.log.push(entry);
        proof {
            assert(prev.len() == views(prev).len());
            assert(self.log_view() =~~= old(self).log_view().push(stmt@));
        }
        Ok(())
    }

    /// Reads the tracking table: the current pointer, or `None` when the
    /// table is empty.
    pub fn get_pointer(&self) -> (r: Option<&Name>)
        ensures
            match r {
                Some(n) => self.ptr() == Some(n@),
                None => self.ptr() == None::<Seq<u8>>,
            },
    {
        match &self.pointer {
            Some(n) => Some(n),
            None => None,
        }
    }

    /// Empties the tracking table.
    pub fn clear_pointer(&mut self)
        ensures
            final(self).ptr() == None::<Seq<u8>>,
            final(self).log == old(self).log,
            final(self).rejects == old(self).rejects,
    {
        self.pointer = None;
    }

    /// Makes `name` the sole tracking row: the table is emptied first, then
    /// the row inserted — two steps, not one atomic write. A crash between
    /// them leaves an empty pointer, read as "nothing applied", the safer
    /// of the two failure directions.
    pub fn set_pointer(&mut self, name: &Name)
        ensures
            final(self).ptr() == Some(name@),
            final(self).log == old(self).log,
            final(self).rejects == old(self).rejects,
    {
        self.clear_pointer();
        self.pointer = Some(copy_bytes(name));
    }
}

} // verus!
