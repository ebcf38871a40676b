//! The sequencer: the five operations over the registry, the store and the
//! database — status, apply, rollback, redo and delete — with their exact
//! pointer-protocol and failure semantics.
//!
//! Application is strictly sequential: an entry is applied exactly when its
//! registry index is at most the pointer's, so the applied entries are
//! always a prefix of the registry.

use vstd::prelude::*;
use crate::bytes::{
    copy_bytes, distinct, find_name, index_of_name, lemma_find_name, opt_view, views, Name,
};
use crate::db::Database;
use crate::error::VagabondError;
use crate::registry::{prune_lines, Registry};
use crate::script::{failed_run, run_script, script_ok, statements_of};
use crate::store::{prune_keeps, prune_units, Store};

verus! {

/// How many registry entries count as applied: none without a pointer,
/// else every entry up to and including the pointer's first occurrence.
/// A pointer naming no entry marks everything applied, as a scan that
/// never meets the pointer would.
pub open spec fn applied_count(names: Seq<Seq<u8>>, ptr: Option<Seq<u8>>) -> int {
    match ptr {
        None => 0,
        Some(p) => match find_name(names, p) {
            Some(i) => i + 1,
            None => names.len() as int,
        },
    }
}

/// The next migration to apply: the entry right after the applied prefix,
/// if there is one.
pub open spec fn next_name(names: Seq<Seq<u8>>, ptr: Option<Seq<u8>>) -> Option<Seq<u8>> {
    if applied_count(names, ptr) < names.len() {
        Some(names[applied_count(names, ptr)])
    } else {
        None
    }
}

/// Where the pointer moves when `current` is rolled back: the previous
/// entry, or cleared when `current` is the first. A pointer naming no
/// entry stays where it is.
pub open spec fn prev_pointer(names: Seq<Seq<u8>>, current: Seq<u8>) -> Option<Seq<u8>> {
    match find_name(names, current) {
        Some(i) => if i > 0 {
            Some(names[i - 1])
        } else {
            None
        },
        None => Some(current),
    }
}

/// The applied count lies between zero and the number of entries.
pub proof fn lemma_applied_count_bounds(names: Seq<Seq<u8>>, ptr: Option<Seq<u8>>)
    ensures
        0 <= applied_count(names, ptr) <= names.len(),
{
    match ptr {
        None => {},
        Some(p) => {
            lemma_find_name(names, p);
        },
    }
}

/// Computes the applied count.
pub fn compute_applied_count(names: &Vec<Name>, ptr: &Option<Name>) -> (r: usize)
    ensures
        r as int == applied_count(views(names@), opt_view(*ptr)),
        r <= names@.len(),
{
    proof {
        assert(views(names@).len() == names@.len());
    }
    let len = names.len();
    match ptr {
        None => 0,
        Some(p) => match index_of_name(names, p) {
            Some(i) => {
                proof {
                    lemma_find_name(views(names@), p@);
                    assert((i as int) < len as int);
                }
                i + 1
            },
            None => len,
        },
    }
}

/// Computes the next migration to apply, if any.
pub fn next_migration(names: &Vec<Name>, ptr: &Option<Name>) -> (r: Option<Name>)
    ensures
        opt_view(r) == next_name(views(names@), opt_view(*ptr)),
{
    let cnt = compute_applied_count(names, ptr);
    if cnt < names.len() {
        Some(copy_bytes(&names[cnt]))
    } else {
        None
    }
}

/// The derived status of one registry entry.
#[derive(Clone, Copy, PartialEq, Eq, Structural, Debug)]
pub enum MigrationStatus {
    Applied,
    Pending,
}

/// One run's whole state: the loaded registry, the migration directories,
/// and the database session.
pub struct Engine {
    pub registry: Registry,
    pub store: Store,
    pub db: Database,
}

impl Engine {
    /// Well-formed: registry and store are, and a set pointer names a
    /// registry entry.
    pub open spec fn wf(self) -> bool {
        &&& self.registry.wf()
        &&& self.store.wf()
        &&& (self.db.ptr() matches Some(p) ==> self.registry.names_view().contains(p))
    }

    /// The status of every registry entry, in registry order: applied
    /// exactly for the entries up to and including the pointer, pending for
    /// the rest — all pending when no pointer is set. Reads only; nothing
    /// changes.
    pub fn status(&self) -> (r: Vec<MigrationStatus>)
        ensures
            r@.len() == self.registry.names_view().len(),
            forall|i: int| #![auto] 0 <= i < r@.len() ==> r@[i] == (if i < applied_count(
                self.registry.names_view(),
                self.db.ptr(),
            ) {
                MigrationStatus::Applied
            } else {
                MigrationStatus::Pending
            }),
    {
        let cnt = compute_applied_count(&self.registry.names, &self.db.pointer);
        let mut r: Vec<MigrationStatus> = Vec::new();
        let mut i: usize = 0;
        while i < self.registry.names.len()
            invariant
                0 <= i <= self.registry.names@.len(),
                cnt as int == applied_count(self.registry.names_view(), self.db.ptr()),
                r@.len() == i,
                forall|j: int| #![auto] 0 <= j < i ==> r@[j] == (if j < cnt as int {
                    MigrationStatus::Applied
                } else {
                    MigrationStatus::Pending
                }),
            decreases self.registry.names@.len() - i,
        {
            if i < cnt {
                r.push(MigrationStatus::Applied);
            } else {
                r.push(MigrationStatus::Pending);
            }
            i += 1;
        }
        r
    }

    /// Applies the next migration: the first entry when no pointer is set,
    /// else the entry after the pointer; with no such entry nothing
    /// happens. Its up script runs before the pointer moves, so a script
    /// failure leaves the pointer unchanged and a retry re-attempts the
    /// same migration — though statements already committed by the failed
    /// attempt stay committed.
    pub fn apply(&mut self) -> (r: Result<Name, VagabondError>)
        requires
            old(self).wf(),
        ensures
            final(self).wf(),
            final(self).registry == old(self).registry,
            final(self).store == old(self).store,
            final(self).db.rejects == old(self).db.rejects,
            ({
                let names = old(self).registry.names_view();
                let ptr = old(self).db.ptr();
                match next_name(names, ptr) {
                    None => final(self).db == old(self).db
                        && (r matches Err(VagabondError::NoMigrationToApply)),
                    Some(n) => if !old(self).store.has(n) {
                        final(self).db == old(self).db
                            && (r matches Err(VagabondError::MissingDirectory(m)) && m@ == n)
                    } else if script_ok(old(self).db, old(self).store.up_of(n)) {
                        &&& (r matches Ok(m) && m@ == n)
                        &&& final(self).db.ptr() == Some(n)
                        &&& final(self).db.log_view() == old(self).db.log_view()
                            + statements_of(old(self).store.up_of(n))
                    } else {
                        &&& final(self).db.ptr() == old(self).db.ptr()
                        &&& (r matches Err(e) && failed_run(
                            old(self).db,
                            old(self).store.up_of(n),
                            e,
                            old(self).db.log_view(),
                            final(self).db.log_view(),
                        ))
                    },
                }
            }),
    {
        let nxt = next_migration(&self.registry.names, &self.db.pointer);
        let n: Name = match nxt {
            None => {
                return Err(VagabondError::NoMigrationToApply);
            },
            Some(n) => n,
        };
        proof {
            let names = old(self).registry.names_view();
            let ptr0 = old(self).db.ptr();
            lemma_applied_count_bounds(names, ptr0);
            assert(next_name(names, ptr0) == Some(n@));
            assert(applied_count(names, ptr0) < names.len());
            assert(n@ == names[applied_count(names, ptr0)]);
        }
        let up = match self.store.read_up(&n) {
            Ok(u) => u,
            Err(e) => {
                return Err(e);
            },
        };
        match run_script(&mut self.db, &up) {
            Ok(()) => {},
            Err(e) => {
                return Err(e);
            },
        }
        self.db.set_pointer(&n);
        proof {
            let names = old(self).registry.names_view();
            let cnt = applied_count(names, old(self).db.ptr());
            lemma_applied_count_bounds(names, old(self).db.ptr());
            assert(n@ == names[cnt]);
            assert(names.contains(n@)) by {
                assert(names[cnt] == n@);
            }
        }
        Ok(n)
    }

    /// Rolls back the current migration: its down script runs, then the
    /// pointer moves to the previous registry entry — or is cleared when
    /// the current entry is the first. With no pointer set nothing
    /// happens. A script failure leaves the pointer unchanged.
    pub fn rollback(&mut self) -> (r: Result<Name, VagabondError>)
        requires
            old(self).wf(),
        ensures
            final(self).wf(),
            final(self).registry == old(self).registry,
            final(self).store == old(self).store,
            final(self).db.rejects == old(self).db.rejects,
            old(self).db.ptr() is None ==> final(self).db == old(self).db
                && (r matches Err(VagabondError::NothingToRollBack)),
            ({
                let names = old(self).registry.names_view();
                old(self).db.ptr() matches Some(cur) ==> if !old(self).store.has(cur) {
                    final(self).db == old(self).db
                        && (r matches Err(VagabondError::MissingDirectory(m)) && m@ == cur)
                } else if script_ok(old(self).db, old(self).store.down_of(cur)) {
                    &&& (r matches Ok(m) && m@ == cur)
                    &&& final(self).db.ptr() == prev_pointer(names, cur)
                    &&& final(self).db.log_view() == old(self).db.log_view()
                        + statements_of(old(self).store.down_of(cur))
                } else {
                    &&& final(self).db.ptr() == old(self).db.ptr()
                    &&& (r matches Err(e) && failed_run(
                        old(self).db,
                        old(self).store.down_of(cur),
                        e,
                        old(self).db.log_view(),
                        final(self).db.log_view(),
                    ))
                }
            }),
    {
        let cur: Name = match &self.db.pointer {
            None => {
                return Err(VagabondError::NothingToRollBack);
            },
            Some(p) => copy_bytes(p),
        };
        let down = match self.store.read_down(&cur) {
            Ok(d) => d,
            Err(e) => {
                return Err(e);
            },
        };
        match run_script(&mut self.db, &down) {
            Ok(()) => {},
            Err(e) => {
                return Err(e);
            },
        }
        proof {
            lemma_find_name(self.registry.names_view(), cur@);
        }
        match index_of_name(&self.registry.names, &cur) {
            Some(i) => {
                if i > 0 {
                    let prev = copy_bytes(&self.registry.names[i - 1]);
                    self.db.set_pointer(&prev);
                    proof {
                        let names = self.registry.names_view();
                        assert(names.contains(names[i - 1])) by {
                            assert(names[i - 1] == names[i - 1]);
                        }
                    }
                } else {
                    self.db.clear_pointer();
                }
            },
            None => {},
        }
        Ok(cur)
    }

    /// Undoes and re-applies the current migration: its down script runs,
    /// then its up script. The pointer is never touched — it is correct
    /// before and after, so the externally observable pointer state is
    /// that of doing nothing, even though both scripts executed. With no
    /// pointer set nothing happens.
    pub fn redo(&mut self) -> (r: Result<Name, VagabondError>)
        requires
            old(self).wf(),
        ensures
            final(self).wf(),
            final(self).registry == old(self).registry,
            final(self).store == old(self).store,
            final(self).db.rejects == old(self).db.rejects,
            final(self).db.ptr() == old(self).db.ptr(),
            old(self).db.ptr() is None ==> final(self).db == old(self).db
                && (r matches Err(VagabondError::NothingToRedo)),
            ({
                let down = statements_of(old(self).store.down_of(old(self).db.ptr().unwrap()));
                let up = statements_of(old(self).store.up_of(old(self).db.ptr().unwrap()));
                old(self).db.ptr() matches Some(cur) ==> if !old(self).store.has(cur) {
                    final(self).db == old(self).db
                        && (r matches Err(VagabondError::MissingDirectory(m)) && m@ == cur)
                } else if !script_ok(old(self).db, old(self).store.down_of(cur)) {
                    &&& (r matches Err(e) && failed_run(
                        old(self).db,
                        old(self).store.down_of(cur),
                        e,
                        old(self).db.log_view(),
                        final(self).db.log_view(),
                    ))
                } else if !script_ok(old(self).db, old(self).store.up_of(cur)) {
                    &&& (r matches Err(e) && failed_run(
                        old(self).db,
                        old(self).store.up_of(cur),
                        e,
                        old(self).db.log_view() + down,
                        final(self).db.log_view(),
                    ))
                } else {
                    &&& (r matches Ok(m) && m@ == cur)
                    &&& final(self).db.log_view() == old(self).db.log_view() + down + up
                }
            }),
    {
        let cur: Name = match &self.db.pointer {
            None => {
                return Err(VagabondError::NothingToRedo);
            },
            Some(p) => copy_bytes(p),
        };
        let down = match self.store.read_down(&cur) {
            Ok(d) => d,
            Err(e) => {
                return Err(e);
            },
        };
        let up = match self.store.read_up(&cur) {
            Ok(u) => u,
            Err(e) => {
                return Err(e);
            },
        };
        match run_script(&mut self.db, &down) {
            Ok(()) => {},
            Err(e) => {
                return Err(e);
            },
        }
        match run_script(&mut self.db, &up) {
            Ok(()) => {},
            Err(e) => {
                return Err(e);
            },
        }
        Ok(cur)
    }

    /// Prunes the unapplied suffix: every pending entry's directory is
    /// removed, in registry order, and the pending names are stripped from
    /// the manifest. Applied entries and the pointer are untouched. With no
    /// pointer set every entry is pending: all directories go and the
    /// registry is left empty. A pending entry without a directory is
    /// fatal; directories already removed stay removed, and the manifest is
    /// then left unwritten.
    pub fn delete(&mut self) -> (r: Result<(), VagabondError>)
        requires
            old(self).wf(),
        ensures
            final(self).wf(),
            final(self).db == old(self).db,
            ({
                let names = old(self).registry.names_view();
                let cnt = applied_count(names, old(self).db.ptr());
                &&& (r is Ok <==> (forall|j: int| #![auto] cnt <= j < names.len()
                    ==> old(self).store.has(names[j])))
                &&& r is Ok ==> {
                    &&& final(self).registry.names_view() == names.take(cnt)
                    &&& final(self).registry.lines_view() == prune_lines(
                        old(self).registry.lines_view(),
                        cnt,
                    )
                    &&& final(self).store.units_view() == prune_units(
                        old(self).store.units_view(),
                        names.skip(cnt),
                    )
                }
                &&& r matches Err(e) ==> final(self).registry == old(self).registry
                    && (exists|j: int| #![auto] cnt <= j < names.len()
                        && !old(self).store.has(names[j])
                        && (forall|k: int| #![auto] cnt <= k < j ==> old(self).store.has(names[k]))
                        && (e matches VagabondError::MissingDirectory(m) && m@ == names[j])
                        && final(self).store.units_view() == prune_units(
                            old(self).store.units_view(),
                            names.subrange(cnt, j),
                        ))
            }),
    {
        let ghost names = old(self).registry.names_view();
        let cnt = compute_applied_count(&self.registry.names, &self.db.pointer);
        let mut k: usize = cnt;
        proof {
            assert(names.subrange(cnt as int, cnt as int) =~~= Seq::<Seq<u8>>::empty());
            crate::store::lemma_prune_units_nil(old(self).store.units_view());
        }
        while k < self.registry.names.len()
            invariant
                cnt <= k <= names.len(),
                cnt as int == applied_count(names, old(self).db.ptr()),
                names.len() == self.registry.names@.len(),
                self.registry == old(self).registry,
                self.db == old(self).db,
                old(self).wf(),
                names == old(self).registry.names_view(),
                self.store.wf(),
                self.store.units_view() == prune_units(
                    old(self).store.units_view(),
                    names.subrange(cnt as int, k as int),
                ),
                forall|j: int| #![auto] cnt <= j < k ==> old(self).store.has(names[j]),
            decreases self.registry.names@.len() - k,
        {
            let nm = copy_bytes(&self.registry.names[k]);
            let ghost gone = names.subrange(cnt as int, k as int);
            proof {
                assert(nm@ == names[k as int]);
                assert(!gone.contains(nm@)) by {
                    if gone.contains(nm@) {
                        let w = choose|w: int| 0 <= w < gone.len() && gone[w] == nm@;
                        assert(names[cnt + w] == names[k as int]);
                    }
                }
                crate::store::lemma_prune_units_facts(old(self).store.units_view(), gone);
                assert(prune_keeps(old(self).store.units_view(), gone, nm@));
            }
            match self.store.remove(&nm) {
                Err(e) => {
                    proof {
                        assert(!old(self).store.has(names[k as int]));
                    }
                    return Err(e);
                },
                Ok(()) => {
                    proof {
                        assert(old(self).store.has(names[k as int]));
                        crate::store::lemma_prune_units_chain(
                            old(self).store.units_view(),
                            gone,
                            nm@,
                        );
                        assert(names.subrange(cnt as int, k + 1) =~~= gone.push(nm@));
                    }
                },
            }
            k += 1;
        }
        proof {
            assert(names.subrange(cnt as int, names.len() as int) =~~= names.skip(cnt as int));
        }
        self.registry.remove_trailing(cnt);
        proof {
            match old(self).db.ptr() {
                Some(p) => {
                    lemma_find_name(names, p);
                    match find_name(names, p) {
                        Some(i) => {
                            assert(self.registry.names_view()[i] == p);
                            assert(self.registry.names_view().contains(p));
                        },
                        None => {
                            assert(names.take(cnt as int) =~~= names);
                        },
                    }
                },
                None => {},
            }
        }
        Ok(())
    }
}

/// One applied step advances the applied prefix by exactly one entry: the
/// newly applied entry stands right after the old prefix, and after the
/// pointer moves there, the applied entries are the old ones plus it — so
/// a status read then marks exactly the applied entry and all its
/// predecessors applied, the rest pending.
pub proof fn lemma_apply_then_status(names: Seq<Seq<u8>>, ptr: Option<Seq<u8>>)
    requires
        distinct(names),
        ptr matches Some(p) ==> names.contains(p),
        next_name(names, ptr) is Some,
    ensures
        find_name(names, next_name(names, ptr).unwrap()) == Some(applied_count(names, ptr)),
        applied_count(names, next_name(names, ptr)) == applied_count(names, ptr) + 1,
{
    let cnt = applied_count(names, ptr);
    let n = next_name(names, ptr).unwrap();
    match ptr {
        None => {},
        Some(p) => {
            lemma_find_name(names, p);
        },
    }
    assert(0 <= cnt < names.len());
    assert(n == names[cnt]);
    lemma_find_name(names, n);
    match find_name(names, n) {
        Some(i) => {
            assert(names[i] == names[cnt]);
            assert(i <= cnt);
            if i < cnt {
                assert(names[i] != names[cnt]);
            }
        },
        None => {
            assert(names.contains(n)) by {
                assert(names[cnt] == n);
            }
        },
    }
}

/// Rolling back right after an apply restores the pointer to its pre-apply
/// value: the previous entry of the newly applied one is exactly the old
/// pointer — the entry before it, or nothing when it was the first.
pub proof fn lemma_apply_then_rollback(names: Seq<Seq<u8>>, ptr: Option<Seq<u8>>)
    requires
        distinct(names),
        ptr matches Some(p) ==> names.contains(p),
        next_name(names, ptr) is Some,
    ensures
        prev_pointer(names, next_name(names, ptr).unwrap()) == ptr,
{
    let cnt = applied_count(names, ptr);
    let n = next_name(names, ptr).unwrap();
    lemma_apply_then_status(names, ptr);
    assert(find_name(names, n) == Some(cnt));
    match ptr {
        None => {
            assert(cnt == 0);
        },
        Some(p) => {
            lemma_find_name(names, p);
            match find_name(names, p) {
                Some(i) => {
                    assert(cnt == i + 1);
                    assert(names[cnt - 1] == p);
                },
                None => {
                    assert(cnt == names.len());
                },
            }
        },
    }
}

} // verus!
