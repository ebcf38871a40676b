//! The executor: a script is a sequence of statements separated by `;`;
//! empty fragments are not statements. Statements run in order, and the
//! first rejected statement stops execution at once — the backing store has
//! no multi-statement transactions, so committed statements stay committed.

use vstd::prelude::*;
use crate::bytes::{copy_bytes, split_bytes, split_on, views, SEMI};
use crate::db::Database;
use crate::error::VagabondError;

verus! {

/// The non-empty fragments, in order.
pub open spec fn nonempty_of(frags: Seq<Seq<u8>>) -> Seq<Seq<u8>>
    decreases frags.len(),
{
    if frags.len() == 0 {
        Seq::empty()
    } else if frags.last().len() == 0 {
        nonempty_of(frags.drop_last())
    } else {
        nonempty_of(frags.drop_last()).push(frags.last())
    }
}

/// The statements of a script: the non-empty fragments of its split at `;`.
pub open spec fn statements_of(script: Seq<u8>) -> Seq<Seq<u8>> {
    nonempty_of(split_on(script, SEMI))
}

/// Appending a fragment appends it to the statements unless it is empty.
pub proof fn lemma_nonempty_push(frags: Seq<Seq<u8>>, x: Seq<u8>)
    ensures
        nonempty_of(frags.push(x)) == if x.len() == 0 {
            nonempty_of(frags)
        } else {
            nonempty_of(frags).push(x)
        },
{
    assert(frags.push(x).drop_last() =~~= frags);
    assert(frags.push(x).last() == x);
}

/// Splits a script into its statements.
pub fn split_statements(script: &Vec<u8>) -> (r: Vec<Vec<u8>>)
    ensures
        views(r@) == statements_of(script@),
{
    let frags = split_bytes(script, SEMI);
    let mut out: Vec<Vec<u8>> = Vec::new();
    let mut i: usize = 0;
    proof {
        assert(views(frags@).take(0) =~~= Seq::<Seq<u8>>::empty());
        assert(views(out@) =~~= nonempty_of(views(frags@).take(0)));
    }
    while i < frags.len()
        invariant
            0 <= i <= frags.len(),
            views(frags@) == split_on(script@, SEMI),
            views(out@) == nonempty_of(views(frags@).take(i as int)),
        decreases frags.len() - i,
    {
        let ghost pre = views(frags@).take(i as int);
        proof {
            assert(views(frags@).take(i + 1) =~~= pre.push(views(frags@)[i as int]));
            lemma_nonempty_push(pre, views(frags@)[i as int]);
        }
        if frags[i].len() > 0 {
            let stmt = copy_bytes(&frags[i]);
            let ghost prev = out@;
            out.push(stmt);
            proof {
                assert(prev.len() == views(prev).len());
                assert(views(out@) =~~= nonempty_of(pre).push(views(frags@)[i as int]));
            }
        }
        i += 1;
    }
    proof {
        assert(views(frags@).take(frags@.len() as int) =~~= views(frags@));
    }
    out
}

/// Whether the store accepts every statement of the script.
pub open spec fn script_ok(db0: Database, script: Seq<u8>) -> bool {
    forall|i: int| #![auto] 0 <= i < statements_of(script).len()
        ==> !db0.fails(statements_of(script)[i])
}

/// What a failed run leaves behind: some statement of the script is the
/// first one rejected; the error carries its exact text, and the log grew
/// by exactly the statements before it.
pub open spec fn failed_run(
    db0: Database,
    script: Seq<u8>,
    e: VagabondError,
    log0: Seq<Seq<u8>>,
    log1: Seq<Seq<u8>>,
) -> bool {
    exists|i: int| #![auto] 0 <= i < statements_of(script).len()
        && db0.fails(statements_of(script)[i])
        && (forall|j: int| #![auto] 0 <= j < i ==> !db0.fails(statements_of(script)[j]))
        && (e matches VagabondError::StatementFailed(s) && s@ == statements_of(script)[i])
        && log1 == log0 + statements_of(script).take(i)
}

/// Runs a script against the database: each statement in order, stopping at
/// the first one the store rejects. Statements already executed stay
/// committed — there is no transactional rollback, and the caller must warn
/// the operator that manual cleanup may be required. The error carries the
/// exact text of the failing statement.
pub fn run_script(db: &mut Database, script: &Vec<u8>) -> (r: Result<(), VagabondError>)
    ensures
        final(db).pointer == old(db).pointer,
        final(db).rejects == old(db).rejects,
        (r is Ok <==> script_ok(*old(db), script@)),
        r is Ok ==> final(db).log_view() == old(db).log_view() + statements_of(script@),
        r matches Err(e) ==> failed_run(
            *old(db),
            script@,
            e,
            old(db).log_view(),
            final(db).log_view(),
        ),
{
    let stmts = split_statements(script);
    let mut i: usize = 0;
    proof {
        assert(db.log_view() =~~= old(db).log_view() + views(stmts@).take(0));
    }
    while i < stmts.len()
        invariant
            0 <= i <= stmts.len(),
            views(stmts@) == statements_of(script@),
            db.pointer == old(db).pointer,
            db.rejects == old(db).rejects,
            forall|j: int| #![auto] 0 <= j < i ==> !old(db).fails(views(stmts@)[j]),
            db.log_view() == old(db).log_view() + views(stmts@).take(i as int),
        decreases stmts.len() - i,
    {
        let ghost before = *db;
        match db.execute(&stmts[i]) {
            Err(e) => {
                proof {
                    assert(before.fails(stmts@[i as int]@) == old(db).fails(
                        views(stmts@)[i as int]));
                    assert(db.log_view() =~~= old(db).log_view() + views(stmts@).take(i as int));
                }
                return Err(e);
            }
            Ok(()) => {
                proof {
                    assert(views(stmts@).take(i + 1)
                        =~~= views(stmts@).take(i as int).push(views(stmts@)[i as int]));
                    assert(db.log_view() =~~= old(db).log_view() + views(stmts@).take(i + 1));
                }
            }
        }
        i += 1;
    }
    proof {
        assert(views(stmts@).take(stmts@.len() as int) =~~= views(stmts@));
    }
    Ok(())
}

} // verus!
