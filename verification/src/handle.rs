use vstd::prelude::*;
use vstd::rwlock::{RwLock, RwLockPredicate};
use crate::types::{Datum, DatumV};
use crate::column::{Column, ColumnV, count_valid, sum_of};
use crate::table::{Table, spec_height, sorted_permutation_of, name_missing, frames_match};
use crate::EngineError;

verus! {

/// The invariant the lock maintains: only well-formed tables are stored.
pub struct TablePred {
    pub ok: bool,
}

impl RwLockPredicate<Table> for TablePred {
    open spec fn inv(self, t: Table) -> bool {
        t.wf()
    }
}

/// What a sum over one named column of some table yields, for every
/// outcome: the exact sum under `Ok`, each error tied to its cause.
pub open spec fn sum_outcome(
    tv: Seq<ColumnV>,
    name: Seq<char>,
    r: Result<Option<Datum>, EngineError>,
) -> bool {
    match r {
        Ok(c) => exists|i: int| {
            &&& 0 <= i < tv.len()
            &&& (#[trigger] tv[i]).name == name
            &&& crate::arith::numeric_dtype(tv[i].dtype)
            &&& (c is None <==> count_valid(tv[i].cells) == 0)
            &&& (c matches Some(v) ==> v@ == DatumV::Sc(crate::arith::mk_num(
                crate::arith::promote(tv[i].dtype, tv[i].dtype),
                sum_of(tv[i].cells),
            )))
        },
        Err(e) => {
            ||| (e == EngineError::NotFound && name_missing(tv, name))
            ||| (e == EngineError::TypeMismatch && exists|i: int| 0 <= i < tv.len()
                && (#[trigger] tv[i]).name == name
                && !crate::arith::numeric_dtype(tv[i].dtype))
            ||| (e == EngineError::CastError && exists|i: int| 0 <= i < tv.len()
                && (#[trigger] tv[i]).name == name
                && !crate::arith::in_range(
                    crate::arith::promote(tv[i].dtype, tv[i].dtype),
                    sum_of(tv[i].cells),
                ))
        },
    }
}

/// What an in-place sort of some table yields, for every outcome.
pub open spec fn sort_outcome(
    prev: Seq<ColumnV>,
    postv: Seq<ColumnV>,
    by: Seq<char>,
    reverse: bool,
    r: Result<(), EngineError>,
) -> bool {
    match r {
        Ok(()) => exists|ci: int, idx: Seq<usize>|
            #[trigger] sorted_permutation_of(prev, postv, ci, reverse, idx)
                && 0 <= ci < prev.len() && prev[ci].name == by,
        Err(e) => {
            &&& postv == prev
            &&& ({
                ||| (e == EngineError::NotFound && name_missing(prev, by))
                ||| (e == EngineError::TypeMismatch && exists|i: int| 0 <= i < prev.len()
                    && (#[trigger] prev[i]).name == by
                    && !crate::order::sortable_dtype(prev[i].dtype))
            })
        },
    }
}

/// What appending one table's rows to another yields, for every outcome.
pub open spec fn vstack_outcome(
    prev: Seq<ColumnV>,
    otherv: Seq<ColumnV>,
    postv: Seq<ColumnV>,
    r: Result<(), EngineError>,
) -> bool {
    match r {
        Ok(()) => {
            &&& postv.len() == prev.len()
            &&& prev.len() == otherv.len()
            &&& forall|i: int| 0 <= i < prev.len()
                ==> #[trigger] postv[i] == (ColumnV {
                    cells: prev[i].cells + otherv[i].cells,
                    ..prev[i]
                })
        },
        Err(e) => {
            &&& e == EngineError::SchemaMismatch
            &&& postv == prev
            &&& !(otherv.len() == prev.len()
                && forall|i: int| 0 <= i < prev.len()
                    ==> (#[trigger] otherv[i]).name == prev[i].name
                        && otherv[i].dtype == prev[i].dtype)
        },
    }
}

/// What removing one named column in place yields, for every outcome.
pub open spec fn drop_outcome(
    prev: Seq<ColumnV>,
    postv: Seq<ColumnV>,
    name: Seq<char>,
    r: Result<Column, EngineError>,
) -> bool {
    match r {
        Ok(c) => exists|i: int| 0 <= i < prev.len()
            && (#[trigger] prev[i]).name == name
            && c@ == prev[i]
            && postv == prev.remove(i),
        Err(e) => {
            &&& e == EngineError::NotFound
            &&& postv == prev
            &&& name_missing(prev, name)
        },
    }
}

/// The concurrency wrapper the boundary holds: one table behind a
/// reader-writer lock. Any number of read-only operations may proceed at
/// once; an in-place mutation takes the exclusive side, and the lock keeps
/// the two apart. Every acquisition below releases on every path, and a
/// writer hands back a well-formed table, so a later reader never sees a
/// torn one. Concurrent readers all borrow one table value
/// (`vstd::rwlock::ReadHandle::lemma_readers_match`), and every read
/// result below is pinned to that value by its outcome predicate, so
/// concurrent read-only callers agree with a single-threaded run.
pub struct SharedTableHandle {
    lock: RwLock<Table, TablePred>,
}

impl SharedTableHandle {
    /// Wraps a table for shared use.
    pub fn new(t: Table) -> (r: SharedTableHandle)
        requires
            t.wf(),
    {
        SharedTableHandle { lock: RwLock::new(t, Ghost(TablePred { ok: true })) }
    }

    /// The row count of the table held at the time of the read lock.
    pub fn height(&self) -> (r: usize)
        ensures
            exists|t: Table| t.wf() && r == spec_height(t@),
    {
        let handle = self.lock.acquire_read();
        let tref = handle.borrow();
        let n = tref.height();
        proof {
            let tt = *tref;
            assert(tt.wf() && n == spec_height(tt@));
        }
        handle.release_read();
        n
    }

    /// The column count of the table held at the time of the read lock.
    pub fn width(&self) -> (r: usize)
        ensures
            exists|t: Table| t.wf() && r == t@.len(),
    {
        let handle = self.lock.acquire_read();
        let tref = handle.borrow();
        let n = tref.width();
        proof {
            let tt = *tref;
            assert(tt.wf() && n == tt@.len());
        }
        handle.release_read();
        n
    }

    /// A deep copy of the table held at the time of the read lock.
    pub fn snapshot(&self) -> (r: Table)
        ensures
            r.wf(),
    {
        let handle = self.lock.acquire_read();
        let t = handle.borrow().duplicate();
        handle.release_read();
        t
    }

    /// The named column's sum over the table held at the time of the read
    /// lock, exactly as `Table::column` and `Column::sum` state it.
    pub fn column_sum(&self, name: &str) -> (r: Result<Option<Datum>, EngineError>)
        ensures
            exists|t: Table| t.wf() && #[trigger] sum_outcome(t@, name@, r),
    {
        let handle = self.lock.acquire_read();
        let tref = handle.borrow();
        let out = match tref.column(name) {
            Ok(c) => c.sum(),
            Err(e) => Err(e),
        };
        proof {
            let tt = *tref;
            assert(sum_outcome(tt@, name@, out)) by {
                match out {
                    Ok(_) => {},
                    Err(e) => {},
                }
            }
        }
        handle.release_read();
        out
    }

    /// Sorts the held table in place under the exclusive write lock,
    /// exactly as `Table::sort_in_place` states it; on error the table is
    /// put back unchanged.
    pub fn sort_in_place(&self, by_column: &str, reverse: bool) -> (r: Result<(), EngineError>)
        ensures
            exists|pre: Table, post: Table| pre.wf() && post.wf()
                && #[trigger] sort_outcome(pre@, post@, by_column@, reverse, r),
    {
        let (mut t, write_handle) = self.lock.acquire_write();
        let ghost pre = t;
        let out = t.sort_in_place(by_column, reverse);
        proof {
            let post = t;
            assert(sort_outcome(pre@, post@, by_column@, reverse, out));
        }
        write_handle.release_write(t);
        out
    }

    /// Appends the other handle's rows, taking this handle's write lock and
    /// the other's read lock together, exactly as `Table::vstack_mut`
    /// states it; on error the table is put back unchanged.
    pub fn vstack_mut(&self, other: &SharedTableHandle) -> (r: Result<(), EngineError>)
        ensures
            exists|pre: Table, oth: Table, post: Table| pre.wf() && oth.wf() && post.wf()
                && #[trigger] vstack_outcome(pre@, oth@, post@, r),
    {
        let (mut t, write_handle) = self.lock.acquire_write();
        let ghost pre = t;
        let rh = other.lock.acquire_read();
        let oref = rh.borrow();
        let out = t.vstack_mut(oref);
        proof {
            let oth = *oref;
            let post = t;
            assert(vstack_outcome(pre@, oth@, post@, out));
        }
        rh.release_read();
        write_handle.release_write(t);
        out
    }

    /// Whether the two handles' tables, both read locks held, agree in
    /// column order, names, types and cells.
    pub fn frame_equal(&self, other: &SharedTableHandle, null_equal: bool) -> (r: bool)
        ensures
            exists|t1: Table, t2: Table| t1.wf() && t2.wf()
                && r == #[trigger] frames_match(t1@, t2@, null_equal),
    {
        let h1 = self.lock.acquire_read();
        let h2 = other.lock.acquire_read();
        let r1 = h1.borrow();
        let r2 = h2.borrow();
        let r = r1.frame_equal(r2, null_equal);
        proof {
            let t1 = *r1;
            let t2 = *r2;
            assert(r == frames_match(t1@, t2@, null_equal));
        }
        h2.release_read();
        h1.release_read();
        r
    }

    /// Removes the named column in place under the write lock, exactly as
    /// `Table::drop_in_place` states it.
    pub fn drop_in_place(&self, name: &str) -> (r: Result<Column, EngineError>)
        ensures
            r matches Ok(c) ==> c.wf(),
            exists|pre: Table, post: Table| pre.wf() && post.wf()
                && #[trigger] drop_outcome(pre@, post@, name@, r),
    {
        let (mut t, write_handle) = self.lock.acquire_write();
        let ghost pre = t;
        let out = t.drop_in_place(name);
        proof {
            let post = t;
            assert(drop_outcome(pre@, post@, name@, out));
        }
        write_handle.release_write(t);
        out
    }
}

} // verus!
