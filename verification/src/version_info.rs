//! Insert/delete visibility of rows under MVCC.
//!
//! Each vector of 1024 rows records which transactions inserted and deleted
//! which of its rows. A row is invisible at a snapshot once a transaction
//! that committed at or before the snapshot deleted it; otherwise a row with
//! an insert record is visible when its inserting transaction committed at
//! or before the snapshot, and a row without one is pre-existing data.

use std::collections::HashMap;
use vstd::prelude::*;
use vstd::std_specs::iter::IteratorSpec;

verus! {

/// Rows per vector.
pub const VERSION_VECTOR_SIZE: u32 = 1024;

/// Whether `txn` committed at or before `ts`, by the first entry for `txn`
/// in a `(txn_id, commit_ts)` history; a transaction absent from the
/// history has not committed.
pub open spec fn committed_before(txn: u64, ts: u64, history: Seq<(u64, u64)>) -> bool
    decreases history.len(),
{
    if history.len() == 0 {
        false
    } else if history[0].0 == txn {
        history[0].1 <= ts
    } else {
        committed_before(txn, ts, history.drop_first())
    }
}

/// The rows each transaction recorded, by transaction id.
pub open spec fn rows_by_txn(m: Map<u64, Vec<u32>>) -> Map<u64, Seq<u32>> {
    m.map_values(|v: Vec<u32>| v@)
}

/// `rows` after appending `row` to the list of `txn` (created empty).
pub open spec fn record(rows: Map<u64, Seq<u32>>, txn: u64, row: u32) -> Map<u64, Seq<u32>> {
    let prior = if rows.contains_key(txn) { rows[txn] } else { Seq::empty() };
    rows.insert(txn, prior.push(row))
}

/// Some transaction that committed by `ts` recorded `row` in `rows`.
pub open spec fn recorded_by_committed(
    rows: Map<u64, Seq<u32>>,
    row: u32,
    ts: u64,
    history: Seq<(u64, u64)>,
) -> bool {
    exists|t: u64| #[trigger]
        rows.contains_key(t) && rows[t].contains(row) && committed_before(t, ts, history)
}

/// Some transaction recorded `row` in `rows`.
pub open spec fn recorded(rows: Map<u64, Seq<u32>>, row: u32) -> bool {
    exists|t: u64| #[trigger] rows.contains_key(t) && rows[t].contains(row)
}

/// What `is_visible` may answer for `row` at `ts`, given the insert and
/// delete records. When several transactions inserted the row, the answer
/// follows one of them.
pub open spec fn visible_outcome(
    inserted: Map<u64, Seq<u32>>,
    deleted: Map<u64, Seq<u32>>,
    row: u32,
    ts: u64,
    history: Seq<(u64, u64)>,
    r: bool,
) -> bool {
    if recorded_by_committed(deleted, row, ts, history) {
        !r
    } else if !recorded(inserted, row) {
        r
    } else {
        exists|t: u64| #[trigger]
            inserted.contains_key(t) && inserted[t].contains(row) && r == committed_before(
                t,
                ts,
                history,
            )
    }
}

/// Whether `txn_id` committed at or before `snapshot_ts` according to
/// `commit_history`.
pub fn is_txn_committed_before(txn_id: u64, snapshot_ts: u64, commit_history: &[(u64, u64)]) -> (r:
    bool)
    ensures
        r == committed_before(txn_id, snapshot_ts, commit_history@),
{
    let mut i: usize = 0;
    proof {
        assert(commit_history@.subrange(0, commit_history@.len() as int) =~= commit_history@);
    }
    while i < commit_history.len()
        invariant
            i <= commit_history@.len(),
            committed_before(txn_id, snapshot_ts, commit_history@) == committed_before(
                txn_id,
                snapshot_ts,
                commit_history@.subrange(i as int, commit_history@.len() as int),
            ),
        decreases commit_history@.len() - i,
    {
        let (id, commit_ts) = commit_history[i];
        let ghost rest = commit_history@.subrange(i as int, commit_history@.len() as int);
        proof {
            assert(rest[0] == (id, commit_ts));
            assert(rest.drop_first() =~= commit_history@.subrange(
                i + 1,
                commit_history@.len() as int,
            ));
        }
        if id == txn_id {
            return commit_ts <= snapshot_ts;
        }
        i = i + 1;
    }
    proof {
        assert(commit_history@.subrange(i as int, commit_history@.len() as int).len() == 0);
    }
    false
}

fn vec_contains(v: &Vec<u32>, x: u32) -> (r: bool)
    ensures
        r == v@.contains(x),
{
    let mut i: usize = 0;
    while i < v.len()
        invariant
            i <= v@.len(),
            forall|j: int| 0 <= j < i ==> v@[j] != x,
        decreases v@.len() - i,
    {
        if v[i] == x {
            return true;
        }
        i = i + 1;
    }
    false
}

/// Insert and delete records of one vector of rows.
pub struct VectorVersionInfo {
    inserted: HashMap<u64, Vec<u32>>,
    deleted: HashMap<u64, Vec<u32>>,
}

impl VectorVersionInfo {
    /// Rows inserted by each transaction.
    pub closed spec fn inserted_rows(&self) -> Map<u64, Seq<u32>> {
        rows_by_txn(self.inserted@)
    }

    /// Rows deleted by each transaction.
    pub closed spec fn deleted_rows(&self) -> Map<u64, Seq<u32>> {
        rows_by_txn(self.deleted@)
    }

    /// No records.
    pub fn new() -> (v: Self)
        ensures
            v.inserted_rows() == Map::<u64, Seq<u32>>::empty(),
            v.deleted_rows() == Map::<u64, Seq<u32>>::empty(),
    {
        let v = VectorVersionInfo { inserted: HashMap::new(), deleted: HashMap::new() };
        proof {
            assert(v.inserted_rows() =~= Map::<u64, Seq<u32>>::empty());
            assert(v.deleted_rows() =~= Map::<u64, Seq<u32>>::empty());
        }
        v
    }

    /// Record that `txn_id` inserted the row at `row_in_vector`.
    pub fn insert(&mut self, txn_id: u64, row_in_vector: u32)
        ensures
            final(self).inserted_rows() == record(old(self).inserted_rows(), txn_id, row_in_vector),
            final(self).deleted_rows() == old(self).deleted_rows(),
    {
        let ghost before = self.inserted@;
        self.inserted.entry(txn_id).or_insert(Vec::new()).push(row_in_vector);
        proof {
            assert(rows_by_txn(self.inserted@) =~= record(rows_by_txn(before), txn_id, row_in_vector));
        }
    }

    /// Record that `txn_id` deleted the row at `row_in_vector`.
    pub fn delete(&mut self, txn_id: u64, row_in_vector: u32)
        ensures
            final(self).deleted_rows() == record(old(self).deleted_rows(), txn_id, row_in_vector),
            final(self).inserted_rows() == old(self).inserted_rows(),
    {
        let ghost before = self.deleted@;
        self.deleted.entry(txn_id).or_insert(Vec::new()).push(row_in_vector);
        proof {
            assert(rows_by_txn(self.deleted@) =~= record(rows_by_txn(before), txn_id, row_in_vector));
        }
    }

    /// Number of distinct transactions that inserted rows.
    pub fn num_inserters(&self) -> (n: usize)
        ensures
            n == self.inserted_rows().dom().len(),
    {
        proof {
            assert(self.inserted_rows().dom() =~= self.inserted@.dom());
        }
        self.inserted.len()
    }

    /// Number of distinct transactions that deleted rows.
    pub fn num_deleters(&self) -> (n: usize)
        ensures
            n == self.deleted_rows().dom().len(),
    {
        proof {
            assert(self.deleted_rows().dom() =~= self.deleted@.dom());
        }
        self.deleted.len()
    }

    fn deleted_by_committed(&self, row_in_vector: u32, snapshot_ts: u64, commit_history: &[(u64, u64)]) -> (r: bool)
        ensures
            r == recorded_by_committed(self.deleted_rows(), row_in_vector, snapshot_ts, commit_history@),
    {
        let ghost m = self.deleted@;
        for (txn_id, rows) in it: self.deleted.iter()
            invariant
                m == self.deleted@,
                forall|k: u64| #[trigger] m.contains_key(k) ==> it.seq().contains((&k, &m[k])),
                forall|j: int|
                    #![trigger it.seq()[j]]
                    0 <= j < it.index() ==> !(it.seq()[j].1@.contains(row_in_vector)
                        && committed_before(*it.seq()[j].0, snapshot_ts, commit_history@)),
        {
            if vec_contains(rows, row_in_vector) {
                if is_txn_committed_before(*txn_id, snapshot_ts, commit_history) {
                    proof {
                        assert(rows_by_txn(m).contains_key(*txn_id));
                        assert(rows_by_txn(m)[*txn_id] == rows@);
                    }
                    return true;
                }
            }
        }
        proof {
            assert forall|t: u64| !(#[trigger] rows_by_txn(m).contains_key(t) && rows_by_txn(m)[t].contains(row_in_vector)
                && committed_before(t, snapshot_ts, commit_history@)) by {
                if rows_by_txn(m).contains_key(t) {
                    assert(m.contains_key(t));
                }
            }
        }
        false
    }

    fn inserted_outcome(&self, row_in_vector: u32, snapshot_ts: u64, commit_history: &[(u64, u64)]) -> (r: Option<bool>)
        ensures
            match r {
                None => !recorded(self.inserted_rows(), row_in_vector),
                Some(b) => exists|t: u64| #[trigger]
                    self.inserted_rows().contains_key(t) && self.inserted_rows()[t].contains(row_in_vector)
                        && b == committed_before(t, snapshot_ts, commit_history@),
            },
    {
        let ghost m = self.inserted@;
        for (txn_id, rows) in it: self.inserted.iter()
            invariant
                m == self.inserted@,
                forall|k: u64| #[trigger] m.contains_key(k) ==> it.seq().contains((&k, &m[k])),
                forall|j: int|
                    #![trigger it.seq()[j]]
                    0 <= j < it.index() ==> !it.seq()[j].1@.contains(row_in_vector),
        {
            if vec_contains(rows, row_in_vector) {
                let b = is_txn_committed_before(*txn_id, snapshot_ts, commit_history);
                proof {
                    assert(rows_by_txn(m).contains_key(*txn_id));
                    assert(rows_by_txn(m)[*txn_id] == rows@);
                    assert(self.inserted_rows().contains_key(*txn_id));
                }
                return Some(b);
            }
        }
        proof {
            assert forall|t: u64| !(#[trigger] rows_by_txn(m).contains_key(t) && rows_by_txn(m)[t].contains(row_in_vector)) by {
                if rows_by_txn(m).contains_key(t) {
                    assert(m.contains_key(t));
                }
            }
        }
        None
    }

    /// Whether the row at `row_in_vector` is visible at `snapshot_ts`: not
    /// when a transaction committed by then deleted it; otherwise, when some
    /// transaction inserted it, as that transaction's commit decides; and
    /// pre-existing rows are visible.
    pub fn is_visible(&self, row_in_vector: u32, snapshot_ts: u64, commit_history: &[(u64, u64)]) -> (r: bool)
        ensures
            visible_outcome(
                self.inserted_rows(),
                self.deleted_rows(),
                row_in_vector,
                snapshot_ts,
                commit_history@,
                r,
            ),
    {
        if self.deleted_by_committed(row_in_vector, snapshot_ts, commit_history) {
            return false;
        }
        match self.inserted_outcome(row_in_vector, snapshot_ts, commit_history) {
            Some(b) => b,
            None => true,
        }
    }
}

/// Insert/delete records of a node group, one per vector of 1024 rows.
pub struct VersionInfo {
    vectors: Vec<VectorVersionInfo>,
    vector_size: u32,
}

impl VersionInfo {
    /// Vectors hold 1024 rows.
    pub closed spec fn wf(&self) -> bool {
        self.vector_size == VERSION_VECTOR_SIZE
    }

    /// Number of tracked vectors.
    pub closed spec fn num_vectors(&self) -> nat {
        self.vectors@.len()
    }

    /// Insert records of vector `v`.
    pub closed spec fn inserted_rows(&self, v: int) -> Map<u64, Seq<u32>> {
        self.vectors@[v].inserted_rows()
    }

    /// Delete records of vector `v`.
    pub closed spec fn deleted_rows(&self, v: int) -> Map<u64, Seq<u32>> {
        self.vectors@[v].deleted_rows()
    }

    /// Records for a node group of `total_rows` rows: one empty vector per
    /// started 1024 rows.
    pub fn new(total_rows: usize) -> (vi: Self)
        ensures
            vi.wf(),
            vi.num_vectors() == (total_rows as int + 1023) / 1024,
            forall|v: int|
                0 <= v < vi.num_vectors() ==> #[trigger] vi.inserted_rows(v) == Map::<
                    u64,
                    Seq<u32>,
                >::empty() && vi.deleted_rows(v) == Map::<u64, Seq<u32>>::empty(),
    {
        let num_vectors = total_rows / 1024 + if total_rows % 1024 == 0 { 0 } else { 1 };
        let mut vectors: Vec<VectorVersionInfo> = Vec::new();
        let mut i: usize = 0;
        while i < num_vectors
            invariant
                i <= num_vectors,
                vectors@.len() == i,
                forall|k: int|
                    0 <= k < i ==> #[trigger] vectors@[k].inserted_rows() == Map::<
                        u64,
                        Seq<u32>,
                    >::empty() && vectors@[k].deleted_rows() == Map::<u64, Seq<u32>>::empty(),
            decreases num_vectors - i,
        {
            vectors.push(VectorVersionInfo::new());
            i = i + 1;
        }
        let vi = VersionInfo { vectors, vector_size: 1024 };
        proof {
            assert forall|v: int| 0 <= v < vi.num_vectors() implies #[trigger] vi.inserted_rows(v) == Map::<
                u64,
                Seq<u32>,
            >::empty() && vi.deleted_rows(v) == Map::<u64, Seq<u32>>::empty() by {
                assert(vi.vectors@[v].inserted_rows() == Map::<u64, Seq<u32>>::empty());
            }
        }
        vi
    }

    /// Record an insert by `txn_id` of global `row`; rows beyond the tracked
    /// vectors are not recorded.
    pub fn insert(&mut self, txn_id: u64, row: u32)
        requires
            old(self).wf(),
        ensures
            final(self).wf(),
            final(self).num_vectors() == old(self).num_vectors(),
            forall|v: int|
                0 <= v < old(self).num_vectors() ==> #[trigger] final(self).inserted_rows(v) == if v
                    == row / 1024 {
                    record(old(self).inserted_rows(v), txn_id, row % 1024)
                } else {
                    old(self).inserted_rows(v)
                },
            forall|v: int|
                0 <= v < old(self).num_vectors() ==> #[trigger] final(self).deleted_rows(v)
                    == old(self).deleted_rows(v),
    {
        let v_idx = (row / self.vector_size) as usize;
        if v_idx < self.vectors.len() {
            self.vectors[v_idx].insert(txn_id, row % self.vector_size);
        }
    }

    /// Record a delete by `txn_id` of global `row`; rows beyond the tracked
    /// vectors are not recorded.
    pub fn delete(&mut self, txn_id: u64, row: u32)
        requires
            old(self).wf(),
        ensures
            final(self).wf(),
            final(self).num_vectors() == old(self).num_vectors(),
            forall|v: int|
                0 <= v < old(self).num_vectors() ==> #[trigger] final(self).deleted_rows(v) == if v
                    == row / 1024 {
                    record(old(self).deleted_rows(v), txn_id, row % 1024)
                } else {
                    old(self).deleted_rows(v)
                },
            forall|v: int|
                0 <= v < old(self).num_vectors() ==> #[trigger] final(self).inserted_rows(v)
                    == old(self).inserted_rows(v),
    {
        let v_idx = (row / self.vector_size) as usize;
        if v_idx < self.vectors.len() {
            self.vectors[v_idx].delete(txn_id, row % self.vector_size);
        }
    }

    /// Whether global `row` is visible at `snapshot_ts` (see
    /// `VectorVersionInfo::is_visible`); rows beyond the tracked vectors are
    /// visible.
    pub fn is_visible(&self, row: u32, snapshot_ts: u64, commit_history: &[(u64, u64)]) -> (r: bool)
        requires
            self.wf(),
        ensures
            row / 1024 < self.num_vectors() ==> visible_outcome(
                self.inserted_rows(row as int / 1024),
                self.deleted_rows(row as int / 1024),
                row % 1024,
                snapshot_ts,
                commit_history@,
                r,
            ),
            row / 1024 >= self.num_vectors() ==> r,
    {
        let v_idx = (row / self.vector_size) as usize;
        if v_idx < self.vectors.len() {
            self.vectors[v_idx].is_visible(row % self.vector_size, snapshot_ts, commit_history)
        } else {
            true
        }
    }
}

/// A row that no transaction inserted or deleted before is, once inserted
/// by `txn`, visible at a snapshot exactly when `txn` committed by then.
pub proof fn law_insert_then_visible(
    inserted: Map<u64, Seq<u32>>,
    deleted: Map<u64, Seq<u32>>,
    txn: u64,
    row: u32,
    ts: u64,
    history: Seq<(u64, u64)>,
    r: bool,
)
    requires
        !recorded(inserted, row),
        !recorded(deleted, row),
    ensures
        visible_outcome(record(inserted, txn, row), deleted, row, ts, history, r) <==> r
            == committed_before(txn, ts, history),
{
    let ins = record(inserted, txn, row);
    let prior = if inserted.contains_key(txn) { inserted[txn] } else { Seq::empty() };
    assert(ins[txn] == prior.push(row));
    assert(ins[txn][prior.len() as int] == row);
    assert(ins.contains_key(txn) && ins[txn].contains(row));
    assert(!recorded_by_committed(deleted, row, ts, history)) by {
        assert forall|t: u64| !(#[trigger] deleted.contains_key(t) && deleted[t].contains(row)
            && committed_before(t, ts, history)) by {
            if deleted.contains_key(t) && deleted[t].contains(row) {
                assert(recorded(deleted, row));
            }
        }
    }
    assert forall|t: u64| #[trigger] ins.contains_key(t) && ins[t].contains(row) implies t == txn by {
        if t != txn {
            assert(inserted.contains_key(t) && inserted[t] == ins[t]);
            assert(recorded(inserted, row));
        }
    }
}

/// A row deleted by `txn` is invisible at every snapshot at or after the
/// commit of `txn`, whatever else was recorded.
pub proof fn law_delete_hides(
    inserted: Map<u64, Seq<u32>>,
    deleted: Map<u64, Seq<u32>>,
    txn: u64,
    row: u32,
    ts: u64,
    history: Seq<(u64, u64)>,
    r: bool,
)
    requires
        committed_before(txn, ts, history),
    ensures
        visible_outcome(inserted, record(deleted, txn, row), row, ts, history, r) <==> !r,
{
    let del = record(deleted, txn, row);
    let prior = if deleted.contains_key(txn) { deleted[txn] } else { Seq::empty() };
    assert(del[txn] == prior.push(row));
    assert(del[txn][prior.len() as int] == row);
    assert(del.contains_key(txn) && del[txn].contains(row) && committed_before(txn, ts, history));
}

/// A row that nobody inserted or deleted is pre-existing data: visible at
/// every snapshot.
pub proof fn law_untouched_visible(
    inserted: Map<u64, Seq<u32>>,
    deleted: Map<u64, Seq<u32>>,
    row: u32,
    ts: u64,
    history: Seq<(u64, u64)>,
    r: bool,
)
    requires
        !recorded(inserted, row),
        !recorded(deleted, row),
    ensures
        visible_outcome(inserted, deleted, row, ts, history, r) <==> r,
{
    assert forall|t: u64| !(#[trigger] deleted.contains_key(t) && deleted[t].contains(row)
        && committed_before(t, ts, history)) by {
        if deleted.contains_key(t) && deleted[t].contains(row) {
            assert(recorded(deleted, row));
        }
    }
}

} // verus!
