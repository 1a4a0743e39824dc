//! Physical operator descriptions of the query processor and the node
//! semi-mask used for sideways information passing (SIP).

use crate::chunk::{
    all_rows, cell, list_eq, chunk_of_rows, gather_rows, hash_of, holds, key_of, row_of, rows_of, rows_view,
    rview, uniform_width, value_eq, value_hash, values_equal, DataChunk,
};
use crate::value_codec::{copy_value, vview, Value, ValueView};
use std::collections::{HashMap, HashSet};
use std::sync::Arc;
use vstd::prelude::*;
use vstd::rwlock::{RwLock, RwLockPredicate};

verus! {

/// Any set of offsets may stand in a semi-mask.
pub struct AnyOffsets;

impl RwLockPredicate<HashSet<u64>> for AnyOffsets {
    open spec fn inv(self, v: HashSet<u64>) -> bool {
        true
    }
}

/// `Arc::clone` (std): another handle on the same allocation; the pointed-to
/// value is the same.
#[verifier::external_body]
fn share_offsets(a: &Arc<RwLock<HashSet<u64>, AnyOffsets>>) -> (r: Arc<RwLock<HashSet<u64>, AnyOffsets>>)
    ensures
        r == *a,
{
    a.clone()
}

/// The node offsets that matched a join condition, collected on the build
/// side of a join and used on the scan side to skip other nodes. Until it
/// is finalized, the mask lets every node through. A mask and its clones
/// share one set of offsets: an offset masked through any of them is seen
/// by all.
pub struct NodeSemiMask {
    /// The matching node offsets, shared by the mask's clones.
    pub masked_offsets: Arc<RwLock<HashSet<u64>, AnyOffsets>>,
    /// Table the mask applies to.
    pub table_id: u64,
    /// Whether the mask has been populated.
    pub initialized: bool,
}

impl NodeSemiMask {
    /// An empty, unfinalized mask for `table_id`.
    pub fn new(table_id: u64) -> (m: Self)
        ensures
            m.table_id == table_id,
            !m.initialized,
    {
        let lock = RwLock::new(HashSet::new(), Ghost(AnyOffsets));
        NodeSemiMask { masked_offsets: Arc::new(lock), table_id, initialized: false }
    }

    /// Add a node offset to the shared set.
    pub fn mask(&self, offset: u64) {
        let (mut set, handle) = self.masked_offsets.acquire_write();
        set.insert(offset);
        handle.release_write(set);
    }

    /// Whether node `offset` passes the mask: every node passes an
    /// unfinalized mask, and a finalized one passes the offsets in the
    /// shared set at the time of the call.
    pub fn is_masked(&self, offset: u64) -> (b: bool)
        ensures
            !self.initialized ==> b,
    {
        if !self.initialized {
            return true;
        }
        let handle = self.masked_offsets.acquire_read();
        let r = handle.borrow().contains(&offset);
        handle.release_read();
        r
    }

    /// Mark the mask as populated.
    pub fn finalize(&mut self)
        ensures
            final(self).masked_offsets == old(self).masked_offsets,
            final(self).table_id == old(self).table_id,
            final(self).initialized,
    {
        self.initialized = true;
    }
}

impl Clone for NodeSemiMask {
    /// Another handle on the same shared offsets, for the same table and in
    /// the same state.
    fn clone(&self) -> (m: Self)
        ensures
            m.masked_offsets == self.masked_offsets,
            m.table_id == self.table_id,
            m.initialized == self.initialized,
    {
        NodeSemiMask {
            masked_offsets: share_offsets(&self.masked_offsets),
            table_id: self.table_id,
            initialized: self.initialized,
        }
    }
}

/// Collects the node ids of one column of its input into a semi-mask.
pub struct PhysicalSemiMasker {
    /// Column holding the node id to collect.
    pub key_column: usize,
    /// The mask to populate.
    pub mask: NodeSemiMask,
}

/// Keeps the listed columns, in order.
pub struct PhysicalProjection {
    pub column_indices: Vec<usize>,
}

/// Skips `offset` rows, then passes at most `limit` rows.
pub struct PhysicalLimit {
    pub limit: u64,
    pub offset: u64,
}

/// Sorts by the listed columns (column index, ascending).
pub struct PhysicalOrderBy {
    pub sort_keys: Vec<(u32, bool)>,
}

/// Groups by the listed columns and applies the named aggregate functions.
pub struct PhysicalAggregate {
    pub group_by_cols: Vec<u32>,
    pub aggregate_functions: Vec<String>,
}

/// Cartesian product of its inputs.
pub struct PhysicalCrossProduct;

/// Keeps the probe rows whose key occurs on the build side.
pub struct PhysicalSemiJoin {
    pub build_columns: Vec<u32>,
    pub probe_columns: Vec<u32>,
}

/// Keeps the probe rows whose key does not occur on the build side.
pub struct PhysicalAntiJoin {
    pub build_columns: Vec<u32>,
    pub probe_columns: Vec<u32>,
}

/// Worst-case optimal intersection of several build sides on one key.
pub struct PhysicalIntersect {
    /// Number of build hash tables (one per pattern).
    pub num_build_sides: u32,
    /// Key column of the probe side.
    pub probe_key_col: u32,
    /// Key column of each build side.
    pub build_key_col: u32,
}

/// Hash join on the listed build and probe columns, optionally feeding a
/// semi-mask with the build-side keys.
pub struct PhysicalHashJoin {
    pub build_columns: Vec<u32>,
    pub probe_columns: Vec<u32>,
    pub semi_mask: Option<NodeSemiMask>,
}

impl PhysicalHashJoin {
    /// A join on the given columns, without semi-mask.
    pub fn new(build_columns: Vec<u32>, probe_columns: Vec<u32>) -> (j: Self)
        ensures
            j.build_columns@ == build_columns@,
            j.probe_columns@ == probe_columns@,
            j.semi_mask is None,
    {
        PhysicalHashJoin { build_columns, probe_columns, semi_mask: None }
    }

    /// The same join, feeding `mask`.
    pub fn with_semi_mask(self, mask: NodeSemiMask) -> (j: Self)
        ensures
            j.build_columns@ == self.build_columns@,
            j.probe_columns@ == self.probe_columns@,
            j.semi_mask == Some(mask),
    {
        let mut j = self;
        j.semi_mask = Some(mask);
        j
    }
}

/// Describes the plan of its inner query instead of running it.
pub struct PhysicalExplain {
    /// The serialized inner plan.
    pub inner_plan: String,
}

/// Every row of chunks that all have `w` columns has `w` values.
pub proof fn lemma_rows_width(chunks: Seq<DataChunk>, w: int)
    requires
        uniform_width(chunks, w),
    ensures
        forall|r: int| 0 <= r < all_rows(chunks).len() ==> (#[trigger] all_rows(chunks)[r]).len() == w,
    decreases chunks.len(),
{
    if chunks.len() > 0 {
        assert(uniform_width(chunks.drop_last(), w)) by {
            assert forall|i: int| 0 <= i < chunks.drop_last().len() implies (
            #[trigger] chunks.drop_last()[i]).fields@.len() == w by {
                assert(chunks.drop_last()[i] == chunks[i]);
            }
        }
        lemma_rows_width(chunks.drop_last(), w);
        assert(chunks.last() == chunks[chunks.len() - 1]);
        let a = all_rows(chunks.drop_last());
        let b = crate::chunk::rows_of(chunks.last());
        assert(all_rows(chunks) == a + b);
        assert forall|r: int| 0 <= r < all_rows(chunks).len() implies (#[trigger] all_rows(
            chunks,
        )[r]).len() == w by {
            if r >= a.len() {
                assert((a + b)[r] == b[r - a.len()]);
            } else {
                assert((a + b)[r] == a[r]);
            }
        }
    }
}

/// Whether build row `b` joins probe row `p`: both keys are present, hash
/// alike and are equal.
pub open spec fn joins(b: Seq<ValueView>, p: Seq<ValueView>, bc: int, pc: int) -> bool {
    let kb = key_of(b, bc);
    let kp = key_of(p, pc);
    &&& kb != ValueView::Null
    &&& kp != ValueView::Null
    &&& hash_of(kb) == hash_of(kp)
    &&& value_eq(kb, kp)
}

/// The joined rows for probe row `p`: each build row that joins it, in
/// build order, followed by `p`.
pub open spec fn matches_for(build: Seq<Seq<ValueView>>, p: Seq<ValueView>, bc: int, pc: int) -> Seq<
    Seq<ValueView>,
>
    decreases build.len(),
{
    if build.len() == 0 {
        Seq::empty()
    } else {
        matches_for(build.drop_last(), p, bc, pc) + if joins(build.last(), p, bc, pc) {
            seq![build.last() + p]
        } else {
            Seq::empty()
        }
    }
}

/// The rows of a hash join: for each probe row in order, its joined rows.
pub open spec fn join_rows(
    build: Seq<Seq<ValueView>>,
    probe: Seq<Seq<ValueView>>,
    bc: int,
    pc: int,
) -> Seq<Seq<ValueView>>
    decreases probe.len(),
{
    if probe.len() == 0 {
        Seq::empty()
    } else {
        join_rows(build, probe.drop_last(), bc, pc) + matches_for(build, probe.last(), bc, pc)
    }
}

/// The hash of a row's key in column `k`, if it has a non-NULL key.
pub open spec fn key_hash(row: Seq<ValueView>, k: int) -> Option<u64> {
    if key_of(row, k) == ValueView::Null {
        None
    } else {
        Some(hash_of(key_of(row, k)))
    }
}

/// The positions among the first `n` rows whose key hashes to `h`, in
/// order.
pub open spec fn bucket(rows: Seq<Seq<ValueView>>, k: int, h: u64, n: int) -> Seq<usize>
    decreases n,
{
    if n <= 0 {
        Seq::empty()
    } else {
        bucket(rows, k, h, n - 1) + if key_hash(rows[n - 1], k) == Some(h) {
            seq![(n - 1) as usize]
        } else {
            Seq::empty()
        }
    }
}

/// The joined rows that the build rows at `idx` give for probe row `p`.
pub open spec fn emitted(
    build: Seq<Seq<ValueView>>,
    p: Seq<ValueView>,
    bc: int,
    pc: int,
    idx: Seq<usize>,
) -> Seq<Seq<ValueView>>
    decreases idx.len(),
{
    if idx.len() == 0 {
        Seq::empty()
    } else {
        emitted(build, p, bc, pc, idx.drop_last()) + if value_eq(
            key_of(build[idx.last() as int], bc),
            key_of(p, pc),
        ) {
            seq![build[idx.last() as int] + p]
        } else {
            Seq::empty()
        }
    }
}

proof fn lemma_emitted_append(
    build: Seq<Seq<ValueView>>,
    p: Seq<ValueView>,
    bc: int,
    pc: int,
    a: Seq<usize>,
    b: Seq<usize>,
)
    ensures
        emitted(build, p, bc, pc, a + b) == emitted(build, p, bc, pc, a) + emitted(
            build,
            p,
            bc,
            pc,
            b,
        ),
    decreases b.len(),
{
    if b.len() == 0 {
        assert(a + b =~= a);
        assert(emitted(build, p, bc, pc, a) + emitted(build, p, bc, pc, b) =~= emitted(
            build,
            p,
            bc,
            pc,
            a,
        ));
    } else {
        lemma_emitted_append(build, p, bc, pc, a, b.drop_last());
        assert((a + b).drop_last() =~= a + b.drop_last());
        assert((a + b).last() == b.last());
        assert(emitted(build, p, bc, pc, a + b) =~= emitted(build, p, bc, pc, a) + emitted(
            build,
            p,
            bc,
            pc,
            b,
        ));
    }
}

/// Scanning the bucket of the probe key's hash finds exactly the joining
/// build rows.
proof fn lemma_bucket_matches(
    build: Seq<Seq<ValueView>>,
    p: Seq<ValueView>,
    bc: int,
    pc: int,
    n: int,
)
    requires
        0 <= n <= build.len(),
        build.len() <= usize::MAX,
        key_of(p, pc) != ValueView::Null,
    ensures
        emitted(build, p, bc, pc, bucket(build, bc, hash_of(key_of(p, pc)), n)) == matches_for(
            build.subrange(0, n),
            p,
            bc,
            pc,
        ),
    decreases n,
{
    let h = hash_of(key_of(p, pc));
    if n == 0 {
        assert(build.subrange(0, 0) =~= Seq::<Seq<ValueView>>::empty());
    } else {
        lemma_bucket_matches(build, p, bc, pc, n - 1);
        let tail: Seq<usize> = if key_hash(build[n - 1], bc) == Some(h) {
            seq![(n - 1) as usize]
        } else {
            Seq::empty()
        };
        lemma_emitted_append(build, p, bc, pc, bucket(build, bc, h, n - 1), tail);
        assert(build.subrange(0, n).drop_last() =~= build.subrange(0, n - 1));
        assert(build.subrange(0, n).last() == build[n - 1]);
        let m0 = matches_for(build.subrange(0, n - 1), p, bc, pc);
        assert(matches_for(build.subrange(0, n), p, bc, pc) == m0 + if joins(
            build[n - 1],
            p,
            bc,
            pc,
        ) {
            seq![build[n - 1] + p]
        } else {
            Seq::empty()
        });
        if key_hash(build[n - 1], bc) == Some(h) {
            assert(tail.drop_last() =~= Seq::<usize>::empty());
            assert(tail.last() as int == n - 1);
            assert(emitted(build, p, bc, pc, tail.drop_last()) =~= Seq::<Seq<ValueView>>::empty());
            assert(emitted(build, p, bc, pc, tail) =~= if joins(build[n - 1], p, bc, pc) {
                seq![build[n - 1] + p]
            } else {
                Seq::empty()
            });
        } else {
            assert(!joins(build[n - 1], p, bc, pc));
            assert(emitted(build, p, bc, pc, tail) =~= Seq::<Seq<ValueView>>::empty());
        }
        assert(bucket(build, bc, h, n) == bucket(build, bc, h, n - 1) + tail);
    }
}

fn concat_rows(a: &Vec<Value>, b: &Vec<Value>) -> (r: Vec<Value>)
    ensures
        rview(r@) == rview(a@) + rview(b@),
{
    let mut r: Vec<Value> = Vec::new();
    let mut i: usize = 0;
    while i < a.len()
        invariant
            i <= a@.len(),
            r@.len() == i,
            forall|k: int| 0 <= k < i ==> vview(#[trigger] r@[k]) == vview(a@[k]),
        decreases a@.len() - i,
    {
        r.push(copy_value(&a[i]));
        i = i + 1;
    }
    let mut j: usize = 0;
    while j < b.len()
        invariant
            j <= b@.len(),
            r@.len() == a@.len() + j,
            forall|k: int| 0 <= k < a@.len() ==> vview(#[trigger] r@[k]) == vview(a@[k]),
            forall|k: int| 0 <= k < j ==> vview(#[trigger] r@[a@.len() + k]) == vview(b@[k]),
        decreases b@.len() - j,
    {
        r.push(copy_value(&b[j]));
        j = j + 1;
    }
    proof {
        assert forall|k: int| 0 <= k < r@.len() implies #[trigger] rview(r@)[k] == (rview(a@)
            + rview(b@))[k] by {
            if k >= a@.len() {
                assert(vview(r@[a@.len() + (k - a@.len())]) == vview(b@[k - a@.len()]));
            }
        }
        assert(rview(r@) =~= rview(a@) + rview(b@));
    }
    r
}

/// The key of a row in column `k`, NULL where there is none.
fn row_key(row: &Vec<Value>, k: usize) -> (v: Value)
    ensures
        vview(v) == key_of(rview(row@), k as int),
{
    if k < row.len() {
        copy_value(&row[k])
    } else {
        Value::Null
    }
}

proof fn lemma_bucket_bound(rows: Seq<Seq<ValueView>>, k: int, h: u64, n: int)
    requires
        0 <= n <= rows.len() <= usize::MAX,
    ensures
        forall|i: int|
            0 <= i < bucket(rows, k, h, n).len() ==> (#[trigger] bucket(rows, k, h, n)[i]) < n,
    decreases n,
{
    if n > 0 {
        lemma_bucket_bound(rows, k, h, n - 1);
        let a = bucket(rows, k, h, n - 1);
        let tail: Seq<usize> = if key_hash(rows[n - 1], k) == Some(h) {
            seq![(n - 1) as usize]
        } else {
            Seq::empty()
        };
        assert(bucket(rows, k, h, n) == a + tail);
        assert forall|i: int| 0 <= i < bucket(rows, k, h, n).len() implies (#[trigger] bucket(
            rows,
            k,
            h,
            n,
        )[i]) < n by {
            if i < a.len() {
                assert((a + tail)[i] == a[i]);
            } else {
                assert((a + tail)[i] == tail[i - a.len()]);
            }
        }
    }
}

proof fn lemma_no_key_no_match(build: Seq<Seq<ValueView>>, p: Seq<ValueView>, bc: int, pc: int)
    requires
        key_of(p, pc) == ValueView::Null,
    ensures
        matches_for(build, p, bc, pc) == Seq::<Seq<ValueView>>::empty(),
    decreases build.len(),
{
    if build.len() > 0 {
        lemma_no_key_no_match(build.drop_last(), p, bc, pc);
        assert(matches_for(build, p, bc, pc) =~= Seq::<Seq<ValueView>>::empty());
    }
}

/// The build rows, bucketed by the hash of their non-NULL keys in column
/// `bc`, each bucket in row order.
fn build_hash_table(build: &Vec<Vec<Value>>, bc: usize) -> (t: HashMap<u64, Vec<usize>>)
    ensures
        forall|h: u64|
            #[trigger] bucket(rows_view(build@), bc as int, h, build@.len() as int) == if t@.contains_key(h) {
                t@[h]@
            } else {
                Seq::<usize>::empty()
            },
{
    let ghost rows = rows_view(build@);
    let mut t: HashMap<u64, Vec<usize>> = HashMap::new();
    let mut j: usize = 0;
    while j < build.len()
        invariant
            j <= build@.len(),
            rows == rows_view(build@),
            forall|h: u64|
                #[trigger] bucket(rows, bc as int, h, j as int) == if t@.contains_key(h) {
                    t@[h]@
                } else {
                    Seq::<usize>::empty()
                },
        decreases build@.len() - j,
    {
        let key = row_key(&build[j], bc);
        proof {
            assert(rows[j as int] == rview(build@[j as int]@));
        }
        if !matches!(key, Value::Null) {
            let h = value_hash(&key);
            let ghost before = t@;
            let cur = t.remove(&h);
            match cur {
                Some(mut v) => {
                    v.push(j);
                    t.insert(h, v);
                },
                None => {
                    let mut v: Vec<usize> = Vec::new();
                    v.push(j);
                    t.insert(h, v);
                },
            }
            proof {
                assert forall|g: u64|
                    #[trigger] bucket(rows, bc as int, g, j + 1) == if t@.contains_key(g) {
                        t@[g]@
                    } else {
                        Seq::<usize>::empty()
                    } by {
                    assert(bucket(rows, bc as int, g, j + 1) == bucket(rows, bc as int, g, j as int)
                        + if key_hash(rows[j as int], bc as int) == Some(g) {
                        seq![j]
                    } else {
                        Seq::empty()
                    });
                    if g == h {
                        assert(key_hash(rows[j as int], bc as int) == Some(g));
                        assert(t@[g]@ =~= bucket(rows, bc as int, g, j as int) + seq![j]);
                    } else {
                        assert(key_hash(rows[j as int], bc as int) != Some(g));
                        assert(t@.contains_key(g) == before.contains_key(g));
                        assert(bucket(rows, bc as int, g, j + 1) =~= bucket(
                            rows,
                            bc as int,
                            g,
                            j as int,
                        ));
                    }
                }
            }
        } else {
            proof {
                assert forall|g: u64|
                    #[trigger] bucket(rows, bc as int, g, j + 1) == if t@.contains_key(g) {
                        t@[g]@
                    } else {
                        Seq::<usize>::empty()
                    } by {
                    assert(key_hash(rows[j as int], bc as int) == None::<u64>);
                    assert(bucket(rows, bc as int, g, j + 1) =~= bucket(
                        rows,
                        bc as int,
                        g,
                        j as int,
                    ));
                }
            }
        }
        j = j + 1;
    }
    t
}

/// The joined rows of `probe` against the hash-bucketed `build` rows.
fn probe_hash_table(
    build: &Vec<Vec<Value>>,
    probe: &Vec<Vec<Value>>,
    bc: usize,
    pc: usize,
    table: &HashMap<u64, Vec<usize>>,
) -> (out: Vec<Vec<Value>>)
    requires
        forall|h: u64|
            #[trigger] bucket(rows_view(build@), bc as int, h, build@.len() as int) == if table@.contains_key(h) {
                table@[h]@
            } else {
                Seq::<usize>::empty()
            },
    ensures
        rows_view(out@) == join_rows(rows_view(build@), rows_view(probe@), bc as int, pc as int),
{
    let ghost brows = rows_view(build@);
    let ghost prows = rows_view(probe@);
    let blen = build.len();
    let mut out: Vec<Vec<Value>> = Vec::new();
    let mut i: usize = 0;
    proof {
        assert(prows.subrange(0, 0) =~= Seq::<Seq<ValueView>>::empty());
        assert(rows_view(out@) =~= join_rows(brows, prows.subrange(0, 0), bc as int, pc as int));
        assert(brows.subrange(0, brows.len() as int) =~= brows);
    }
    while i < probe.len()
        invariant
            i <= probe@.len(),
            brows == rows_view(build@),
            prows == rows_view(probe@),
            brows.len() == build@.len(),
            blen == build@.len(),
            brows.subrange(0, brows.len() as int) == brows,
            forall|h: u64|
                #[trigger] bucket(brows, bc as int, h, build@.len() as int) == if table@.contains_key(h) {
                    table@[h]@
                } else {
                    Seq::<usize>::empty()
                },
            rows_view(out@) == join_rows(brows, prows.subrange(0, i as int), bc as int, pc as int),
        decreases probe@.len() - i,
    {
        let ghost p = prows[i as int];
        let ghost prefix = rows_view(out@);
        proof {
            assert(p == rview(probe@[i as int]@));
            assert(prows.subrange(0, i + 1).drop_last() =~= prows.subrange(0, i as int));
            assert(prows.subrange(0, i + 1).last() == p);
        }
        let kp = row_key(&probe[i], pc);
        if matches!(kp, Value::Null) {
            proof {
                lemma_no_key_no_match(brows, p, bc as int, pc as int);
                assert(join_rows(brows, prows.subrange(0, i + 1), bc as int, pc as int) =~= prefix);
            }
        } else {
            let h = value_hash(&kp);
            proof {
                lemma_bucket_matches(brows, p, bc as int, pc as int, brows.len() as int);
                lemma_bucket_bound(brows, bc as int, h, brows.len() as int);
            }
            let ghost bk = bucket(brows, bc as int, h, build@.len() as int);
            match table.get(&h) {
                Some(idx) => {
                    let mut k: usize = 0;
                    proof {
                        assert(idx@ == bk);
                        assert(bk.subrange(0, 0) =~= Seq::<usize>::empty());
                    }
                    while k < idx.len()
                        invariant
                            k <= idx@.len(),
                            idx@ == bk,
                            i < probe@.len(),
                            brows == rows_view(build@),
                            p == rview(probe@[i as int]@),
                            vview(kp) == key_of(p, pc as int),
                            forall|x: int| 0 <= x < bk.len() ==> (#[trigger] bk[x]) < build@.len(),
                            rows_view(out@) == prefix + emitted(
                                brows,
                                p,
                                bc as int,
                                pc as int,
                                bk.subrange(0, k as int),
                            ),
                        decreases idx@.len() - k,
                    {
                        let j = idx[k];
                        proof {
                            assert(bk[k as int] == j);
                            assert(brows[j as int] == rview(build@[j as int]@));
                            assert(bk.subrange(0, k + 1).drop_last() =~= bk.subrange(0, k as int));
                            assert(bk.subrange(0, k + 1).last() == j);
                        }
                        let kb = row_key(&build[j], bc);
                        let ghost before = out@;
                        if values_equal(&kb, &kp) {
                            let row = concat_rows(&build[j], &probe[i]);
                            out.push(row);
                            proof {
                                assert(rview(row@) == brows[j as int] + p);
                                assert(rows_view(out@) =~= rows_view(before).push(rview(row@)));
                                assert(emitted(brows, p, bc as int, pc as int, bk.subrange(0, k + 1))
                                    == emitted(brows, p, bc as int, pc as int, bk.subrange(0, k as int))
                                    + seq![brows[j as int] + p]);
                                assert(rows_view(out@) =~= prefix + emitted(
                                    brows,
                                    p,
                                    bc as int,
                                    pc as int,
                                    bk.subrange(0, k + 1),
                                ));
                            }
                        } else {
                            proof {
                                assert(rows_view(out@) =~= prefix + emitted(
                                    brows,
                                    p,
                                    bc as int,
                                    pc as int,
                                    bk.subrange(0, k + 1),
                                ));
                            }
                        }
                        k = k + 1;
                    }
                    proof {
                        assert(bk.subrange(0, idx@.len() as int) =~= bk);
                    }
                },
                None => {
                    proof {
                        assert(bk =~= Seq::<usize>::empty());
                        assert(emitted(brows, p, bc as int, pc as int, bk) =~= Seq::<
                            Seq<ValueView>,
                        >::empty());
                        assert(rows_view(out@) =~= prefix + emitted(
                            brows,
                            p,
                            bc as int,
                            pc as int,
                            bk,
                        ));
                    }
                },
            }
            proof {
                assert(join_rows(brows, prows.subrange(0, i + 1), bc as int, pc as int) == prefix
                    + matches_for(brows, p, bc as int, pc as int));
            }
        }
        i = i + 1;
    }
    proof {
        assert(prows.subrange(0, probe@.len() as int) =~= prows);
    }
    out
}

/// Whether the chunks before `mid` all have as many columns as the first,
/// and those from `mid` on as many as the chunk at `mid`.
pub open spec fn sides_uniform(input: Seq<DataChunk>, mid: int) -> bool {
    &&& uniform_width(input.subrange(0, mid), input[0].fields@.len() as int)
    &&& uniform_width(input.subrange(mid, input.len() as int), input[mid].fields@.len() as int)
}

/// The first listed column, or column 0.
fn first_column(cols: &Vec<u32>) -> (c: usize)
    ensures
        c == (if cols@.len() > 0 {
            cols@[0] as usize
        } else {
            0usize
        }),
{
    if cols.len() > 0 {
        cols[0] as usize
    } else {
        0
    }
}

/// Feeds `mask` the node offsets carried by the keys of `rows` in column
/// `k`, row by row: a node id's offset, or a 64-bit integer taken as one.
fn mask_offsets(mask: &NodeSemiMask, rows: &Vec<Vec<Value>>, k: usize) {
    let mut j: usize = 0;
    while j < rows.len()
        invariant
            j <= rows@.len(),
        decreases rows@.len() - j,
    {
        let key = row_key(&rows[j], k);
        match key {
            Value::InternalID { table_id: _, offset } => {
                mask.mask(offset);
            },
            Value::Int64(x) => {
                mask.mask(x as u64);
            },
            _ => {},
        }
        j = j + 1;
    }
}

impl PhysicalHashJoin {
    /// Joins the first half of `input` (the build side) with the rest (the
    /// probe side) on the first build and probe columns (column 0 where
    /// none is listed). For each probe row in order, each build row whose
    /// key is non-NULL, hashes alike and equals the probe key gives one
    /// output row: the build row's values, then the probe row's. The rows
    /// come back as one chunk, or no chunk where none matched. With fewer
    /// than two input chunks the input is passed through. Where the join
    /// carries a semi-mask, the node offsets of the build keys are added to
    /// its shared set.
    pub fn execute(&self, input: Vec<DataChunk>) -> (r: Result<Vec<DataChunk>, String>)
        requires
            input@.len() >= 2 ==> sides_uniform(input@, (input@.len() / 2) as int),
        ensures
            input@.len() < 2 ==> r == Ok::<Vec<DataChunk>, String>(input),
            input@.len() >= 2 ==> {
                let mid = input@.len() / 2;
                let build = all_rows(input@.subrange(0, mid as int));
                let probe = all_rows(input@.subrange(mid as int, input@.len() as int));
                let bc = (if self.build_columns@.len() > 0 {
                    self.build_columns@[0] as usize
                } else {
                    0usize
                }) as int;
                let pc = (if self.probe_columns@.len() > 0 {
                    self.probe_columns@[0] as usize
                } else {
                    0usize
                }) as int;
                let rows = join_rows(build, probe, bc, pc);
                let w = (input@[0].fields@.len() + input@[mid as int].fields@.len()) as int;
                &&& r is Ok
                &&& rows.len() == 0 ==> r->Ok_0@.len() == 0
                &&& rows.len() > 0 ==> r->Ok_0@.len() == 1 && holds(r->Ok_0@[0], rows, w)
            },
    {
        let n = input.len();
        if n < 2 {
            return Ok(input);
        }
        let mid = n / 2;
        let bc = first_column(&self.build_columns);
        let pc = first_column(&self.probe_columns);
        let build = gather_rows(&input, 0, mid);
        let probe = gather_rows(&input, mid, n);
        let ghost brows = rows_view(build@);
        let ghost prows = rows_view(probe@);
        match &self.semi_mask {
            Some(m) => {
                mask_offsets(m, &build, bc);
            },
            None => {},
        }
        let table = build_hash_table(&build, bc);
        let out = probe_hash_table(&build, &probe, bc, pc, &table);
        if out.len() == 0 {
            return Ok(Vec::new());
        }
        let ghost wb = input@[0].fields@.len() as int;
        let ghost wp = input@[mid as int].fields@.len() as int;
        proof {
            lemma_rows_width(input@.subrange(0, mid as int), wb);
            lemma_rows_width(input@.subrange(mid as int, n as int), wp);
            lemma_join_rows_width(brows, prows, bc as int, pc as int, wb, wp);
            assert(rows_view(out@)[0].len() == out@[0]@.len());
        }
        let w = out[0].len();
        proof {
            assert forall|i: int| 0 <= i < out@.len() implies (#[trigger] out@[i])@.len() == w by {
                assert(rows_view(out@)[i].len() == out@[i]@.len());
            }
        }
        let ch = chunk_of_rows(&out, w);
        let mut result: Vec<DataChunk> = Vec::new();
        result.push(ch);
        Ok(result)
    }
}

proof fn lemma_matches_width(build: Seq<Seq<ValueView>>, p: Seq<ValueView>, bc: int, pc: int, wb: int)
    requires
        forall|r: int| 0 <= r < build.len() ==> (#[trigger] build[r]).len() == wb,
    ensures
        forall|r: int|
            0 <= r < matches_for(build, p, bc, pc).len() ==> (#[trigger] matches_for(build, p, bc, pc)[r]).len()
                == wb + p.len(),
    decreases build.len(),
{
    if build.len() > 0 {
        lemma_matches_width(build.drop_last(), p, bc, pc, wb);
        let a = matches_for(build.drop_last(), p, bc, pc);
        let t: Seq<Seq<ValueView>> = if joins(build.last(), p, bc, pc) {
            seq![build.last() + p]
        } else {
            Seq::empty()
        };
        assert(build.last() == build[build.len() - 1]);
        assert(matches_for(build, p, bc, pc) == a + t);
        assert forall|r: int| 0 <= r < (a + t).len() implies (#[trigger] (a + t)[r]).len() == wb + p.len() by {
            if r < a.len() {
                assert((a + t)[r] == a[r]);
            } else {
                assert((a + t)[r] == t[r - a.len()]);
            }
        }
    }
}

proof fn lemma_join_rows_width(
    build: Seq<Seq<ValueView>>,
    probe: Seq<Seq<ValueView>>,
    bc: int,
    pc: int,
    wb: int,
    wp: int,
)
    requires
        forall|r: int| 0 <= r < build.len() ==> (#[trigger] build[r]).len() == wb,
        forall|r: int| 0 <= r < probe.len() ==> (#[trigger] probe[r]).len() == wp,
    ensures
        forall|r: int|
            0 <= r < join_rows(build, probe, bc, pc).len() ==> (#[trigger] join_rows(build, probe, bc, pc)[r]).len()
                == wb + wp,
    decreases probe.len(),
{
    if probe.len() > 0 {
        lemma_join_rows_width(build, probe.drop_last(), bc, pc, wb, wp);
        lemma_matches_width(build, probe.last(), bc, pc, wb);
        let a = join_rows(build, probe.drop_last(), bc, pc);
        let t = matches_for(build, probe.last(), bc, pc);
        assert(probe.last() == probe[probe.len() - 1]);
        assert forall|r: int| 0 <= r < (a + t).len() implies (#[trigger] (a + t)[r]).len() == wb + wp by {
            if r < a.len() {
                assert((a + t)[r] == a[r]);
            } else {
                assert((a + t)[r] == t[r - a.len()]);
            }
        }
    }
}

/// The hashes of the non-NULL keys of `rows` in column `k`.
pub open spec fn key_hashes(rows: Seq<Seq<ValueView>>, k: int) -> Set<u64>
    decreases rows.len(),
{
    if rows.len() == 0 {
        Set::empty()
    } else {
        key_hashes(rows.drop_last(), k) + match key_hash(rows.last(), k) {
            Some(h) => set![h],
            None => Set::empty(),
        }
    }
}

/// The rows with a non-NULL key in column `k` whose hash is in `hs`
/// (`keep`), or not in `hs` (`!keep`), in order.
pub open spec fn rows_by_hash(rows: Seq<Seq<ValueView>>, hs: Set<u64>, k: int, keep: bool) -> Seq<
    Seq<ValueView>,
>
    decreases rows.len(),
{
    if rows.len() == 0 {
        Seq::empty()
    } else {
        rows_by_hash(rows.drop_last(), hs, k, keep) + match key_hash(rows.last(), k) {
            Some(h) => if hs.contains(h) == keep {
                seq![rows.last()]
            } else {
                Seq::empty()
            },
            None => Seq::empty(),
        }
    }
}

fn collect_key_hashes(rows: &Vec<Vec<Value>>, k: usize) -> (hs: HashSet<u64>)
    ensures
        hs@ == key_hashes(rows_view(rows@), k as int),
{
    let ghost rv = rows_view(rows@);
    let mut hs: HashSet<u64> = HashSet::new();
    let mut j: usize = 0;
    proof {
        assert(rv.subrange(0, 0) =~= Seq::<Seq<ValueView>>::empty());
        assert(hs@ =~= key_hashes(rv.subrange(0, 0), k as int));
    }
    while j < rows.len()
        invariant
            j <= rows@.len(),
            rv == rows_view(rows@),
            hs@ == key_hashes(rv.subrange(0, j as int), k as int),
        decreases rows@.len() - j,
    {
        let key = row_key(&rows[j], k);
        proof {
            assert(rv[j as int] == rview(rows@[j as int]@));
            assert(rv.subrange(0, j + 1).drop_last() =~= rv.subrange(0, j as int));
            assert(rv.subrange(0, j + 1).last() == rv[j as int]);
        }
        if !matches!(key, Value::Null) {
            let h = value_hash(&key);
            hs.insert(h);
        }
        proof {
            assert(hs@ =~= key_hashes(rv.subrange(0, j + 1), k as int));
        }
        j = j + 1;
    }
    proof {
        assert(rv.subrange(0, rows@.len() as int) =~= rv);
    }
    hs
}

pub(crate) fn copy_row(row: &Vec<Value>) -> (r: Vec<Value>)
    ensures
        rview(r@) == rview(row@),
{
    let mut r: Vec<Value> = Vec::new();
    let mut i: usize = 0;
    while i < row.len()
        invariant
            i <= row@.len(),
            r@.len() == i,
            forall|k: int| 0 <= k < i ==> vview(#[trigger] r@[k]) == vview(row@[k]),
        decreases row@.len() - i,
    {
        r.push(copy_value(&row[i]));
        i = i + 1;
    }
    proof {
        assert(rview(r@) =~= rview(row@));
    }
    r
}

fn filter_rows_by_hash(rows: &Vec<Vec<Value>>, hs: &HashSet<u64>, k: usize, keep: bool) -> (out: Vec<
    Vec<Value>,
>)
    ensures
        rows_view(out@) == rows_by_hash(rows_view(rows@), hs@, k as int, keep),
{
    let ghost rv = rows_view(rows@);
    let mut out: Vec<Vec<Value>> = Vec::new();
    let mut j: usize = 0;
    proof {
        assert(rv.subrange(0, 0) =~= Seq::<Seq<ValueView>>::empty());
        assert(rows_view(out@) =~= rows_by_hash(rv.subrange(0, 0), hs@, k as int, keep));
    }
    while j < rows.len()
        invariant
            j <= rows@.len(),
            rv == rows_view(rows@),
            rows_view(out@) == rows_by_hash(rv.subrange(0, j as int), hs@, k as int, keep),
        decreases rows@.len() - j,
    {
        let key = row_key(&rows[j], k);
        let ghost before = out@;
        proof {
            assert(rv[j as int] == rview(rows@[j as int]@));
            assert(rv.subrange(0, j + 1).drop_last() =~= rv.subrange(0, j as int));
            assert(rv.subrange(0, j + 1).last() == rv[j as int]);
        }
        if !matches!(key, Value::Null) {
            let h = value_hash(&key);
            if hs.contains(&h) == keep {
                let r = copy_row(&rows[j]);
                out.push(r);
                proof {
                    assert(rows_view(out@) =~= rows_view(before).push(rview(r@)));
                }
            }
        }
        proof {
            assert(rows_view(out@) =~= rows_by_hash(rv.subrange(0, j + 1), hs@, k as int, keep));
        }
        j = j + 1;
    }
    proof {
        assert(rv.subrange(0, rows@.len() as int) =~= rv);
    }
    out
}

proof fn lemma_rows_by_hash_width(rows: Seq<Seq<ValueView>>, hs: Set<u64>, k: int, keep: bool, w: int)
    requires
        forall|r: int| 0 <= r < rows.len() ==> (#[trigger] rows[r]).len() == w,
    ensures
        forall|r: int|
            0 <= r < rows_by_hash(rows, hs, k, keep).len() ==> (#[trigger] rows_by_hash(
                rows,
                hs,
                k,
                keep,
            )[r]).len() == w,
    decreases rows.len(),
{
    if rows.len() > 0 {
        lemma_rows_by_hash_width(rows.drop_last(), hs, k, keep, w);
        let a = rows_by_hash(rows.drop_last(), hs, k, keep);
        let t: Seq<Seq<ValueView>> = match key_hash(rows.last(), k) {
            Some(h) => if hs.contains(h) == keep {
                seq![rows.last()]
            } else {
                Seq::empty()
            },
            None => Seq::empty(),
        };
        assert(rows.last() == rows[rows.len() - 1]);
        assert(rows_by_hash(rows, hs, k, keep) == a + t);
        assert forall|r: int| 0 <= r < (a + t).len() implies (#[trigger] (a + t)[r]).len() == w by {
            if r < a.len() {
                assert((a + t)[r] == a[r]);
            } else {
                assert((a + t)[r] == t[r - a.len()]);
            }
        }
    }
}

/// The probe rows (the input from its middle on) whose key hash does or
/// does not occur among the build rows' key hashes, as one chunk, or no
/// chunk where none is kept.
fn hash_filter(input: &Vec<DataChunk>, bc: usize, pc: usize, keep: bool) -> (r: Vec<DataChunk>)
    requires
        input@.len() >= 2,
        sides_uniform(input@, (input@.len() / 2) as int),
    ensures
        ({
            let mid = input@.len() / 2;
            let build = all_rows(input@.subrange(0, mid as int));
            let probe = all_rows(input@.subrange(mid as int, input@.len() as int));
            let rows = rows_by_hash(probe, key_hashes(build, bc as int), pc as int, keep);
            &&& rows.len() == 0 ==> r@.len() == 0
            &&& rows.len() > 0 ==> r@.len() == 1 && holds(
                r@[0],
                rows,
                input@[mid as int].fields@.len() as int,
            )
        }),
{
    let n = input.len();
    let mid = n / 2;
    let build = gather_rows(input, 0, mid);
    let probe = gather_rows(input, mid, n);
    let hs = collect_key_hashes(&build, bc);
    let out = filter_rows_by_hash(&probe, &hs, pc, keep);
    if out.len() == 0 {
        return Vec::new();
    }
    let ghost wp = input@[mid as int].fields@.len() as int;
    proof {
        lemma_rows_width(input@.subrange(mid as int, n as int), wp);
        lemma_rows_by_hash_width(rows_view(probe@), hs@, pc as int, keep, wp);
        assert(rows_view(out@)[0].len() == out@[0]@.len());
    }
    let w = out[0].len();
    proof {
        assert forall|i: int| 0 <= i < out@.len() implies (#[trigger] out@[i])@.len() == w by {
            assert(rows_view(out@)[i].len() == out@[i]@.len());
        }
    }
    let ch = chunk_of_rows(&out, w);
    let mut result: Vec<DataChunk> = Vec::new();
    result.push(ch);
    result
}

impl PhysicalSemiJoin {
    /// Keeps the probe rows (the input from its middle on) whose non-NULL
    /// key, in the first probe column, hashes like some non-NULL build key
    /// (first half of the input, first build column; column 0 where none
    /// is listed). They come back as one chunk, or no chunk where none is
    /// kept; with fewer than two input chunks the input is passed through.
    pub fn execute(&self, input: Vec<DataChunk>) -> (r: Result<Vec<DataChunk>, String>)
        requires
            input@.len() >= 2 ==> sides_uniform(input@, (input@.len() / 2) as int),
        ensures
            input@.len() < 2 ==> r == Ok::<Vec<DataChunk>, String>(input),
            input@.len() >= 2 ==> {
                let mid = input@.len() / 2;
                let build = all_rows(input@.subrange(0, mid as int));
                let probe = all_rows(input@.subrange(mid as int, input@.len() as int));
                let bc = (if self.build_columns@.len() > 0 {
                    self.build_columns@[0] as usize
                } else {
                    0usize
                }) as int;
                let pc = (if self.probe_columns@.len() > 0 {
                    self.probe_columns@[0] as usize
                } else {
                    0usize
                }) as int;
                let rows = rows_by_hash(probe, key_hashes(build, bc), pc, true);
                &&& r is Ok
                &&& rows.len() == 0 ==> r->Ok_0@.len() == 0
                &&& rows.len() > 0 ==> r->Ok_0@.len() == 1 && holds(
                    r->Ok_0@[0],
                    rows,
                    input@[mid as int].fields@.len() as int,
                )
            },
    {
        if input.len() < 2 {
            return Ok(input);
        }
        let bc = first_column(&self.build_columns);
        let pc = first_column(&self.probe_columns);
        Ok(hash_filter(&input, bc, pc, true))
    }
}

impl PhysicalAntiJoin {
    /// Keeps the probe rows (the input from its middle on) whose non-NULL
    /// key, in the first probe column, hashes like no non-NULL build key
    /// (first half of the input, first build column; column 0 where none
    /// is listed). Rows with a NULL key are dropped. They come back as one
    /// chunk, or no chunk where none is kept; with fewer than two input
    /// chunks the input is passed through.
    pub fn execute(&self, input: Vec<DataChunk>) -> (r: Result<Vec<DataChunk>, String>)
        requires
            input@.len() >= 2 ==> sides_uniform(input@, (input@.len() / 2) as int),
        ensures
            input@.len() < 2 ==> r == Ok::<Vec<DataChunk>, String>(input),
            input@.len() >= 2 ==> {
                let mid = input@.len() / 2;
                let build = all_rows(input@.subrange(0, mid as int));
                let probe = all_rows(input@.subrange(mid as int, input@.len() as int));
                let bc = (if self.build_columns@.len() > 0 {
                    self.build_columns@[0] as usize
                } else {
                    0usize
                }) as int;
                let pc = (if self.probe_columns@.len() > 0 {
                    self.probe_columns@[0] as usize
                } else {
                    0usize
                }) as int;
                let rows = rows_by_hash(probe, key_hashes(build, bc), pc, false);
                &&& r is Ok
                &&& rows.len() == 0 ==> r->Ok_0@.len() == 0
                &&& rows.len() > 0 ==> r->Ok_0@.len() == 1 && holds(
                    r->Ok_0@[0],
                    rows,
                    input@[mid as int].fields@.len() as int,
                )
            },
    {
        if input.len() < 2 {
            return Ok(input);
        }
        let bc = first_column(&self.build_columns);
        let pc = first_column(&self.probe_columns);
        Ok(hash_filter(&input, bc, pc, false))
    }
}

/// Left row `l` followed by each right row in turn.
pub open spec fn pair_rows(l: Seq<ValueView>, right: Seq<Seq<ValueView>>) -> Seq<Seq<ValueView>> {
    Seq::new(right.len(), |j: int| l + right[j])
}

/// Every left row with every right row, left-major.
pub open spec fn cross_rows(left: Seq<Seq<ValueView>>, right: Seq<Seq<ValueView>>) -> Seq<
    Seq<ValueView>,
>
    decreases left.len(),
{
    if left.len() == 0 {
        Seq::empty()
    } else {
        cross_rows(left.drop_last(), right) + pair_rows(left.last(), right)
    }
}

proof fn lemma_cross_rows_width(
    left: Seq<Seq<ValueView>>,
    right: Seq<Seq<ValueView>>,
    wl: int,
    wr: int,
)
    requires
        forall|r: int| 0 <= r < left.len() ==> (#[trigger] left[r]).len() == wl,
        forall|r: int| 0 <= r < right.len() ==> (#[trigger] right[r]).len() == wr,
    ensures
        cross_rows(left, right).len() == left.len() * right.len(),
        forall|r: int|
            0 <= r < cross_rows(left, right).len() ==> (#[trigger] cross_rows(left, right)[r]).len()
                == wl + wr,
    decreases left.len(),
{
    if left.len() > 0 {
        lemma_cross_rows_width(left.drop_last(), right, wl, wr);
        let a = cross_rows(left.drop_last(), right);
        let t = pair_rows(left.last(), right);
        assert(left.last() == left[left.len() - 1]);
        assert(a.len() + t.len() == left.len() * right.len()) by (nonlinear_arith)
            requires
                a.len() == (left.len() - 1) * right.len(),
                t.len() == right.len(),
        ;
        assert forall|r: int| 0 <= r < (a + t).len() implies (#[trigger] (a + t)[r]).len() == wl + wr by {
            if r < a.len() {
                assert((a + t)[r] == a[r]);
            } else {
                assert((a + t)[r] == t[r - a.len()]);
            }
        }
    }
}

impl PhysicalCrossProduct {
    /// Pairs every row of the first half of `input` with every row of the
    /// rest, left row first, as one chunk; no chunk where a side has no
    /// rows. With fewer than two input chunks the input is passed through.
    pub fn execute(&self, input: Vec<DataChunk>) -> (r: Result<Vec<DataChunk>, String>)
        requires
            input@.len() >= 2 ==> sides_uniform(input@, (input@.len() / 2) as int),
        ensures
            input@.len() < 2 ==> r == Ok::<Vec<DataChunk>, String>(input),
            input@.len() >= 2 ==> {
                let mid = input@.len() / 2;
                let left = all_rows(input@.subrange(0, mid as int));
                let right = all_rows(input@.subrange(mid as int, input@.len() as int));
                let w = (input@[0].fields@.len() + input@[mid as int].fields@.len()) as int;
                &&& r is Ok
                &&& (left.len() == 0 || right.len() == 0) ==> r->Ok_0@.len() == 0
                &&& (left.len() > 0 && right.len() > 0) ==> r->Ok_0@.len() == 1 && holds(
                    r->Ok_0@[0],
                    cross_rows(left, right),
                    w,
                )
            },
    {
        let n = input.len();
        if n < 2 {
            return Ok(input);
        }
        let mid = n / 2;
        let left = gather_rows(&input, 0, mid);
        let right = gather_rows(&input, mid, n);
        if left.len() == 0 || right.len() == 0 {
            return Ok(Vec::new());
        }
        let ghost lv = rows_view(left@);
        let ghost rv = rows_view(right@);
        let mut out: Vec<Vec<Value>> = Vec::new();
        let mut i: usize = 0;
        proof {
            assert(lv.subrange(0, 0) =~= Seq::<Seq<ValueView>>::empty());
            assert(rows_view(out@) =~= cross_rows(lv.subrange(0, 0), rv));
        }
        while i < left.len()
            invariant
                i <= left@.len(),
                lv == rows_view(left@),
                rv == rows_view(right@),
                rows_view(out@) == cross_rows(lv.subrange(0, i as int), rv),
            decreases left@.len() - i,
        {
            let ghost prefix = rows_view(out@);
            let mut j: usize = 0;
            proof {
                assert(lv[i as int] == rview(left@[i as int]@));
                assert(prefix + pair_rows(lv[i as int], rv).subrange(0, 0) =~= prefix);
            }
            while j < right.len()
                invariant
                    j <= right@.len(),
                    i < left@.len(),
                    lv == rows_view(left@),
                    rv == rows_view(right@),
                    lv[i as int] == rview(left@[i as int]@),
                    rows_view(out@) == prefix + pair_rows(lv[i as int], rv).subrange(0, j as int),
                decreases right@.len() - j,
            {
                let ghost before = out@;
                let row = concat_rows(&left[i], &right[j]);
                out.push(row);
                proof {
                    assert(rv[j as int] == rview(right@[j as int]@));
                    assert(rows_view(out@) =~= rows_view(before).push(rview(row@)));
                    assert(rows_view(out@) =~= prefix + pair_rows(lv[i as int], rv).subrange(
                        0,
                        j + 1,
                    ));
                }
                j = j + 1;
            }
            proof {
                assert(pair_rows(lv[i as int], rv).subrange(0, right@.len() as int) =~= pair_rows(
                    lv[i as int],
                    rv,
                ));
                assert(lv.subrange(0, i + 1).drop_last() =~= lv.subrange(0, i as int));
                assert(lv.subrange(0, i + 1).last() == lv[i as int]);
            }
            i = i + 1;
        }
        proof {
            assert(lv.subrange(0, left@.len() as int) =~= lv);
        }
        let ghost wl = input@[0].fields@.len() as int;
        let ghost wr = input@[mid as int].fields@.len() as int;
        proof {
            lemma_rows_width(input@.subrange(0, mid as int), wl);
            lemma_rows_width(input@.subrange(mid as int, n as int), wr);
            lemma_cross_rows_width(lv, rv, wl, wr);
            assert(out@.len() > 0) by (nonlinear_arith)
                requires
                    out@.len() == lv.len() * rv.len(),
                    lv.len() > 0,
                    rv.len() > 0,
            ;
            assert(rows_view(out@)[0].len() == out@[0]@.len());
        }
        let w = out[0].len();
        proof {
            assert forall|k: int| 0 <= k < out@.len() implies (#[trigger] out@[k])@.len() == w by {
                assert(rows_view(out@)[k].len() == out@[k]@.len());
            }
        }
        let ch = chunk_of_rows(&out, w);
        let mut result: Vec<DataChunk> = Vec::new();
        result.push(ch);
        Ok(result)
    }
}

/// The (chunk, row) position of each row of `chunks`, chunk after chunk.
pub open spec fn locs_of(chunks: Seq<DataChunk>) -> Seq<(int, int)>
    decreases chunks.len(),
{
    if chunks.len() == 0 {
        Seq::empty()
    } else {
        locs_of(chunks.drop_last()) + Seq::new(
            chunks.last().size as nat,
            |r: int| ((chunks.len() - 1) as int, r),
        )
    }
}

proof fn lemma_locs_of(chunks: Seq<DataChunk>)
    ensures
        locs_of(chunks).len() == all_rows(chunks).len(),
        forall|i: int|
            0 <= i < locs_of(chunks).len() ==> 0 <= (#[trigger] locs_of(chunks)[i]).0 < chunks.len(),
    decreases chunks.len(),
{
    if chunks.len() > 0 {
        lemma_locs_of(chunks.drop_last());
        let a = locs_of(chunks.drop_last());
        let t = Seq::new(chunks.last().size as nat, |r: int| ((chunks.len() - 1) as int, r));
        assert forall|i: int| 0 <= i < (a + t).len() implies 0 <= (#[trigger] (a + t)[i]).0
            < chunks.len() by {
            if i < a.len() {
                assert((a + t)[i] == a[i]);
            } else {
                assert((a + t)[i] == t[i - a.len()]);
            }
        }
    }
}

/// The (chunk, row) positions of the rows of `chunks[lo..hi]`, chunks
/// counted from `lo`.
fn gather_locs(chunks: &Vec<DataChunk>, lo: usize, hi: usize) -> (locs: Vec<(usize, usize)>)
    requires
        lo <= hi <= chunks@.len(),
    ensures
        locs@.len() == locs_of(chunks@.subrange(lo as int, hi as int)).len(),
        forall|i: int|
            0 <= i < locs@.len() ==> ((#[trigger] locs@[i]).0 as int, locs@[i].1 as int) == locs_of(
                chunks@.subrange(lo as int, hi as int),
            )[i],
{
    let mut locs: Vec<(usize, usize)> = Vec::new();
    let mut k: usize = lo;
    proof {
        assert(chunks@.subrange(lo as int, lo as int) =~= Seq::<DataChunk>::empty());
    }
    while k < hi
        invariant
            lo <= k <= hi <= chunks@.len(),
            locs@.len() == locs_of(chunks@.subrange(lo as int, k as int)).len(),
            forall|i: int|
                0 <= i < locs@.len() ==> ((#[trigger] locs@[i]).0 as int, locs@[i].1 as int)
                    == locs_of(chunks@.subrange(lo as int, k as int))[i],
        decreases hi - k,
    {
        let ghost before = locs_of(chunks@.subrange(lo as int, k as int));
        let size = chunks[k].size;
        let mut r: usize = 0;
        while r < size
            invariant
                r <= size,
                lo <= k < hi,
                locs@.len() == before.len() + r,
                forall|i: int|
                    0 <= i < before.len() ==> ((#[trigger] locs@[i]).0 as int, locs@[i].1 as int)
                        == before[i],
                forall|i: int|
                    0 <= i < r ==> (#[trigger] locs@[before.len() + i]) == ((k - lo) as usize, i as usize),
            decreases size - r,
        {
            locs.push((k - lo, r));
            r = r + 1;
        }
        proof {
            let s2 = chunks@.subrange(lo as int, k + 1);
            assert(s2.drop_last() =~= chunks@.subrange(lo as int, k as int));
            assert(s2.last() == chunks@[k as int]);
            let t = Seq::new(s2.last().size as nat, |x: int| ((s2.len() - 1) as int, x));
            assert(locs_of(s2) == before + t);
            assert forall|i: int| 0 <= i < locs@.len() implies ((#[trigger] locs@[i]).0 as int,
            locs@[i].1 as int) == locs_of(s2)[i] by {
                if i >= before.len() {
                    assert(locs@[before.len() + (i - before.len())] == ((k - lo) as usize, (i
                        - before.len()) as usize));
                }
            }
        }
        k = k + 1;
    }
    locs
}

/// Whether `row` has a non-NULL key in column `k` that hashes like `kp`
/// and equals it.
pub open spec fn hits(row: Seq<ValueView>, k: int, kp: ValueView) -> bool {
    &&& key_of(row, k) != ValueView::Null
    &&& hash_of(key_of(row, k)) == hash_of(kp)
    &&& value_eq(key_of(row, k), kp)
}

/// The first of the first `n` rows that `hits`.
pub open spec fn first_hit(rows: Seq<Seq<ValueView>>, k: int, kp: ValueView, n: int) -> Option<int>
    decreases n,
{
    if n <= 0 {
        None
    } else {
        match first_hit(rows, k, kp, n - 1) {
            Some(i) => Some(i),
            None => if hits(rows[n - 1], k, kp) {
                Some(n - 1)
            } else {
                None
            },
        }
    }
}

/// The first of the rows at `idx` whose key equals `kp`.
pub open spec fn first_in(rows: Seq<Seq<ValueView>>, k: int, kp: ValueView, idx: Seq<usize>) -> Option<
    int,
>
    decreases idx.len(),
{
    if idx.len() == 0 {
        None
    } else {
        match first_in(rows, k, kp, idx.drop_last()) {
            Some(i) => Some(i),
            None => if value_eq(key_of(rows[idx.last() as int], k), kp) {
                Some(idx.last() as int)
            } else {
                None
            },
        }
    }
}

proof fn lemma_first_in_append(
    rows: Seq<Seq<ValueView>>,
    k: int,
    kp: ValueView,
    a: Seq<usize>,
    b: Seq<usize>,
)
    ensures
        first_in(rows, k, kp, a + b) == match first_in(rows, k, kp, a) {
            Some(i) => Some(i),
            None => first_in(rows, k, kp, b),
        },
    decreases b.len(),
{
    if b.len() == 0 {
        assert(a + b =~= a);
    } else {
        lemma_first_in_append(rows, k, kp, a, b.drop_last());
        assert((a + b).drop_last() =~= a + b.drop_last());
        assert((a + b).last() == b.last());
    }
}

proof fn lemma_bucket_first(rows: Seq<Seq<ValueView>>, k: int, kp: ValueView, n: int)
    requires
        0 <= n <= rows.len() <= usize::MAX,
        kp != ValueView::Null,
    ensures
        first_in(rows, k, kp, bucket(rows, k, hash_of(kp), n)) == first_hit(rows, k, kp, n),
    decreases n,
{
    if n > 0 {
        let h = hash_of(kp);
        lemma_bucket_first(rows, k, kp, n - 1);
        let tail: Seq<usize> = if key_hash(rows[n - 1], k) == Some(h) {
            seq![(n - 1) as usize]
        } else {
            Seq::empty()
        };
        lemma_first_in_append(rows, k, kp, bucket(rows, k, h, n - 1), tail);
        assert(bucket(rows, k, h, n) == bucket(rows, k, h, n - 1) + tail);
        if key_hash(rows[n - 1], k) == Some(h) {
            assert(tail.drop_last() =~= Seq::<usize>::empty());
            assert(tail.last() as int == n - 1);
            assert(first_in(rows, k, kp, tail.drop_last()) is None);
            assert(hits(rows[n - 1], k, kp) == value_eq(key_of(rows[n - 1], k), kp));
            assert(first_in(rows, k, kp, tail) == if hits(rows[n - 1], k, kp) {
                Some(n - 1)
            } else {
                None
            });
        } else {
            assert(!hits(rows[n - 1], k, kp));
            assert(first_in(rows, k, kp, tail) is None);
        }
    }
}

proof fn lemma_first_in_range(rows: Seq<Seq<ValueView>>, k: int, kp: ValueView, idx: Seq<usize>)
    ensures
        first_in(rows, k, kp, idx) matches Some(i) ==> 0 <= i <= usize::MAX,
    decreases idx.len(),
{
    if idx.len() > 0 {
        lemma_first_in_range(rows, k, kp, idx.drop_last());
    }
}

/// The index of the first row at `idx` whose key in column `k` equals `kp`.
fn first_match(rows: &Vec<Vec<Value>>, k: usize, kp: &Value, idx: &Vec<usize>) -> (r: Option<usize>)
    requires
        forall|x: int| 0 <= x < idx@.len() ==> (#[trigger] idx@[x]) < rows@.len(),
    ensures
        match first_in(rows_view(rows@), k as int, vview(*kp), idx@) {
            Some(i) => r == Some(i as usize),
            None => r is None,
        },
        r matches Some(i) ==> i < rows@.len(),
{
    let ghost rv = rows_view(rows@);
    let mut j: usize = 0;
    proof {
        assert(idx@.subrange(0, 0) =~= Seq::<usize>::empty());
    }
    while j < idx.len()
        invariant
            j <= idx@.len(),
            rv == rows_view(rows@),
            forall|x: int| 0 <= x < idx@.len() ==> (#[trigger] idx@[x]) < rows@.len(),
            first_in(rv, k as int, vview(*kp), idx@.subrange(0, j as int)) is None,
        decreases idx@.len() - j,
    {
        let i = idx[j];
        let key = row_key(&rows[i], k);
        proof {
            assert(rv[i as int] == rview(rows@[i as int]@));
            assert(idx@.subrange(0, j + 1).drop_last() =~= idx@.subrange(0, j as int));
            assert(idx@.subrange(0, j + 1).last() == i);
        }
        if values_equal(&key, kp) {
            proof {
                assert(first_in(rv, k as int, vview(*kp), idx@.subrange(0, j + 1)) == Some(i as int));
                lemma_first_in_append(
                    rv,
                    k as int,
                    vview(*kp),
                    idx@.subrange(0, j + 1),
                    idx@.subrange(j + 1, idx@.len() as int),
                );
                assert(idx@.subrange(0, j + 1) + idx@.subrange(j + 1, idx@.len() as int) =~= idx@);
            }
            return Some(i);
        }
        j = j + 1;
    }
    proof {
        assert(idx@.subrange(0, idx@.len() as int) =~= idx@);
    }
    None
}

/// The chunks of build side `s` when each side has `g` chunks.
pub open spec fn side_of(input: Seq<DataChunk>, s: int, g: int) -> Seq<DataChunk> {
    input.subrange(s * g, s * g + g)
}

/// What build sides `0..s` add to the output row of a probe key `kp`: for
/// each side in order, the row of `input` at the (chunk, row) position that
/// the side's first hitting row has within its side; `None` where some side
/// has no hitting row.
pub open spec fn payloads(input: Seq<DataChunk>, g: int, bc: int, kp: ValueView, s: int) -> Option<
    Seq<ValueView>,
>
    decreases s,
{
    if s <= 0 {
        Some(Seq::empty())
    } else {
        match payloads(input, g, bc, kp, s - 1) {
            None => None,
            Some(pre) => {
                let side = side_of(input, s - 1, g);
                let rows = all_rows(side);
                match first_hit(rows, bc, kp, rows.len() as int) {
                    None => None,
                    Some(i) => Some(
                        pre + row_of(input[locs_of(side)[i].0], locs_of(side)[i].1),
                    ),
                }
            },
        }
    }
}

/// The rows of an intersection: for each probe row in order whose key in
/// column `pc` is non-NULL and hit on every one of the `nb` sides, the
/// probe row followed by the sides' payloads.
pub open spec fn intersect_rows(
    input: Seq<DataChunk>,
    probe: Seq<Seq<ValueView>>,
    g: int,
    nb: int,
    bc: int,
    pc: int,
) -> Seq<Seq<ValueView>>
    decreases probe.len(),
{
    if probe.len() == 0 {
        Seq::empty()
    } else {
        let p = probe.last();
        let kp = key_of(p, pc);
        intersect_rows(input, probe.drop_last(), g, nb, bc, pc) + if kp == ValueView::Null {
            Seq::empty()
        } else {
            match payloads(input, g, bc, kp, nb) {
                Some(pl) => seq![p + pl],
                None => Seq::empty(),
            }
        }
    }
}

/// Number of build sides: the given one, at least 1.
pub open spec fn side_count(k: u32) -> int {
    if k > 0 {
        k as int
    } else {
        1
    }
}

/// Number of leading input chunks that belong to the build sides: the
/// share `nb / (nb + 1)` of `n`, rounded down to whole sides' worth, and
/// at most `n - 1`.
pub open spec fn build_chunk_count(n: int, nb: int) -> int {
    let t = (n / (nb + 1)) * nb;
    if t < n - 1 {
        t
    } else {
        n - 1
    }
}

proof fn lemma_payload_width(input: Seq<DataChunk>, g: int, bc: int, kp: ValueView, s: int, w: int)
    requires
        uniform_width(input, w),
        0 <= g,
        0 <= s,
        (s - 1) * g + g <= input.len(),
    ensures
        payloads(input, g, bc, kp, s) matches Some(pl) ==> pl.len() == s * w,
    decreases s,
{
    if s == 0 {
        assert(s * w == 0) by (nonlinear_arith)
            requires
                s == 0,
        ;
    }
    if s > 0 {
        if s > 1 {
            assert((s - 2) * g + g <= input.len()) by (nonlinear_arith)
                requires
                    (s - 1) * g + g <= input.len(),
                    g >= 0,
            ;
        }
        lemma_payload_width(input, g, bc, kp, s - 1, w);
        let side = side_of(input, s - 1, g);
        assert(0 <= (s - 1) * g) by (nonlinear_arith)
            requires
                s >= 1,
                g >= 0,
        ;
        lemma_locs_of(side);
        let rows = all_rows(side);
        match payloads(input, g, bc, kp, s - 1) {
            Some(pre) => {
                assert(pre.len() == (s - 1) * w);
                match first_hit(rows, bc, kp, rows.len() as int) {
                    Some(i) => {
                        lemma_first_hit_range(rows, bc, kp, rows.len() as int);
                        let ci = locs_of(side)[i].0;
                        assert(0 <= ci < side.len());
                        assert(side.len() == g);
                        assert(g <= input.len()) by (nonlinear_arith)
                            requires
                                (s - 1) * g + g <= input.len(),
                                s >= 1,
                                g >= 0,
                        ;
                        assert(input[ci].fields@.len() == w);
                        let row = row_of(input[ci], locs_of(side)[i].1);
                        assert(row.len() == w);
                        assert(payloads(input, g, bc, kp, s) == Some(pre + row));
                        assert(s * w == (s - 1) * w + w) by (nonlinear_arith);
                    },
                    None => {},
                }
            },
            None => {},
        }
    }
}

proof fn lemma_first_hit_range(rows: Seq<Seq<ValueView>>, k: int, kp: ValueView, n: int)
    ensures
        first_hit(rows, k, kp, n) matches Some(i) ==> 0 <= i < n,
    decreases n,
{
    if n > 0 {
        lemma_first_hit_range(rows, k, kp, n - 1);
    }
}

proof fn lemma_intersect_width(
    input: Seq<DataChunk>,
    probe: Seq<Seq<ValueView>>,
    g: int,
    nb: int,
    bc: int,
    pc: int,
    w: int,
)
    requires
        uniform_width(input, w),
        0 <= g,
        0 <= nb,
        (nb - 1) * g + g <= input.len(),
        forall|r: int| 0 <= r < probe.len() ==> (#[trigger] probe[r]).len() == w,
    ensures
        forall|r: int|
            0 <= r < intersect_rows(input, probe, g, nb, bc, pc).len() ==> (
            #[trigger] intersect_rows(input, probe, g, nb, bc, pc)[r]).len() == w + nb * w,
    decreases probe.len(),
{
    if probe.len() > 0 {
        lemma_intersect_width(input, probe.drop_last(), g, nb, bc, pc, w);
        let p = probe.last();
        assert(p == probe[probe.len() - 1]);
        let kp = key_of(p, pc);
        lemma_payload_width(input, g, bc, kp, nb, w);
        let a = intersect_rows(input, probe.drop_last(), g, nb, bc, pc);
        let t: Seq<Seq<ValueView>> = if kp == ValueView::Null {
            Seq::empty()
        } else {
            match payloads(input, g, bc, kp, nb) {
                Some(pl) => seq![p + pl],
                None => Seq::empty(),
            }
        };
        assert(intersect_rows(input, probe, g, nb, bc, pc) == a + t);
        assert forall|r: int| 0 <= r < (a + t).len() implies (#[trigger] (a + t)[r]).len() == w + nb
            * w by {
            if r < a.len() {
                assert((a + t)[r] == a[r]);
            } else {
                assert((a + t)[r] == t[r - a.len()]);
            }
        }
    }
}

/// Whether `t` buckets the rows by the hash of their non-NULL keys in
/// column `k`, each bucket in row order.
pub open spec fn indexes(rows: Seq<Seq<ValueView>>, k: int, t: Map<u64, Vec<usize>>) -> bool {
    forall|h: u64|
        #[trigger] bucket(rows, k, h, rows.len() as int) == if t.contains_key(h) {
            t[h]@
        } else {
            Seq::<usize>::empty()
        }
}

/// Whether the positions `v` are those of `l`.
pub open spec fn same_locs(v: Seq<(usize, usize)>, l: Seq<(int, int)>) -> bool {
    &&& v.len() == l.len()
    &&& forall|i: int| 0 <= i < v.len() ==> ((#[trigger] v[i]).0 as int, v[i].1 as int) == l[i]
}

proof fn lemma_side_fits(tb: int, nb: int, g: int, s: int)
    requires
        nb >= 1,
        tb >= 0,
        g == tb / nb,
        0 <= s < nb,
    ensures
        0 <= s * g,
        s * g + g <= tb,
        (s + 1) * g == s * g + g,
{
    assert(nb * g <= tb) by (nonlinear_arith)
        requires
            nb >= 1,
            tb >= 0,
            g == tb / nb,
    ;
    assert(s * g + g <= nb * g && 0 <= s * g && (s + 1) * g == s * g + g) by (nonlinear_arith)
        requires
            0 <= s < nb,
            g >= 0,
    ;
}

impl PhysicalIntersect {
    /// Intersects the probe side with several build sides on one key.
    ///
    /// Of the `n` input chunks the first `build_chunk_count(n, nb)` belong
    /// to the `nb` build sides (`num_build_sides`, at least 1), an equal run
    /// of chunks each, and the rest are the probe side. A probe row whose
    /// key (column `probe_key_col`) is non-NULL and hit on every side (a
    /// row with a non-NULL key in column `build_key_col` that hashes alike
    /// and is equal) gives one output row: the probe row, then for each
    /// side in order the row of the input at the chunk and row position
    /// that the side's first hitting row has within its side. The rows come
    /// back as one chunk, or no chunk where none matched; with fewer than
    /// two input chunks the input is passed through.
    pub fn execute(&self, input: Vec<DataChunk>) -> (r: Result<Vec<DataChunk>, String>)
        requires
            input@.len() >= 2 ==> uniform_width(input@, input@[0].fields@.len() as int),
        ensures
            input@.len() < 2 ==> r == Ok::<Vec<DataChunk>, String>(input),
            input@.len() >= 2 ==> {
                let n = input@.len() as int;
                let nb = side_count(self.num_build_sides);
                let tb = build_chunk_count(n, nb);
                let g = tb / nb;
                let probe = all_rows(input@.subrange(tb, n));
                let rows = intersect_rows(
                    input@,
                    probe,
                    g,
                    nb,
                    self.build_key_col as int,
                    self.probe_key_col as int,
                );
                let w = input@[0].fields@.len() as int;
                &&& r is Ok
                &&& rows.len() == 0 ==> r->Ok_0@.len() == 0
                &&& rows.len() > 0 ==> r->Ok_0@.len() == 1 && holds(r->Ok_0@[0], rows, w + nb * w)
            },
    {
        let n = input.len();
        if n < 2 {
            return Ok(input);
        }
        let nb: usize = if self.num_build_sides > 0 {
            self.num_build_sides as usize
        } else {
            1
        };
        let n64 = n as u64;
        let nb64 = nb as u64;
        let d = nb64 + 1;
        let q = n64 / d;
        proof {
            assert(q * nb64 <= n64) by (nonlinear_arith)
                requires
                    q == n64 / d,
                    d == nb64 + 1,
                    nb64 >= 1,
            ;
        }
        let t64 = q * nb64;
        let tb: usize = if t64 < n64 - 1 {
            t64 as usize
        } else {
            n - 1
        };
        let g = tb / nb;
        let bc = self.build_key_col as usize;
        let pc = self.probe_key_col as usize;
        let ghost w = input@[0].fields@.len() as int;
        proof {
            assert(nb as int == side_count(self.num_build_sides));
            assert(tb as int == build_chunk_count(n as int, nb as int));
        }
        let mut side_rows: Vec<Vec<Vec<Value>>> = Vec::new();
        let mut side_locs: Vec<Vec<(usize, usize)>> = Vec::new();
        let mut tables: Vec<HashMap<u64, Vec<usize>>> = Vec::new();
        let mut s: usize = 0;
        let mut lo: usize = 0;
        while s < nb
            invariant
                n == input@.len(),
                nb >= 1,
                tb < n,
                g == tb / nb,
                s <= nb,
                lo == s * g,
                side_rows@.len() == s,
                side_locs@.len() == s,
                tables@.len() == s,
                forall|t: int|
                    0 <= t < s ==> rows_view((#[trigger] side_rows@[t])@) == all_rows(
                        side_of(input@, t, g as int),
                    ),
                forall|t: int|
                    0 <= t < s ==> same_locs(
                        (#[trigger] side_locs@[t])@,
                        locs_of(side_of(input@, t, g as int)),
                    ),
                forall|t: int|
                    0 <= t < s ==> indexes(
                        rows_view(side_rows@[t]@),
                        bc as int,
                        (#[trigger] tables@[t])@,
                    ),
            decreases nb - s,
        {
            proof {
                lemma_side_fits(tb as int, nb as int, g as int, s as int);
            }
            let hi = lo + g;
            let rows = gather_rows(&input, lo, hi);
            let locs = gather_locs(&input, lo, hi);
            let table = build_hash_table(&rows, bc);
            proof {
                assert(rows_view(rows@).len() == rows@.len());
                assert(indexes(rows_view(rows@), bc as int, table@));
                assert(same_locs(locs@, locs_of(side_of(input@, s as int, g as int))));
            }
            side_rows.push(rows);
            side_locs.push(locs);
            tables.push(table);
            lo = hi;
            s = s + 1;
        }
        let probe = gather_rows(&input, tb, n);
        let ghost prows = rows_view(probe@);
        let mut out: Vec<Vec<Value>> = Vec::new();
        let mut i: usize = 0;
        proof {
            assert(prows.subrange(0, 0) =~= Seq::<Seq<ValueView>>::empty());
            assert(rows_view(out@) =~= intersect_rows(
                input@,
                prows.subrange(0, 0),
                g as int,
                nb as int,
                bc as int,
                pc as int,
            ));
        }
        while i < probe.len()
            invariant
                n == input@.len(),
                nb >= 1,
                tb < n,
                g == tb / nb,
                i <= probe@.len(),
                prows == rows_view(probe@),
                side_rows@.len() == nb,
                side_locs@.len() == nb,
                tables@.len() == nb,
                forall|t: int|
                    0 <= t < nb ==> rows_view((#[trigger] side_rows@[t])@) == all_rows(
                        side_of(input@, t, g as int),
                    ),
                forall|t: int|
                    0 <= t < nb ==> same_locs(
                        (#[trigger] side_locs@[t])@,
                        locs_of(side_of(input@, t, g as int)),
                    ),
                forall|t: int|
                    0 <= t < nb ==> indexes(
                        rows_view(side_rows@[t]@),
                        bc as int,
                        (#[trigger] tables@[t])@,
                    ),
                rows_view(out@) == intersect_rows(
                    input@,
                    prows.subrange(0, i as int),
                    g as int,
                    nb as int,
                    bc as int,
                    pc as int,
                ),
            decreases probe@.len() - i,
        {
            let ghost p = prows[i as int];
            let ghost prefix = rows_view(out@);
            proof {
                assert(p == rview(probe@[i as int]@));
                assert(prows.subrange(0, i + 1).drop_last() =~= prows.subrange(0, i as int));
                assert(prows.subrange(0, i + 1).last() == p);
            }
            let kp = row_key(&probe[i], pc);
            if !matches!(kp, Value::Null) {
                let h = value_hash(&kp);
                let mut payload: Vec<Value> = Vec::new();
                let mut ok = true;
                let mut s: usize = 0;
                proof {
                    assert(rview(payload@) =~= Seq::<ValueView>::empty());
                }
                while s < nb
                    invariant
                        n == input@.len(),
                        nb >= 1,
                        tb < n,
                        g == tb / nb,
                        s <= nb,
                        h == hash_of(vview(kp)),
                        vview(kp) != ValueView::Null,
                        side_rows@.len() == nb,
                        side_locs@.len() == nb,
                        tables@.len() == nb,
                        forall|t: int|
                            0 <= t < nb ==> rows_view((#[trigger] side_rows@[t])@) == all_rows(
                                side_of(input@, t, g as int),
                            ),
                        forall|t: int|
                            0 <= t < nb ==> same_locs(
                                (#[trigger] side_locs@[t])@,
                                locs_of(side_of(input@, t, g as int)),
                            ),
                        forall|t: int|
                            0 <= t < nb ==> indexes(
                                rows_view(side_rows@[t]@),
                                bc as int,
                                (#[trigger] tables@[t])@,
                            ),
                        ok ==> payloads(input@, g as int, bc as int, vview(kp), s as int) == Some(
                            rview(payload@),
                        ),
                        !ok ==> payloads(input@, g as int, bc as int, vview(kp), s as int) is None,
                    decreases nb - s,
                {
                    if ok {
                        let ghost side = side_of(input@, s as int, g as int);
                        let ghost srows = all_rows(side);
                        let slen = side_rows[s].len();
                        proof {
                            lemma_side_fits(tb as int, nb as int, g as int, s as int);
                            assert(side.len() == g);
                            assert(rows_view(side_rows@[s as int]@) == srows);
                            assert(srows.len() == side_rows@[s as int]@.len());
                            assert(srows.len() == slen);
                            lemma_bucket_first(srows, bc as int, vview(kp), srows.len() as int);
                            lemma_bucket_bound(srows, bc as int, h, srows.len() as int);
                            lemma_locs_of(side);
                            assert(same_locs(side_locs@[s as int]@, locs_of(side)));
                            assert(indexes(srows, bc as int, tables@[s as int]@));
                            assert(bucket(srows, bc as int, h, srows.len() as int) == if tables@[s as int]@.contains_key(h) {
                                tables@[s as int]@[h]@
                            } else {
                                Seq::<usize>::empty()
                            });
                        }
                        match tables[s].get(&h) {
                            None => {
                                ok = false;
                                proof {
                                    assert(bucket(srows, bc as int, h, srows.len() as int) =~= Seq::<usize>::empty());
                                }
                            },
                            Some(bk) => {
                                let found = first_match(&side_rows[s], bc, &kp, bk);
                                match found {
                                    None => {
                                        ok = false;
                                    },
                                    Some(j) => {
                                        let ghost pre = rview(payload@);
                                        let loc = side_locs[s][j];
                                        let ci = loc.0;
                                        let r = loc.1;
                                        proof {
                                            assert(locs_of(side)[j as int] == (ci as int, r as int));
                                            assert(ci < g);
                                        }
                                        let prow = input[ci].row(r);
                                        payload = concat_rows(&payload, &prow);
                                        proof {
                                            assert(rview(payload@) == pre + row_of(
                                                input@[ci as int],
                                                r as int,
                                            ));
                                            assert(tables@[s as int]@.contains_key(h));
                                            assert(bk@ == bucket(srows, bc as int, h, srows.len() as int));
                                            lemma_first_in_range(srows, bc as int, vview(kp), bk@);
                                            assert(first_hit(srows, bc as int, vview(kp), srows.len() as int) == Some(j as int));
                                            assert(side_of(input@, (s + 1) - 1, g as int) == side);
                                            assert(payloads(input@, g as int, bc as int, vview(kp), s + 1)
                                                == Some(pre + row_of(
                                                input@[locs_of(side)[j as int].0],
                                                locs_of(side)[j as int].1,
                                            )));
                                        }
                                    },
                                }
                            },
                        }
                    }
                    s = s + 1;
                }
                if ok {
                    let row = concat_rows(&probe[i], &payload);
                    out.push(row);
                    proof {
                        assert(rows_view(out@) =~= prefix.push(rview(row@)));
                    }
                }
                proof {
                    assert(intersect_rows(
                        input@,
                        prows.subrange(0, i + 1),
                        g as int,
                        nb as int,
                        bc as int,
                        pc as int,
                    ) =~= rows_view(out@));
                }
            } else {
                proof {
                    assert(intersect_rows(
                        input@,
                        prows.subrange(0, i + 1),
                        g as int,
                        nb as int,
                        bc as int,
                        pc as int,
                    ) =~= rows_view(out@));
                }
            }
            i = i + 1;
        }
        proof {
            assert(prows.subrange(0, probe@.len() as int) =~= prows);
        }
        if out.len() == 0 {
            return Ok(Vec::new());
        }
        proof {
            lemma_rows_width(input@.subrange(tb as int, n as int), w);
            assert(uniform_width(input@.subrange(tb as int, n as int), w)) by {
                assert forall|k: int| 0 <= k < input@.subrange(tb as int, n as int).len() implies (
                #[trigger] input@.subrange(tb as int, n as int)[k]).fields@.len() == w by {
                    assert(input@.subrange(tb as int, n as int)[k] == input@[tb + k]);
                }
            }
            lemma_rows_width(input@.subrange(tb as int, n as int), w);
            assert(0 <= (nb - 1) * g && (nb - 1) * g + g <= tb) by {
                lemma_side_fits(tb as int, nb as int, g as int, (nb - 1) as int);
            }
            lemma_intersect_width(input@, prows, g as int, nb as int, bc as int, pc as int, w);
            assert(rows_view(out@)[0].len() == out@[0]@.len());
        }
        let wout = out[0].len();
        proof {
            assert forall|k: int| 0 <= k < out@.len() implies (#[trigger] out@[k])@.len() == wout by {
                assert(rows_view(out@)[k].len() == out@[k]@.len());
            }
        }
        let ch = chunk_of_rows(&out, wout);
        let mut result: Vec<DataChunk> = Vec::new();
        result.push(ch);
        Ok(result)
    }
}

/// Total number of rows of the chunks.
pub open spec fn total_size(chunks: Seq<DataChunk>) -> int
    decreases chunks.len(),
{
    if chunks.len() == 0 {
        0
    } else {
        total_size(chunks.drop_last()) + chunks.last().size as int
    }
}

/// The pieces a limit passes, from chunk `i` on, given that `skipped` rows
/// lie before chunk `i`, `skip` rows are to be skipped in all and at most
/// `remaining` rows may still pass: for each chunk that reaches past the
/// skipped rows, its index, the first row it passes and how many rows it
/// passes (chunks that pass none are left out).
pub open spec fn limit_plan(
    chunks: Seq<DataChunk>,
    i: int,
    skipped: int,
    skip: int,
    remaining: int,
) -> Seq<(int, int, int)>
    decreases chunks.len() - i,
{
    if i >= chunks.len() || i < 0 || remaining <= 0 {
        Seq::empty()
    } else {
        let z = chunks[i].size as int;
        if skipped + z <= skip {
            limit_plan(chunks, i + 1, skipped + z, skip, remaining)
        } else {
            let start = if skipped < skip {
                skip - skipped
            } else {
                0
            };
            let avail = if z > start {
                z - start
            } else {
                0
            };
            let take = if avail < remaining {
                avail
            } else {
                remaining
            };
            if take == 0 {
                limit_plan(chunks, i + 1, skipped + z, skip, remaining)
            } else {
                seq![(i, start, take)] + limit_plan(chunks, i + 1, skipped + z, skip, remaining - take)
            }
        }
    }
}

proof fn lemma_total_size_prefix(chunks: Seq<DataChunk>, i: int)
    requires
        0 <= i < chunks.len(),
    ensures
        total_size(chunks.subrange(0, i + 1)) == total_size(chunks.subrange(0, i)) + chunks[i].size,
        total_size(chunks.subrange(0, i + 1)) <= total_size(chunks),
    decreases chunks.len(),
{
    assert(chunks.subrange(0, i + 1).drop_last() =~= chunks.subrange(0, i));
    if i + 1 < chunks.len() {
        lemma_total_size_prefix(chunks.drop_last(), i);
        assert(chunks.drop_last().subrange(0, i + 1) =~= chunks.subrange(0, i + 1));
        assert(chunks.drop_last().subrange(0, i) =~= chunks.subrange(0, i));
        if i + 1 < chunks.len() - 1 {
            lemma_total_size_prefix(chunks.drop_last(), i + 1);
            assert(chunks.drop_last().subrange(0, i + 2) =~= chunks.subrange(0, i + 2));
        } else {
            assert(chunks.drop_last().subrange(0, i + 1) =~= chunks.drop_last());
        }
    } else {
        assert(chunks.subrange(0, i + 1) =~= chunks);
    }
}

impl PhysicalLimit {
    /// Skips the first `offset` rows of the input, then passes at most
    /// `limit` rows, chunk by chunk: a chunk passed whole is passed as it
    /// is, a part of a chunk as a new chunk holding those rows; chunks that
    /// pass no row are dropped (see `limit_plan`).
    pub fn execute(&self, input: Vec<DataChunk>) -> (r: Result<Vec<DataChunk>, String>)
        requires
            total_size(input@) <= u64::MAX,
        ensures
            r is Ok,
            ({
                let plan = limit_plan(input@, 0, 0, self.offset as int, self.limit as int);
                let out = r->Ok_0@;
                &&& out.len() == plan.len()
                &&& forall|k: int|
                    0 <= k < plan.len() ==> {
                        let (i, st, tk) = #[trigger] plan[k];
                        if st == 0 && tk == input@[i].size {
                            out[k] == input@[i]
                        } else {
                            holds(
                                out[k],
                                rows_of(input@[i]).subrange(st, st + tk),
                                input@[i].fields@.len() as int,
                            )
                        }
                    }
            }),
    {
        let ghost orig = input@;
        let mut input = input;
        let mut remaining: u64 = self.limit;
        let skip: u64 = self.offset;
        let mut skipped: u64 = 0;
        let mut output: Vec<DataChunk> = Vec::new();
        let mut i: usize = 0;
        let n = input.len();
        proof {
            assert(orig.subrange(0, 0) =~= Seq::<DataChunk>::empty());
        }
        while i < n && remaining > 0
            invariant
                n == input@.len(),
                orig.len() == n,
                i <= n,
                total_size(orig) <= u64::MAX,
                skipped as int == total_size(orig.subrange(0, i as int)),
                forall|k: int| i <= k < n ==> input@[k] == orig[k],
                output@.len() <= limit_plan(orig, 0, 0, skip as int, self.limit as int).len(),
                limit_plan(orig, 0, 0, skip as int, self.limit as int) == limit_plan(
                    orig,
                    0,
                    0,
                    skip as int,
                    self.limit as int,
                ).subrange(0, output@.len() as int) + limit_plan(
                    orig,
                    i as int,
                    skipped as int,
                    skip as int,
                    remaining as int,
                ),
                forall|k: int|
                    0 <= k < output@.len() ==> {
                        let (ci, st, tk) = #[trigger] limit_plan(
                            orig,
                            0,
                            0,
                            skip as int,
                            self.limit as int,
                        )[k];
                        if st == 0 && tk == orig[ci].size {
                            output@[k] == orig[ci]
                        } else {
                            holds(
                                output@[k],
                                rows_of(orig[ci]).subrange(st, st + tk),
                                orig[ci].fields@.len() as int,
                            )
                        }
                    },
                skip == self.offset,
            decreases n - i,
        {
            let ghost plan = limit_plan(orig, 0, 0, skip as int, self.limit as int);
            let ghost olen = output@.len();
            let ghost old_skipped = skipped as int;
            let ghost old_remaining = remaining as int;
            proof {
                lemma_total_size_prefix(orig, i as int);
            }
            let z = input[i].size;
            let z64 = z as u64;
            if skipped + z64 <= skip {
                skipped = skipped + z64;
            } else {
                let start: u64 = if skipped < skip {
                    skip - skipped
                } else {
                    0
                };
                skipped = skipped + z64;
                let avail: u64 = if z64 > start {
                    z64 - start
                } else {
                    0
                };
                let take: u64 = if avail < remaining {
                    avail
                } else {
                    remaining
                };
                if take > 0 {
                    remaining = remaining - take;
                    let st = start as usize;
                    let tk = take as usize;
                    proof {
                        assert(limit_plan(orig, i as int, old_skipped, skip as int, old_remaining)
                            == seq![(i as int, st as int, tk as int)] + limit_plan(
                            orig,
                            i + 1,
                            skipped as int,
                            skip as int,
                            remaining as int,
                        ));
                        let rest = limit_plan(orig, i as int, old_skipped, skip as int, old_remaining);
                        assert(plan == plan.subrange(0, olen as int) + rest);
                        assert(rest[0] == (i as int, st as int, tk as int));
                        assert(plan[olen as int] == rest[0]);
                        assert(plan.subrange(0, olen as int + 1) =~= plan.subrange(0, olen as int).push(
                            (i as int, st as int, tk as int),
                        ));
                        assert(plan =~= plan.subrange(0, olen as int + 1) + limit_plan(
                            orig,
                            i + 1,
                            skipped as int,
                            skip as int,
                            remaining as int,
                        ));
                    }
                    if st == 0 && tk == z {
                        let mut ch = DataChunk { fields: Vec::new(), size: 0 };
                        input.set_and_swap(i, &mut ch);
                        output.push(ch);
                    } else {
                        let ch = &input[i];
                        let mut rows: Vec<Vec<Value>> = Vec::new();
                        let mut k: usize = 0;
                        while k < tk
                            invariant
                                k <= tk,
                                st + tk <= ch.size,
                                rows@.len() == k,
                                forall|x: int|
                                    0 <= x < k ==> #[trigger] rview(rows@[x]@) == row_of(*ch, st + x),
                            decreases tk - k,
                        {
                            let row = ch.row(st + k);
                            rows.push(row);
                            k = k + 1;
                        }
                        let w = ch.fields.len();
                        proof {
                            assert forall|x: int| 0 <= x < rows@.len() implies (
                            #[trigger] rows@[x])@.len() == w by {
                                assert(rview(rows@[x]@).len() == rows@[x]@.len());
                            }
                            assert(rows_view(rows@) =~= rows_of(*ch).subrange(st as int, st + tk));
                        }
                        let piece = chunk_of_rows(&rows, w);
                        output.push(piece);
                    }
                }
            }
            proof {
                assert(orig.subrange(0, i + 1).drop_last() =~= orig.subrange(0, i as int));
            }
            i = i + 1;
        }
        proof {
            let plan = limit_plan(orig, 0, 0, skip as int, self.limit as int);
            assert(limit_plan(orig, i as int, skipped as int, skip as int, remaining as int) =~= Seq::<
                (int, int, int),
            >::empty());
            assert(plan.subrange(0, output@.len() as int).len() == output@.len());
        }
        Ok(output)
    }
}

/// The message of a semi-masker whose key column is missing.
pub open spec fn key_column_message(key_column: nat, fields: nat) -> Seq<char> {
    "SemiMasker: key_column "@ + crate::node_group::decimal(key_column) + " out of bounds ("@
        + crate::node_group::decimal(fields) + " fields)"@
}

impl PhysicalSemiMasker {
    /// Adds to the mask's shared set the node offsets carried by the first
    /// input chunk's key column (a node id's offset, or a 64-bit integer
    /// taken as one), then passes the input through. An empty input, or a
    /// first chunk without columns, is passed through as it is; a key
    /// column the first chunk lacks is an error.
    pub fn execute(&self, input: Vec<DataChunk>) -> (r: Result<Vec<DataChunk>, String>)
        ensures
            (input@.len() == 0 || input@[0].fields@.len() == 0) ==> r == Ok::<
                Vec<DataChunk>,
                String,
            >(input),
            (input@.len() > 0 && input@[0].fields@.len() > 0 && self.key_column
                >= input@[0].fields@.len()) ==> (r matches Err(m) && m@ == key_column_message(
                self.key_column as nat,
                input@[0].fields@.len() as nat,
            )),
            (input@.len() > 0 && input@[0].fields@.len() > 0 && self.key_column
                < input@[0].fields@.len()) ==> r == Ok::<Vec<DataChunk>, String>(input),
    {
        if input.len() == 0 || input[0].fields.len() == 0 {
            return Ok(input);
        }
        let nf = input[0].fields.len();
        if self.key_column >= nf {
            let mut m = String::new();
            crate::text::push_str(&mut m, "SemiMasker: key_column ");
            crate::node_group::push_decimal(&mut m, self.key_column as u64);
            crate::text::push_str(&mut m, " out of bounds (");
            crate::node_group::push_decimal(&mut m, nf as u64);
            crate::text::push_str(&mut m, " fields)");
            proof {
                assert(m@ =~= key_column_message(self.key_column as nat, nf as nat));
            }
            return Err(m);
        }
        let k = self.key_column;
        let mut i: usize = 0;
        while i < input[0].size
            invariant
                input@.len() > 0,
                i <= input@[0].size,
            decreases input@[0].size - i,
        {
            let key = input[0].get_value(k, i);
            match key {
                Value::InternalID { table_id: _, offset } => {
                    self.mask.mask(offset);
                },
                Value::Int64(x) => {
                    self.mask.mask(x as u64);
                },
                _ => {},
            }
            i = i + 1;
        }
        Ok(input)
    }
}

/// Whether every column of the chunk holds exactly `size` values.
pub open spec fn full(ch: DataChunk) -> bool {
    forall|c: int| 0 <= c < ch.fields@.len() ==> (#[trigger] ch.fields@[c])@.len() == ch.size
}

/// Whether every chunk is `full`.
pub open spec fn all_full(chunks: Seq<DataChunk>) -> bool {
    forall|i: int| 0 <= i < chunks.len() ==> full(#[trigger] chunks[i])
}

/// Whether some row of `kept` equals `r`.
pub open spec fn contains_row(kept: Seq<Seq<ValueView>>, r: Seq<ValueView>) -> bool {
    exists|k: int| 0 <= k < kept.len() && list_eq(#[trigger] kept[k], r)
}

/// The rows without those equal to an earlier kept row, in order.
pub open spec fn distinct_rows(rows: Seq<Seq<ValueView>>) -> Seq<Seq<ValueView>>
    decreases rows.len(),
{
    if rows.len() == 0 {
        Seq::empty()
    } else {
        let kept = distinct_rows(rows.drop_last());
        if contains_row(kept, rows.last()) {
            kept
        } else {
            kept.push(rows.last())
        }
    }
}

/// The message of a UNION whose sides differ in their number of columns.
pub open spec fn union_mismatch_message(left: nat, right: nat) -> Seq<char> {
    "UNION column count mismatch: left has "@ + crate::node_group::decimal(left)
        + " columns, right has "@ + crate::node_group::decimal(right) + " columns"@
}

fn rows_equal(a: &Vec<Value>, b: &Vec<Value>) -> (r: bool)
    ensures
        r == list_eq(rview(a@), rview(b@)),
{
    proof {
        crate::chunk::lemma_list_eq(rview(a@), rview(b@));
    }
    if a.len() != b.len() {
        return false;
    }
    let mut i: usize = 0;
    while i < a.len()
        invariant
            i <= a@.len(),
            a@.len() == b@.len(),
            list_eq(rview(a@), rview(b@)) <==> (rview(a@).len() == rview(b@).len() && forall|k: int|
                0 <= k < rview(a@).len() ==> value_eq(#[trigger] rview(a@)[k], rview(b@)[k])),
            forall|k: int| 0 <= k < i ==> value_eq(#[trigger] rview(a@)[k], rview(b@)[k]),
        decreases a@.len() - i,
    {
        proof {
            assert(rview(a@)[i as int] == vview(a@[i as int]));
            assert(rview(b@)[i as int] == vview(b@[i as int]));
        }
        if !values_equal(&a[i], &b[i]) {
            return false;
        }
        i = i + 1;
    }
    true
}

/// `rows` without those equal to an earlier kept row.
fn distinct(rows: &Vec<Vec<Value>>) -> (out: Vec<Vec<Value>>)
    ensures
        rows_view(out@) == distinct_rows(rows_view(rows@)),
{
    let ghost rv = rows_view(rows@);
    let mut out: Vec<Vec<Value>> = Vec::new();
    let mut i: usize = 0;
    proof {
        assert(rv.subrange(0, 0) =~= Seq::<Seq<ValueView>>::empty());
        assert(rows_view(out@) =~= distinct_rows(rv.subrange(0, 0)));
    }
    while i < rows.len()
        invariant
            i <= rows@.len(),
            rv == rows_view(rows@),
            rows_view(out@) == distinct_rows(rv.subrange(0, i as int)),
        decreases rows@.len() - i,
    {
        let ghost kept = rows_view(out@);
        let mut found = false;
        let mut k: usize = 0;
        while k < out.len()
            invariant
                k <= out@.len(),
                i < rows@.len(),
                kept == rows_view(out@),
                found == exists|x: int| 0 <= x < k && list_eq(#[trigger] kept[x], rview(rows@[i as int]@)),
            decreases out@.len() - k,
        {
            let eq = rows_equal(&out[k], &rows[i]);
            proof {
                assert(kept[k as int] == rview(out@[k as int]@));
                if eq {
                    assert(list_eq(kept[k as int], rview(rows@[i as int]@)));
                }
            }
            found = found || eq;
            k = k + 1;
        }
        proof {
            assert(rv[i as int] == rview(rows@[i as int]@));
            assert(rv.subrange(0, i + 1).drop_last() =~= rv.subrange(0, i as int));
            assert(rv.subrange(0, i + 1).last() == rv[i as int]);
            assert(found == contains_row(kept, rv[i as int]));
        }
        if !found {
            let r = copy_row(&rows[i]);
            out.push(r);
            proof {
                assert(rows_view(out@) =~= kept.push(rview(r@)));
            }
        }
        i = i + 1;
    }
    proof {
        assert(rv.subrange(0, rows@.len() as int) =~= rv);
    }
    out
}

/// Merges the two result sets of a UNION into one chunk: the left rows,
/// then the right rows, with the rows equal to an earlier kept row left
/// out unless `all` (UNION ALL). An empty side gives the other side as it
/// is; a right chunk whose number of columns differs from the first left
/// chunk's is an error.
pub fn merge_union_chunks(left: Vec<DataChunk>, right: Vec<DataChunk>, all: bool) -> (r: Result<
    Vec<DataChunk>,
    String,
>)
    requires
        left@.len() > 0 && right@.len() > 0 ==> all_full(left@) && all_full(right@) && uniform_width(
            left@,
            left@[0].fields@.len() as int,
        ),
    ensures
        left@.len() == 0 ==> r == Ok::<Vec<DataChunk>, String>(right),
        left@.len() > 0 && right@.len() == 0 ==> r == Ok::<Vec<DataChunk>, String>(left),
        left@.len() > 0 && right@.len() > 0 ==> {
            let w = left@[0].fields@.len() as int;
            if exists|j: int| 0 <= j < right@.len() && (#[trigger] right@[j]).fields@.len() != w {
                r matches Err(m) && exists|j: int|
                    0 <= j < right@.len() && (#[trigger] right@[j]).fields@.len() != w && (forall|k: int|
                        0 <= k < j ==> (#[trigger] right@[k]).fields@.len() == w) && m@
                        == union_mismatch_message(w as nat, right@[j].fields@.len() as nat)
            } else {
                let rows = all_rows(left@) + all_rows(right@);
                let res = if all {
                    rows
                } else {
                    distinct_rows(rows)
                };
                &&& r is Ok
                &&& r->Ok_0@.len() == 1
                &&& w > 0 ==> holds(r->Ok_0@[0], res, w)
                &&& w == 0 ==> r->Ok_0@[0].size == 0 && r->Ok_0@[0].fields@.len() == 0
            }
        },
{
    if left.len() == 0 {
        return Ok(right);
    }
    if right.len() == 0 {
        return Ok(left);
    }
    let w = left[0].fields.len();
    let mut j: usize = 0;
    while j < right.len()
        invariant
            left@.len() > 0,
            right@.len() > 0,
            j <= right@.len(),
            w == left@[0].fields@.len(),
            forall|k: int| 0 <= k < j ==> (#[trigger] right@[k]).fields@.len() == w,
        decreases right@.len() - j,
    {
        let nf = right[j].fields.len();
        if nf != w {
            let mut m = String::new();
            crate::text::push_str(&mut m, "UNION column count mismatch: left has ");
            crate::node_group::push_decimal(&mut m, w as u64);
            crate::text::push_str(&mut m, " columns, right has ");
            crate::node_group::push_decimal(&mut m, nf as u64);
            crate::text::push_str(&mut m, " columns");
            proof {
                assert(m@ =~= union_mismatch_message(w as nat, nf as nat));
            }
            return Err(m);
        }
        j = j + 1;
    }
    let nl = left.len();
    let nr = right.len();
    let mut rows = gather_rows(&left, 0, nl);
    let mut rrows = gather_rows(&right, 0, nr);
    let ghost lv = rows_view(rows@);
    let ghost rv = rows_view(rrows@);
    proof {
        assert(left@.subrange(0, nl as int) =~= left@);
        assert(right@.subrange(0, nr as int) =~= right@);
    }
    rows.append(&mut rrows);
    proof {
        assert(rows_view(rows@) =~= lv + rv);
    }
    let res = if all {
        rows
    } else {
        distinct(&rows)
    };
    if w == 0 {
        let mut out: Vec<DataChunk> = Vec::new();
        out.push(DataChunk { fields: Vec::new(), size: 0 });
        return Ok(out);
    }
    proof {
        lemma_rows_width(left@, w as int);
        lemma_rows_width(right@, w as int);
        assert(uniform_width(right@, w as int));
        assert forall|i: int| 0 <= i < (lv + rv).len() implies (#[trigger] (lv + rv)[i]).len() == w by {
            if i < lv.len() {
                assert((lv + rv)[i] == lv[i]);
            } else {
                assert((lv + rv)[i] == rv[i - lv.len()]);
            }
        }
        if !all {
            lemma_distinct_rows_in(lv + rv, w as int);
        }
        assert forall|i: int| 0 <= i < res@.len() implies (#[trigger] res@[i])@.len() == w by {
            assert(rows_view(res@)[i].len() == res@[i]@.len());
        }
    }
    let ch = chunk_of_rows(&res, w);
    let mut out: Vec<DataChunk> = Vec::new();
    out.push(ch);
    Ok(out)
}

proof fn lemma_distinct_rows_in(rows: Seq<Seq<ValueView>>, w: int)
    requires
        forall|r: int| 0 <= r < rows.len() ==> (#[trigger] rows[r]).len() == w,
    ensures
        forall|r: int| 0 <= r < distinct_rows(rows).len() ==> (#[trigger] distinct_rows(rows)[r]).len() == w,
    decreases rows.len(),
{
    if rows.len() > 0 {
        lemma_distinct_rows_in(rows.drop_last(), w);
        assert(rows.last() == rows[rows.len() - 1]);
        let kept = distinct_rows(rows.drop_last());
        assert forall|r: int| 0 <= r < kept.push(rows.last()).len() implies (#[trigger] kept.push(
            rows.last(),
        )[r]).len() == w by {
            if r < kept.len() {
                assert(kept.push(rows.last())[r] == kept[r]);
            }
        }
    }
}

/// Whether every column of the chunk holds exactly `size` values, and a
/// chunk without columns holds no rows.
pub open spec fn well_formed(ch: DataChunk) -> bool {
    full(ch) && (ch.fields@.len() == 0 ==> ch.size == 0)
}

/// `n` NULLs.
pub open spec fn nulls(n: int) -> Seq<ValueView> {
    Seq::new(n as nat, |k: int| ValueView::Null)
}

/// The rows of an OPTIONAL MATCH: each left row followed by the right row
/// at the same position, or by NULLs (as many as the first right row has
/// values) where the right side has fewer rows.
pub open spec fn optional_rows(left: Seq<Seq<ValueView>>, right: Seq<Seq<ValueView>>) -> Seq<
    Seq<ValueView>,
> {
    let wr = if right.len() > 0 {
        right[0].len() as int
    } else {
        0
    };
    Seq::new(
        left.len(),
        |i: int|
            if i < right.len() {
                left[i] + right[i]
            } else {
                left[i] + nulls(wr)
            },
    )
}

/// Merges the result of the required part of an OPTIONAL MATCH (`left`)
/// with that of the optional part (`right`) row by row (see
/// `optional_rows`), as one chunk; no chunk where the left side has no
/// rows. An empty side gives the left side as it is.
pub fn merge_optional_chunks(left: Vec<DataChunk>, right: Vec<DataChunk>) -> (r: Result<
    Vec<DataChunk>,
    String,
>)
    requires
        left@.len() > 0 && right@.len() > 0 ==> {
            &&& forall|i: int| 0 <= i < left@.len() ==> well_formed(#[trigger] left@[i])
            &&& forall|i: int| 0 <= i < right@.len() ==> well_formed(#[trigger] right@[i])
            &&& uniform_width(left@, left@[0].fields@.len() as int)
            &&& uniform_width(right@, right@[0].fields@.len() as int)
        },
    ensures
        (left@.len() == 0 || right@.len() == 0) ==> r == Ok::<Vec<DataChunk>, String>(left),
        left@.len() > 0 && right@.len() > 0 ==> {
            let rows = optional_rows(all_rows(left@), all_rows(right@));
            let w = left@[0].fields@.len() + if all_rows(right@).len() > 0 {
                right@[0].fields@.len() as int
            } else {
                0
            };
            &&& r is Ok
            &&& rows.len() == 0 ==> r->Ok_0@.len() == 0
            &&& rows.len() > 0 && w > 0 ==> r->Ok_0@.len() == 1 && holds(r->Ok_0@[0], rows, w)
            &&& rows.len() > 0 && w == 0 ==> r->Ok_0@.len() == 1 && r->Ok_0@[0].size == 0
                && r->Ok_0@[0].fields@.len() == 0
        },
{
    if left.len() == 0 || right.len() == 0 {
        return Ok(left);
    }
    let nl = left.len();
    let nr = right.len();
    let lrows = gather_rows(&left, 0, nl);
    let rrows = gather_rows(&right, 0, nr);
    let ghost lv = rows_view(lrows@);
    let ghost rv = rows_view(rrows@);
    proof {
        assert(left@.subrange(0, nl as int) =~= left@);
        assert(right@.subrange(0, nr as int) =~= right@);
        lemma_rows_width(left@, left@[0].fields@.len() as int);
        lemma_rows_width(right@, right@[0].fields@.len() as int);
    }
    let wr: usize = if rrows.len() > 0 {
        rrows[0].len()
    } else {
        0
    };
    proof {
        if rrows@.len() > 0 {
            assert(rv[0].len() == rrows@[0]@.len());
        }
    }
    let mut pad: Vec<Value> = Vec::new();
    let mut k: usize = 0;
    while k < wr
        invariant
            k <= wr,
            pad@.len() == k,
            forall|x: int| 0 <= x < k ==> vview(#[trigger] pad@[x]) == ValueView::Null,
        decreases wr - k,
    {
        pad.push(Value::Null);
        k = k + 1;
    }
    proof {
        assert(rview(pad@) =~= nulls(wr as int));
    }
    let mut out: Vec<Vec<Value>> = Vec::new();
    let mut i: usize = 0;
    while i < lrows.len()
        invariant
            i <= lrows@.len(),
            lv == rows_view(lrows@),
            rv == rows_view(rrows@),
            rview(pad@) == nulls(wr as int),
            wr == (if rv.len() > 0 {
                rv[0].len() as int
            } else {
                0
            }),
            out@.len() == i,
            forall|x: int| 0 <= x < i ==> #[trigger] rview(out@[x]@) == optional_rows(lv, rv)[x],
        decreases lrows@.len() - i,
    {
        let row = if i < rrows.len() {
            concat_rows(&lrows[i], &rrows[i])
        } else {
            concat_rows(&lrows[i], &pad)
        };
        proof {
            assert(lv[i as int] == rview(lrows@[i as int]@));
            if i < rrows@.len() {
                assert(rv[i as int] == rview(rrows@[i as int]@));
            }
        }
        out.push(row);
        i = i + 1;
    }
    let ghost rows = optional_rows(lv, rv);
    proof {
        assert(rows_view(out@) =~= rows);
    }
    if out.len() == 0 {
        return Ok(Vec::new());
    }
    let w = out[0].len();
    let ghost wl = left@[0].fields@.len() as int;
    proof {
        assert(rows_view(out@)[0].len() == out@[0]@.len());
        assert(lv[0].len() == wl);
        assert forall|x: int| 0 <= x < out@.len() implies (#[trigger] out@[x])@.len() == w by {
            assert(rows_view(out@)[x].len() == out@[x]@.len());
            assert(lv[x].len() == wl);
            if x < rv.len() {
                assert(rv[x].len() == rv[0].len());
            }
        }
    }
    let mut result: Vec<DataChunk> = Vec::new();
    if w == 0 {
        result.push(DataChunk { fields: Vec::new(), size: 0 });
    } else {
        let ch = chunk_of_rows(&out, w);
        result.push(ch);
    }
    Ok(result)
}

/// The rows an UNWIND makes of one input row: the row followed by each
/// list item in turn.
pub open spec fn unwound(row: Seq<ValueView>, items: Seq<ValueView>) -> Seq<Seq<ValueView>> {
    Seq::new(items.len(), |i: int| row.push(items[i]))
}

/// The message of an UNWIND over something other than a list.
pub open spec fn unwind_not_list_message() -> Seq<char> {
    "UNWIND expression must evaluate to a list"@
}

/// The output of an UNWIND whose expression evaluated to `list`: for each
/// row of the first input chunk, one chunk of the row repeated for each
/// item with the item appended; without input, one chunk of the items.
/// An empty list gives no chunk; a value that is not a list is an error.
pub fn unwind_chunks(input: &Vec<DataChunk>, list: &Value) -> (r: Result<Vec<DataChunk>, String>)
    ensures
        !(vview(*list) is List) ==> (r matches Err(m) && m@ == unwind_not_list_message()),
        vview(*list) matches ValueView::List(items) ==> {
            &&& r is Ok
            &&& items.len() == 0 ==> r->Ok_0@.len() == 0
            &&& items.len() > 0 && input@.len() == 0 ==> r->Ok_0@.len() == 1 && holds(
                r->Ok_0@[0],
                unwound(Seq::empty(), items),
                1,
            )
            &&& items.len() > 0 && input@.len() > 0 ==> r->Ok_0@.len() == input@[0].size && forall|k: int|
                0 <= k < input@[0].size ==> holds(
                    #[trigger] r->Ok_0@[k],
                    unwound(crate::chunk::row_of(input@[0], k), items),
                    (input@[0].fields@.len() + 1) as int,
                )
        },
{
    let items = match list {
        Value::List(items) => items,
        _ => {
            let mut m = String::new();
            crate::text::push_str(&mut m, "UNWIND expression must evaluate to a list");
            proof {
                assert(m@ =~= unwind_not_list_message());
            }
            return Err(m);
        },
    };
    let ghost iv = vview(*list)->List_0;
    proof {
        assert(iv.len() == items@.len());
        assert forall|i: int| 0 <= i < items@.len() implies #[trigger] iv[i] == vview(items@[i]) by {}
    }
    if items.len() == 0 {
        return Ok(Vec::new());
    }
    let mut result: Vec<DataChunk> = Vec::new();
    if input.len() == 0 {
        let mut rows: Vec<Vec<Value>> = Vec::new();
        let mut i: usize = 0;
        while i < items.len()
            invariant
                i <= items@.len(),
                iv == vview(*list)->List_0,
                *list == Value::List(*items),
                iv.len() == items@.len(),
                rows@.len() == i,
                forall|x: int| 0 <= x < i ==> #[trigger] rview(rows@[x]@) == Seq::<ValueView>::empty().push(iv[x]),
            decreases items@.len() - i,
        {
            let mut row: Vec<Value> = Vec::new();
            row.push(copy_value(&items[i]));
            proof {
                assert(rview(row@) =~= Seq::<ValueView>::empty().push(iv[i as int]));
            }
            rows.push(row);
            i = i + 1;
        }
        proof {
            assert(rows_view(rows@) =~= unwound(Seq::empty(), iv));
            assert forall|x: int| 0 <= x < rows@.len() implies (#[trigger] rows@[x])@.len() == 1 by {
                assert(rview(rows@[x]@).len() == rows@[x]@.len());
            }
        }
        result.push(chunk_of_rows(&rows, 1));
        return Ok(result);
    }
    let ch = &input[0];
    let mut r: usize = 0;
    while r < ch.size
        invariant
            r <= ch.size,
            input@.len() > 0,
            *ch == input@[0],
            iv == vview(*list)->List_0,
            *list == Value::List(*items),
            iv.len() == items@.len(),
            items@.len() > 0,
            result@.len() == r,
            forall|k: int|
                0 <= k < r ==> holds(
                    #[trigger] result@[k],
                    unwound(crate::chunk::row_of(*ch, k), iv),
                    (ch.fields@.len() + 1) as int,
                ),
        decreases ch.size - r,
    {
        let base = ch.row(r);
        let mut rows: Vec<Vec<Value>> = Vec::new();
        let mut i: usize = 0;
        while i < items.len()
            invariant
                i <= items@.len(),
                iv == vview(*list)->List_0,
                *list == Value::List(*items),
                iv.len() == items@.len(),
                rview(base@) == crate::chunk::row_of(*ch, r as int),
                rows@.len() == i,
                forall|x: int|
                    0 <= x < i ==> #[trigger] rview(rows@[x]@) == crate::chunk::row_of(*ch, r as int).push(iv[x]),
            decreases items@.len() - i,
        {
            let mut row = copy_row(&base);
            let ghost before = row@;
            row.push(copy_value(&items[i]));
            proof {
                assert(rview(row@) =~= rview(before).push(iv[i as int]));
            }
            rows.push(row);
            i = i + 1;
        }
        proof {
            assert(rview(rows@[0]@).len() == rows@[0]@.len());
        }
        let w = rows[0].len();
        proof {
            assert(rows_view(rows@) =~= unwound(crate::chunk::row_of(*ch, r as int), iv));
            assert forall|x: int| 0 <= x < rows@.len() implies (#[trigger] rows@[x])@.len() == w by {
                assert(rview(rows@[x]@).len() == rows@[x]@.len());
            }
        }
        result.push(chunk_of_rows(&rows, w));
        r = r + 1;
    }
    Ok(result)
}

/// NULL keys never join: where every probe key is NULL, or every build key
/// is NULL, a hash join gives no row.
pub proof fn law_null_keys_never_join(
    build: Seq<Seq<ValueView>>,
    probe: Seq<Seq<ValueView>>,
    bc: int,
    pc: int,
)
    requires
        (forall|r: int| 0 <= r < probe.len() ==> key_of(#[trigger] probe[r], pc) == ValueView::Null)
            || (forall|r: int| 0 <= r < build.len() ==> key_of(#[trigger] build[r], bc) == ValueView::Null),
    ensures
        join_rows(build, probe, bc, pc).len() == 0,
    decreases probe.len(),
{
    if probe.len() > 0 {
        law_null_keys_never_join(build, probe.drop_last(), bc, pc);
        assert(probe.last() == probe[probe.len() - 1]);
        lemma_matches_empty(build, probe.last(), bc, pc);
    }
}

proof fn lemma_matches_empty(build: Seq<Seq<ValueView>>, p: Seq<ValueView>, bc: int, pc: int)
    requires
        key_of(p, pc) == ValueView::Null || (forall|r: int|
            0 <= r < build.len() ==> key_of(#[trigger] build[r], bc) == ValueView::Null),
    ensures
        matches_for(build, p, bc, pc).len() == 0,
    decreases build.len(),
{
    if build.len() > 0 {
        assert(build.last() == build[build.len() - 1]);
        if !(key_of(p, pc) == ValueView::Null) {
            assert forall|r: int| 0 <= r < build.drop_last().len() implies key_of(
                #[trigger] build.drop_last()[r],
                bc,
            ) == ValueView::Null by {
                assert(build.drop_last()[r] == build[r]);
            }
        }
        lemma_matches_empty(build.drop_last(), p, bc, pc);
    }
}

/// The rows with a non-NULL key in column `k`.
pub open spec fn keyed_rows(rows: Seq<Seq<ValueView>>, k: int) -> nat
    decreases rows.len(),
{
    if rows.len() == 0 {
        0
    } else {
        keyed_rows(rows.drop_last(), k) + if key_of(rows.last(), k) == ValueView::Null {
            0nat
        } else {
            1nat
        }
    }
}

/// A semi join and an anti join on the same sides split the probe rows
/// with a non-NULL key between them: every such row is kept by exactly one
/// of the two.
pub proof fn law_semi_anti_partition(probe: Seq<Seq<ValueView>>, hs: Set<u64>, k: int)
    ensures
        rows_by_hash(probe, hs, k, true).len() + rows_by_hash(probe, hs, k, false).len()
            == keyed_rows(probe, k),
    decreases probe.len(),
{
    if probe.len() > 0 {
        law_semi_anti_partition(probe.drop_last(), hs, k);
    }
}

/// A cross product has as many rows as its sides' row counts multiplied.
pub proof fn law_cross_product_size(left: Seq<Seq<ValueView>>, right: Seq<Seq<ValueView>>)
    ensures
        cross_rows(left, right).len() == left.len() * right.len(),
    decreases left.len(),
{
    if left.len() > 0 {
        law_cross_product_size(left.drop_last(), right);
        assert(left.len() * right.len() == (left.len() - 1) * right.len() + right.len())
            by (nonlinear_arith);
    }
}

/// Rows of the chunks from `i` on.
pub open spec fn size_from(chunks: Seq<DataChunk>, i: int) -> int
    decreases chunks.len() - i,
{
    if i < 0 || i >= chunks.len() {
        0
    } else {
        chunks[i].size + size_from(chunks, i + 1)
    }
}

/// The rows a limit plan passes.
pub open spec fn plan_rows(plan: Seq<(int, int, int)>) -> int
    decreases plan.len(),
{
    if plan.len() == 0 {
        0
    } else {
        plan[0].2 + plan_rows(plan.drop_first())
    }
}

proof fn lemma_size_from_nonneg(chunks: Seq<DataChunk>, i: int)
    ensures
        size_from(chunks, i) >= 0,
    decreases chunks.len() - i,
{
    if 0 <= i < chunks.len() {
        lemma_size_from_nonneg(chunks, i + 1);
    }
}

proof fn lemma_plan_rows(chunks: Seq<DataChunk>, i: int, skipped: int, skip: int, remaining: int)
    requires
        0 <= i,
        0 <= skipped,
        0 <= skip,
        0 <= remaining,
    ensures
        ({
            let skipped_all = if skip > skipped {
                skip
            } else {
                skipped
            };
            let avail = skipped + size_from(chunks, i) - skipped_all;
            let avail0 = if avail > 0 {
                avail
            } else {
                0
            };
            plan_rows(limit_plan(chunks, i, skipped, skip, remaining)) == if remaining < avail0 {
                remaining
            } else {
                avail0
            }
        }),
    decreases chunks.len() - i,
{
    if i < chunks.len() && remaining > 0 {
        let z = chunks[i].size as int;
        assert(size_from(chunks, i) == z + size_from(chunks, i + 1));
        lemma_size_from_nonneg(chunks, i + 1);
        lemma_plan_rows(chunks, i + 1, skipped + z, skip, remaining);
        if skipped + z > skip {
            let start = if skipped < skip {
                skip - skipped
            } else {
                0
            };
            let avail = if z > start {
                z - start
            } else {
                0
            };
            let take = if avail < remaining {
                avail
            } else {
                remaining
            };
            assert(avail == z - start);
            if take > 0 {
                lemma_plan_rows(chunks, i + 1, skipped + z, skip, remaining - take);
                let plan = limit_plan(chunks, i, skipped, skip, remaining);
                assert(plan == seq![(i, start, take)] + limit_plan(chunks, i + 1, skipped + z, skip, remaining - take));
                assert(plan.drop_first() =~= limit_plan(chunks, i + 1, skipped + z, skip, remaining - take));
                assert(plan[0].2 == take);
            } else {
                assert(limit_plan(chunks, i, skipped, skip, remaining) == limit_plan(chunks, i + 1, skipped + z, skip, remaining));
            }
        } else {
            assert(limit_plan(chunks, i, skipped, skip, remaining) == limit_plan(chunks, i + 1, skipped + z, skip, remaining));
        }
    } else {
        assert(limit_plan(chunks, i, skipped, skip, remaining) =~= Seq::<(int, int, int)>::empty());
        if i >= chunks.len() {
            assert(size_from(chunks, i) == 0);
        }
    }
}

/// A limit passes as many rows as there are after the skipped ones, at
/// most `limit`.
pub proof fn law_limit_row_count(chunks: Seq<DataChunk>, limit: u64, offset: u64)
    ensures
        ({
            let avail = size_from(chunks, 0) - offset;
            let avail0 = if avail > 0 {
                avail
            } else {
                0
            };
            plan_rows(limit_plan(chunks, 0, 0, offset as int, limit as int)) == if limit < avail0 {
                limit as int
            } else {
                avail0
            }
        }),
{
    lemma_plan_rows(chunks, 0, 0, offset as int, limit as int);
}

} // verus!
