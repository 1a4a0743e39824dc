//! MVCC version chains for column updates.
//!
//! Rows are grouped into vectors of 1024. Each vector has a chain of update
//! records, newest first; a reader at snapshot `ts` sees the data of the
//! first record whose version is at most `ts`.

use vstd::prelude::*;

verus! {

/// Rows per vector.
pub const UPDATE_VECTOR_SIZE: u32 = 1024;

/// One update record in a vector's version chain.
pub struct VectorUpdateInfo {
    /// The commit timestamp at which this version becomes visible.
    pub version: u64,
    /// The updated value.
    pub data: Vec<u8>,
    /// The previous (older) record.
    pub prev: Option<Box<VectorUpdateInfo>>,
}

impl VectorUpdateInfo {
    /// A record for `version` holding `data`, in front of `prev`.
    pub fn new(version: u64, data: Vec<u8>, prev: Option<Box<VectorUpdateInfo>>) -> (r: Self)
        ensures
            r.version == version,
            r.data@ == data@,
            r.prev == prev,
    {
        VectorUpdateInfo { version, data, prev }
    }
}

/// The records of a chain, newest first, as (version, data).
pub open spec fn chain(o: Option<Box<VectorUpdateInfo>>) -> Seq<(u64, Seq<u8>)>
    decreases o,
{
    match o {
        None => Seq::empty(),
        Some(n) => seq![(n.version, n.data@)] + chain(n.prev),
    }
}

/// The data of the newest record of a chain whose version is at most `ts`.
pub open spec fn first_visible(c: Seq<(u64, Seq<u8>)>, ts: u64) -> Option<Seq<u8>>
    decreases c.len(),
{
    if c.len() == 0 {
        None
    } else if c[0].0 <= ts {
        Some(c[0].1)
    } else {
        first_visible(c.drop_first(), ts)
    }
}

/// Copy of a byte vector.
pub fn copy_bytes(v: &Vec<u8>) -> (r: Vec<u8>)
    ensures
        r@ == v@,
{
    let mut r: Vec<u8> = Vec::with_capacity(v.len());
    let mut i: usize = 0;
    while i < v.len()
        invariant
            i <= v@.len(),
            r@ == v@.subrange(0, i as int),
        decreases v@.len() - i,
    {
        r.push(v[i]);
        proof {
            assert(r@ =~= v@.subrange(0, i + 1));
        }
        i = i + 1;
    }
    proof {
        assert(r@ =~= v@);
    }
    r
}

fn find_visible(node: &Option<Box<VectorUpdateInfo>>, ts: u64) -> (r: Option<Vec<u8>>)
    ensures
        match r {
            Some(d) => first_visible(chain(*node), ts) == Some(d@),
            None => first_visible(chain(*node), ts) is None,
        },
    decreases *node,
{
    match node {
        None => None,
        Some(n) => {
            proof {
                assert((seq![(n.version, n.data@)] + chain(n.prev)).drop_first() =~= chain(n.prev));
            }
            if n.version <= ts {
                Some(copy_bytes(&n.data))
            } else {
                find_visible(&n.prev, ts)
            }
        },
    }
}

/// Update version chains of a column chunk, one chain per vector of rows.
pub struct UpdateInfo {
    vectors: Vec<Option<Box<VectorUpdateInfo>>>,
    /// For each vector, the row of each record of its chain, newest first.
    rows: Vec<Vec<u32>>,
    vector_size: u32,
}

impl View for UpdateInfo {
    type V = Seq<Seq<(u64, Seq<u8>)>>;

    /// The chains of all vectors, newest record first.
    closed spec fn view(&self) -> Seq<Seq<(u64, Seq<u8>)>> {
        self.vectors@.map_values(|o: Option<Box<VectorUpdateInfo>>| chain(o))
    }
}

/// The chain of the vector holding `row` (empty beyond the tracked vectors).
pub open spec fn chain_of(chains: Seq<Seq<(u64, Seq<u8>)>>, row: u32) -> Seq<(u64, Seq<u8>)> {
    let v = row as int / UPDATE_VECTOR_SIZE as int;
    if v < chains.len() {
        chains[v]
    } else {
        Seq::empty()
    }
}

/// The rows of the records of the vector holding `row` (empty beyond the
/// tracked vectors).
pub open spec fn rows_of(rows: Seq<Seq<u32>>, row: u32) -> Seq<u32> {
    let v = row as int / UPDATE_VECTOR_SIZE as int;
    if v < rows.len() {
        rows[v]
    } else {
        Seq::empty()
    }
}

/// The data of the newest record of chain `c` whose row (in `rs`, record
/// by record) is `row`.
pub open spec fn latest_for(c: Seq<(u64, Seq<u8>)>, rs: Seq<u32>, row: u32) -> Option<Seq<u8>>
    decreases c.len(),
{
    if c.len() == 0 || rs.len() == 0 {
        None
    } else if rs[0] == row {
        Some(c[0].1)
    } else {
        latest_for(c.drop_first(), rs.drop_first(), row)
    }
}

fn find_row(node: &Option<Box<VectorUpdateInfo>>, rs: &Vec<u32>, k: usize, row: u32) -> (r: Option<
    Vec<u8>,
>)
    requires
        k <= rs@.len(),
        rs@.len() - k == chain(*node).len(),
    ensures
        match r {
            Some(d) => latest_for(chain(*node), rs@.subrange(k as int, rs@.len() as int), row)
                == Some(d@),
            None => latest_for(chain(*node), rs@.subrange(k as int, rs@.len() as int), row) is None,
        },
    decreases *node,
{
    match node {
        None => None,
        Some(n) => {
            let len = rs.len();
            let ghost tail = rs@.subrange(k as int, rs@.len() as int);
            proof {
                assert((seq![(n.version, n.data@)] + chain(n.prev)).drop_first() =~= chain(n.prev));
                assert(tail.drop_first() =~= rs@.subrange(k + 1, rs@.len() as int));
                assert(chain(*node).len() == 1 + chain(n.prev).len());
                assert(k < len);
                assert(tail[0] == rs@[k as int]);
            }
            if rs[k] == row {
                Some(copy_bytes(&n.data))
            } else {
                find_row(&n.prev, rs, k + 1, row)
            }
        },
    }
}

impl UpdateInfo {
    /// Vectors hold 1024 rows, and each record's row is known.
    pub closed spec fn wf(&self) -> bool {
        &&& self.vector_size == UPDATE_VECTOR_SIZE
        &&& self.rows@.len() == self.vectors@.len()
        &&& forall|i: int|
            0 <= i < self.vectors@.len() ==> (#[trigger] self.rows@[i])@.len() == chain(
                self.vectors@[i],
            ).len()
    }

    /// For each vector, the row of each record of its chain, newest first.
    pub closed spec fn spec_rows(&self) -> Seq<Seq<u32>> {
        self.rows@.map_values(|r: Vec<u32>| r@)
    }

    /// Empty chains for a chunk of `total_rows` rows (one per started vector).
    pub fn new(total_rows: usize) -> (u: Self)
        ensures
            u.wf(),
            u@.len() == (total_rows as int + 1023) / 1024,
            u.spec_rows().len() == u@.len(),
            forall|i: int| 0 <= i < u@.len() ==> #[trigger] u.spec_rows()[i] == Seq::<u32>::empty(),
            forall|i: int| 0 <= i < u@.len() ==> #[trigger] u@[i] == Seq::<(u64, Seq<u8>)>::empty(),
    {
        let num_vectors = total_rows / 1024 + if total_rows % 1024 == 0 { 0 } else { 1 };
        let mut vectors: Vec<Option<Box<VectorUpdateInfo>>> = Vec::new();
        let mut rows: Vec<Vec<u32>> = Vec::new();
        let mut i: usize = 0;
        while i < num_vectors
            invariant
                i <= num_vectors,
                vectors@.len() == i,
                rows@.len() == i,
                forall|k: int| 0 <= k < i ==> vectors@[k] is None,
                forall|k: int| 0 <= k < i ==> (#[trigger] rows@[k])@.len() == 0,
            decreases num_vectors - i,
        {
            vectors.push(None);
            rows.push(Vec::new());
            i = i + 1;
        }
        let u = UpdateInfo { vectors, rows, vector_size: 1024 };
        proof {
            assert forall|k: int| 0 <= k < u@.len() implies #[trigger] u@[k] == Seq::<(u64, Seq<u8>)>::empty() by {
                assert(u.vectors@[k] is None);
            }
            assert forall|k: int| 0 <= k < u@.len() implies #[trigger] u.spec_rows()[k] == Seq::<u32>::empty() by {
                assert(u.rows@[k]@.len() == 0);
            }
        }
        u
    }

    /// Prepend an update record to the chain of the vector holding `row`,
    /// adding empty chains up to that vector when needed.
    pub fn append_update(&mut self, row: u32, version: u64, data: Vec<u8>)
        requires
            old(self).wf(),
        ensures
            final(self).wf(),
            ({
                let v = row as int / 1024;
                let n = if v < old(self)@.len() { old(self)@.len() as int } else { v + 1 };
                &&& final(self)@.len() == n
                &&& final(self)@[v] == seq![(version, data@)] + chain_of(old(self)@, row)
                &&& forall|i: int| 0 <= i < n && i != v ==> #[trigger] final(self)@[i] == if i < old(self)@.len() {
                    old(self)@[i]
                } else {
                    Seq::<(u64, Seq<u8>)>::empty()
                }
                &&& final(self).spec_rows().len() == n
                &&& final(self).spec_rows()[v] == seq![row] + rows_of(old(self).spec_rows(), row)
                &&& forall|i: int| 0 <= i < n && i != v ==> #[trigger] final(self).spec_rows()[i] == if i < old(self)@.len() {
                    old(self).spec_rows()[i]
                } else {
                    Seq::<u32>::empty()
                }
            }),
    {
        let v_idx = (row / self.vector_size) as usize;
        let ghost old_view = self@;
        let ghost old_vecs = self.vectors@;
        let ghost old_rows = self.spec_rows();
        while self.vectors.len() <= v_idx
            invariant
                self.vector_size == UPDATE_VECTOR_SIZE,
                self.rows@.len() == self.vectors@.len(),
                old_vecs.len() <= self.vectors@.len(),
                old_rows.len() == old_vecs.len(),
                self.vectors@.len() > v_idx + 1 ==> self.vectors@.len() == old_vecs.len(),
                forall|i: int| 0 <= i < old_vecs.len() ==> #[trigger] self.vectors@[i] == old_vecs[i],
                forall|i: int| 0 <= i < old_vecs.len() ==> (#[trigger] self.rows@[i])@ == old_rows[i],
                forall|i: int| old_vecs.len() <= i < self.vectors@.len() ==> #[trigger] self.vectors@[i] is None,
                forall|i: int| old_vecs.len() <= i < self.vectors@.len() ==> (#[trigger] self.rows@[i])@.len() == 0,
                forall|i: int|
                    0 <= i < self.vectors@.len() ==> (#[trigger] self.rows@[i])@.len() == chain(
                        self.vectors@[i],
                    ).len(),
            decreases v_idx + 1 - self.vectors@.len(),
        {
            self.vectors.push(None);
            self.rows.push(Vec::new());
        }
        let ghost data_view = data@;
        let prev = self.vectors[v_idx].take();
        proof {
            assert(chain(prev) == chain_of(old_view, row)) by {
                if (v_idx as int) < old_view.len() {
                    assert(old_view[v_idx as int] == chain(old_vecs[v_idx as int]));
                }
            }
        }
        let node = VectorUpdateInfo::new(version, data, prev);
        proof {
            assert(chain(Some(Box::new(node))) == seq![(version, data_view)] + chain(prev));
        }
        self.vectors.set(v_idx, Some(Box::new(node)));
        let mut rv: Vec<u32> = Vec::new();
        self.rows.set_and_swap(v_idx, &mut rv);
        let ghost old_rv = rv@;
        proof {
            assert(old_rv == rows_of(old_rows, row)) by {
                if (v_idx as int) >= old_rows.len() {
                    assert(old_rv.len() == 0);
                }
            }
        }
        rv.insert(0, row);
        self.rows.set(v_idx, rv);
        proof {
            let n = self.vectors@.len();
            assert forall|i: int| 0 <= i < n && i != v_idx implies #[trigger] self@[i] == if i < old_view.len() {
                old_view[i]
            } else {
                Seq::<(u64, Seq<u8>)>::empty()
            } by {
                assert(self@[i] == chain(self.vectors@[i]));
                if i >= old_view.len() {
                    assert(self.vectors@[i] is None);
                } else {
                    assert(old_view[i] == chain(old_vecs[i]));
                }
            }
            assert(self@[v_idx as int] == chain(self.vectors@[v_idx as int]));
            assert(self.rows@[v_idx as int]@ =~= seq![row] + old_rv);
            assert forall|i: int| 0 <= i < n && i != v_idx implies #[trigger] self.spec_rows()[i] == if i < old_view.len() {
                old_rows[i]
            } else {
                Seq::<u32>::empty()
            } by {
                assert(self.spec_rows()[i] == self.rows@[i]@);
                if i >= old_view.len() {
                    assert(self.rows@[i]@.len() == 0);
                    assert(self.rows@[i]@ =~= Seq::<u32>::empty());
                }
            }
            assert forall|i: int|
                0 <= i < self.vectors@.len() implies (#[trigger] self.rows@[i])@.len() == chain(
                self.vectors@[i],
            ).len() by {
                if i == v_idx {
                    assert(chain(self.vectors@[i]) == seq![(version, data_view)] + chain(prev));
                }
            }
        }
    }

    /// The data visible at `snapshot_ts` for `row`: that of the newest
    /// update with version at most `snapshot_ts`, or `None` (base value).
    pub fn get_version(&self, row: u32, snapshot_ts: u64) -> (r: Option<Vec<u8>>)
        requires
            self.wf(),
        ensures
            match r {
                Some(d) => first_visible(chain_of(self@, row), snapshot_ts) == Some(d@),
                None => first_visible(chain_of(self@, row), snapshot_ts) is None,
            },
    {
        let v_idx = (row / self.vector_size) as usize;
        if v_idx >= self.vectors.len() {
            return None;
        }
        find_visible(&self.vectors[v_idx], snapshot_ts)
    }

    /// The data of the most recent update of `row`, whatever its version;
    /// `None` where `row` was never updated.
    pub fn latest(&self, row: u32) -> (r: Option<Vec<u8>>)
        requires
            self.wf(),
        ensures
            match r {
                Some(d) => latest_for(chain_of(self@, row), rows_of(self.spec_rows(), row), row)
                    == Some(d@),
                None => latest_for(chain_of(self@, row), rows_of(self.spec_rows(), row), row) is None,
            },
    {
        let v_idx = (row / self.vector_size) as usize;
        if v_idx >= self.vectors.len() {
            return None;
        }
        proof {
            assert(self@[v_idx as int] == chain(self.vectors@[v_idx as int]));
            assert(self.spec_rows()[v_idx as int] == self.rows@[v_idx as int]@);
            assert(self.rows@[v_idx as int]@.subrange(0, self.rows@[v_idx as int]@.len() as int)
                =~= self.rows@[v_idx as int]@);
        }
        find_row(&self.vectors[v_idx], &self.rows[v_idx], 0, row)
    }

    /// Number of vectors with at least one update.
    pub fn num_dirty_vectors(&self) -> (n: usize)
        requires
            self.wf(),
        ensures
            n == self@.filter(|c: Seq<(u64, Seq<u8>)>| c.len() > 0).len(),
    {
        let mut n: usize = 0;
        let mut i: usize = 0;
        let ghost pred = |c: Seq<(u64, Seq<u8>)>| c.len() > 0;
        proof {
            assert(self@.subrange(0, 0).filter(pred) =~= Seq::<Seq<(u64, Seq<u8>)>>::empty());
        }
        while i < self.vectors.len()
            invariant
                i <= self.vectors@.len(),
                n <= i,
                n == self@.subrange(0, i as int).filter(pred).len(),
                pred == (|c: Seq<(u64, Seq<u8>)>| c.len() > 0),
            decreases self.vectors@.len() - i,
        {
            proof {
                assert(self@[i as int] == chain(self.vectors@[i as int]));
                assert(self@.subrange(0, i + 1) =~= self@.subrange(0, i as int).push(self@[i as int]));
                self@.subrange(0, i as int).lemma_filter_len_push(pred, self@[i as int]);
            }
            proof {
                let c = self@[i as int];
                assert(c == chain(self.vectors@[i as int]));
                match self.vectors@[i as int] {
                    Some(b) => {
                        assert(chain(Some(b)).len() == 1 + chain(b.prev).len());
                        assert(c.len() > 0);
                    },
                    None => {
                        assert(c.len() == 0);
                    },
                }
                assert(pred(self@[i as int]) == (self.vectors@[i as int] is Some));
            }
            if self.vectors[i].is_some() {
                n = n + 1;
            }
            i = i + 1;
        }
        proof {
            assert(self@.subrange(0, self@.len() as int) =~= self@);
        }
        n
    }
}

/// A record read back: after prepending `(version, data)` to a chain, a
/// snapshot at or after `version` sees `data`, and an earlier snapshot sees
/// what it saw before.
pub proof fn law_append_then_read(c: Seq<(u64, Seq<u8>)>, version: u64, data: Seq<u8>, ts: u64)
    ensures
        first_visible(seq![(version, data)] + c, ts) == if version <= ts {
            Some(data)
        } else {
            first_visible(c, ts)
        },
{
    let s = seq![(version, data)] + c;
    assert(s[0] == (version, data));
    assert(s.drop_first() =~= c);
}

/// The latest update of a row is the one last appended for that row; an
/// update of another row leaves it as it was.
pub proof fn law_latest_after_append(
    c: Seq<(u64, Seq<u8>)>,
    rs: Seq<u32>,
    row: u32,
    version: u64,
    data: Seq<u8>,
    other: u32,
)
    ensures
        latest_for(seq![(version, data)] + c, seq![row] + rs, row) == Some(data),
        other != row ==> latest_for(seq![(version, data)] + c, seq![row] + rs, other) == latest_for(
            c,
            rs,
            other,
        ),
{
    assert((seq![(version, data)] + c).drop_first() =~= c);
    assert((seq![row] + rs).drop_first() =~= rs);
}

/// Later snapshots never see older data: if a snapshot sees the record at
/// some position of the chain, any later snapshot sees that record or a
/// newer one (nearer the head).
pub proof fn law_visibility_monotone(c: Seq<(u64, Seq<u8>)>, ts1: u64, ts2: u64)
    requires
        ts1 <= ts2,
    ensures
        first_visible(c, ts1) is Some ==> first_visible(c, ts2) is Some,
    decreases c.len(),
{
    if c.len() > 0 && c[0].0 > ts2 {
        law_visibility_monotone(c.drop_first(), ts1, ts2);
    }
}

} // verus!
