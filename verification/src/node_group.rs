//! Node groups: up to `NODE_GROUP_SIZE` rows of a table held column-wise in
//! memory before they are flushed to the table's columns.
//!
//! A value is held in its serialized column form (a tag byte, then its
//! payload); a missing value reads as the NULL value `[0]`.

use vstd::prelude::*;

verus! {

/// Rows in a full node group.
pub const NODE_GROUP_SIZE: usize = 4096;

/// The serialized NULL value.
pub open spec fn null_value() -> Seq<u8> {
    seq![0u8]
}

/// The values of one column of a node group, in row order.
#[derive(Debug)]
pub struct ColumnChunk {
    values: Vec<Vec<u8>>,
    capacity: usize,
}

impl View for ColumnChunk {
    type V = Seq<Seq<u8>>;

    closed spec fn view(&self) -> Seq<Seq<u8>> {
        self.values@.map_values(|v: Vec<u8>| v@)
    }
}

fn copy_value(v: &Vec<u8>) -> (r: Vec<u8>)
    ensures
        r@ == v@,
{
    let mut r: Vec<u8> = Vec::new();
    crate::wal::append_bytes(&mut r, v.as_slice());
    proof {
        assert(r@ =~= v@);
    }
    r
}

impl ColumnChunk {
    /// Room planned for the values (not a limit).
    pub closed spec fn spec_capacity(&self) -> usize {
        self.capacity
    }

    /// An empty chunk planned for `NODE_GROUP_SIZE` values.
    pub fn new() -> (c: Self)
        ensures
            c@ == Seq::<Seq<u8>>::empty(),
            c.spec_capacity() == NODE_GROUP_SIZE,
    {
        let c = ColumnChunk { values: Vec::new(), capacity: NODE_GROUP_SIZE };
        proof {
            assert(c@ =~= Seq::<Seq<u8>>::empty());
        }
        c
    }

    /// An empty chunk planned for `capacity` values.
    pub fn with_capacity(capacity: usize) -> (c: Self)
        ensures
            c@ == Seq::<Seq<u8>>::empty(),
            c.spec_capacity() == capacity,
    {
        let c = ColumnChunk { values: Vec::new(), capacity };
        proof {
            assert(c@ =~= Seq::<Seq<u8>>::empty());
        }
        c
    }

    /// Append a value.
    pub fn append(&mut self, value: Vec<u8>)
        ensures
            final(self)@ == old(self)@.push(value@),
            final(self).spec_capacity() == old(self).spec_capacity(),
    {
        let ghost before = self@;
        self.values.push(value);
        proof {
            assert(self@ =~= before.push(value@));
        }
    }

    /// The value of row `row`, if the chunk has it.
    pub fn get(&self, row: usize) -> (r: Option<&Vec<u8>>)
        ensures
            match r {
                Some(v) => row < self@.len() && v@ == self@[row as int],
                None => row >= self@.len(),
            },
    {
        if row < self.values.len() {
            Some(&self.values[row])
        } else {
            None
        }
    }

    /// Number of values.
    pub fn num_values(&self) -> (n: usize)
        ensures
            n == self@.len(),
    {
        self.values.len()
    }

    /// Whether the chunk holds no value.
    pub fn is_empty(&self) -> (b: bool)
        ensures
            b == (self@.len() == 0),
    {
        self.values.len() == 0
    }

    /// Drop all values.
    pub fn clear(&mut self)
        ensures
            final(self)@ == Seq::<Seq<u8>>::empty(),
            final(self).spec_capacity() == old(self).spec_capacity(),
    {
        self.values.clear();
        proof {
            assert(self@ =~= Seq::<Seq<u8>>::empty());
        }
    }
}

/// The value at `row` of a column, NULL when the column is shorter.
pub open spec fn cell(col: Seq<Seq<u8>>, row: int) -> Seq<u8> {
    if 0 <= row < col.len() {
        col[row]
    } else {
        null_value()
    }
}

/// The decimal digits of `n`.
pub open spec fn decimal(n: nat) -> Seq<char>
    decreases n,
{
    if n < 10 {
        seq![('0' as u32 + n) as char]
    } else {
        decimal(n / 10).push(('0' as u32 + n % 10) as char)
    }
}

/// The message of a row with the wrong number of values.
pub open spec fn count_mismatch_message(expected: nat, got: nat) -> Seq<char> {
    "column count mismatch: expected "@ + decimal(expected) + " values, got "@ + decimal(got)
}


pub(crate) fn push_decimal(s: &mut String, n: u64)
    ensures
        final(s)@ == old(s)@ + decimal(n as nat),
    decreases n,
{
    if n >= 10 {
        push_decimal(s, n / 10);
    }
    let d = (n % 10) as u8;
    crate::text::push_char(s, (0x30u8 + d) as char);
    proof {
        if n >= 10 {
            assert(decimal(n as nat) == decimal((n / 10) as nat).push(('0' as u32 + n % 10) as char));
        }
        assert(final(s)@ =~= old(s)@ + decimal(n as nat));
    }
}

fn count_mismatch(expected: usize, got: usize) -> (m: String)
    ensures
        m@ == count_mismatch_message(expected as nat, got as nat),
{
    let mut m = String::new();
    crate::text::push_str(&mut m, "column count mismatch: expected ");
    push_decimal(&mut m, expected as u64);
    crate::text::push_str(&mut m, " values, got ");
    push_decimal(&mut m, got as u64);
    proof {
        assert(m@ =~= count_mismatch_message(expected as nat, got as nat));
    }
    m
}

/// Up to `NODE_GROUP_SIZE` rows of a table, column-wise.
#[derive(Debug)]
pub struct NodeGroup {
    /// One chunk per column of the table.
    pub columns: Vec<ColumnChunk>,
    /// Global row offset of the group's first row in its table.
    pub start_offset: u64,
    /// Number of rows appended.
    pub num_nodes: u64,
}

impl NodeGroup {
    /// The columns' values.
    pub open spec fn column_views(&self) -> Seq<Seq<Seq<u8>>> {
        self.columns@.map_values(|c: ColumnChunk| c@)
    }

    /// Whether the group is full, by the row count.
    pub open spec fn spec_is_full(&self) -> bool {
        (self.num_nodes as usize) >= NODE_GROUP_SIZE
    }

    /// An empty group of `num_columns` columns starting at global row
    /// `start_offset`.
    pub fn new(num_columns: usize, start_offset: u64) -> (g: Self)
        ensures
            g.columns@.len() == num_columns,
            forall|i: int| 0 <= i < num_columns ==> (#[trigger] g.columns@[i])@ == Seq::<Seq<u8>>::empty()
                && g.columns@[i].spec_capacity() == NODE_GROUP_SIZE,
            g.start_offset == start_offset,
            g.num_nodes == 0,
    {
        let mut columns: Vec<ColumnChunk> = Vec::new();
        let mut i: usize = 0;
        while i < num_columns
            invariant
                i <= num_columns,
                columns@.len() == i,
                forall|k: int| 0 <= k < i ==> (#[trigger] columns@[k])@ == Seq::<Seq<u8>>::empty()
                    && columns@[k].spec_capacity() == NODE_GROUP_SIZE,
            decreases num_columns - i,
        {
            columns.push(ColumnChunk::new());
            i = i + 1;
        }
        NodeGroup { columns, start_offset, num_nodes: 0 }
    }

    /// An empty group whose chunks are planned for `capacity` values each.
    pub fn with_capacity(num_columns: usize, start_offset: u64, capacity: usize) -> (g: Self)
        ensures
            g.columns@.len() == num_columns,
            forall|i: int| 0 <= i < num_columns ==> (#[trigger] g.columns@[i])@ == Seq::<Seq<u8>>::empty()
                && g.columns@[i].spec_capacity() == capacity,
            g.start_offset == start_offset,
            g.num_nodes == 0,
    {
        let mut columns: Vec<ColumnChunk> = Vec::new();
        let mut i: usize = 0;
        while i < num_columns
            invariant
                i <= num_columns,
                columns@.len() == i,
                forall|k: int| 0 <= k < i ==> (#[trigger] columns@[k])@ == Seq::<Seq<u8>>::empty()
                    && columns@[k].spec_capacity() == capacity,
            decreases num_columns - i,
        {
            columns.push(ColumnChunk::with_capacity(capacity));
            i = i + 1;
        }
        NodeGroup { columns, start_offset, num_nodes: 0 }
    }

    /// Append a row (one value per column). A row with another number of
    /// values than there are columns is refused first, then a full group.
    pub fn append_row(&mut self, row: Vec<Vec<u8>>) -> (r: Result<(), String>)
        ensures
            row@.len() != old(self).columns@.len() ==> (r matches Err(m) && m@
                == count_mismatch_message(old(self).columns@.len(), row@.len()) && *final(self)
                == *old(self)),
            row@.len() == old(self).columns@.len() && old(self).spec_is_full() ==> (r matches Err(m)
                && m@ == "node group is already full"@ && *final(self) == *old(self)),
            row@.len() == old(self).columns@.len() && !old(self).spec_is_full() ==> {
                &&& r is Ok
                &&& final(self).num_nodes == old(self).num_nodes + 1
                &&& final(self).start_offset == old(self).start_offset
                &&& final(self).columns@.len() == old(self).columns@.len()
                &&& forall|c: int|
                    0 <= c < row@.len() ==> (#[trigger] final(self).columns@[c])@ == old(
                        self,
                    ).columns@[c]@.push(row@[c]@)
            },
    {
        if row.len() != self.columns.len() {
            return Err(count_mismatch(self.columns.len(), row.len()));
        }
        if (self.num_nodes as usize) >= NODE_GROUP_SIZE {
            return Err(String::from_str("node group is already full"));
        }
        let ghost before = self.columns@;
        let n = row.len();
        let mut c: usize = 0;
        while c < n
            invariant
                c <= n,
                row@.len() == n,
                self.columns@.len() == n,
                before.len() == n,
                self.start_offset == old(self).start_offset,
                self.num_nodes == old(self).num_nodes,
                forall|k: int|
                    0 <= k < c ==> (#[trigger] self.columns@[k])@ == before[k]@.push(row@[k]@),
                forall|k: int| c <= k < n ==> #[trigger] self.columns@[k] == before[k],
            decreases n - c,
        {
            let v = copy_value(&row[c]);
            self.columns[c].append(v);
            c = c + 1;
        }
        proof {
            if self.num_nodes == u64::MAX {
                assert((0xffff_ffff_ffff_ffffu64 as usize) >= 4096usize) by (bit_vector);
            }
        }
        self.num_nodes = self.num_nodes + 1;
        Ok(())
    }

    /// Whether the group holds `NODE_GROUP_SIZE` rows or more.
    pub fn is_full(&self) -> (b: bool)
        ensures
            b == self.spec_is_full(),
    {
        (self.num_nodes as usize) >= NODE_GROUP_SIZE
    }

    /// Whether the group holds no row.
    pub fn is_empty(&self) -> (b: bool)
        ensures
            b == (self.num_nodes == 0),
    {
        self.num_nodes == 0
    }

    /// Number of columns.
    pub fn num_columns(&self) -> (n: usize)
        ensures
            n == self.columns@.len(),
    {
        self.columns.len()
    }

    /// Rows that can still be appended before the group is full.
    pub fn remaining(&self) -> (n: usize)
        ensures
            n == if (self.num_nodes as usize) < NODE_GROUP_SIZE {
                (NODE_GROUP_SIZE - (self.num_nodes as usize)) as usize
            } else {
                0usize
            },
    {
        let used = self.num_nodes as usize;
        if used < NODE_GROUP_SIZE {
            NODE_GROUP_SIZE - used
        } else {
            0
        }
    }

    fn row_at(&self, row: usize) -> (r: Vec<Vec<u8>>)
        ensures
            r@.len() == self.columns@.len(),
            forall|c: int| 0 <= c < r@.len() ==> #[trigger] r@[c]@ == cell(self.columns@[c]@, row as int),
    {
        let mut row_data: Vec<Vec<u8>> = Vec::new();
        let mut c: usize = 0;
        while c < self.columns.len()
            invariant
                c <= self.columns@.len(),
                row_data@.len() == c,
                forall|k: int| 0 <= k < c ==> #[trigger] row_data@[k]@ == cell(self.columns@[k]@, row as int),
            decreases self.columns@.len() - c,
        {
            match self.columns[c].get(row) {
                Some(v) => row_data.push(copy_value(v)),
                None => {
                    let mut null: Vec<u8> = Vec::new();
                    null.push(0u8);
                    proof {
                        assert(null@ =~= null_value());
                    }
                    row_data.push(null);
                },
            }
            c = c + 1;
        }
        row_data
    }

    /// The rows `[start, start + count)` (within the appended rows), each as
    /// one value per column (NULL where a column is shorter).
    pub fn scan_range(&self, start: usize, count: usize) -> (r: Vec<Vec<Vec<u8>>>)
        requires
            start + count <= usize::MAX,
        ensures
            ({
                let end = if start + count < self.num_nodes as usize {
                    start + count
                } else {
                    self.num_nodes as usize as int
                };
                &&& r@.len() == if start < end {
                    end - start
                } else {
                    0
                }
                &&& forall|i: int, c: int|
                    0 <= i < r@.len() && 0 <= c < self.columns@.len() ==> #[trigger] r@[i]@[c]@
                        == cell(self.columns@[c]@, start + i)
                &&& forall|i: int| 0 <= i < r@.len() ==> #[trigger] r@[i]@.len() == self.columns@.len()
            }),
    {
        let limit = self.num_nodes as usize;
        let end = if start + count < limit {
            start + count
        } else {
            limit
        };
        let mut result: Vec<Vec<Vec<u8>>> = Vec::new();
        if start >= end {
            return result;
        }
        let mut row = start;
        while row < end
            invariant
                start <= row <= end,
                result@.len() == row - start,
                forall|i: int, c: int|
                    0 <= i < result@.len() && 0 <= c < self.columns@.len() ==> #[trigger] result@[i]@[c]@
                        == cell(self.columns@[c]@, start + i),
                forall|i: int| 0 <= i < result@.len() ==> #[trigger] result@[i]@.len() == self.columns@.len(),
            decreases end - row,
        {
            let r = self.row_at(row);
            result.push(r);
            row = row + 1;
        }
        result
    }

    /// All appended rows, each as one value per column (NULL where a column
    /// is shorter).
    pub fn scan(&self) -> (r: Vec<Vec<Vec<u8>>>)
        ensures
            r@.len() == self.num_nodes as usize,
            forall|i: int, c: int|
                0 <= i < r@.len() && 0 <= c < self.columns@.len() ==> #[trigger] r@[i]@[c]@
                    == cell(self.columns@[c]@, i),
            forall|i: int| 0 <= i < r@.len() ==> #[trigger] r@[i]@.len() == self.columns@.len(),
    {
        self.scan_range(0, self.num_nodes as usize)
    }

    /// The value at `local_row` of column `col_idx`, if both exist.
    pub fn get_value(&self, local_row: usize, col_idx: usize) -> (r: Option<&Vec<u8>>)
        ensures
            match r {
                Some(v) => col_idx < self.columns@.len() && local_row < self.columns@[col_idx as int]@.len()
                    && v@ == self.columns@[col_idx as int]@[local_row as int],
                None => col_idx >= self.columns@.len() || local_row >= self.columns@[col_idx as int]@.len(),
            },
    {
        if col_idx < self.columns.len() {
            self.columns[col_idx].get(local_row)
        } else {
            None
        }
    }

    /// Empty every column and reset the row count (without flushing).
    pub fn clear(&mut self)
        ensures
            final(self).num_nodes == 0,
            final(self).start_offset == old(self).start_offset,
            final(self).columns@.len() == old(self).columns@.len(),
            forall|c: int|
                0 <= c < final(self).columns@.len() ==> (#[trigger] final(self).columns@[c])@
                    == Seq::<Seq<u8>>::empty() && final(self).columns@[c].spec_capacity() == old(
                    self,
                ).columns@[c].spec_capacity(),
    {
        let n = self.columns.len();
        let mut c: usize = 0;
        while c < n
            invariant
                c <= n,
                self.columns@.len() == n,
                self.start_offset == old(self).start_offset,
                forall|k: int|
                    0 <= k < c ==> (#[trigger] self.columns@[k])@ == Seq::<Seq<u8>>::empty()
                        && self.columns@[k].spec_capacity() == old(self).columns@[k].spec_capacity(),
                forall|k: int| c <= k < n ==> #[trigger] self.columns@[k] == old(self).columns@[k],
            decreases n - c,
        {
            self.columns[c].clear();
            c = c + 1;
        }
        self.num_nodes = 0;
    }
}

} // verus!
