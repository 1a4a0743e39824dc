//! Spilling column chunks to temporary files, and the decisions of the
//! multi-way merge that reads them back.
//!
//! A spiller counts its spill files (`spill_00001.jsonl`, ...) and decides
//! when a chunk is too large to keep in memory. The merge reads rows from
//! several sorted runs plus one in-memory run, always takes the row with
//! the smallest integer key (the earliest run on ties), and can skip a row
//! whose key equals the key of the row emitted before it.

use crate::node_group::{decimal, push_decimal, ColumnChunk};
use crate::text::{chars_of, push_char, push_str};
use crate::value_codec::{vview, Value, ValueView};
use std::path::PathBuf;
use vstd::prelude::*;

verus! {

/// Bytes a buffered value is estimated to take.
pub const ESTIMATED_VALUE_BYTES: u64 = 64;

/// A spill file on disk.
#[derive(Debug)]
pub struct SpillFile {
    /// Where the file is.
    pub path: PathBuf,
    /// Rows in the file.
    pub row_count: usize,
    /// The column the rows are sorted by, if any.
    pub sort_key_column: Option<usize>,
}

/// Spill-file bookkeeping and the spilling threshold.
#[derive(Debug)]
pub struct Spiller {
    tmp_dir: PathBuf,
    spill_counter: u64,
    /// Estimated bytes of a chunk above which it is spilled; 0 disables
    /// spilling.
    pub memory_threshold: u64,
}

/// The name of spill file number `n`: `spill_`, the number in at least
/// five digits (zero-padded), then `.jsonl`.
pub open spec fn spill_file_name_of(n: nat) -> Seq<char> {
    let d = decimal(n);
    let pad = if d.len() < 5 {
        Seq::new((5 - d.len()) as nat, |i: int| '0')
    } else {
        Seq::empty()
    };
    "spill_"@ + pad + d + ".jsonl"@
}

/// The estimated bytes of a chunk of `n` values.
pub open spec fn estimated_size(n: nat) -> nat {
    n * ESTIMATED_VALUE_BYTES as nat
}

impl Spiller {
    /// The spill counter (the number the next spill file gets).
    pub closed spec fn next_number(&self) -> u64 {
        self.spill_counter
    }

    /// The spilling threshold.
    pub closed spec fn threshold(&self) -> u64 {
        self.memory_threshold
    }

    /// The directory of the spill files.
    pub closed spec fn dir(&self) -> PathBuf {
        self.tmp_dir
    }

    /// A spiller writing to `tmp_dir`; its first spill file is number 1.
    pub fn new(tmp_dir: PathBuf, memory_threshold: u64) -> (s: Self)
        ensures
            s.dir() == tmp_dir,
            s.next_number() == 1,
            s.threshold() == memory_threshold,
    {
        Spiller { tmp_dir, spill_counter: 1, memory_threshold }
    }

    /// The directory of the spill files.
    pub fn tmp_dir(&self) -> (d: &PathBuf)
        ensures
            *d == self.dir(),
    {
        &self.tmp_dir
    }

    /// Take the number of the next spill file (the counter wraps at
    /// `u64::MAX`).
    pub fn next_spill_number(&mut self) -> (n: u64)
        ensures
            n == old(self).next_number(),
            final(self).next_number() == old(self).next_number().wrapping_add(1),
            final(self).dir() == old(self).dir(),
            final(self).threshold() == old(self).threshold(),
    {
        let n = self.spill_counter;
        self.spill_counter = self.spill_counter.wrapping_add(1);
        n
    }

    /// The file name of spill file number `n`.
    pub fn spill_file_name(n: u64) -> (name: String)
        ensures
            name@ == spill_file_name_of(n as nat),
    {
        let mut digits = String::new();
        push_decimal(&mut digits, n);
        let dv = chars_of(digits.as_str());
        let mut name = String::new();
        push_str(&mut name, "spill_");
        let mut k = dv.len();
        let ghost pad = if dv@.len() < 5 {
            Seq::new((5 - dv@.len()) as nat, |i: int| '0')
        } else {
            Seq::<char>::empty()
        };
        proof {
            reveal_strlit("spill_");
        }
        while k < 5
            invariant
                dv@ == decimal(n as nat),
                dv@.len() <= k <= 5 || (k == dv@.len() && k >= 5),
                name@ == "spill_"@ + Seq::new((k - dv@.len()) as nat, |i: int| '0'),
            decreases 5 - k,
        {
            push_char(&mut name, '0');
            proof {
                assert(Seq::new((k + 1 - dv@.len()) as nat, |i: int| '0') =~= Seq::new(
                    (k - dv@.len()) as nat,
                    |i: int| '0',
                ).push('0'));
                assert(name@ =~= "spill_"@ + Seq::new((k + 1 - dv@.len()) as nat, |i: int| '0'));
            }
            k = k + 1;
        }
        proof {
            assert(Seq::new((k - dv@.len()) as nat, |i: int| '0') =~= pad);
        }
        push_str(&mut name, digits.as_str());
        push_str(&mut name, ".jsonl");
        proof {
            assert(name@ =~= spill_file_name_of(n as nat));
        }
        name
    }

    /// The estimated in-memory bytes of a chunk's values.
    pub fn estimated_chunk_size(chunk: &ColumnChunk) -> (n: u64)
        requires
            estimated_size(chunk@.len()) <= u64::MAX,
        ensures
            n == estimated_size(chunk@.len()),
    {
        chunk.num_values() as u64 * ESTIMATED_VALUE_BYTES
    }

    /// Whether a chunk's estimated size is above the threshold (never, when
    /// the threshold is 0).
    pub fn should_spill(&self, chunk: &ColumnChunk) -> (b: bool)
        requires
            estimated_size(chunk@.len()) <= u64::MAX,
        ensures
            b == (self.threshold() != 0 && estimated_size(chunk@.len()) > self.threshold()),
    {
        if self.memory_threshold == 0 {
            return false;
        }
        Self::estimated_chunk_size(chunk) > self.memory_threshold
    }
}

// ------------------------------------------------------------------
// Merging sorted runs
// ------------------------------------------------------------------

/// The merge key a value gives: integers as an `i64` (unsigned 64-bit
/// values wrap), nothing for other values.
pub open spec fn key_of(v: ValueView) -> Option<i64> {
    match v {
        ValueView::Int64(x) => Some(x),
        ValueView::Int32(x) => Some(x as i64),
        ValueView::Int16(x) => Some(x as i64),
        ValueView::Int8(x) => Some(x as i64),
        ValueView::UInt64(x) => Some(x as i64),
        ValueView::UInt32(x) => Some(x as i64),
        ValueView::UInt16(x) => Some(x as i64),
        ValueView::UInt8(x) => Some(x as i64),
        _ => None,
    }
}

/// The merge key of a row: that of its value in column `col`.
pub open spec fn row_key(row: Seq<Value>, col: usize) -> Option<i64> {
    if col < row.len() {
        key_of(vview(row[col as int]))
    } else {
        None
    }
}

/// The merge key of `row`, read from column `col`.
pub fn sort_key(row: &[Value], col: usize) -> (k: Option<i64>)
    ensures
        k == row_key(row@, col),
{
    if col >= row.len() {
        return None;
    }
    match &row[col] {
        Value::Int64(v) => Some(*v),
        Value::Int32(v) => Some(*v as i64),
        Value::Int16(v) => Some(*v as i64),
        Value::Int8(v) => Some(*v as i64),
        Value::UInt64(v) => Some(*v as i64),
        Value::UInt32(v) => Some(*v as i64),
        Value::UInt16(v) => Some(*v as i64),
        Value::UInt8(v) => Some(*v as i64),
        _ => None,
    }
}

/// Where the next merged row comes from.
#[derive(Debug, Clone, Copy, PartialEq, Eq, Structural)]
pub enum MergeSource {
    /// The run read by the cursor at this index.
    Cursor(usize),
    /// The in-memory run.
    InMemory,
    /// No run has a row with a key.
    Exhausted,
}

/// Among the first `n` cursor keys, the index and key of the smallest
/// (the earliest on ties); cursors without a key are passed over.
pub open spec fn best_cursor(keys: Seq<Option<i64>>, n: int) -> Option<(int, i64)>
    decreases n,
{
    if n <= 0 {
        None
    } else {
        let b = best_cursor(keys, n - 1);
        match keys[n - 1] {
            None => b,
            Some(k) => match b {
                None => Some((n - 1, k)),
                Some((j, bk)) => if k < bk {
                    Some((n - 1, k))
                } else {
                    b
                },
            },
        }
    }
}

/// The source with the smallest key: the in-memory run only when its key
/// is smaller than every cursor's.
pub open spec fn pick_source(keys: Seq<Option<i64>>, in_memory: Option<i64>) -> MergeSource {
    let b = best_cursor(keys, keys.len() as int);
    match in_memory {
        Some(k) => match b {
            None => MergeSource::InMemory,
            Some((j, bk)) => if k < bk {
                MergeSource::InMemory
            } else {
                MergeSource::Cursor(j as usize)
            },
        },
        None => match b {
            None => MergeSource::Exhausted,
            Some((j, _)) => MergeSource::Cursor(j as usize),
        },
    }
}

proof fn lemma_best_cursor_in_range(keys: Seq<Option<i64>>, n: int)
    ensures
        match best_cursor(keys, n) {
            Some((j, k)) => 0 <= j < n && keys[j] == Some(k),
            None => true,
        },
    decreases n,
{
    if n > 0 {
        lemma_best_cursor_in_range(keys, n - 1);
    }
}

/// The source of the next merged row, given the keys of the cursors' current
/// rows (`None` for an exhausted cursor or a row without a key) and the key
/// of the in-memory run's current row.
pub fn find_smallest(cursor_keys: &[Option<i64>], in_memory_key: Option<i64>) -> (s: MergeSource)
    ensures
        s == pick_source(cursor_keys@, in_memory_key),
{
    let mut best: Option<(usize, i64)> = None;
    let mut i: usize = 0;
    while i < cursor_keys.len()
        invariant
            i <= cursor_keys@.len(),
            match best {
                Some((j, k)) => best_cursor(cursor_keys@, i as int) == Some((j as int, k)),
                None => best_cursor(cursor_keys@, i as int) is None,
            },
        decreases cursor_keys@.len() - i,
    {
        proof {
            lemma_best_cursor_in_range(cursor_keys@, i as int);
        }
        match cursor_keys[i] {
            Some(k) => match best {
                Some((_, bk)) => {
                    if k < bk {
                        best = Some((i, k));
                    }
                },
                None => {
                    best = Some((i, k));
                },
            },
            None => {},
        }
        i = i + 1;
    }
    match in_memory_key {
        Some(k) => match best {
            None => MergeSource::InMemory,
            Some((j, bk)) => if k < bk {
                MergeSource::InMemory
            } else {
                MergeSource::Cursor(j)
            },
        },
        None => match best {
            None => MergeSource::Exhausted,
            Some((j, _)) => MergeSource::Cursor(j),
        },
    }
}

/// What deduplication keeps of the merged rows: the key of the last row
/// emitted with a key.
pub struct Dedup {
    pub enabled: bool,
    pub last_key: Option<i64>,
}

impl Dedup {
    /// Deduplication, on or off, before any row.
    pub fn new(enabled: bool) -> (d: Self)
        ensures
            d.enabled == enabled,
            d.last_key is None,
    {
        Dedup { enabled, last_key: None }
    }

    /// Whether a row with merge key `key` is emitted: always when
    /// deduplication is off or the row has no key, else when its key differs
    /// from the last emitted key, which it then becomes.
    pub fn accept(&mut self, key: Option<i64>) -> (emit: bool)
        ensures
            final(self).enabled == old(self).enabled,
            emit == (!old(self).enabled || key is None || old(self).last_key != key),
            final(self).last_key == (if old(self).enabled && key is Some {
                key
            } else {
                old(self).last_key
            }),
    {
        if self.enabled {
            match key {
                Some(k) => {
                    if self.last_key == Some(k) {
                        return false;
                    }
                    self.last_key = Some(k);
                },
                None => {},
            }
        }
        true
    }
}

/// The in-memory run of a merge: its rows and the position of its current
/// row.
pub struct InMemoryRun {
    rows: Vec<Vec<Value>>,
    next: usize,
    sort_key_col: usize,
}

impl InMemoryRun {
    /// The position of the current row is within the rows.
    pub closed spec fn wf(&self) -> bool {
        self.next <= self.rows@.len()
    }

    /// The rows not yet taken.
    pub closed spec fn remaining(&self) -> Seq<Vec<Value>> {
        self.rows@.subrange(self.next as int, self.rows@.len() as int)
    }

    /// The column holding the merge key.
    pub closed spec fn key_column(&self) -> usize {
        self.sort_key_col
    }

    /// A run over `rows` (none when absent), keyed by column `sort_key_col`.
    pub fn new(rows: Option<Vec<Vec<Value>>>, sort_key_col: usize) -> (r: Self)
        ensures
            r.remaining() == (match rows {
                Some(v) => v@,
                None => Seq::<Vec<Value>>::empty(),
            }),
            r.key_column() == sort_key_col,
            r.wf(),
    {
        let rows = match rows {
            Some(v) => v,
            None => Vec::new(),
        };
        let r = InMemoryRun { rows, next: 0, sort_key_col };
        proof {
            assert(r.rows@.subrange(0, r.rows@.len() as int) =~= r.rows@);
        }
        r
    }

    /// The merge key of the current row (`None` when the run is exhausted
    /// or the row has no key).
    pub fn current_key(&self) -> (k: Option<i64>)
        requires
            self.wf(),
        ensures
            k == (if self.remaining().len() > 0 {
                row_key(self.remaining()[0]@, self.key_column())
            } else {
                None
            }),
    {
        if self.next < self.rows.len() {
            sort_key(self.rows[self.next].as_slice(), self.sort_key_col)
        } else {
            None
        }
    }

    /// Take the current row and move to the next one.
    pub fn take(&mut self) -> (r: Option<Vec<Value>>)
        requires
            old(self).wf(),
        ensures
            final(self).wf(),
            final(self).key_column() == old(self).key_column(),
            match r {
                Some(row) => old(self).remaining().len() > 0 && row == old(self).remaining()[0]
                    && final(self).remaining() == old(self).remaining().drop_first(),
                None => old(self).remaining().len() == 0 && final(self).remaining() == old(
                    self,
                ).remaining(),
            },
    {
        if self.next < self.rows.len() {
            let ghost before = self.rows@;
            let mut row: Vec<Value> = Vec::new();
            self.rows.set_and_swap(self.next, &mut row);
            self.next = self.next + 1;
            proof {
                assert(self.rows@.subrange(self.next as int, self.rows@.len() as int) =~= before.subrange(
                    self.next as int,
                    before.len() as int,
                ));
                assert(before.subrange(self.next - 1, before.len() as int).drop_first()
                    =~= before.subrange(self.next as int, before.len() as int));
            }
            Some(row)
        } else {
            None
        }
    }
}


/// Every integer value has its number as merge key (unsigned 64-bit ones
/// reinterpreted as `i64`), and no other value has a key.
pub proof fn law_integer_merge_keys(v: ValueView)
    ensures
        forall|x: i64| #[trigger] key_of(ValueView::Int64(x)) == Some(x),
        forall|x: i32| #[trigger] key_of(ValueView::Int32(x)) == Some(x as i64),
        forall|x: i16| #[trigger] key_of(ValueView::Int16(x)) == Some(x as i64),
        forall|x: i8| #[trigger] key_of(ValueView::Int8(x)) == Some(x as i64),
        forall|x: u64| #[trigger] key_of(ValueView::UInt64(x)) == Some(x as i64),
        forall|x: u32| #[trigger] key_of(ValueView::UInt32(x)) == Some(x as i64),
        forall|x: u16| #[trigger] key_of(ValueView::UInt16(x)) == Some(x as i64),
        forall|x: u8| #[trigger] key_of(ValueView::UInt8(x)) == Some(x as i64),
        key_of(v) is Some <==> (v is Int64 || v is Int32 || v is Int16 || v is Int8 || v is UInt64 || v is UInt32
            || v is UInt16 || v is UInt8),
{
}

proof fn lemma_best_cursor_least(keys: Seq<Option<i64>>, n: int)
    requires
        0 <= n <= keys.len(),
    ensures
        match best_cursor(keys, n) {
            Some((j, k)) => {
                &&& 0 <= j < n
                &&& keys[j] == Some(k)
                &&& forall|i: int| 0 <= i < n && #[trigger] keys[i] is Some ==> k <= keys[i]->Some_0
                &&& forall|i: int| 0 <= i < j && #[trigger] keys[i] is Some ==> k < keys[i]->Some_0
            },
            None => forall|i: int| 0 <= i < n ==> #[trigger] keys[i] is None,
        },
    decreases n,
{
    if n > 0 {
        lemma_best_cursor_least(keys, n - 1);
    }
}

/// The merge takes its next row from the source with the smallest key:
/// a cursor whose key is no larger than any other cursor's (the earliest
/// on ties) and not larger than the in-memory run's; the in-memory run
/// only when its key is smaller than every cursor's; and it is exhausted
/// only when no source has a key.
pub proof fn law_merge_takes_smallest(keys: Seq<Option<i64>>, in_memory: Option<i64>)
    requires
        keys.len() <= usize::MAX,
    ensures
        pick_source(keys, in_memory) is Exhausted <==> (in_memory is None && forall|i: int|
            0 <= i < keys.len() ==> #[trigger] keys[i] is None),
        pick_source(keys, in_memory) matches MergeSource::Cursor(j) ==> {
            &&& 0 <= j < keys.len()
            &&& keys[j as int] is Some
            &&& forall|i: int|
                0 <= i < keys.len() && #[trigger] keys[i] is Some ==> keys[j as int]->Some_0 <= keys[i]->Some_0
            &&& forall|i: int|
                0 <= i < j && #[trigger] keys[i] is Some ==> keys[j as int]->Some_0 < keys[i]->Some_0
            &&& (in_memory matches Some(m) ==> keys[j as int]->Some_0 <= m)
        },
        pick_source(keys, in_memory) is InMemory ==> (in_memory is Some && forall|i: int|
            0 <= i < keys.len() && #[trigger] keys[i] is Some ==> in_memory->Some_0 < keys[i]->Some_0),
{
    lemma_best_cursor_least(keys, keys.len() as int);
    match best_cursor(keys, keys.len() as int) {
        Some((j, k)) => {
            assert((j as usize) as int == j);
        },
        None => {},
    }
}

} // verus!
