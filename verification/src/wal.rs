//! Write-ahead log: the records of write operations, kept in order before
//! they reach the main storage, with their on-disk byte encoding.

use std::path::PathBuf;
use vstd::bytes::{spec_u32_to_le_bytes, spec_u64_to_le_bytes, u32_to_le_bytes, u64_to_le_bytes};
use vstd::prelude::*;

verus! {

/// Opaque I/O error handed back by a replay callback.
#[verifier::external_type_specification]
#[verifier::external_body]
pub struct ExIoError(std::io::Error);

/// A record in the WAL.
#[derive(Debug, Clone)]
pub enum WALRecord {
    Insert { table_id: u64, data: Vec<u8> },
    Delete { table_id: u64, row_id: u64 },
    Update { table_id: u64, row_id: u64, column: u32, data: Vec<u8> },
    /// A write to a column page.
    ColumnWrite { table_id: u64, col_id: u32, page_id: u64, data: Vec<u8> },
    Commit { transaction_id: u64 },
    Rollback { transaction_id: u64 },
    Checkpoint,
}

/// The size a record adds to the log's running total: the payload length
/// for records that carry data, 8 for the others.
pub open spec fn record_size(r: WALRecord) -> nat {
    match r {
        WALRecord::Insert { data, .. } => data@.len(),
        WALRecord::Update { data, .. } => data@.len(),
        WALRecord::ColumnWrite { data, .. } => data@.len(),
        _ => 8,
    }
}

/// Sum of the sizes of a sequence of records.
pub open spec fn total_record_size(rs: Seq<WALRecord>) -> nat
    decreases rs.len(),
{
    if rs.len() == 0 {
        0
    } else {
        total_record_size(rs.drop_last()) + record_size(rs.last())
    }
}

/// A payload with its length as a little-endian `u32` in front (the length
/// is taken modulo 2^32).
pub open spec fn framed(data: Seq<u8>) -> Seq<u8> {
    spec_u32_to_le_bytes(data.len() as u32) + data
}

/// The on-disk encoding of one record: a tag byte, then its fields as
/// little-endian integers, payloads framed by their length.
pub open spec fn encode_record(r: WALRecord) -> Seq<u8> {
    match r {
        WALRecord::Insert { table_id, data } => seq![0x49u8] + spec_u64_to_le_bytes(table_id)
            + framed(data@),
        WALRecord::Delete { table_id, row_id } => seq![0x44u8] + spec_u64_to_le_bytes(table_id)
            + spec_u64_to_le_bytes(row_id),
        WALRecord::Update { table_id, row_id, column, data } => seq![0x55u8]
            + spec_u64_to_le_bytes(table_id) + spec_u64_to_le_bytes(row_id)
            + spec_u32_to_le_bytes(column) + framed(data@),
        WALRecord::ColumnWrite { table_id, col_id, page_id, data } => seq![0x57u8]
            + spec_u64_to_le_bytes(table_id) + spec_u32_to_le_bytes(col_id)
            + spec_u64_to_le_bytes(page_id) + framed(data@),
        WALRecord::Commit { transaction_id } => seq![0x43u8] + spec_u64_to_le_bytes(
            transaction_id,
        ),
        WALRecord::Rollback { transaction_id } => seq![0x52u8] + spec_u64_to_le_bytes(
            transaction_id,
        ),
        WALRecord::Checkpoint => seq![0x4bu8],
    }
}

/// The encoding of a sequence of records, one after the other.
pub open spec fn encode_all(rs: Seq<WALRecord>) -> Seq<u8>
    decreases rs.len(),
{
    if rs.len() == 0 {
        Seq::empty()
    } else {
        encode_all(rs.drop_last()) + encode_record(rs.last())
    }
}

pub(crate) fn append_bytes(out: &mut Vec<u8>, bytes: &[u8])
    ensures
        final(out)@ == old(out)@ + bytes@,
{
    let mut i: usize = 0;
    while i < bytes.len()
        invariant
            i <= bytes@.len(),
            out@ == old(out)@ + bytes@.subrange(0, i as int),
        decreases bytes@.len() - i,
    {
        out.push(bytes[i]);
        proof {
            assert(bytes@.subrange(0, i + 1) =~= bytes@.subrange(0, i as int).push(bytes@[i as int]));
        }
        i = i + 1;
    }
    proof {
        assert(bytes@.subrange(0, bytes@.len() as int) =~= bytes@);
    }
}

fn append_framed(out: &mut Vec<u8>, data: &Vec<u8>)
    ensures
        final(out)@ == old(out)@ + framed(data@),
{
    let len = u32_to_le_bytes(data.len() as u32);
    append_bytes(out, len.as_slice());
    append_bytes(out, data.as_slice());
    proof {
        assert(final(out)@ =~= old(out)@ + framed(data@));
    }
}

/// Append the encoding of `r` to `out`.
pub fn encode_record_into(r: &WALRecord, out: &mut Vec<u8>)
    ensures
        final(out)@ == old(out)@ + encode_record(*r),
{
    match r {
        WALRecord::Insert { table_id, data } => {
            out.push(0x49u8);
            append_bytes(out, u64_to_le_bytes(*table_id).as_slice());
            append_framed(out, data);
        },
        WALRecord::Delete { table_id, row_id } => {
            out.push(0x44u8);
            append_bytes(out, u64_to_le_bytes(*table_id).as_slice());
            append_bytes(out, u64_to_le_bytes(*row_id).as_slice());
        },
        WALRecord::Update { table_id, row_id, column, data } => {
            out.push(0x55u8);
            append_bytes(out, u64_to_le_bytes(*table_id).as_slice());
            append_bytes(out, u64_to_le_bytes(*row_id).as_slice());
            append_bytes(out, u32_to_le_bytes(*column).as_slice());
            append_framed(out, data);
        },
        WALRecord::ColumnWrite { table_id, col_id, page_id, data } => {
            out.push(0x57u8);
            append_bytes(out, u64_to_le_bytes(*table_id).as_slice());
            append_bytes(out, u32_to_le_bytes(*col_id).as_slice());
            append_bytes(out, u64_to_le_bytes(*page_id).as_slice());
            append_framed(out, data);
        },
        WALRecord::Commit { transaction_id } => {
            out.push(0x43u8);
            append_bytes(out, u64_to_le_bytes(*transaction_id).as_slice());
        },
        WALRecord::Rollback { transaction_id } => {
            out.push(0x52u8);
            append_bytes(out, u64_to_le_bytes(*transaction_id).as_slice());
        },
        WALRecord::Checkpoint => {
            out.push(0x4bu8);
        },
    }
    proof {
        assert(final(out)@ =~= old(out)@ + encode_record(*r));
    }
}

/// Write-ahead log: the records appended since the last clear, in order.
pub struct WAL {
    path: PathBuf,
    records: Vec<WALRecord>,
    total_size: usize,
    is_dirty: bool,
}

impl WAL {
    /// The records, oldest first.
    pub closed spec fn spec_records(&self) -> Seq<WALRecord> {
        self.records@
    }

    /// The file the log is flushed to.
    pub closed spec fn spec_path(&self) -> PathBuf {
        self.path
    }

    /// The running size equals the sum of the record sizes, and the log is
    /// dirty exactly when it holds records.
    pub closed spec fn wf(&self) -> bool {
        &&& self.total_size == total_record_size(self.records@)
        &&& self.is_dirty == (self.records@.len() > 0)
    }

    /// An empty, clean log flushed to `path`.
    pub fn new(path: PathBuf) -> (w: Self)
        ensures
            w.wf(),
            w.spec_records() == Seq::<WALRecord>::empty(),
            w.spec_path() == path,
    {
        WAL { path, records: Vec::new(), total_size: 0, is_dirty: false }
    }

    /// The file the log is flushed to.
    pub fn path(&self) -> (p: &PathBuf)
        ensures
            *p == self.spec_path(),
    {
        &self.path
    }

    /// Append a record; the running size grows by its size and the log
    /// becomes dirty.
    pub fn append(&mut self, record: WALRecord)
        requires
            old(self).wf(),
            total_record_size(old(self).spec_records()) + record_size(record) <= usize::MAX,
        ensures
            final(self).wf(),
            final(self).spec_records() == old(self).spec_records().push(record),
            final(self).spec_path() == old(self).spec_path(),
    {
        let size = match &record {
            WALRecord::Insert { data, .. } => data.len(),
            WALRecord::Update { data, .. } => data.len(),
            WALRecord::ColumnWrite { data, .. } => data.len(),
            _ => 8,
        };
        let ghost old_records = self.records@;
        self.total_size = self.total_size + size;
        self.is_dirty = true;
        self.records.push(record);
        proof {
            assert(self.records@.drop_last() =~= old_records);
        }
    }

    /// Log a column page write.
    pub fn log_column_write(&mut self, table_id: u64, col_id: u32, page_id: u64, data: &[u8])
        requires
            old(self).wf(),
            total_record_size(old(self).spec_records()) + data@.len() <= usize::MAX,
        ensures
            final(self).wf(),
            final(self).spec_path() == old(self).spec_path(),
            final(self).spec_records().len() == old(self).spec_records().len() + 1,
            final(self).spec_records().drop_last() == old(self).spec_records(),
            final(self).spec_records().last() matches WALRecord::ColumnWrite {
                table_id: t,
                col_id: c,
                page_id: p,
                data: d,
            } && t == table_id && c == col_id && p == page_id && d@ == data@,
    {
        let mut copy: Vec<u8> = Vec::new();
        append_bytes(&mut copy, data);
        proof {
            assert(copy@ =~= data@);
        }
        let ghost before = self.spec_records();
        self.append(WALRecord::ColumnWrite { table_id, col_id, page_id, data: copy });
        proof {
            assert(self.spec_records().drop_last() =~= before);
        }
    }

    /// The records, oldest first.
    pub fn records(&self) -> (r: &[WALRecord])
        ensures
            r@ == self.spec_records(),
    {
        self.records.as_slice()
    }

    /// Drop all records; the log is empty and clean again.
    pub fn clear(&mut self)
        ensures
            final(self).wf(),
            final(self).spec_records() == Seq::<WALRecord>::empty(),
            final(self).spec_path() == old(self).spec_path(),
    {
        self.records.clear();
        self.total_size = 0;
        self.is_dirty = false;
    }

    /// Number of records.
    pub fn len(&self) -> (n: usize)
        ensures
            n == self.spec_records().len(),
    {
        self.records.len()
    }

    /// Whether the log holds no record.
    pub fn is_empty(&self) -> (b: bool)
        ensures
            b == (self.spec_records().len() == 0),
    {
        self.records.len() == 0
    }

    /// Sum of the sizes of the records.
    pub fn total_size(&self) -> (n: usize)
        requires
            self.wf(),
        ensures
            n == total_record_size(self.spec_records()),
    {
        self.total_size
    }

    /// Whether records were appended since the last clear.
    pub fn is_dirty(&self) -> (b: bool)
        requires
            self.wf(),
        ensures
            b == (self.spec_records().len() > 0),
    {
        self.is_dirty
    }

    /// Hand each record to `apply`, oldest first, stopping at the first
    /// error, which is returned.
    pub fn replay<F>(&self, mut apply: F) -> (r: std::io::Result<()>)
        where F: FnMut(&WALRecord) -> std::io::Result<()>,
        requires
            forall|f: F, rec: &WALRecord| call_requires(f, (rec,)),
        ensures
            self.spec_records().len() == 0 ==> r is Ok,
            r is Ok ==> forall|k: int|
                0 <= k < self.spec_records().len() ==> #[trigger] accepted::<F>(self.spec_records()[k]),
            r is Err ==> exists|k: int|
                0 <= k < self.spec_records().len() && #[trigger] rejected::<F>(self.spec_records()[k], r)
                    && forall|j: int| 0 <= j < k ==> #[trigger] accepted::<F>(self.spec_records()[j]),
    {
        let mut i: usize = 0;
        while i < self.records.len()
            invariant
                i <= self.records@.len(),
                forall|f: F, rec: &WALRecord| call_requires(f, (rec,)),
                forall|k: int| 0 <= k < i ==> #[trigger] accepted::<F>(self.spec_records()[k]),
            decreases self.records@.len() - i,
        {
            let ghost f0 = apply;
            let res = apply(&self.records[i]);
            if res.is_err() {
                proof {
                    assert(call_ensures(f0, (&self.spec_records()[i as int],), res));
                    assert(rejected::<F>(self.spec_records()[i as int], res));
                }
                return res;
            }
            proof {
                assert(res is Ok);
                assert(res == Ok::<(), std::io::Error>(res->Ok_0));
                assert(res->Ok_0 == ());
                assert(call_ensures(f0, (&self.spec_records()[i as int],), Ok::<(), std::io::Error>(())));
                assert(accepted::<F>(self.spec_records()[i as int]));
            }
            i = i + 1;
        }
        Ok(())
    }

    /// The bytes that persist the log: the encodings of the records, in order.
    pub fn encode(&self) -> (bytes: Vec<u8>)
        ensures
            bytes@ == encode_all(self.spec_records()),
    {
        let mut out: Vec<u8> = Vec::new();
        let mut i: usize = 0;
        while i < self.records.len()
            invariant
                i <= self.records@.len(),
                out@ == encode_all(self.records@.subrange(0, i as int)),
            decreases self.records@.len() - i,
        {
            proof {
                let next = self.records@.subrange(0, i + 1);
                assert(next.drop_last() =~= self.records@.subrange(0, i as int));
            }
            encode_record_into(&self.records[i], &mut out);
            i = i + 1;
        }
        proof {
            assert(self.records@.subrange(0, self.records@.len() as int) =~= self.records@);
        }
        out
    }
}

/// Whether a call of `apply` on `rec` can have returned `Ok`.
pub open spec fn accepted<F: FnMut(&WALRecord) -> std::io::Result<()>>(rec: WALRecord) -> bool {
    exists|f: F| call_ensures(f, (&rec,), Ok::<(), std::io::Error>(()))
}

/// Some state of the closure may give the error `r` on the record.
pub open spec fn rejected<F: FnMut(&WALRecord) -> std::io::Result<()>>(
    rec: WALRecord,
    r: std::io::Result<()>,
) -> bool {
    exists|f: F| call_ensures(f, (&rec,), r)
}

/// Appending a record appends its encoding to the log's bytes: the log on
/// disk is the concatenation of its records' encodings, oldest first.
pub proof fn law_encode_append(rs: Seq<WALRecord>, r: WALRecord)
    ensures
        encode_all(rs.push(r)) == encode_all(rs) + encode_record(r),
        total_record_size(rs.push(r)) == total_record_size(rs) + record_size(r),
{
    assert(rs.push(r).drop_last() =~= rs);
}

/// Every record's encoding starts with its tag byte, and distinct kinds of
/// record have distinct tags.
pub proof fn law_record_tags(r: WALRecord)
    ensures
        encode_record(r).len() >= 1,
        encode_record(r)[0] == match r {
            WALRecord::Insert { .. } => 0x49u8,
            WALRecord::Delete { .. } => 0x44u8,
            WALRecord::Update { .. } => 0x55u8,
            WALRecord::ColumnWrite { .. } => 0x57u8,
            WALRecord::Commit { .. } => 0x43u8,
            WALRecord::Rollback { .. } => 0x52u8,
            WALRecord::Checkpoint => 0x4bu8,
        },
{
}

} // verus!
