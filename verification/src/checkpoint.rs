//! The bookkeeping of a checkpoint. Once the log has been written out and
//! the dirty pages flushed, the in-memory log is emptied and holds only a
//! checkpoint marker, which is then written out too.

use crate::wal::{total_record_size, WALRecord, WAL};
use vstd::prelude::*;

verus! {

/// What a checkpoint did.
#[derive(Debug)]
pub struct CheckpointResult {
    /// Log records the checkpoint made durable.
    pub wal_entries_processed: usize,
    /// Pages written while flushing.
    pub pages_flushed: usize,
    pub success: bool,
}

/// Finish a checkpoint of a log that held `wal_entries_processed` records,
/// during which the page-write count went from `page_writes_before` to
/// `page_writes_after`: the log is left holding only a checkpoint marker.
pub fn complete_checkpoint(
    wal: &mut WAL,
    wal_entries_processed: usize,
    page_writes_before: u64,
    page_writes_after: u64,
) -> (r: CheckpointResult)
    requires
        old(wal).wf(),
        page_writes_before <= page_writes_after,
    ensures
        final(wal).wf(),
        final(wal).spec_records() == seq![WALRecord::Checkpoint],
        final(wal).spec_path() == old(wal).spec_path(),
        r.wal_entries_processed == wal_entries_processed,
        r.pages_flushed == (page_writes_after - page_writes_before) as usize,
        r.success,
{
    let pages_flushed = (page_writes_after - page_writes_before) as usize;
    wal.clear();
    proof {
        assert(total_record_size(Seq::<WALRecord>::empty()) == 0);
    }
    wal.append(WALRecord::Checkpoint);
    proof {
        assert(wal.spec_records() =~= seq![WALRecord::Checkpoint]);
    }
    CheckpointResult { wal_entries_processed, pages_flushed, success: true }
}

} // verus!
