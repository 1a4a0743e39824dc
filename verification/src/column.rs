//! The page layout of a column and its bookkeeping.
//!
//! A column page holds a fixed-size header, then its values packed one
//! after the other:
//!
//! ```text
//! [0..4)                 number of values (u32 LE)
//! [4..PAGE_HEADER_SIZE)  end offset of each value in the data area (256 × u32 LE)
//! [PAGE_HEADER_SIZE..)   the data area
//! ```
//!
//! Value `i` spans `[end(i-1), end(i))` of the data area (`end(-1)` = 0).
//! Which page holds a row is found from the row number of each page's
//! first value. A column's bookkeeping can be saved to, and read back
//! from, a small metadata file.

use crate::value_codec::{bytes_at, rd_u32, rd_u64, u32_at, u64_at};
use vstd::bytes::*;
use vstd::prelude::*;

verus! {

/// The most values a page holds.
pub const MAX_VALS_PER_PAGE: usize = 256;

/// Bytes of the page header: the value count and 256 end offsets.
pub const PAGE_HEADER_SIZE: usize = 1028;

/// Why a column operation failed.
#[derive(Debug, Clone, PartialEq, Eq, Structural)]
pub enum ColumnError {
    /// The page is smaller than its header.
    PageTooSmall { len: usize },
    /// The row is not in the page.
    LocalRowOutOfRange,
    /// The value's bytes are not within the page.
    OffsetOutOfBounds,
    /// The value does not fit in the page's free space.
    ValueDoesNotFit { len: usize, page_size: usize, used: u64 },
    /// The row is not in the column.
    RowOutOfRange { row: u64, num_values: u64 },
    /// The metadata file is shorter than its fixed part.
    MetadataTooSmall,
    /// The metadata file does not start with `CMET`.
    MetadataBadMagic,
    /// The metadata file ends inside its page offsets.
    MetadataTruncated,
}

// ------------------------------------------------------------------
// Pages
// ------------------------------------------------------------------

/// The value count a page records.
pub open spec fn page_count(page: Seq<u8>) -> u32 {
    u32_at(page, 0)
}

/// The end offset the page records for value `i`.
pub open spec fn end_offset(page: Seq<u8>, i: int) -> u32 {
    u32_at(page, (4 + 4 * i) as nat)
}

/// The parsed header of a page: the recorded count, and the end offsets of
/// its first `min(count, 256)` values.
pub struct PageHeader {
    pub num_values: u32,
    pub offsets: Vec<u32>,
}

/// `bytes` written over `s` from position `at`.
pub open spec fn splice(s: Seq<u8>, at: int, bytes: Seq<u8>) -> Seq<u8> {
    s.subrange(0, at) + bytes + s.subrange(at + bytes.len(), s.len() as int)
}

/// The end of the used data area of a page with `n` values.
pub open spec fn data_used(page: Seq<u8>, n: int) -> nat {
    if n > 0 {
        end_offset(page, n - 1) as nat
    } else {
        0
    }
}

/// The header of `page`, read.
pub fn parse_page_header(data: &[u8]) -> (r: Result<PageHeader, ColumnError>)
    ensures
        data@.len() < PAGE_HEADER_SIZE ==> r == Err::<PageHeader, ColumnError>(
            ColumnError::PageTooSmall { len: data@.len() as usize },
        ),
        data@.len() >= PAGE_HEADER_SIZE ==> r is Ok && r->Ok_0.num_values == page_count(data@) && r->Ok_0.offsets@.len()
            == (if page_count(data@) < MAX_VALS_PER_PAGE {
            page_count(data@) as int
        } else {
            MAX_VALS_PER_PAGE as int
        }) && (forall|i: int|
            0 <= i < r->Ok_0.offsets@.len() ==> #[trigger] r->Ok_0.offsets@[i] == end_offset(data@, i)),
{
    if data.len() < PAGE_HEADER_SIZE {
        return Err(ColumnError::PageTooSmall { len: data.len() });
    }
    let num_values = rd_u32(data, 0);
    let n: usize = if (num_values as usize) < MAX_VALS_PER_PAGE {
        num_values as usize
    } else {
        MAX_VALS_PER_PAGE
    };
    let mut offsets: Vec<u32> = Vec::new();
    let mut i: usize = 0;
    while i < n
        invariant
            i <= n <= MAX_VALS_PER_PAGE,
            data@.len() >= PAGE_HEADER_SIZE,
            offsets@.len() == i,
            forall|j: int| 0 <= j < i ==> #[trigger] offsets@[j] == end_offset(data@, j),
        decreases n - i,
    {
        offsets.push(rd_u32(data, 4 + i * 4));
        i = i + 1;
    }
    Ok(PageHeader { num_values, offsets })
}

/// The stored bytes of value `local_row` of a page.
pub fn extract_value_bytes(data: &[u8], header: &PageHeader, local_row: usize) -> (r: Result<
    Vec<u8>,
    ColumnError,
>)
    requires
        local_row >= header.num_values || local_row < header.offsets@.len(),
        local_row >= header.num_values || local_row == 0 || header.offsets@[local_row - 1]
            <= header.offsets@[local_row as int],
    ensures
        local_row >= header.num_values ==> r == Err::<Vec<u8>, ColumnError>(
            ColumnError::LocalRowOutOfRange,
        ),
        local_row < header.num_values ==> ({
            let start = PAGE_HEADER_SIZE + (if local_row > 0 {
                header.offsets@[local_row - 1] as int
            } else {
                0
            });
            let end = PAGE_HEADER_SIZE + header.offsets@[local_row as int];
            if start >= data@.len() || end > data@.len() {
                r == Err::<Vec<u8>, ColumnError>(ColumnError::OffsetOutOfBounds)
            } else {
                r is Ok && r->Ok_0@ == data@.subrange(start, end)
            }
        }),
{
    if local_row >= header.num_values as usize {
        return Err(ColumnError::LocalRowOutOfRange);
    }
    let start_off: u64 = if local_row > 0 {
        header.offsets[local_row - 1] as u64
    } else {
        0
    };
    let end_off: u64 = header.offsets[local_row] as u64;
    let value_start: u64 = PAGE_HEADER_SIZE as u64 + start_off;
    let value_end: u64 = PAGE_HEADER_SIZE as u64 + end_off;
    if value_start >= data.len() as u64 || value_end > data.len() as u64 {
        return Err(ColumnError::OffsetOutOfBounds);
    }
    let v = vstd::slice::slice_subrange(data, value_start as usize, value_end as usize);
    let mut out: Vec<u8> = Vec::new();
    crate::wal::append_bytes(&mut out, v);
    proof {
        assert(out@ =~= v@);
    }
    Ok(out)
}

/// The page after appending the stored bytes `v` of a value: its end offset
/// recorded, its bytes placed after the used data area, and the count
/// raised by one.
pub open spec fn page_after_append(page: Seq<u8>, v: Seq<u8>) -> Seq<u8> {
    let n = page_count(page) as int;
    let prev = data_used(page, n);
    let p1 = splice(page, 4 + 4 * n, spec_u32_to_le_bytes((prev + v.len()) as u32));
    let p2 = splice(p1, PAGE_HEADER_SIZE + prev, v);
    splice(p2, 0, spec_u32_to_le_bytes((n + 1) as u32))
}

/// Where appending a value would start writing in the page.
pub open spec fn write_position(page: Seq<u8>) -> nat {
    PAGE_HEADER_SIZE as nat + data_used(page, page_count(page) as int)
}

fn write_bytes(page: &mut Vec<u8>, at: usize, bytes: &[u8])
    requires
        at + bytes.len() <= old(page).len(),
    ensures
        final(page)@ == splice(old(page)@, at as int, bytes@),
{
    let mut j: usize = 0;
    while j < bytes.len()
        invariant
            j <= bytes.len(),
            at + bytes.len() <= page.len(),
            page@.len() == old(page)@.len(),
            page@ == old(page)@.subrange(0, at as int) + bytes@.subrange(0, j as int) + old(
                page,
            )@.subrange(at + j, old(page)@.len() as int),
        decreases bytes@.len() - j,
    {
        page.set(at + j, bytes[j]);
        proof {
            assert(page@ =~= old(page)@.subrange(0, at as int) + bytes@.subrange(0, j + 1)
                + old(page)@.subrange(at + j + 1, old(page)@.len() as int));
        }
        j = j + 1;
    }
    proof {
        assert(bytes@.subrange(0, j as int) =~= bytes@);
    }
}

/// Append the stored bytes of a value to a page of `page_size` bytes that
/// holds fewer than 256 values; refused when they do not fit in the free
/// space, with the bytes already used.
pub fn write_value_to_page(page: &mut Vec<u8>, page_size: usize, serialized: &[u8]) -> (r: Result<
    (),
    ColumnError,
>)
    requires
        old(page)@.len() == page_size,
        page_size >= PAGE_HEADER_SIZE,
        page_count(old(page)@) < MAX_VALS_PER_PAGE,
    ensures
        write_position(old(page)@) + serialized@.len() > page_size ==> r == Err::<(), ColumnError>(
            ColumnError::ValueDoesNotFit {
                len: serialized@.len() as usize,
                page_size,
                used: write_position(old(page)@) as u64,
            },
        ) && final(page)@ == old(page)@,
        write_position(old(page)@) + serialized@.len() <= page_size ==> r is Ok && final(page)@
            == page_after_append(old(page)@, serialized@),
{
    let num_vals = rd_u32(page.as_slice(), 0) as usize;
    let prev_end: u64 = if num_vals > 0 {
        rd_u32(page.as_slice(), 4 + (num_vals - 1) * 4) as u64
    } else {
        0
    };
    let data_write_pos: u64 = PAGE_HEADER_SIZE as u64 + prev_end;
    if data_write_pos > page_size as u64 || serialized.len() as u64 > page_size as u64
        - data_write_pos {
        return Err(
            ColumnError::ValueDoesNotFit {
                len: serialized.len(),
                page_size,
                used: data_write_pos,
            },
        );
    }
    let ghost before = page@;
    let new_end = (prev_end + serialized.len() as u64) as u32;
    let off_pos = 4 + num_vals * 4;
    let end_bytes = u32_to_le_bytes(new_end);
    write_bytes(page, off_pos, end_bytes.as_slice());
    write_bytes(page, data_write_pos as usize, serialized);
    let count_bytes = u32_to_le_bytes((num_vals + 1) as u32);
    write_bytes(page, 0, count_bytes.as_slice());
    proof {
        assert(prev_end == data_used(before, num_vals as int));
        assert((prev_end + serialized@.len()) as u32 == new_end);
    }
    Ok(())
}

/// Whether a value of `value_len` stored bytes must go to a new page
/// rather than the last page `page`: the page holds 256 values, or its
/// free space is too small.
pub fn needs_new_page(page: &[u8], page_size: usize, value_len: usize) -> (b: bool)
    requires
        page@.len() >= PAGE_HEADER_SIZE,
    ensures
        b == (page_count(page@) >= MAX_VALS_PER_PAGE || write_position(page@) + value_len
            > page_size),
{
    let num_vals = rd_u32(page, 0);
    if num_vals as usize >= MAX_VALS_PER_PAGE {
        return true;
    }
    let used: u64 = if num_vals > 0 {
        rd_u32(page, 4 + (num_vals as usize - 1) * 4) as u64
    } else {
        0
    };
    let pos: u64 = PAGE_HEADER_SIZE as u64 + used;
    pos > page_size as u64 || value_len as u64 > page_size as u64 - pos
}

// ------------------------------------------------------------------
// The pages of a column
// ------------------------------------------------------------------

/// Whether a sequence never decreases.
pub open spec fn nondecreasing(s: Seq<u64>) -> bool {
    forall|i: int, j: int| 0 <= i <= j < s.len() ==> s[i] <= s[j]
}

/// The bookkeeping of a column: how many values it holds, how many pages,
/// and the row number of the first value of each page.
#[derive(Debug)]
pub struct ColumnPages {
    pub num_values: u64,
    pub num_pages: u64,
    pub page_row_offsets: Vec<u64>,
}

impl View for ColumnPages {
    type V = (u64, u64, Seq<u64>);

    open spec fn view(&self) -> (u64, u64, Seq<u64>) {
        (self.num_values, self.num_pages, self.page_row_offsets@)
    }
}

impl ColumnPages {
    /// The bookkeeping is consistent: one first row per page, in order,
    /// none past the values.
    pub open spec fn wf(&self) -> bool {
        &&& self.page_row_offsets@.len() == self.num_pages
        &&& nondecreasing(self.page_row_offsets@)
        &&& forall|i: int| 0 <= i < self.page_row_offsets@.len() ==> #[trigger] self.page_row_offsets@[i]
            <= self.num_values
    }

    /// A column without values or pages.
    pub fn new() -> (c: Self)
        ensures
            c.wf(),
            c.num_values == 0,
            c.page_row_offsets@ == Seq::<u64>::empty(),
    {
        ColumnPages { num_values: 0, num_pages: 0, page_row_offsets: Vec::new() }
    }

    /// Account a new page, whose first row is the next value's; its index.
    pub fn add_page(&mut self) -> (idx: u64)
        requires
            old(self).num_pages < u64::MAX,
        ensures
            idx == old(self).num_pages,
            final(self).num_pages == old(self).num_pages + 1,
            final(self).num_values == old(self).num_values,
            final(self).page_row_offsets@ == old(self).page_row_offsets@.push(old(self).num_values),
            old(self).wf() ==> final(self).wf(),
    {
        self.page_row_offsets.push(self.num_values);
        let idx = self.num_pages;
        self.num_pages = self.num_pages + 1;
        idx
    }

    /// Account a value written to the last page.
    pub fn value_written(&mut self)
        requires
            old(self).num_values < u64::MAX,
        ensures
            final(self).num_values == old(self).num_values + 1,
            final(self).num_pages == old(self).num_pages,
            final(self).page_row_offsets@ == old(self).page_row_offsets@,
            old(self).wf() ==> final(self).wf(),
    {
        self.num_values = self.num_values + 1;
    }

    /// The page a value is written to when the last page has room: the last
    /// page, or none when there is no page yet.
    pub fn write_target(&self) -> (p: Option<u64>)
        ensures
            p == (if self.num_pages == 0 {
                None
            } else {
                Some((self.num_pages - 1) as u64)
            }),
    {
        if self.num_pages == 0 {
            None
        } else {
            Some(self.num_pages - 1)
        }
    }

    /// Refuse a row past the column's values.
    pub fn check_row(&self, row: u64) -> (r: Result<(), ColumnError>)
        ensures
            row < self.num_values ==> r is Ok,
            row >= self.num_values ==> r == Err::<(), ColumnError>(
                ColumnError::RowOutOfRange { row, num_values: self.num_values },
            ),
    {
        if row >= self.num_values {
            Err(ColumnError::RowOutOfRange { row, num_values: self.num_values })
        } else {
            Ok(())
        }
    }

    /// The rows `[start, end)` a scan of `count` rows from `start` reads:
    /// empty when `count` is 0 or `start` is past the values, else up to the
    /// last value.
    pub fn scan_bounds(&self, start: u64, count: u64) -> (r: (u64, u64))
        ensures
            count == 0 || start >= self.num_values ==> r.0 == r.1,
            !(count == 0 || start >= self.num_values) ==> r.0 == start && r.1 == (if start + count
                < self.num_values {
                start + count
            } else {
                self.num_values as int
            }),
    {
        if count == 0 || start >= self.num_values {
            return (0, 0);
        }
        let end = if count < self.num_values - start {
            start + count
        } else {
            self.num_values
        };
        (start, end)
    }

    /// The page holding row `row` and the row's place in it: the last page
    /// whose first row is at or before `row` (page 0 when there is none).
    pub fn locate_row(&self, row: u64) -> (r: (usize, u64))
        ensures
            ({
                let offs = self.page_row_offsets@;
                ||| r == (0usize, row)
                ||| {
                    &&& r.0 < offs.len()
                    &&& offs[r.0 as int] <= row
                    &&& r.1 == row - offs[r.0 as int]
                    &&& (r.0 + 1 == offs.len() || offs[r.0 + 1] > row)
                }
            }),
            ({
                let offs = self.page_row_offsets@;
                nondecreasing(offs) ==> if offs.len() == 0 || row < offs[0] {
                    r == (0usize, row)
                } else {
                    &&& r.0 < offs.len()
                    &&& offs[r.0 as int] <= row
                    &&& r.1 == row - offs[r.0 as int]
                    &&& forall|j: int| r.0 < j < offs.len() ==> #[trigger] offs[j] > row
                }
            }),
    {
        let offs = &self.page_row_offsets;
        let mut lo: usize = 0;
        let mut hi: usize = offs.len();
        while lo < hi
            invariant
                lo <= hi <= offs@.len(),
                lo == 0 || offs@[lo - 1] <= row,
                hi == offs@.len() || offs@[hi as int] > row,
                nondecreasing(offs@) ==> forall|j: int| hi <= j < offs@.len() ==> #[trigger] offs@[j]
                    > row,
            decreases hi - lo,
        {
            let mid = lo + (hi - lo) / 2;
            if offs[mid] <= row {
                lo = mid + 1;
            } else {
                hi = mid;
            }
        }
        if lo == 0 {
            proof {
                if offs@.len() > 0 {
                    assert(offs@[0] > row);
                }
            }
            (0, row)
        } else {
            (lo - 1, row - offs[lo - 1])
        }
    }

    /// Take the column's state from the bytes of its metadata file (see
    /// `metadata_bytes`). A file that ends inside its page offsets is
    /// refused after the value and page counts were taken.
    pub fn load_metadata_bytes(&mut self, data: &[u8]) -> (r: Result<(), ColumnError>)
        requires
            !(36 <= data@.len() < 40),
            data@.len() >= 40 ==> 40 + 8 * u64_at(data@, 32) <= usize::MAX,
        ensures
            data@.len() < 36 ==> r == Err::<(), ColumnError>(ColumnError::MetadataTooSmall)
                && final(self)@ == old(self)@,
            data@.len() >= 36 && data@.subrange(0, 4) != metadata_magic() ==> r == Err::<(), ColumnError>(
                ColumnError::MetadataBadMagic) && final(self)@ == old(self)@,
            data@.len() >= 40 && data@.subrange(0, 4) == metadata_magic() ==> ({
                let np = u64_at(data@, 32);
                &&& final(self).num_values == u64_at(data@, 24)
                &&& final(self).num_pages == np
                &&& data@.len() < 40 + 8 * np ==> r == Err::<(), ColumnError>(
                    ColumnError::MetadataTruncated,
                ) && final(self).page_row_offsets@ == old(self).page_row_offsets@
                &&& data@.len() >= 40 + 8 * np ==> r is Ok && final(self).page_row_offsets@.len() == np
                    && forall|i: int|
                    0 <= i < np ==> #[trigger] final(self).page_row_offsets@[i] == u64_at(
                        data@,
                        (40 + 8 * i) as nat,
                    )
            }),
    {
        if data.len() < 36 {
            return Err(ColumnError::MetadataTooSmall);
        }
        if !(data[0] == 0x43 && data[1] == 0x4d && data[2] == 0x45 && data[3] == 0x54) {
            proof {
                let m = data@.subrange(0, 4);
                if m == metadata_magic() {
                    assert(m[0] == data@[0] && m[1] == data@[1] && m[2] == data@[2] && m[3]
                        == data@[3]);
                }
            }
            return Err(ColumnError::MetadataBadMagic);
        }
        proof {
            assert(data@.subrange(0, 4) =~= metadata_magic());
        }
        self.num_values = rd_u64(data, 24);
        self.num_pages = rd_u64(data, 32);
        let num_pages = self.num_pages as usize;
        if data.len() - 40 < num_pages * 8 {
            return Err(ColumnError::MetadataTruncated);
        }
        let mut offsets: Vec<u64> = Vec::new();
        let mut i: usize = 0;
        while i < num_pages
            invariant
                i <= num_pages,
                num_pages == u64_at(data@, 32),
                40 + 8 * num_pages <= data.len(),
                offsets@.len() == i,
                forall|j: int| 0 <= j < i ==> #[trigger] offsets@[j] == u64_at(data@, (40 + 8 * j) as nat),
            decreases num_pages - i,
        {
            offsets.push(rd_u64(data, 40 + 8 * i));
            i = i + 1;
        }
        self.page_row_offsets = offsets;
        Ok(())
    }
}

// ------------------------------------------------------------------
// The metadata file
// ------------------------------------------------------------------

/// The magic bytes `CMET` of a metadata file.
pub open spec fn metadata_magic() -> Seq<u8> {
    seq![0x43u8, 0x4du8, 0x45u8, 0x54u8]
}

/// Little-endian `u64`s one after the other.
pub open spec fn u64s_le(s: Seq<u64>) -> Seq<u8>
    decreases s.len(),
{
    if s.len() == 0 {
        Seq::empty()
    } else {
        u64s_le(s.drop_last()) + spec_u64_to_le_bytes(s.last())
    }
}

/// The metadata file of a column: `CMET`, version 1, the logical type,
/// the table id, the column index, the value and page counts, then the
/// first row of each page, all little-endian.
pub open spec fn metadata_of(
    logical_type: u32,
    table_id: u64,
    col_idx: u32,
    num_values: u64,
    num_pages: u64,
    offsets: Seq<u64>,
) -> Seq<u8> {
    metadata_magic() + spec_u32_to_le_bytes(1) + spec_u32_to_le_bytes(logical_type)
        + spec_u64_to_le_bytes(table_id) + spec_u32_to_le_bytes(col_idx) + spec_u64_to_le_bytes(
        num_values,
    ) + spec_u64_to_le_bytes(num_pages) + u64s_le(offsets)
}

/// The bytes of a column's metadata file.
pub fn metadata_bytes(logical_type: u32, table_id: u64, col_idx: u32, pages: &ColumnPages) -> (r:
    Vec<u8>)
    ensures
        r@ == metadata_of(
            logical_type,
            table_id,
            col_idx,
            pages.num_values,
            pages.num_pages,
            pages.page_row_offsets@,
        ),
{
    let mut buf: Vec<u8> = Vec::new();
    buf.push(0x43);
    buf.push(0x4d);
    buf.push(0x45);
    buf.push(0x54);
    crate::wal::append_bytes(&mut buf, u32_to_le_bytes(1).as_slice());
    crate::wal::append_bytes(&mut buf, u32_to_le_bytes(logical_type).as_slice());
    crate::wal::append_bytes(&mut buf, u64_to_le_bytes(table_id).as_slice());
    crate::wal::append_bytes(&mut buf, u32_to_le_bytes(col_idx).as_slice());
    crate::wal::append_bytes(&mut buf, u64_to_le_bytes(pages.num_values).as_slice());
    crate::wal::append_bytes(&mut buf, u64_to_le_bytes(pages.num_pages).as_slice());
    let ghost head = buf@;
    let offs = &pages.page_row_offsets;
    let mut i: usize = 0;
    while i < offs.len()
        invariant
            i <= offs@.len(),
            buf@ == head + u64s_le(offs@.subrange(0, i as int)),
        decreases offs@.len() - i,
    {
        crate::wal::append_bytes(&mut buf, u64_to_le_bytes(offs[i]).as_slice());
        proof {
            assert(offs@.subrange(0, i + 1).drop_last() =~= offs@.subrange(0, i as int));
            assert(buf@ =~= head + u64s_le(offs@.subrange(0, i + 1)));
        }
        i = i + 1;
    }
    proof {
        assert(offs@.subrange(0, offs@.len() as int) =~= offs@);
        assert(buf@ =~= metadata_of(
            logical_type,
            table_id,
            col_idx,
            pages.num_values,
            pages.num_pages,
            pages.page_row_offsets@,
        ));
    }
    buf
}

// ------------------------------------------------------------------
// What a read gives back of a write
// ------------------------------------------------------------------

proof fn lemma_splice(s: Seq<u8>, at: int, b: Seq<u8>)
    requires
        0 <= at,
        at + b.len() <= s.len(),
    ensures
        splice(s, at, b).len() == s.len(),
        forall|k: int|
            0 <= k < s.len() ==> #[trigger] splice(s, at, b)[k] == (if at <= k < at + b.len() {
                b[k - at]
            } else {
                s[k]
            }),
{
    assert forall|k: int| 0 <= k < s.len() implies #[trigger] splice(s, at, b)[k] == (if at <= k < at
        + b.len() {
        b[k - at]
    } else {
        s[k]
    }) by {
        if k < at {
        } else if k < at + b.len() {
        } else {
        }
    }
}

proof fn lemma_u32_same(s: Seq<u8>, t: Seq<u8>, pos: int)
    requires
        0 <= pos,
        pos + 4 <= s.len(),
        pos + 4 <= t.len(),
        forall|k: int| pos <= k < pos + 4 ==> s[k] == t[k],
    ensures
        u32_at(s, pos as nat) == u32_at(t, pos as nat),
{
    assert(s.subrange(pos, pos + 4) =~= t.subrange(pos, pos + 4));
}

proof fn lemma_u32_written(s: Seq<u8>, at: int, x: u32)
    requires
        0 <= at,
        at + 4 <= s.len(),
    ensures
        u32_at(splice(s, at, spec_u32_to_le_bytes(x)), at as nat) == x,
{
    lemma_auto_spec_u32_to_from_le_bytes();
    let b = spec_u32_to_le_bytes(x);
    lemma_splice(s, at, b);
    assert(splice(s, at, b).subrange(at, at + 4) =~= b);
}

/// Appending a value to a page that has room for it records one more
/// value, whose bytes read back as the value, while the end offsets and
/// bytes of the values already in the page stay as they were.
pub proof fn law_page_append_then_read(page: Seq<u8>, page_size: nat, v: Seq<u8>)
    requires
        page.len() == page_size,
        PAGE_HEADER_SIZE <= page_size <= u32::MAX,
        page_count(page) < MAX_VALS_PER_PAGE,
        write_position(page) + v.len() <= page_size,
    ensures
        ({
            let q = page_after_append(page, v);
            let n = page_count(page) as int;
            let used = data_used(page, n);
            &&& q.len() == page.len()
            &&& page_count(q) == n + 1
            &&& end_offset(q, n) == used + v.len()
            &&& q.subrange(
                PAGE_HEADER_SIZE + used,
                PAGE_HEADER_SIZE + end_offset(q, n),
            ) == v
            &&& forall|i: int| 0 <= i < n ==> #[trigger] end_offset(q, i) == end_offset(page, i)
            &&& q.subrange(PAGE_HEADER_SIZE as int, PAGE_HEADER_SIZE + used) == page.subrange(
                PAGE_HEADER_SIZE as int,
                PAGE_HEADER_SIZE + used,
            )
        }),
{
    lemma_auto_spec_u32_to_from_le_bytes();
    let n = page_count(page) as int;
    let used = data_used(page, n);
    let e = spec_u32_to_le_bytes((used + v.len()) as u32);
    let c = spec_u32_to_le_bytes((n + 1) as u32);
    let p1 = splice(page, 4 + 4 * n, e);
    let p2 = splice(p1, PAGE_HEADER_SIZE + used, v);
    let q = splice(p2, 0, c);
    lemma_splice(page, 4 + 4 * n, e);
    lemma_splice(p1, PAGE_HEADER_SIZE + used, v);
    lemma_splice(p2, 0, c);
    assert(q == page_after_append(page, v));
    lemma_u32_written(p2, 0, (n + 1) as u32);
    lemma_u32_written(page, 4 + 4 * n, (used + v.len()) as u32);
    lemma_u32_same(q, p1, 4 + 4 * n);
    assert forall|i: int| 0 <= i < n implies #[trigger] end_offset(q, i) == end_offset(page, i) by {
        lemma_u32_same(q, page, 4 + 4 * i);
    }
    assert(q.subrange(PAGE_HEADER_SIZE + used, PAGE_HEADER_SIZE + used + v.len()) =~= v);
    assert(q.subrange(PAGE_HEADER_SIZE as int, PAGE_HEADER_SIZE + used) =~= page.subrange(
        PAGE_HEADER_SIZE as int,
        PAGE_HEADER_SIZE + used,
    ));
}

} // verus!
