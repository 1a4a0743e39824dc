//! The IceDisk layout of relationship tables: the Parquet files a table is
//! stored in, named after the table inside a base directory.

use crate::value_codec::Value;
use std::path::{Path, PathBuf};
use vstd::prelude::*;

verus! {

/// Opaque handle on a borrowed filesystem path.
#[verifier::external_type_specification]
#[verifier::external_body]
pub struct ExPath(Path);

/// Layout of an IceDisk relationship table.
#[derive(Debug, Clone, Copy, PartialEq, Eq, Structural)]
pub enum IceDiskRelTableLayout {
    /// One `<name>.flat.parquet` file.
    Flat,
    /// `<name>.indices.parquet` plus `<name>.indptr.parquet`.
    Csr,
}

/// The path whose text is `s`.
pub uninterp spec fn path_of_text(s: Seq<char>) -> PathBuf;

/// `PathBuf::from` (std) on a string: the path with that text. Equal texts
/// give equal paths.
#[verifier::external_body]
fn path_from_text(s: String) -> (p: PathBuf)
    ensures
        p == path_of_text(s@),
{
    PathBuf::from(s)
}

/// The text of a path, any part that is not valid Unicode replaced.
pub uninterp spec fn lossy_text(p: &Path) -> Seq<char>;

/// `Path::to_string_lossy` (std): the text of a path, with any part that is
/// not valid Unicode replaced by U+FFFD; the same path gives the same text.
#[verifier::external_body]
fn path_text(p: &Path) -> (s: String)
    ensures
        s@ == lossy_text(p),
{
    p.to_string_lossy().into_owned()
}

/// `file` inside directory `base`, joined with a backslash unless `base`
/// is empty or already ends with a separator.
pub open spec fn joined(base: Seq<char>, file: Seq<char>) -> Seq<char> {
    if base.len() == 0 || base.last() == '\\' || base.last() == '/' {
        base + file
    } else {
        base + seq!['\\'] + file
    }
}

/// An IceDisk relationship table and its files.
pub struct IceDiskRelTable {
    pub name: String,
    pub layout: IceDiskRelTableLayout,
    pub indices_file_path: PathBuf,
    pub indptr_file_path: Option<PathBuf>,
}


fn join_file(base: &String, name: &String, suffix: &str) -> (r: String)
    ensures
        r@ == joined(base@, name@ + suffix@),
{
    let chars = crate::text::chars_of(base.as_str());
    let mut r = String::new();
    crate::text::push_str(&mut r, base.as_str());
    let n = chars.len();
    if n > 0 && chars[n - 1] != '\\' && chars[n - 1] != '/' {
        crate::text::push_char(&mut r, '\\');
    }
    crate::text::push_str(&mut r, name.as_str());
    crate::text::push_str(&mut r, suffix);
    proof {
        assert(r@ =~= joined(base@, name@ + suffix@));
    }
    r
}

impl IceDiskRelTable {
    /// A table named `name` in directory `base_path`: a flat table lives in
    /// `<name>.flat.parquet`, a CSR table in `<name>.indices.parquet` and
    /// `<name>.indptr.parquet`.
    pub fn new(name: String, base_path: &Path, layout: IceDiskRelTableLayout) -> (t: Self)
        ensures
            t.name@ == name@,
            t.layout == layout,
            layout == IceDiskRelTableLayout::Flat ==> t.indices_file_path == path_of_text(
                joined(lossy_text(base_path), name@ + ".flat.parquet"@),
            ) && t.indptr_file_path is None,
            layout == IceDiskRelTableLayout::Csr ==> t.indices_file_path == path_of_text(
                joined(lossy_text(base_path), name@ + ".indices.parquet"@),
            ) && t.indptr_file_path == Some(
                path_of_text(joined(lossy_text(base_path), name@ + ".indptr.parquet"@)),
            ),
    {
        let base = path_text(base_path);
        let (indices, indptr) = match layout {
            IceDiskRelTableLayout::Flat => {
                let f = join_file(&base, &name, ".flat.parquet");
                (path_from_text(f), None)
            },
            IceDiskRelTableLayout::Csr => {
                let f = join_file(&base, &name, ".indices.parquet");
                let g = join_file(&base, &name, ".indptr.parquet");
                (path_from_text(f), Some(path_from_text(g)))
            },
        };
        IceDiskRelTable { name, layout, indices_file_path: indices, indptr_file_path: indptr }
    }
}

/// The rows of a scanned indices file, read one at a time.
pub struct IceDiskRelTableScanState {
    pub cached_batch_data: Vec<Vec<Value>>,
    pub current_row: usize,
}

impl IceDiskRelTableScanState {
    /// The next row, if any is left; the position moves past it.
    pub fn next_row(&mut self) -> (r: Option<&Vec<Value>>)
        ensures
            final(self).cached_batch_data == old(self).cached_batch_data,
            old(self).current_row < old(self).cached_batch_data@.len() ==> r == Some(
                &old(self).cached_batch_data@[old(self).current_row as int],
            ) && final(self).current_row == old(self).current_row + 1,
            old(self).current_row >= old(self).cached_batch_data@.len() ==> r is None
                && final(self).current_row == old(self).current_row,
    {
        if self.current_row < self.cached_batch_data.len() {
            let i = self.current_row;
            self.current_row = i + 1;
            Some(&self.cached_batch_data[i])
        } else {
            None
        }
    }
}

} // verus!
