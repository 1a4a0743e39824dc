//! The SQLite extension: its identity within the extension registry.

use vstd::prelude::*;

verus! {

/// The extension for querying SQLite databases.
pub struct SqliteExtension;

impl SqliteExtension {
    /// The extension.
    pub fn new() -> (e: Self) {
        SqliteExtension
    }

    /// The name the extension registers under.
    pub fn name(&self) -> (n: &'static str)
        ensures
            n@ == seq!['S', 'Q', 'L', 'I', 'T', 'E'],
    {
        proof {
            reveal_strlit("SQLITE");
        }
        let n = "SQLITE";
        proof {
            assert(n@ =~= seq!['S', 'Q', 'L', 'I', 'T', 'E']);
        }
        n
    }
}

} // verus!
