//! Per-transaction write buffers: the inserts, deletes and updates of a
//! transaction, kept per table until commit (or dropped on rollback).

use std::collections::HashMap;
use vstd::prelude::*;

verus! {

/// The buffered writes of one table in one transaction.
#[derive(Debug)]
pub struct LocalTableData {
    inserted_rows: Vec<Vec<u8>>,
    deleted_row_ids: Vec<u64>,
    updated_rows: HashMap<u64, Vec<u8>>,
}

/// Abstract content of a table buffer: inserted rows in order, deleted row
/// ids in order, and the latest update per row id.
pub struct TableWrites {
    pub inserted: Seq<Seq<u8>>,
    pub deleted: Seq<u64>,
    pub updated: Map<u64, Seq<u8>>,
}

/// The empty buffer.
pub open spec fn no_writes() -> TableWrites {
    TableWrites { inserted: Seq::empty(), deleted: Seq::empty(), updated: Map::empty() }
}

/// Number of buffered mutations of a buffer.
pub open spec fn num_writes(w: TableWrites) -> nat {
    w.inserted.len() + w.deleted.len() + w.updated.len()
}

impl View for LocalTableData {
    type V = TableWrites;

    closed spec fn view(&self) -> TableWrites {
        TableWrites {
            inserted: self.inserted_rows@.map_values(|r: Vec<u8>| r@),
            deleted: self.deleted_row_ids@,
            updated: self.updated_rows@.map_values(|r: Vec<u8>| r@),
        }
    }
}

impl LocalTableData {
    /// An empty buffer.
    pub fn new() -> (t: Self)
        ensures
            t@ == no_writes(),
    {
        let t = LocalTableData {
            inserted_rows: Vec::new(),
            deleted_row_ids: Vec::new(),
            updated_rows: HashMap::new(),
        };
        proof {
            assert(t@.inserted =~= Seq::<Seq<u8>>::empty());
            assert(t@.updated =~= Map::<u64, Seq<u8>>::empty());
        }
        t
    }

    /// Buffer an inserted row.
    pub fn insert(&mut self, row_data: Vec<u8>)
        ensures
            final(self)@ == (TableWrites { inserted: old(self)@.inserted.push(row_data@), ..old(self)@ }),
    {
        let ghost before = self@;
        self.inserted_rows.push(row_data);
        proof {
            assert(self@.inserted =~= before.inserted.push(row_data@));
        }
    }

    /// Buffer a deleted row id.
    pub fn delete(&mut self, row_id: u64)
        ensures
            final(self)@ == (TableWrites { deleted: old(self)@.deleted.push(row_id), ..old(self)@ }),
    {
        let ghost before = self@;
        self.deleted_row_ids.push(row_id);
        proof {
            assert(self@.inserted =~= before.inserted);
        }
    }

    /// Buffer an update of `row_id`, replacing an earlier one.
    pub fn update(&mut self, row_id: u64, row_data: Vec<u8>)
        ensures
            final(self)@ == (TableWrites {
                updated: old(self)@.updated.insert(row_id, row_data@),
                ..old(self)@
            }),
    {
        let ghost before = self@;
        self.updated_rows.insert(row_id, row_data);
        proof {
            assert(self@.inserted =~= before.inserted);
            assert(self@.updated =~= before.updated.insert(row_id, row_data@));
        }
    }

    /// The inserted rows, oldest first.
    pub fn inserted_rows(&self) -> (r: &[Vec<u8>])
        ensures
            r@.len() == self@.inserted.len(),
            forall|i: int| 0 <= i < r@.len() ==> #[trigger] r@[i]@ == self@.inserted[i],
    {
        self.inserted_rows.as_slice()
    }

    /// The deleted row ids, oldest first.
    pub fn deleted_row_ids(&self) -> (r: &[u64])
        ensures
            r@ == self@.deleted,
    {
        self.deleted_row_ids.as_slice()
    }

    /// The latest update of each updated row.
    pub fn updated_rows(&self) -> (r: &HashMap<u64, Vec<u8>>)
        ensures
            r@.map_values(|v: Vec<u8>| v@) == self@.updated,
    {
        &self.updated_rows
    }

    /// Number of buffered mutations.
    pub fn len(&self) -> (n: usize)
        requires
            num_writes(self@) <= usize::MAX,
        ensures
            n == num_writes(self@),
    {
        proof {
            assert(self@.updated.dom() =~= self.updated_rows@.dom());
        }
        self.inserted_rows.len() + self.deleted_row_ids.len() + self.updated_rows.len()
    }

    /// Whether nothing is buffered.
    pub fn is_empty(&self) -> (b: bool)
        ensures
            b == (num_writes(self@) == 0),
    {
        proof {
            assert(self@.updated.dom() =~= self.updated_rows@.dom());
        }
        self.inserted_rows.len() == 0 && self.deleted_row_ids.len() == 0
            && self.updated_rows.is_empty()
    }

    /// Drop everything buffered.
    pub fn clear(&mut self)
        ensures
            final(self)@ == no_writes(),
    {
        self.inserted_rows.clear();
        self.deleted_row_ids.clear();
        self.updated_rows.clear();
        proof {
            assert(self@.inserted =~= Seq::<Seq<u8>>::empty());
            assert(self@.updated =~= Map::<u64, Seq<u8>>::empty());
        }
    }
}

/// The write buffers of one transaction, by table id.
#[derive(Debug)]
pub struct LocalStorage {
    tables: HashMap<u64, LocalTableData>,
}

impl View for LocalStorage {
    type V = Map<u64, TableWrites>;

    closed spec fn view(&self) -> Map<u64, TableWrites> {
        self.tables@.map_values(|t: LocalTableData| t@)
    }
}

impl LocalStorage {
    /// No table buffers.
    pub fn new() -> (s: Self)
        ensures
            s@ == Map::<u64, TableWrites>::empty(),
    {
        let s = LocalStorage { tables: HashMap::new() };
        proof {
            assert(s@ =~= Map::<u64, TableWrites>::empty());
        }
        s
    }

    /// The buffer of `table_id`, created empty when absent.
    pub fn get_or_create_table(&mut self, table_id: u64) -> (t: &mut LocalTableData)
        ensures
            old(self)@.contains_key(table_id) ==> (*t)@ == old(self)@[table_id],
            !old(self)@.contains_key(table_id) ==> (*t)@ == no_writes(),
            final(self)@ == old(self)@.insert(table_id, final(t)@),
    {
        self.tables.entry(table_id).or_insert(LocalTableData::new())
    }

    /// The buffer of `table_id`, if any.
    pub fn get_table(&self, table_id: u64) -> (t: Option<&LocalTableData>)
        ensures
            match t {
                Some(d) => self@.contains_key(table_id) && d@ == self@[table_id],
                None => !self@.contains_key(table_id),
            },
    {
        self.tables.get(&table_id)
    }

    /// Number of tables with a buffer.
    pub fn len(&self) -> (n: usize)
        ensures
            n == self@.len(),
    {
        proof {
            assert(self@.dom() =~= self.tables@.dom());
        }
        self.tables.len()
    }

    /// Whether no table has a buffer.
    pub fn is_empty(&self) -> (b: bool)
        ensures
            b == (self@.len() == 0),
    {
        proof {
            assert(self@.dom() =~= self.tables@.dom());
        }
        self.tables.is_empty()
    }

    /// Drop all buffers (rollback).
    pub fn clear(&mut self)
        ensures
            final(self)@ == Map::<u64, TableWrites>::empty(),
    {
        self.tables.clear();
        proof {
            assert(self@ =~= Map::<u64, TableWrites>::empty());
        }
    }
}

} // verus!
