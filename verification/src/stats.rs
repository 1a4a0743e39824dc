//! Column and table statistics used for cardinality estimation.

use std::collections::HashMap;
use vstd::prelude::*;

verus! {

/// Statistics of one column.
#[derive(Debug, Clone)]
pub struct ColumnStats {
    pub table_id: u64,
    pub column_id: u32,
    pub num_distinct_values: u64,
    pub num_null_values: u64,
    pub min_value: Option<Vec<u8>>,
    pub max_value: Option<Vec<u8>>,
}

/// Statistics of one table: its row count and the statistics of its
/// columns, by column id.
#[derive(Debug)]
pub struct TableStats {
    pub num_rows: u64,
    pub columns: HashMap<u32, ColumnStats>,
}

impl Default for TableStats {
    fn default() -> (t: Self)
        ensures
            t.num_rows == 0,
            t.columns@ == Map::<u32, ColumnStats>::empty(),
    {
        TableStats { num_rows: 0, columns: HashMap::new() }
    }
}

/// Statistics of all tables, by table id.
#[derive(Debug)]
pub struct StatsStore {
    tables: HashMap<u64, TableStats>,
}

impl StatsStore {
    /// Statistics by table id.
    pub closed spec fn spec_tables(&self) -> Map<u64, TableStats> {
        self.tables@
    }

    /// No statistics.
    pub fn new() -> (s: Self)
        ensures
            s.spec_tables() == Map::<u64, TableStats>::empty(),
    {
        StatsStore { tables: HashMap::new() }
    }

    /// The statistics of `table_id`, if any.
    pub fn get_table_stats(&self, table_id: u64) -> (r: Option<&TableStats>)
        ensures
            match r {
                Some(t) => self.spec_tables().contains_key(table_id) && *t
                    == self.spec_tables()[table_id],
                None => !self.spec_tables().contains_key(table_id),
            },
    {
        self.tables.get(&table_id)
    }

    /// The statistics of column `column_id` of `table_id`, if both are known.
    pub fn get_column_stats(&self, table_id: u64, column_id: u32) -> (r: Option<&ColumnStats>)
        ensures
            match r {
                Some(c) => self.spec_tables().contains_key(table_id)
                    && self.spec_tables()[table_id].columns@.contains_key(column_id) && *c
                    == self.spec_tables()[table_id].columns@[column_id],
                None => !self.spec_tables().contains_key(table_id)
                    || !self.spec_tables()[table_id].columns@.contains_key(column_id),
            },
    {
        match self.tables.get(&table_id) {
            Some(t) => t.columns.get(&column_id),
            None => None,
        }
    }

    /// Set the statistics of `table_id`, replacing earlier ones.
    pub fn update_table_stats(&mut self, table_id: u64, stats: TableStats)
        ensures
            final(self).spec_tables() == old(self).spec_tables().insert(table_id, stats),
    {
        self.tables.insert(table_id, stats);
    }
}

impl Default for StatsStore {
    fn default() -> (s: Self)
        ensures
            s.spec_tables() == Map::<u64, TableStats>::empty(),
    {
        StatsStore { tables: HashMap::new() }
    }
}

} // verus!
