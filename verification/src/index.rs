//! The primary-key hash index of a node table: the text of a key value,
//! mapped to the row offset that holds it.

use vstd::prelude::*;

verus! {

/// A hash index from key texts to row offsets, held in a
/// `hashbrown::HashMap<String, u64>`.
#[verifier::external_body]
pub struct HashIndex {
    entries: hashbrown::HashMap<String, u64>,
}

/// The entries of an index: each key text with its row offset.
pub uninterp spec fn index_entries(h: HashIndex) -> Map<Seq<char>, u64>;

/// An index's entries when it has none.
pub open spec fn no_entries() -> Map<Seq<char>, u64> {
    Map::empty()
}

impl HashIndex {
    /// `hashbrown::HashMap::new`: an index without entries.
    #[verifier::external_body]
    pub fn new() -> (created: HashIndex)
        ensures
            index_entries(created) == no_entries(),
    {
        HashIndex { entries: hashbrown::HashMap::new() }
    }

    /// `hashbrown::HashMap::insert`: `key` maps to `row_offset` afterwards,
    /// replacing what it mapped to; other keys keep theirs.
    #[verifier::external_body]
    pub fn insert(&mut self, key: String, row_offset: u64)
        ensures
            index_entries(*final(self)) == index_entries(*old(self)).insert(key@, row_offset),
    {
        self.entries.insert(key, row_offset);
    }

    /// `hashbrown::HashMap::get`: the row offset of `key`, if it has one.
    #[verifier::external_body]
    pub fn lookup(&self, key: &String) -> (r: Option<u64>)
        ensures
            r == (if index_entries(*self).contains_key(key@) {
                Some(index_entries(*self)[key@])
            } else {
                None::<u64>
            }),
    {
        self.entries.get(key).copied()
    }

    /// `hashbrown::HashMap::remove`: `key` has no entry afterwards; other
    /// keys keep theirs.
    #[verifier::external_body]
    pub fn delete(&mut self, key: &String)
        ensures
            index_entries(*final(self)) == index_entries(*old(self)).remove(key@),
    {
        self.entries.remove(key);
    }

    /// `hashbrown::HashMap::len`: the number of entries.
    #[verifier::external_body]
    pub fn len(&self) -> (n: usize)
        ensures
            n == index_entries(*self).dom().len(),
    {
        self.entries.len()
    }

    /// Whether the index has no entry.
    pub fn is_empty(&self) -> (b: bool)
        ensures
            b == (index_entries(*self).dom().len() == 0),
    {
        self.len() == 0
    }
}

/// The message refusing a key that is already in a table's index.
pub open spec fn duplicate_key_message(key: Seq<char>, table_name: Seq<char>) -> Seq<char> {
    "Duplicate primary key value: '"@ + key + "' in table '"@ + table_name + "'"@
}

/// Refuse a primary key that already has a row in the index of table
/// `table_name`.
pub fn check_primary_key(index: &HashIndex, key: &String, table_name: &str) -> (r: Result<(), String>)
    ensures
        !index_entries(*index).contains_key(key@) ==> r is Ok,
        index_entries(*index).contains_key(key@) ==> r is Err && r->Err_0@ == duplicate_key_message(
            key@,
            table_name@,
        ),
{
    match index.lookup(key) {
        None => Ok(()),
        Some(_) => {
            let mut m = String::new();
            crate::text::push_str(&mut m, "Duplicate primary key value: '");
            crate::text::push_str(&mut m, key.as_str());
            crate::text::push_str(&mut m, "' in table '");
            crate::text::push_str(&mut m, table_name);
            crate::text::push_str(&mut m, "'");
            proof {
                assert(m@ =~= duplicate_key_message(key@, table_name@));
            }
            Err(m)
        },
    }
}

impl Default for HashIndex {
    fn default() -> (h: Self)
        ensures
            index_entries(h) == no_entries(),
    {
        HashIndex::new()
    }
}

} // verus!
