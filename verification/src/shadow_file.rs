//! Shadow pages: copy-on-write versions of pages modified in a transaction.

use std::collections::HashMap;
use vstd::prelude::*;

verus! {

/// A shadow copy of a page.
#[derive(Debug, Clone)]
pub struct ShadowEntry {
    pub original_page_id: u64,
    pub shadow_data: Vec<u8>,
    pub is_dirty: bool,
}

/// `out` lists the dirty entries of `m`, each once: every element is a
/// dirty entry of `m` filed under its page id, no page id repeats, and
/// every dirty entry of `m` is listed.
pub open spec fn lists_dirty(out: Seq<&ShadowEntry>, m: Map<u64, ShadowEntry>) -> bool {
    &&& forall|i: int|
        0 <= i < out.len() ==> m.contains_key(#[trigger] out[i].original_page_id) && *out[i]
            == m[out[i].original_page_id] && out[i].is_dirty
    &&& forall|i: int, j: int|
        0 <= i < j < out.len() ==> #[trigger] out[i].original_page_id
            != #[trigger] out[j].original_page_id
    &&& forall|k: u64|
        #[trigger] m.contains_key(k) && m[k].is_dirty ==> exists|i: int|
            0 <= i < out.len() && out[i].original_page_id == k
}

/// The dirty entries of a walk over a map, in walk order.
spec fn dirty_in_walk<'a>(s: Seq<(&'a u64, &'a ShadowEntry)>) -> Seq<&'a ShadowEntry>
    decreases s.len(),
{
    if s.len() == 0 {
        Seq::empty()
    } else if s.last().1.is_dirty {
        dirty_in_walk(s.drop_last()).push(s.last().1)
    } else {
        dirty_in_walk(s.drop_last())
    }
}

proof fn lemma_dirty_in_walk(s: Seq<(&u64, &ShadowEntry)>, m: Map<u64, ShadowEntry>)
    requires
        forall|j: int|
            #![trigger s[j]]
            0 <= j < s.len() ==> m.contains_key(*s[j].0) && m[*s[j].0] == *s[j].1,
        forall|j: int, k: int| 0 <= j < k < s.len() ==> *s[j].0 != *s[k].0,
        forall|k: u64| #[trigger] m.contains_key(k) ==> m[k].original_page_id == k,
    ensures
        forall|i: int|
            0 <= i < dirty_in_walk(s).len() ==> m.contains_key(
                #[trigger] dirty_in_walk(s)[i].original_page_id,
            ) && *dirty_in_walk(s)[i] == m[dirty_in_walk(s)[i].original_page_id]
                && dirty_in_walk(s)[i].is_dirty && exists|j: int|
                0 <= j < s.len() && *s[j].0 == dirty_in_walk(s)[i].original_page_id,
        forall|i: int, j: int|
            0 <= i < j < dirty_in_walk(s).len() ==> #[trigger] dirty_in_walk(s)[i].original_page_id
                != #[trigger] dirty_in_walk(s)[j].original_page_id,
        forall|j: int|
            #![trigger s[j]]
            0 <= j < s.len() && s[j].1.is_dirty ==> exists|i: int|
                0 <= i < dirty_in_walk(s).len() && dirty_in_walk(s)[i].original_page_id == *s[j].0,
    decreases s.len(),
{
    if s.len() > 0 {
        let p = s.drop_last();
        lemma_dirty_in_walk(p, m);
        let d = dirty_in_walk(s);
        let dp = dirty_in_walk(p);
        let n = s.len() - 1;
        assert(s[n] == s.last());
        assert(forall|j: int| 0 <= j < p.len() ==> p[j] == s[j]);
        if s.last().1.is_dirty {
            assert(d == dp.push(s.last().1));
            assert forall|i: int| 0 <= i < dp.len() implies #[trigger] dp[i].original_page_id
                != *s[n].0 by {
                let j = choose|j: int| 0 <= j < p.len() && *p[j].0 == dp[i].original_page_id;
                assert(*s[j].0 != *s[n].0);
            }
            assert(s[n].1.original_page_id == *s[n].0);
            assert forall|j: int| 0 <= j < s.len() && #[trigger] s[j].1.is_dirty implies exists|i: int|
                0 <= i < d.len() && d[i].original_page_id == *s[j].0 by {
                if j < n {
                    assert(p[j] == s[j]);
                    let i = choose|i: int| 0 <= i < dp.len() && dp[i].original_page_id == *p[j].0;
                    assert(d[i] == dp[i]);
                } else {
                    assert(d[dp.len() as int] == s[n].1);
                }
            }
            assert forall|i: int| 0 <= i < d.len() implies exists|j: int|
                0 <= j < s.len() && *s[j].0 == #[trigger] d[i].original_page_id by {
                if i < dp.len() {
                    assert(d[i] == dp[i]);
                    let j = choose|j: int| 0 <= j < p.len() && *p[j].0 == dp[i].original_page_id;
                    assert(s[j] == p[j]);
                } else {
                    assert(*s[n].0 == d[i].original_page_id);
                }
            }
        } else {
            assert(d == dp);
            assert forall|j: int| 0 <= j < s.len() && #[trigger] s[j].1.is_dirty implies exists|i: int|
                0 <= i < d.len() && d[i].original_page_id == *s[j].0 by {
                if j < n {
                    assert(p[j] == s[j]);
                }
            }
            assert forall|i: int| 0 <= i < d.len() implies exists|j: int|
                0 <= j < s.len() && *s[j].0 == #[trigger] d[i].original_page_id by {
                let j = choose|j: int| 0 <= j < p.len() && *p[j].0 == dp[i].original_page_id;
                assert(s[j] == p[j]);
            }
        }
    }
}

proof fn lemma_walk_keys_distinct(s: Seq<(&u64, &ShadowEntry)>, m: Map<u64, ShadowEntry>)
    requires
        s.no_duplicates(),
        forall|j: int|
            #![trigger s[j]]
            0 <= j < s.len() ==> m.contains_key(*s[j].0) && m[*s[j].0] == *s[j].1,
    ensures
        forall|j: int, k: int| 0 <= j < k < s.len() ==> *s[j].0 != *s[k].0,
{
    assert forall|j: int, k: int| 0 <= j < k < s.len() implies *s[j].0 != *s[k].0 by {
        if *s[j].0 == *s[k].0 {
            assert(*s[j].1 == *s[k].1);
            assert(s[j] == s[k]);
        }
    }
}

/// The shadow copies of a transaction, by page id.
#[derive(Debug)]
pub struct ShadowFile {
    entries: HashMap<u64, ShadowEntry>,
}

impl ShadowFile {
    /// The shadow entries by page id.
    pub closed spec fn spec_entries(&self) -> Map<u64, ShadowEntry> {
        self.entries@
    }

    /// Each entry is filed under the page it shadows.
    pub closed spec fn wf(&self) -> bool {
        forall|k: u64| #[trigger]
            self.entries@.contains_key(k) ==> self.entries@[k].original_page_id == k
    }

    /// No shadow pages.
    pub fn new() -> (f: Self)
        ensures
            f.wf(),
            f.spec_entries() == Map::<u64, ShadowEntry>::empty(),
    {
        ShadowFile { entries: HashMap::new() }
    }

    /// Shadow `page_id` with `data` (dirty), replacing an earlier shadow.
    pub fn create_shadow(&mut self, page_id: u64, data: Vec<u8>)
        requires
            old(self).wf(),
        ensures
            final(self).wf(),
            final(self).spec_entries().dom() == old(self).spec_entries().dom().insert(page_id),
            forall|k: u64|
                k != page_id && #[trigger] old(self).spec_entries().contains_key(k)
                    ==> final(self).spec_entries()[k] == old(self).spec_entries()[k],
            final(self).spec_entries()[page_id].original_page_id == page_id,
            final(self).spec_entries()[page_id].shadow_data@ == data@,
            final(self).spec_entries()[page_id].is_dirty,
    {
        self.entries.insert(
            page_id,
            ShadowEntry { original_page_id: page_id, shadow_data: data, is_dirty: true },
        );
    }

    /// The shadow of `page_id`, if any.
    pub fn get_shadow(&self, page_id: u64) -> (r: Option<&ShadowEntry>)
        ensures
            match r {
                Some(e) => self.spec_entries().contains_key(page_id) && *e
                    == self.spec_entries()[page_id],
                None => !self.spec_entries().contains_key(page_id),
            },
    {
        self.entries.get(&page_id)
    }

    /// Whether `page_id` has a shadow.
    pub fn has_shadow(&self, page_id: u64) -> (b: bool)
        ensures
            b == self.spec_entries().contains_key(page_id),
    {
        self.entries.contains_key(&page_id)
    }

    /// Drop all shadows.
    pub fn clear(&mut self)
        ensures
            final(self).wf(),
            final(self).spec_entries() == Map::<u64, ShadowEntry>::empty(),
    {
        self.entries.clear();
    }

    /// The dirty shadow entries, each once, in no particular order.
    pub fn dirty_pages(&self) -> (r: Vec<&ShadowEntry>)
        requires
            self.wf(),
        ensures
            lists_dirty(r@, self.spec_entries()),
    {
        let ghost m = self.entries@;
        let mut out: Vec<&ShadowEntry> = Vec::new();
        for (k, e) in it: self.entries.iter()
            invariant
                m == self.entries@,
                self.wf(),
                forall|k: u64| #[trigger] m.contains_key(k) ==> it.seq().contains((&k, &m[k])),
                it.seq().no_duplicates(),
                forall|j: int|
                    #![trigger it.seq()[j]]
                    0 <= j < it.seq().len() ==> m.contains_key(*it.seq()[j].0) && m[*it.seq()[j].0]
                        == *it.seq()[j].1,
                out@ == dirty_in_walk(it.seq().subrange(0, it.index() as int)),
                it.index() == it.seq().len() ==> lists_dirty(out@, m),
        {
            assert(it.seq().subrange(0, it.index() + 1).drop_last() =~= it.seq().subrange(
                0,
                it.index() as int,
            ));
            assert(*e == *it.seq()[it.index() as int].1);
            if e.is_dirty {
                out.push(e);
            }
            assert(out@ == dirty_in_walk(it.seq().subrange(0, it.index() + 1)));
            assert(it.index() + 1 == it.seq().len() ==> lists_dirty(out@, m)) by {
                if it.index() + 1 == it.seq().len() {
                    assert(it.seq().subrange(0, it.index() + 1) =~= it.seq());
                    lemma_walk_keys_distinct(it.seq(), m);
                    lemma_dirty_in_walk(it.seq(), m);
                    assert forall|k: u64| #[trigger]
                        m.contains_key(k) && m[k].is_dirty implies exists|i: int|
                        0 <= i < out@.len() && out@[i].original_page_id == k by {
                        assert(it.seq().contains((&k, &m[k])));
                        let j = choose|j: int| 0 <= j < it.seq().len() && it.seq()[j] == (&k, &m[k]);
                        assert(it.seq()[j].1.is_dirty);
                    }
                }
            }
        }
        out
    }
}

} // verus!
