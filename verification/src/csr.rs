//! Compressed sparse row (CSR) adjacency index of a relationship table.

use crate::page::FileHandle;
use std::sync::{Arc, RwLock};
use vstd::prelude::*;

verus! {

/// Opaque reader-writer lock guarding a shared value.
#[verifier::external_type_specification]
#[verifier::external_body]
#[verifier::reject_recursive_types(T)]
pub struct ExRwLock<T: ?Sized>(RwLock<T>);

/// CSR index over a shared page file: an offset array per node and a
/// contiguous adjacency array, with node and edge counts. The edges added
/// so far are held in memory, in the order they were added.
#[derive(Debug, Clone)]
pub struct CsrIndex {
    file_handle: Arc<RwLock<FileHandle>>,
    num_nodes: usize,
    num_edges: usize,
    edges: Vec<(u64, u64)>,
}

/// The destinations of the edges leaving `node`, in the order the edges
/// were added.
pub open spec fn neighbors(edges: Seq<(u64, u64)>, node: u64) -> Seq<u64>
    decreases edges.len(),
{
    if edges.len() == 0 {
        Seq::empty()
    } else {
        neighbors(edges.drop_last(), node) + if edges.last().0 == node {
            seq![edges.last().1]
        } else {
            Seq::empty()
        }
    }
}

impl CsrIndex {
    /// Number of nodes indexed.
    pub closed spec fn spec_num_nodes(&self) -> usize {
        self.num_nodes
    }

    /// Number of edges added.
    pub closed spec fn spec_num_edges(&self) -> usize {
        self.num_edges
    }

    /// The edges added so far, as (source, destination), oldest first.
    pub closed spec fn spec_edges(&self) -> Seq<(u64, u64)> {
        self.edges@
    }

    /// The page file the index lives in.
    pub closed spec fn spec_file_handle(&self) -> Arc<RwLock<FileHandle>> {
        self.file_handle
    }

    /// An empty index over the given page file.
    pub fn new(file_handle: Arc<RwLock<FileHandle>>) -> (c: Self)
        ensures
            c.spec_file_handle() == file_handle,
            c.spec_num_nodes() == 0,
            c.spec_num_edges() == 0,
            c.spec_edges() == Seq::<(u64, u64)>::empty(),
    {
        CsrIndex { file_handle, num_nodes: 0, num_edges: 0, edges: Vec::new() }
    }

    /// The neighbourhood of `node_id`: the destinations of its edges, in
    /// the order they were added.
    pub fn get_neighbors(&self, node_id: u64) -> (r: Result<Vec<u64>, String>)
        ensures
            r matches Ok(v) && v@ == neighbors(self.spec_edges(), node_id),
    {
        let mut out: Vec<u64> = Vec::new();
        let mut i: usize = 0;
        while i < self.edges.len()
            invariant
                i <= self.edges@.len(),
                out@ == neighbors(self.edges@.subrange(0, i as int), node_id),
            decreases self.edges@.len() - i,
        {
            proof {
                assert(self.edges@.subrange(0, i + 1).drop_last() =~= self.edges@.subrange(0, i as int));
            }
            let (src, dst) = self.edges[i];
            if src == node_id {
                out.push(dst);
            }
            proof {
                assert(out@ =~= neighbors(self.edges@.subrange(0, i + 1), node_id));
            }
            i = i + 1;
        }
        proof {
            assert(self.edges@.subrange(0, self.edges@.len() as int) =~= self.edges@);
        }
        Ok(out)
    }

    /// Record an edge from `src_id` to `dst_id`: the edge count grows by one.
    pub fn add_edge(&mut self, src_id: u64, dst_id: u64) -> (r: Result<(), String>)
        requires
            old(self).spec_num_edges() < usize::MAX,
        ensures
            r is Ok,
            final(self).spec_num_edges() == old(self).spec_num_edges() + 1,
            final(self).spec_num_nodes() == old(self).spec_num_nodes(),
            final(self).spec_edges() == old(self).spec_edges().push((src_id, dst_id)),
            final(self).spec_file_handle() == old(self).spec_file_handle(),
    {
        self.edges.push((src_id, dst_id));
        self.num_edges = self.num_edges + 1;
        Ok(())
    }
}

} // verus!
