//! Multi-hop traversal over a relationship table: from each source node,
//! the nodes reached breadth first within a range of hop counts, each with
//! the path that first reached it.

use crate::table::{in_edges, out_edges, RelTable};
use std::collections::HashSet;
use vstd::prelude::*;

verus! {

/// Which way edges are followed.
#[derive(Debug, Clone, Copy, PartialEq, Eq, Structural)]
pub enum ExtendDirection {
    /// From source to destination.
    Fwd,
    /// From destination to source.
    Bwd,
    /// Both ways.
    Both,
}

/// Which paths a traversal may take.
#[derive(Debug, Clone, Copy, PartialEq, Eq, Structural)]
pub enum PathSemantic {
    /// Nodes and edges may repeat.
    Walk,
    /// Edges may not repeat.
    Trail,
    /// Nodes may not repeat.
    Acyclic,
}

/// One result of a traversal: source, destination, number of hops, and the
/// path's nodes (source first) and edge indexes.
#[derive(Debug)]
pub struct PathRow {
    pub src: i64,
    pub dst: i64,
    pub len: i64,
    pub path_nodes: Vec<i64>,
    pub path_edges: Vec<i64>,
}

/// The (node, edge index) pairs one hop from `v`, in adjacency order:
/// outgoing edges, incoming edges, or the outgoing then the incoming ones.
pub open spec fn steps(edges: Seq<(u64, u64)>, v: u64, dir: ExtendDirection) -> Seq<(u64, usize)> {
    match dir {
        ExtendDirection::Fwd => out_edges(edges, v),
        ExtendDirection::Bwd => in_edges(edges, v),
        ExtendDirection::Both => out_edges(edges, v) + in_edges(edges, v),
    }
}

/// Whether `w` is one hop from `v`.
pub open spec fn linked(edges: Seq<(u64, u64)>, dir: ExtendDirection, v: u64, w: u64) -> bool {
    exists|k: int| 0 <= k < steps(edges, v, dir).len() && #[trigger] steps(edges, v, dir)[k].0 == w
}

/// The nodes at most `d` hops from `src`.
pub open spec fn within(edges: Seq<(u64, u64)>, dir: ExtendDirection, src: u64, d: nat) -> Set<u64>
    decreases d,
{
    if d == 0 {
        Set::empty().insert(src)
    } else {
        let prev = within(edges, dir, src, (d - 1) as nat);
        prev.union(Set::new(|w: u64| exists|v: u64| prev.contains(v) && #[trigger] linked(edges, dir, v, w)))
    }
}

/// `v` is exactly `d` hops from `src`: reached within `d` hops and not
/// within fewer.
pub open spec fn at_distance(edges: Seq<(u64, u64)>, dir: ExtendDirection, src: u64, v: u64, d: nat) -> bool {
    within(edges, dir, src, d).contains(v) && (d == 0 || !within(edges, dir, src, (d - 1) as nat).contains(v))
}

/// `nodes` and `eids` form a walk: each edge leads from one node to the
/// next.
pub open spec fn is_walk(edges: Seq<(u64, u64)>, dir: ExtendDirection, nodes: Seq<u64>, eids: Seq<usize>) -> bool {
    &&& nodes.len() == eids.len() + 1
    &&& forall|k: int|
        0 <= k < eids.len() ==> #[trigger] steps(edges, nodes[k], dir).contains((nodes[k + 1], eids[k]))
}

/// `(w, e)` is the first step from `v` that reaches `w`, in adjacency
/// order.
pub open spec fn first_step(edges: Seq<(u64, u64)>, dir: ExtendDirection, v: u64, w: u64, e: usize) -> bool {
    exists|k: int|
        0 <= k < steps(edges, v, dir).len() && #[trigger] steps(edges, v, dir)[k] == (w, e) && forall|j: int|
            0 <= j < k ==> (#[trigger] steps(edges, v, dir)[j]).0 != w
}

/// Every hop of the walk takes the first step, in adjacency order, that
/// reaches the next node.
pub open spec fn first_steps(edges: Seq<(u64, u64)>, dir: ExtendDirection, nodes: Seq<u64>, eids: Seq<usize>) -> bool {
    forall|q: int| 0 <= q < eids.len() ==> #[trigger] first_step(edges, dir, nodes[q], nodes[q + 1], eids[q])
}

proof fn lemma_within_grows(edges: Seq<(u64, u64)>, dir: ExtendDirection, src: u64, d1: nat, d2: nat)
    requires
        d1 <= d2,
    ensures
        within(edges, dir, src, d1).subset_of(within(edges, dir, src, d2)),
    decreases d2,
{
    if d1 < d2 {
        lemma_within_grows(edges, dir, src, d1, (d2 - 1) as nat);
    }
}

proof fn lemma_distance_unique(edges: Seq<(u64, u64)>, dir: ExtendDirection, src: u64, v: u64, d1: nat, d2: nat)
    requires
        at_distance(edges, dir, src, v, d1),
        at_distance(edges, dir, src, v, d2),
    ensures
        d1 == d2,
{
    if d1 < d2 {
        lemma_within_grows(edges, dir, src, d1, (d2 - 1) as nat);
    } else if d2 < d1 {
        lemma_within_grows(edges, dir, src, d2, (d1 - 1) as nat);
    }
}

/// Once a hop adds no node, no later hop does.
proof fn lemma_within_stable(edges: Seq<(u64, u64)>, dir: ExtendDirection, src: u64, d: nat, m: nat)
    requires
        within(edges, dir, src, d + 1) == within(edges, dir, src, d),
        d <= m,
    ensures
        within(edges, dir, src, m) == within(edges, dir, src, d),
    decreases m,
{
    if m > d {
        lemma_within_stable(edges, dir, src, d, (m - 1) as nat);
        assert(within(edges, dir, src, m) == within(edges, dir, src, d + 1));
    }
}

/// A node found by the search, with the path that found it.
struct Reached {
    node: u64,
    depth: u64,
    nodes: Vec<u64>,
    eids: Vec<usize>,
}

spec fn reached_ok(edges: Seq<(u64, u64)>, dir: ExtendDirection, src: u64, r: Reached) -> bool {
    &&& is_walk(edges, dir, r.nodes@, r.eids@)
    &&& r.nodes@[0] == src
    &&& r.nodes@.last() == r.node
    &&& r.eids@.len() == r.depth
    &&& at_distance(edges, dir, src, r.node, r.depth as nat)
    &&& forall|q: int| 0 <= q < r.nodes@.len() ==> #[trigger] at_distance(edges, dir, src, r.nodes@[q], q as nat)
    &&& first_steps(edges, dir, r.nodes@, r.eids@)
}

spec fn nodes_of(rs: Seq<Reached>) -> Set<u64> {
    Set::new(|x: u64| exists|i: int| 0 <= i < rs.len() && #[trigger] rs[i].node == x)
}

/// The nodes one hop from the frontier `rs[lo..hi]`.
spec fn frontier_next(edges: Seq<(u64, u64)>, dir: ExtendDirection, rs: Seq<Reached>, lo: int, hi: int) -> Set<u64> {
    Set::new(|w: u64| exists|a: int| lo <= a < hi && #[trigger] linked(edges, dir, rs[a].node, w))
}

fn append_steps(out: &mut Vec<(u64, usize)>, s: &[(u64, usize)])
    ensures
        final(out)@ == old(out)@ + s@,
{
    let mut i: usize = 0;
    while i < s.len()
        invariant
            i <= s@.len(),
            out@ == old(out)@ + s@.subrange(0, i as int),
        decreases s@.len() - i,
    {
        out.push(s[i]);
        proof {
            assert(s@.subrange(0, i + 1) =~= s@.subrange(0, i as int).push(s@[i as int]));
        }
        i = i + 1;
    }
    proof {
        assert(s@.subrange(0, s@.len() as int) =~= s@);
    }
}

fn steps_of(table: &RelTable, v: u64, dir: ExtendDirection) -> (r: Vec<(u64, usize)>)
    requires
        table.wf(),
    ensures
        r@ == steps(table.edges@, v, dir),
{
    let mut r: Vec<(u64, usize)> = Vec::new();
    match dir {
        ExtendDirection::Fwd => append_steps(&mut r, table.scan_adj_list(v)),
        ExtendDirection::Bwd => append_steps(&mut r, table.scan_rev_adj_list(v)),
        ExtendDirection::Both => {
            append_steps(&mut r, table.scan_adj_list(v));
            append_steps(&mut r, table.scan_rev_adj_list(v));
        },
    }
    proof {
        assert(r@ =~= steps(table.edges@, v, dir));
    }
    r
}


/// The next level holds every node within `d + 1` hops: the nodes within
/// `d` hops, and the ones one hop from those exactly `d` hops away.
proof fn lemma_next_level(
    edges: Seq<(u64, u64)>,
    dir: ExtendDirection,
    src: u64,
    rs: Seq<Reached>,
    start: int,
    end: int,
    d: nat,
)
    requires
        0 <= start <= end == rs.len(),
        nodes_of(rs) == within(edges, dir, src, d),
        forall|i: int| 0 <= i < rs.len() ==> #[trigger] reached_ok(edges, dir, src, rs[i]),
        forall|i: int| 0 <= i < start ==> #[trigger] rs[i].depth < d,
        forall|i: int| start <= i < end ==> #[trigger] rs[i].depth == d,
    ensures
        within(edges, dir, src, d + 1) == within(edges, dir, src, d).union(
            frontier_next(edges, dir, rs, start, end),
        ),
{
    let cur = within(edges, dir, src, d);
    let next = within(edges, dir, src, d + 1);
    let fr = frontier_next(edges, dir, rs, start, end);
    assert(next == cur.union(Set::new(|w: u64| exists|v: u64| cur.contains(v) && #[trigger] linked(edges, dir, v, w))));
    assert forall|w: u64| next.contains(w) implies cur.union(fr).contains(w) by {
        if !cur.contains(w) {
            let v = choose|v: u64| cur.contains(v) && #[trigger] linked(edges, dir, v, w);
            assert(nodes_of(rs).contains(v));
            let a = choose|a: int| 0 <= a < rs.len() && #[trigger] rs[a].node == v;
            assert(reached_ok(edges, dir, src, rs[a]));
            if a < start {
                assert(rs[a].depth < d);
                lemma_within_grows(edges, dir, src, rs[a].depth as nat, (d - 1) as nat);
                let prev = within(edges, dir, src, (d - 1) as nat);
                assert(prev.contains(v));
                assert(cur.contains(w));
            } else {
                assert(linked(edges, dir, rs[a].node, w));
                assert(fr.contains(w));
            }
        }
    }
    assert forall|w: u64| cur.union(fr).contains(w) implies next.contains(w) by {
        if fr.contains(w) {
            let a = choose|a: int| start <= a < end && #[trigger] linked(edges, dir, rs[a].node, w);
            assert(reached_ok(edges, dir, src, rs[a]));
            assert(cur.contains(rs[a].node));
        }
    }
    assert(next =~= cur.union(fr));
}

/// Breadth-first search from `src` up to `upper` hops: every node within
/// `upper` hops, once each, with its distance and a shortest path to it.
fn search(table: &RelTable, src: u64, upper: u64, dir: ExtendDirection) -> (found: Vec<Reached>)
    requires
        table.wf(),
    ensures
        forall|i: int| 0 <= i < found.len() ==> #[trigger] reached_ok(table.edges@, dir, src, found@[i])
            && found@[i].depth <= upper,
        forall|i: int, j: int| 0 <= i < j < found.len() ==> found@[i].node != found@[j].node,
        forall|v: u64, d: nat|
            d <= upper && #[trigger] at_distance(table.edges@, dir, src, v, d) ==> nodes_of(found@).contains(v),
{
    let ghost e = table.edges@;
    let mut found: Vec<Reached> = Vec::new();
    let first = Reached { node: src, depth: 0, nodes: vec![src], eids: Vec::new() };
    found.push(first);
    let mut seen: HashSet<u64> = HashSet::new();
    seen.insert(src);
    proof {
        assert(found@[0] == first);
        assert(nodes_of(found@) =~= within(e, dir, src, 0)) by {
            assert(found@[0].node == src);
            assert(nodes_of(found@).contains(src));
        }
        assert(seen@ =~= nodes_of(found@));
        assert(first.nodes@.last() == src);
        assert(at_distance(e, dir, src, first.nodes@[0], 0));
        assert(reached_ok(e, dir, src, first));
    }
    let mut start: usize = 0;
    let mut d: u64 = 0;
    while d < upper && start < found.len()
        invariant
            table.wf(),
            e == table.edges@,
            start <= found.len(),
            d <= upper,
            seen@ == nodes_of(found@),
            nodes_of(found@) == within(e, dir, src, d as nat),
            forall|i: int| 0 <= i < found.len() ==> #[trigger] reached_ok(e, dir, src, found@[i]),
            forall|i: int| 0 <= i < found.len() ==> #[trigger] found@[i].depth <= d,
            forall|i: int| 0 <= i < start ==> #[trigger] found@[i].depth < d,
            forall|i: int| start <= i < found.len() ==> #[trigger] found@[i].depth == d,
            forall|i: int, j: int| 0 <= i < j < found.len() ==> found@[i].node != found@[j].node,
        decreases upper - d,
    {
        let end = found.len();
        let ghost prefix = found@;
        proof {
            lemma_next_level(e, dir, src, prefix, start as int, end as int, d as nat);
        }
        let mut i: usize = start;
        while i < end
            invariant
                table.wf(),
                e == table.edges@,
                start <= i <= end <= found.len(),
                d < upper,
                prefix.len() == end,
                forall|a: int| 0 <= a < end ==> found@[a] == #[trigger] prefix[a],
                seen@ == nodes_of(found@),
                nodes_of(found@) == within(e, dir, src, d as nat).union(
                    frontier_next(e, dir, prefix, start as int, i as int),
                ),
                within(e, dir, src, (d + 1) as nat) == within(e, dir, src, d as nat).union(
                    frontier_next(e, dir, prefix, start as int, end as int),
                ),
                forall|a: int| 0 <= a < found.len() ==> #[trigger] reached_ok(e, dir, src, found@[a]),
                forall|a: int| 0 <= a < start ==> #[trigger] prefix[a].depth < d,
                forall|a: int| start <= a < end ==> #[trigger] prefix[a].depth == d,
                forall|a: int| end <= a < found.len() ==> #[trigger] found@[a].depth == d + 1,
                forall|a: int, b: int| 0 <= a < b < found.len() ==> found@[a].node != found@[b].node,
            decreases end - i,
        {
            let v = found[i].node;
            let st = steps_of(table, v, dir);
            let ghost before = nodes_of(found@);
            proof {
                assert(found@[i as int] == prefix[i as int]);
                assert(reached_ok(e, dir, src, prefix[i as int]));
            }
            let mut k: usize = 0;
            while k < st.len()
                invariant
                    table.wf(),
                    e == table.edges@,
                    start <= i < end <= found.len(),
                    d < upper,
                    prefix.len() == end,
                    v == prefix[i as int].node,
                    st@ == steps(e, v, dir),
                    k <= st@.len(),
                    reached_ok(e, dir, src, prefix[i as int]),
                    prefix[i as int].depth == d,
                    forall|a: int| 0 <= a < end ==> found@[a] == #[trigger] prefix[a],
                    seen@ == nodes_of(found@),
                    before == within(e, dir, src, d as nat).union(
                        frontier_next(e, dir, prefix, start as int, i as int),
                    ),
                    nodes_of(found@) == before.union(
                        Set::new(|w: u64| exists|j: int| 0 <= j < k && #[trigger] st@[j].0 == w),
                    ),
                    within(e, dir, src, (d + 1) as nat) == within(e, dir, src, d as nat).union(
                        frontier_next(e, dir, prefix, start as int, end as int),
                    ),
                    forall|a: int| 0 <= a < found.len() ==> #[trigger] reached_ok(e, dir, src, found@[a]),
                    forall|a: int| end <= a < found.len() ==> #[trigger] found@[a].depth == d + 1,
                    forall|a: int, b: int| 0 <= a < b < found.len() ==> found@[a].node != found@[b].node,
                decreases st@.len() - k,
            {
                let (w, eid) = st[k];
                let ghost fb = found@;
                let ghost old_nodes = nodes_of(found@);
                if !seen.contains(&w) {
                    let mut nodes = found[i].nodes.clone();
                    let mut eids = found[i].eids.clone();
                    proof {
                        assert(nodes@ =~= prefix[i as int].nodes@);
                        assert(eids@ =~= prefix[i as int].eids@);
                    }
                    nodes.push(w);
                    eids.push(eid);
                    seen.insert(w);
                    let r = Reached { node: w, depth: d + 1, nodes, eids };
                    proof {
                        let p = prefix[i as int];
                        assert(steps(e, v, dir)[k as int] == (w, eid));
                        assert(steps(e, p.nodes@[p.eids@.len() as int], dir).contains((w, eid)));
                        assert(is_walk(e, dir, r.nodes@, r.eids@)) by {
                            assert forall|q: int| 0 <= q < r.eids@.len() implies #[trigger] steps(
                                e,
                                r.nodes@[q],
                                dir,
                            ).contains((r.nodes@[q + 1], r.eids@[q])) by {
                                if q < p.eids@.len() {
                                    assert(steps(e, p.nodes@[q], dir).contains((p.nodes@[q + 1], p.eids@[q])));
                                }
                            }
                        }
                        assert(!within(e, dir, src, d as nat).contains(w));
                        assert(linked(e, dir, v, w));
                        assert(within(e, dir, src, d as nat).contains(v));
                        assert(frontier_next(e, dir, prefix, start as int, end as int).contains(w)) by {
                            assert(linked(e, dir, prefix[i as int].node, w));
                        }
                        assert(at_distance(e, dir, src, w, (d + 1) as nat));
                        assert forall|q: int| 0 <= q < r.nodes@.len() implies #[trigger] at_distance(
                            e,
                            dir,
                            src,
                            r.nodes@[q],
                            q as nat,
                        ) by {
                            if q < p.nodes@.len() {
                                assert(r.nodes@[q] == p.nodes@[q]);
                                assert(at_distance(e, dir, src, p.nodes@[q], q as nat));
                            }
                        }
                        assert forall|j: int| 0 <= j < k implies (#[trigger] steps(e, v, dir)[j]).0 != w by {
                            if steps(e, v, dir)[j].0 == w {
                                assert(st@[j].0 == w);
                                assert(nodes_of(fb).contains(w));
                            }
                        }
                        assert(first_step(e, dir, v, w, eid));
                        assert forall|q: int| 0 <= q < r.eids@.len() implies #[trigger] first_step(
                            e,
                            dir,
                            r.nodes@[q],
                            r.nodes@[q + 1],
                            r.eids@[q],
                        ) by {
                            if q < p.eids@.len() {
                                assert(first_step(e, dir, p.nodes@[q], p.nodes@[q + 1], p.eids@[q]));
                            }
                        }
                        assert(reached_ok(e, dir, src, r));
                    }
                    found.push(r);
                    proof {
                        assert(found@[found@.len() - 1] == r);
                        assert(nodes_of(found@) =~= old_nodes.insert(w)) by {
                            assert forall|x: u64| nodes_of(found@).contains(x) implies old_nodes.insert(w).contains(x) by {
                                let a = choose|a: int| 0 <= a < found@.len() && #[trigger] found@[a].node == x;
                                if a < found@.len() - 1 {
                                    assert(found@.drop_last()[a].node == x);
                                }
                            }
                            assert forall|x: u64| old_nodes.insert(w).contains(x) implies nodes_of(found@).contains(x) by {
                                if x != w {
                                    let a = choose|a: int| 0 <= a < fb.len() && #[trigger] fb[a].node == x;
                                    assert(found@[a] == fb[a]);
                                    assert(found@[a].node == x);
                                } else {
                                    assert(found@[found@.len() - 1].node == x);
                                }
                            }
                        }
                        assert forall|a: int, b: int| 0 <= a < b < found.len() implies found@[a].node != found@[b].node by {
                            if b == found.len() - 1 {
                                assert(old_nodes.contains(found@[a].node)) by {
                                    assert(found@.drop_last()[a].node == found@[a].node);
                                }
                            }
                        }
                    }
                }
                proof {
                    assert(nodes_of(found@) =~= before.union(
                        Set::new(|w2: u64| exists|j: int| 0 <= j < k + 1 && #[trigger] st@[j].0 == w2),
                    )) by {
                        assert(st@[k as int].0 == w);
                    }
                }
                k = k + 1;
            }
            proof {
                let fr0 = frontier_next(e, dir, prefix, start as int, i as int);
                let fr1 = frontier_next(e, dir, prefix, start as int, i + 1);
                let stset = Set::new(|w2: u64| exists|j: int| 0 <= j < k && #[trigger] st@[j].0 == w2);
                assert forall|x: u64| #[trigger] fr1.contains(x) == (fr0.contains(x) || stset.contains(x)) by {
                    if fr1.contains(x) {
                        let a = choose|a: int| start <= a < i + 1 && #[trigger] linked(e, dir, prefix[a].node, x);
                        if a == i {
                            let j = choose|j: int| 0 <= j < steps(e, v, dir).len() && #[trigger] steps(e, v, dir)[j].0 == x;
                            assert(st@[j].0 == x);
                        } else {
                            assert(fr0.contains(x));
                        }
                    }
                    if stset.contains(x) {
                        let j = choose|j: int| 0 <= j < k && #[trigger] st@[j].0 == x;
                        assert(steps(e, v, dir)[j].0 == x);
                        assert(linked(e, dir, prefix[i as int].node, x));
                    }
                    if fr0.contains(x) {
                        let a = choose|a: int| start <= a < i && #[trigger] linked(e, dir, prefix[a].node, x);
                        assert(linked(e, dir, prefix[a].node, x));
                    }
                }
                assert(nodes_of(found@) =~= within(e, dir, src, d as nat).union(fr1));
            }
            i = i + 1;
        }
        proof {
            assert forall|a: int| 0 <= a < found.len() implies #[trigger] found@[a].depth <= d + 1 by {
                if a < end {
                    assert(found@[a] == prefix[a]);
                }
            }
            assert forall|a: int| 0 <= a < end implies #[trigger] found@[a].depth < d + 1 by {
                assert(found@[a] == prefix[a]);
            }
        }
        start = end;
        d = d + 1;
    }
    proof {
        assert forall|v: u64, dd: nat| dd <= upper && #[trigger] at_distance(e, dir, src, v, dd) implies nodes_of(found@).contains(v) by {
            if dd <= d {
                lemma_within_grows(e, dir, src, dd, d as nat);
            } else {
                // the frontier is empty: no node is exactly `d` hops away
                assert(start == found.len());
                assert(d > 0) by {
                    if d == 0 {
                        assert(found@[0].depth <= 0);
                    }
                }
                assert(within(e, dir, src, d as nat) == within(e, dir, src, (d - 1) as nat)) by {
                    assert forall|x: u64| within(e, dir, src, d as nat).contains(x) implies within(e, dir, src, (d - 1) as nat).contains(x) by {
                        let a = choose|a: int| 0 <= a < found@.len() && #[trigger] found@[a].node == x;
                        assert(reached_ok(e, dir, src, found@[a]));
                        assert(found@[a].depth < d);
                        lemma_within_grows(e, dir, src, found@[a].depth as nat, (d - 1) as nat);
                    }
                    lemma_within_grows(e, dir, src, (d - 1) as nat, d as nat);
                    assert(within(e, dir, src, d as nat) =~= within(e, dir, src, (d - 1) as nat));
                }
                lemma_within_stable(e, dir, src, (d - 1) as nat, (dd - 1) as nat);
                lemma_within_stable(e, dir, src, (d - 1) as nat, dd);
            }
        }
    }
    found
}


/// `row` gives the walk `nodes`/`eids` from `src`: a shortest path to its
/// last node (so it repeats no node), each hop the first step in adjacency
/// order that reaches the next node, `lower..=upper` hops long.
pub open spec fn path_row(
    edges: Seq<(u64, u64)>,
    dir: ExtendDirection,
    src: u64,
    lower: u64,
    upper: u64,
    row: PathRow,
    nodes: Seq<u64>,
    eids: Seq<usize>,
) -> bool {
    &&& is_walk(edges, dir, nodes, eids)
    &&& nodes[0] == src
    &&& at_distance(edges, dir, src, nodes.last(), eids.len())
    &&& nodes.no_duplicates()
    &&& first_steps(edges, dir, nodes, eids)
    &&& lower <= eids.len() <= upper
    &&& row.src == src as i64
    &&& row.dst == nodes.last() as i64
    &&& row.len == eids.len() as i64
    &&& row.path_nodes@ == nodes.map_values(|x: u64| x as i64)
    &&& row.path_edges@ == eids.map_values(|x: usize| x as i64)
}

/// `row` gives some walk from `src` as `path_row` says.
pub open spec fn found_by_path(
    edges: Seq<(u64, u64)>,
    dir: ExtendDirection,
    src: u64,
    lower: u64,
    upper: u64,
    row: PathRow,
) -> bool {
    exists|nodes: Seq<u64>, eids: Seq<usize>| #[trigger] path_row(edges, dir, src, lower, upper, row, nodes, eids)
}

/// `rows` are the results of a traversal from `src`: one row for each node
/// whose distance from `src` lies in `lower..=upper`, with a shortest path
/// to it, in any order.
pub open spec fn source_rows(
    edges: Seq<(u64, u64)>,
    dir: ExtendDirection,
    src: u64,
    lower: u64,
    upper: u64,
    rows: Seq<PathRow>,
) -> bool {
    &&& forall|j: int| 0 <= j < rows.len() ==> #[trigger] found_by_path(edges, dir, src, lower, upper, rows[j])
    &&& forall|i: int, j: int| 0 <= i < j < rows.len() ==> rows[i].dst != rows[j].dst
    &&& forall|v: u64, d: nat|
        lower <= d <= upper && #[trigger] at_distance(edges, dir, src, v, d) ==> exists|j: int|
            0 <= j < rows.len() && #[trigger] rows[j].dst == v as i64
}

proof fn lemma_i64_as_u64_back(x: i64)
    ensures
        (x as u64) as i64 == x,
{
    crate::chunk::lemma_i64_bits(x, x);
}

proof fn lemma_u64_as_i64_injective(a: u64, b: u64)
    requires
        a != b,
    ensures
        a as i64 != b as i64,
{
    assert(a != b ==> a as i64 != b as i64) by (bit_vector);
}

fn node_ids(v: &Vec<u64>) -> (r: Vec<i64>)
    ensures
        r@ == v@.map_values(|x: u64| x as i64),
{
    let mut r: Vec<i64> = Vec::new();
    let mut i: usize = 0;
    while i < v.len()
        invariant
            i <= v@.len(),
            r@ == v@.subrange(0, i as int).map_values(|x: u64| x as i64),
        decreases v@.len() - i,
    {
        r.push(v[i] as i64);
        proof {
            assert(v@.subrange(0, i + 1) =~= v@.subrange(0, i as int).push(v@[i as int]));
        }
        i = i + 1;
    }
    proof {
        assert(v@.subrange(0, v@.len() as int) =~= v@);
    }
    r
}

fn edge_ids(v: &Vec<usize>) -> (r: Vec<i64>)
    ensures
        r@ == v@.map_values(|x: usize| x as i64),
{
    let mut r: Vec<i64> = Vec::new();
    let mut i: usize = 0;
    while i < v.len()
        invariant
            i <= v@.len(),
            r@ == v@.subrange(0, i as int).map_values(|x: usize| x as i64),
        decreases v@.len() - i,
    {
        r.push(v[i] as i64);
        proof {
            assert(v@.subrange(0, i + 1) =~= v@.subrange(0, i as int).push(v@[i as int]));
        }
        i = i + 1;
    }
    proof {
        assert(v@.subrange(0, v@.len() as int) =~= v@);
    }
    r
}

/// The results of a traversal from the node `src` (its offset as an
/// `i64`): every node whose distance from `src`, following edges in
/// `direction`, lies in `lower..=upper` (the source itself only when
/// `lower` is 0), once, with the first path found to it, which is a
/// shortest one.
pub fn extend_from(adj: &RelTable, src: i64, lower: u64, upper: u64, direction: ExtendDirection) -> (rows: Vec<
    PathRow,
>)
    requires
        adj.wf(),
    ensures
        source_rows(adj.edges@, direction, src as u64, lower, upper, rows@),
{
    let s = src as u64;
    let ghost e = adj.edges@;
    let found = search(adj, s, upper, direction);
    let mut rows: Vec<PathRow> = Vec::new();
    let ghost mut idx: Seq<int> = Seq::empty();
    proof {
        lemma_i64_as_u64_back(src);
    }
    let mut i: usize = 0;
    while i < found.len()
        invariant
            i <= found@.len(),
            e == adj.edges@,
            s == src as u64,
            src == s as i64,
            rows@.len() == idx.len(),
            forall|i: int| 0 <= i < found.len() ==> #[trigger] reached_ok(e, direction, s, found@[i])
                && found@[i].depth <= upper,
            forall|a: int, b: int| 0 <= a < b < found.len() ==> found@[a].node != found@[b].node,
            forall|j: int| 0 <= j < idx.len() ==> 0 <= #[trigger] idx[j] < i,
            forall|j: int, k: int| 0 <= j < k < idx.len() ==> idx[j] < idx[k],
            forall|j: int|
                0 <= j < rows.len() ==> #[trigger] path_row(
                    e,
                    direction,
                    s,
                    lower,
                    upper,
                    rows@[j],
                    found@[idx[j]].nodes@,
                    found@[idx[j]].eids@,
                ),
            forall|j: int| 0 <= j < rows.len() ==> #[trigger] rows@[j].dst == found@[idx[j]].node as i64,
            forall|a: int|
                0 <= a < i && lower <= #[trigger] found@[a].depth ==> exists|j: int|
                    0 <= j < idx.len() && #[trigger] idx[j] == a,
        decreases found@.len() - i,
    {
        if lower <= found[i].depth {
            let f = &found[i];
            let row = PathRow {
                src,
                dst: f.node as i64,
                len: f.depth as i64,
                path_nodes: node_ids(&f.nodes),
                path_edges: edge_ids(&f.eids),
            };
            proof {
                assert(reached_ok(e, direction, s, found@[i as int]));
                assert forall|a: int, b: int| 0 <= a < b < f.nodes@.len() implies f.nodes@[a] != f.nodes@[b] by {
                    assert(at_distance(e, direction, s, f.nodes@[a], a as nat));
                    assert(at_distance(e, direction, s, f.nodes@[b], b as nat));
                    if f.nodes@[a] == f.nodes@[b] {
                        lemma_distance_unique(e, direction, s, f.nodes@[a], a as nat, b as nat);
                    }
                }
                assert(path_row(e, direction, s, lower, upper, row, f.nodes@, f.eids@));
            }
            rows.push(row);
            proof {
                let old_idx = idx;
                idx = idx.push(i as int);
                assert forall|j: int| 0 <= j < rows.len() implies #[trigger] path_row(
                    e,
                    direction,
                    s,
                    lower,
                    upper,
                    rows@[j],
                    found@[idx[j]].nodes@,
                    found@[idx[j]].eids@,
                ) by {
                    if j < old_idx.len() {
                        assert(idx[j] == old_idx[j]);
                    }
                }
                assert forall|j: int| 0 <= j < rows.len() implies #[trigger] rows@[j].dst
                    == found@[idx[j]].node as i64 by {
                    if j < old_idx.len() {
                        assert(idx[j] == old_idx[j]);
                    }
                }
                assert forall|a: int|
                    0 <= a < i + 1 && lower <= #[trigger] found@[a].depth implies exists|j: int|
                        0 <= j < idx.len() && #[trigger] idx[j] == a by {
                    if a < i {
                        let j = choose|j: int| 0 <= j < old_idx.len() && #[trigger] old_idx[j] == a;
                        assert(idx[j] == a);
                    } else {
                        assert(idx[old_idx.len() as int] == a);
                    }
                }
            }
        }
        i = i + 1;
    }
    proof {
        assert forall|j: int| 0 <= j < rows@.len() implies #[trigger] found_by_path(e, direction, s, lower, upper, rows@[j]) by {
            assert(path_row(e, direction, s, lower, upper, rows@[j], found@[idx[j]].nodes@, found@[idx[j]].eids@));
        }
        assert forall|a: int, b: int| 0 <= a < b < rows@.len() implies rows@[a].dst != rows@[b].dst by {
            lemma_u64_as_i64_injective(found@[idx[a]].node, found@[idx[b]].node);
        }
        assert forall|v: u64, d: nat|
            lower <= d <= upper && #[trigger] at_distance(e, direction, s, v, d) implies exists|j: int|
                0 <= j < rows@.len() && #[trigger] rows@[j].dst == v as i64 by {
            assert(nodes_of(found@).contains(v));
            let a = choose|a: int| 0 <= a < found@.len() && #[trigger] found@[a].node == v;
            assert(reached_ok(e, direction, s, found@[a]));
            lemma_distance_unique(e, direction, s, v, d, found@[a].depth as nat);
            let j = choose|j: int| 0 <= j < idx.len() && #[trigger] idx[j] == a;
            assert(rows@[j].dst == v as i64);
        }
    }
    rows
}

/// The rows of a traversal split by source: `blocks[i]` holds the results
/// from `sources[i]`, and `rows` lists the blocks in order.
pub open spec fn rows_by_source(
    edges: Seq<(u64, u64)>,
    dir: ExtendDirection,
    sources: Seq<i64>,
    lower: u64,
    upper: u64,
    blocks: Seq<Seq<PathRow>>,
    rows: Seq<PathRow>,
) -> bool {
    &&& blocks.len() == sources.len()
    &&& rows == blocks.flatten()
    &&& forall|i: int|
        0 <= i < blocks.len() ==> #[trigger] source_rows(edges, dir, sources[i] as u64, lower, upper, blocks[i])
}

/// Multi-hop traversal of a relationship table: for each source node in
/// turn, the results of `extend_from`. Every path semantic keeps, for each
/// node reached, only the first path found, a shortest one.
pub fn recursive_extend(
    adj: &RelTable,
    sources: &Vec<i64>,
    lower: u64,
    upper: u64,
    direction: ExtendDirection,
    semantic: PathSemantic,
) -> (r: Vec<PathRow>)
    requires
        adj.wf(),
    ensures
        exists|blocks: Seq<Seq<PathRow>>|
            #[trigger] rows_by_source(adj.edges@, direction, sources@, lower, upper, blocks, r@),
{
    let mut out: Vec<PathRow> = Vec::new();
    let ghost mut blocks: Seq<Seq<PathRow>> = Seq::empty();
    let mut i: usize = 0;
    while i < sources.len()
        invariant
            i <= sources@.len(),
            adj.wf(),
            blocks.len() == i,
            out@ == blocks.flatten(),
            forall|k: int|
                0 <= k < i ==> #[trigger] source_rows(
                    adj.edges@,
                    direction,
                    sources@[k] as u64,
                    lower,
                    upper,
                    blocks[k],
                ),
        decreases sources@.len() - i,
    {
        let mut block = extend_from(adj, sources[i], lower, upper, direction);
        let ghost b = block@;
        out.append(&mut block);
        proof {
            blocks.lemma_flatten_push(b);
            let old_blocks = blocks;
            blocks = blocks.push(b);
            assert forall|k: int| 0 <= k < i + 1 implies #[trigger] source_rows(
                adj.edges@,
                direction,
                sources@[k] as u64,
                lower,
                upper,
                blocks[k],
            ) by {
                if k < i {
                    assert(blocks[k] == old_blocks[k]);
                }
            }
        }
        i = i + 1;
    }
    proof {
        assert(rows_by_source(adj.edges@, direction, sources@, lower, upper, blocks, out@));
    }
    out
}


/// `x` is an end of some edge.
pub open spec fn endpoint(edges: Seq<(u64, u64)>, x: u64) -> bool {
    exists|k: int| 0 <= k < edges.len() && (#[trigger] edges[k].0 == x || edges[k].1 == x)
}

/// `y` is the `i64` form of an end of some edge.
pub open spec fn endpoint_id(edges: Seq<(u64, u64)>, y: i64) -> bool {
    exists|u: u64| #[trigger] endpoint(edges, u) && y == u as i64
}

/// Strictly increasing.
pub open spec fn increasing_i64(s: Seq<i64>) -> bool {
    forall|i: int, j: int| 0 <= i < j < s.len() ==> s[i] < s[j]
}

/// Insert `x` into the strictly increasing `v`, unless it is there.
fn insert_sorted(v: &mut Vec<i64>, x: i64)
    requires
        increasing_i64(old(v)@),
    ensures
        increasing_i64(final(v)@),
        final(v)@.to_set() == old(v)@.to_set().insert(x),
{
    let mut p: usize = 0;
    while p < v.len() && v[p] < x
        invariant
            p <= v@.len(),
            v@ == old(v)@,
            increasing_i64(v@),
            forall|k: int| 0 <= k < p ==> v@[k] < x,
        decreases v@.len() - p,
    {
        p = p + 1;
    }
    if p < v.len() && v[p] == x {
        proof {
            assert(old(v)@.to_set().insert(x) =~= old(v)@.to_set());
        }
        return;
    }
    v.insert(p, x);
    proof {
        let o = old(v)@;
        assert forall|i: int, j: int| 0 <= i < j < v@.len() implies v@[i] < v@[j] by {
            if j < p {
            } else if j == p {
            } else if i < p {
                assert(o[i] < x);
                assert(x <= o[p as int]);
                if p < j - 1 {
                    assert(o[p as int] < o[j - 1]);
                }
            } else if i == p {
                assert(x <= o[p as int]);
                assert(x != o[p as int]);
                if p < j - 1 {
                    assert(o[p as int] < o[j - 1]);
                }
            } else {
                assert(o[i - 1] < o[j - 1]);
            }
        }
        assert forall|y: i64| v@.to_set().contains(y) == o.to_set().insert(x).contains(y) by {
            if v@.contains(y) {
                let k = choose|k: int| 0 <= k < v@.len() && v@[k] == y;
                if k < p {
                    assert(o[k] == y);
                } else if k > p {
                    assert(o[k - 1] == y);
                }
            }
            if o.contains(y) {
                let k = choose|k: int| 0 <= k < o.len() && o[k] == y;
                if k < p {
                    assert(v@[k] == y);
                } else {
                    assert(v@[k + 1] == y);
                }
            }
            if y == x {
                assert(v@[p as int] == x);
            }
        }
        assert(v@.to_set() =~= o.to_set().insert(x));
    }
}

/// The sources of a traversal over every node: each end of an edge, as an
/// `i64`, once, in increasing order.
pub fn all_source_nodes(adj: &RelTable) -> (r: Vec<i64>)
    ensures
        increasing_i64(r@),
        forall|j: int| 0 <= j < r@.len() ==> #[trigger] endpoint_id(adj.edges@, r@[j]),
        forall|u: u64| #[trigger] endpoint(adj.edges@, u) ==> r@.contains(u as i64),
{
    let mut r: Vec<i64> = Vec::new();
    let mut i: usize = 0;
    let ghost e = adj.edges@;
    while i < adj.edges.len()
        invariant
            i <= e.len(),
            e == adj.edges@,
            increasing_i64(r@),
            forall|y: i64| #[trigger] r@.contains(y) <==> exists|k: int|
                0 <= k < i && (y == e[k].0 as i64 || y == e[k].1 as i64),
        decreases e.len() - i,
    {
        let (a, b) = adj.edges[i];
        let ghost before = r@;
        insert_sorted(&mut r, a as i64);
        let ghost mid = r@;
        insert_sorted(&mut r, b as i64);
        proof {
            assert forall|y: i64| #[trigger] r@.contains(y) <==> exists|k: int|
                0 <= k < i + 1 && (y == e[k].0 as i64 || y == e[k].1 as i64) by {
                assert(r@.to_set().contains(y) == r@.contains(y));
                assert(mid.to_set().contains(y) == mid.contains(y));
                assert(before.to_set().contains(y) == before.contains(y));
                if exists|k: int| 0 <= k < i + 1 && (y == e[k].0 as i64 || y == e[k].1 as i64) {
                    let k = choose|k: int| 0 <= k < i + 1 && (y == e[k].0 as i64 || y == e[k].1 as i64);
                    if k < i {
                        assert(before.contains(y));
                    }
                }
            }
        }
        i = i + 1;
    }
    proof {
        assert forall|j: int| 0 <= j < r@.len() implies #[trigger] endpoint_id(e, r@[j]) by {
            assert(r@.contains(r@[j]));
            let k = choose|k: int| 0 <= k < e.len() && (r@[j] == e[k].0 as i64 || r@[j] == e[k].1 as i64);
            if r@[j] == e[k].0 as i64 {
                assert(endpoint(e, e[k].0));
            } else {
                assert(endpoint(e, e[k].1));
            }
        }
        assert forall|u: u64| #[trigger] endpoint(e, u) implies r@.contains(u as i64) by {
            let k = choose|k: int| 0 <= k < e.len() && (#[trigger] e[k].0 == u || e[k].1 == u);
            assert(u as i64 == e[k].0 as i64 || u as i64 == e[k].1 as i64);
        }
    }
    r
}

} // verus!
