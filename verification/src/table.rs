//! Relationship tables: a flat edge list, forward and reverse adjacency
//! lists by node offset, and the edges' property values stored column by
//! column.

use crate::csv_values::LogicalTypeID;
use crate::node_group::{decimal, push_decimal};
use crate::value_codec::{copy_value, vview, Value, ValueView};
use std::collections::HashMap;
use vstd::prelude::*;

verus! {

/// A column of a table.
#[derive(Debug)]
pub struct ColumnDefinition {
    pub name: String,
    pub logical_type: LogicalTypeID,
    pub is_primary_key: bool,
}

/// The edges leaving node `s`, in insertion order, as (destination, edge
/// index) pairs.
pub open spec fn out_edges(edges: Seq<(u64, u64)>, s: u64) -> Seq<(u64, usize)>
    decreases edges.len(),
{
    if edges.len() == 0 {
        Seq::empty()
    } else {
        let rest = out_edges(edges.drop_last(), s);
        if edges.last().0 == s {
            rest.push((edges.last().1, (edges.len() - 1) as usize))
        } else {
            rest
        }
    }
}

/// The edges entering node `d`, in insertion order, as (source, edge index)
/// pairs.
pub open spec fn in_edges(edges: Seq<(u64, u64)>, d: u64) -> Seq<(u64, usize)>
    decreases edges.len(),
{
    if edges.len() == 0 {
        Seq::empty()
    } else {
        let rest = in_edges(edges.drop_last(), d);
        if edges.last().1 == d {
            rest.push((edges.last().0, (edges.len() - 1) as usize))
        } else {
            rest
        }
    }
}

/// The message refusing a row with the wrong number of values.
pub open spec fn rel_count_message(expected: nat, got: nat) -> Seq<char> {
    "Column count mismatch: expected "@ + decimal(expected) + " values, got "@ + decimal(got)
}

/// The value of property column `c` of edge `e` in `props`: NULL past the
/// end of the column.
pub open spec fn property_at(props: Seq<Vec<Value>>, c: int, e: int) -> ValueView {
    if 0 <= e < props[c]@.len() {
        vview(props[c]@[e])
    } else {
        ValueView::Null
    }
}

/// A relationship table between a source and a destination node table.
#[derive(Debug)]
pub struct RelTable {
    pub table_id: u64,
    pub name: String,
    pub src_table_id: u64,
    pub dst_table_id: u64,
    pub columns: Vec<ColumnDefinition>,
    pub num_rows: u64,
    /// Edge index → (source offset, destination offset).
    pub edges: Vec<(u64, u64)>,
    /// Source offset → its outgoing (destination, edge index) pairs.
    pub fwd_adj: HashMap<u64, Vec<(u64, usize)>>,
    /// Destination offset → its incoming (source, edge index) pairs.
    pub rev_adj: HashMap<u64, Vec<(u64, usize)>>,
    /// Property column → the values of the edges, by edge index.
    pub properties: Vec<Vec<Value>>,
}

impl RelTable {
    /// The counts agree, every property column has one value per edge, and
    /// the adjacency lists hold exactly the edges of each node, in order.
    pub open spec fn wf(&self) -> bool {
        &&& self.num_rows == self.edges@.len()
        &&& self.properties@.len() == self.columns@.len()
        &&& forall|c: int| 0 <= c < self.properties@.len() ==> #[trigger] self.properties@[c]@.len()
            == self.edges@.len()
        &&& forall|s: u64| #[trigger]
            self.fwd_adj@.contains_key(s) ==> self.fwd_adj@[s]@ == out_edges(self.edges@, s)
        &&& forall|s: u64| #[trigger]
            out_edges(self.edges@, s).len() > 0 ==> self.fwd_adj@.contains_key(s)
        &&& forall|d: u64| #[trigger]
            self.rev_adj@.contains_key(d) ==> self.rev_adj@[d]@ == in_edges(self.edges@, d)
        &&& forall|d: u64| #[trigger]
            in_edges(self.edges@, d).len() > 0 ==> self.rev_adj@.contains_key(d)
    }

    /// A table without edges, with one empty property column per column.
    pub fn new(
        table_id: u64,
        name: String,
        src_table_id: u64,
        dst_table_id: u64,
        columns: Vec<ColumnDefinition>,
    ) -> (t: Self)
        ensures
            t.wf(),
            t.table_id == table_id,
            t.name == name,
            t.src_table_id == src_table_id,
            t.dst_table_id == dst_table_id,
            t.columns == columns,
            t.edges@ == Seq::<(u64, u64)>::empty(),
    {
        let num_cols = columns.len();
        let mut properties: Vec<Vec<Value>> = Vec::new();
        let mut i: usize = 0;
        while i < num_cols
            invariant
                i <= num_cols,
                properties@.len() == i,
                forall|c: int| 0 <= c < i ==> #[trigger] properties@[c]@.len() == 0,
            decreases num_cols - i,
        {
            properties.push(Vec::new());
            i = i + 1;
        }
        let t = RelTable {
            table_id,
            name,
            src_table_id,
            dst_table_id,
            columns,
            num_rows: 0,
            edges: Vec::new(),
            fwd_adj: HashMap::new(),
            rev_adj: HashMap::new(),
            properties,
        };
        proof {
            assert forall|s: u64| #[trigger] out_edges(t.edges@, s).len() > 0 implies t.fwd_adj@.contains_key(s) by {}
            assert forall|d: u64| #[trigger] in_edges(t.edges@, d).len() > 0 implies t.rev_adj@.contains_key(d) by {}
        }
        t
    }

    /// Add an edge from node `from` to node `to` with its property values;
    /// refused when the number of values is not the number of columns.
    pub fn insert_rel(&mut self, from: u64, to: u64, values: Vec<Value>) -> (r: Result<(), String>)
        requires
            old(self).wf(),
            old(self).num_rows < u64::MAX,
        ensures
            final(self).wf(),
            final(self).columns == old(self).columns,
            values@.len() != old(self).columns@.len() ==> r is Err && r->Err_0@ == rel_count_message(
                old(self).columns@.len(),
                values@.len(),
            ) && final(self).edges@ == old(self).edges@ && final(self).properties@ == old(
                self,
            ).properties@,
            values@.len() == old(self).columns@.len() ==> r is Ok && final(self).edges@ == old(
                self,
            ).edges@.push((from, to)) && (forall|c: int, e: int|
                0 <= c < values@.len() && 0 <= e <= old(self).edges@.len() ==> #[trigger] property_at(
                    final(self).properties@,
                    c,
                    e,
                ) == if e < old(self).edges@.len() {
                    property_at(old(self).properties@, c, e)
                } else {
                    vview(values@[c])
                }),
    {
        if values.len() != self.columns.len() {
            let mut m = String::new();
            crate::text::push_str(&mut m, "Column count mismatch: expected ");
            push_decimal(&mut m, self.columns.len() as u64);
            crate::text::push_str(&mut m, " values, got ");
            push_decimal(&mut m, values.len() as u64);
            proof {
                assert(m@ =~= rel_count_message(old(self).columns@.len(), values@.len()));
            }
            return Err(m);
        }
        let ghost old_edges = self.edges@;
        let edge_idx = self.edges.len();
        self.edges.push((from, to));
        proof {
            assert(self.edges@.drop_last() =~= old_edges);
        }
        self.fwd_adj.entry(from).or_insert(Vec::new()).push((to, edge_idx));
        self.rev_adj.entry(to).or_insert(Vec::new()).push((from, edge_idx));
        let mut props: Vec<Vec<Value>> = Vec::new();
        std::mem::swap(&mut props, &mut self.properties);
        let ghost old_props = props@;
        let mut c: usize = 0;
        while c < values.len()
            invariant
                c <= values@.len(),
                values@.len() == props@.len(),
                props@.len() == old_props.len(),
                forall|k: int| 0 <= k < old_props.len() ==> #[trigger] old_props[k]@.len()
                    == old_edges.len(),
                forall|k: int|
                    0 <= k < c ==> #[trigger] props@[k]@ == old_props[k]@.push(props@[k]@.last())
                        && vview(props@[k]@.last()) == vview(values@[k]),
                forall|k: int| c <= k < old_props.len() ==> #[trigger] props@[k] == old_props[k],
            decreases values@.len() - c,
        {
            let v = copy_value(&values[c]);
            let mut column: Vec<Value> = Vec::new();
            props.set_and_swap(c, &mut column);
            column.push(v);
            props.set_and_swap(c, &mut column);
            c = c + 1;
        }
        self.properties = props;
        self.num_rows = self.num_rows + 1;
        proof {
            assert forall|k: int| 0 <= k < self.properties@.len() implies #[trigger] self.properties@[k]@.len()
                == self.edges@.len() by {}
            assert forall|k: int, e: int|
                0 <= k < values@.len() && 0 <= e <= old_edges.len() implies #[trigger] property_at(
                self.properties@,
                k,
                e,
            ) == if e < old_edges.len() {
                property_at(old_props, k, e)
            } else {
                vview(values@[k])
            } by {
                if e < old_edges.len() {
                    assert(self.properties@[k]@[e] == old_props[k]@[e]);
                }
            }
            assert forall|s: u64| #[trigger] self.fwd_adj@.contains_key(s) implies self.fwd_adj@[s]@
                == out_edges(self.edges@, s) by {
                if s == from {
                    if !old(self).fwd_adj@.contains_key(s) {
                        assert(out_edges(old_edges, s).len() == 0);
                        assert(out_edges(old_edges, s) =~= Seq::<(u64, usize)>::empty());
                    }
                }
            }
            assert forall|s: u64| #[trigger] out_edges(self.edges@, s).len() > 0 implies self.fwd_adj@.contains_key(s) by {
                if s != from {
                    assert(out_edges(self.edges@, s) == out_edges(old_edges, s));
                }
            }
            assert forall|d: u64| #[trigger] self.rev_adj@.contains_key(d) implies self.rev_adj@[d]@
                == in_edges(self.edges@, d) by {
                if d == to {
                    if !old(self).rev_adj@.contains_key(d) {
                        assert(in_edges(old_edges, d).len() == 0);
                        assert(in_edges(old_edges, d) =~= Seq::<(u64, usize)>::empty());
                    }
                }
            }
            assert forall|d: u64| #[trigger] in_edges(self.edges@, d).len() > 0 implies self.rev_adj@.contains_key(d) by {
                if d != to {
                    assert(in_edges(self.edges@, d) == in_edges(old_edges, d));
                }
            }
        }
        Ok(())
    }
}

impl RelTable {
    /// Add an edge whose property values are `values`, between the nodes
    /// whose offset is the current number of edges (a placeholder for
    /// callers without node offsets).
    pub fn insert_row(&mut self, values: Vec<Value>) -> (r: Result<(), String>)
        requires
            old(self).wf(),
            old(self).num_rows < u64::MAX,
        ensures
            final(self).wf(),
            final(self).columns == old(self).columns,
            values@.len() != old(self).columns@.len() ==> r is Err && r->Err_0@ == rel_count_message(
                old(self).columns@.len(),
                values@.len(),
            ) && final(self).edges@ == old(self).edges@,
            values@.len() == old(self).columns@.len() ==> r is Ok && final(self).edges@ == old(
                self,
            ).edges@.push((old(self).num_rows, old(self).num_rows)) && (forall|c: int|
                0 <= c < values@.len() ==> #[trigger] property_at(
                    final(self).properties@,
                    c,
                    old(self).edges@.len() as int,
                ) == vview(values@[c])),
    {
        let from = self.num_rows;
        let to = self.num_rows;
        let r = self.insert_rel(from, to, values);
        proof {
            if r is Ok {
                assert forall|c: int| 0 <= c < values@.len() implies #[trigger] property_at(
                    self.properties@,
                    c,
                    old(self).edges@.len() as int,
                ) == vview(values@[c]) by {}
            }
        }
        r
    }

    /// The outgoing (destination, edge index) pairs of node `src_offset`.
    pub fn scan_adj_list(&self, src_offset: u64) -> (r: &[(u64, usize)])
        requires
            self.wf(),
        ensures
            r@ == out_edges(self.edges@, src_offset),
    {
        match self.fwd_adj.get(&src_offset) {
            Some(v) => v.as_slice(),
            None => {
                proof {
                    assert(out_edges(self.edges@, src_offset) =~= Seq::<(u64, usize)>::empty());
                }
                &[]
            },
        }
    }

    /// The incoming (source, edge index) pairs of node `dst_offset`.
    pub fn scan_rev_adj_list(&self, dst_offset: u64) -> (r: &[(u64, usize)])
        requires
            self.wf(),
        ensures
            r@ == in_edges(self.edges@, dst_offset),
    {
        match self.rev_adj.get(&dst_offset) {
            Some(v) => v.as_slice(),
            None => {
                proof {
                    assert(in_edges(self.edges@, dst_offset) =~= Seq::<(u64, usize)>::empty());
                }
                &[]
            },
        }
    }

    /// The property values of edge `edge_idx`, one per property column
    /// (NULL where a column has no value for it).
    pub fn get_edge_properties(&self, edge_idx: usize) -> (r: Vec<Value>)
        ensures
            r@.len() == self.properties@.len(),
            forall|c: int| 0 <= c < r@.len() ==> vview(#[trigger] r@[c]) == property_at(
                self.properties@,
                c,
                edge_idx as int,
            ),
    {
        let mut props: Vec<Value> = Vec::new();
        let mut c: usize = 0;
        while c < self.properties.len()
            invariant
                c <= self.properties@.len(),
                props@.len() == c,
                forall|k: int| 0 <= k < c ==> vview(#[trigger] props@[k]) == property_at(
                    self.properties@,
                    k,
                    edge_idx as int,
                ),
            decreases self.properties@.len() - c,
        {
            let col = &self.properties[c];
            if edge_idx < col.len() {
                props.push(copy_value(&col[edge_idx]));
            } else {
                props.push(Value::Null);
            }
            c = c + 1;
        }
        props
    }

    fn edges_with_properties(&self, pairs: &[(u64, usize)]) -> (r: Vec<(u64, Vec<Value>)>)
        ensures
            r@.len() == pairs@.len(),
            forall|j: int|
                0 <= j < r@.len() ==> (#[trigger] r@[j]).0 == pairs@[j].0 && r@[j].1@.len()
                    == self.properties@.len() && forall|c: int|
                    0 <= c < self.properties@.len() ==> vview(#[trigger] r@[j].1@[c]) == property_at(
                        self.properties@,
                        c,
                        pairs@[j].1 as int,
                    ),
    {
        let mut out: Vec<(u64, Vec<Value>)> = Vec::new();
        let mut j: usize = 0;
        while j < pairs.len()
            invariant
                j <= pairs@.len(),
                out@.len() == j,
                forall|i: int|
                    0 <= i < j ==> (#[trigger] out@[i]).0 == pairs@[i].0 && out@[i].1@.len()
                        == self.properties@.len() && forall|c: int|
                        0 <= c < self.properties@.len() ==> vview(#[trigger] out@[i].1@[c])
                            == property_at(self.properties@, c, pairs@[i].1 as int),
            decreases pairs@.len() - j,
        {
            let (node, edge_idx) = pairs[j];
            let props = self.get_edge_properties(edge_idx);
            out.push((node, props));
            j = j + 1;
        }
        out
    }

    /// The edges leaving `src_offset`, as (destination, property values).
    pub fn get_outgoing_edges(&self, src_offset: u64) -> (r: Vec<(u64, Vec<Value>)>)
        requires
            self.wf(),
        ensures
            r@.len() == out_edges(self.edges@, src_offset).len(),
            forall|j: int|
                0 <= j < r@.len() ==> (#[trigger] r@[j]).0 == out_edges(self.edges@, src_offset)[j].0
                    && r@[j].1@.len() == self.properties@.len() && forall|c: int|
                    0 <= c < self.properties@.len() ==> vview(#[trigger] r@[j].1@[c]) == property_at(
                        self.properties@,
                        c,
                        out_edges(self.edges@, src_offset)[j].1 as int,
                    ),
    {
        self.edges_with_properties(self.scan_adj_list(src_offset))
    }

    /// The edges entering `dst_offset`, as (source, property values).
    pub fn get_incoming_edges(&self, dst_offset: u64) -> (r: Vec<(u64, Vec<Value>)>)
        requires
            self.wf(),
        ensures
            r@.len() == in_edges(self.edges@, dst_offset).len(),
            forall|j: int|
                0 <= j < r@.len() ==> (#[trigger] r@[j]).0 == in_edges(self.edges@, dst_offset)[j].0
                    && r@[j].1@.len() == self.properties@.len() && forall|c: int|
                    0 <= c < self.properties@.len() ==> vview(#[trigger] r@[j].1@[c]) == property_at(
                        self.properties@,
                        c,
                        in_edges(self.edges@, dst_offset)[j].1 as int,
                    ),
    {
        self.edges_with_properties(self.scan_rev_adj_list(dst_offset))
    }

    /// The values of property column `col_idx`, if there is such a column.
    pub fn get_column(&self, col_idx: usize) -> (r: Option<&[Value]>)
        ensures
            col_idx < self.properties@.len() ==> r is Some && r->0@ == self.properties@[col_idx as int]@,
            col_idx >= self.properties@.len() ==> r is None,
    {
        if col_idx < self.properties.len() {
            Some(self.properties[col_idx].as_slice())
        } else {
            None
        }
    }

    /// A copy of the property columns.
    pub fn to_column_major_data(&self) -> (r: Vec<Vec<Value>>)
        ensures
            r@.len() == self.properties@.len(),
            forall|c: int| 0 <= c < r@.len() ==> (#[trigger] r@[c])@.len() == self.properties@[c]@.len(),
            forall|c: int, e: int|
                0 <= c < r@.len() && 0 <= e < r@[c]@.len() ==> vview(#[trigger] r@[c]@[e]) == vview(
                    self.properties@[c]@[e],
                ),
    {
        let mut out: Vec<Vec<Value>> = Vec::new();
        let mut c: usize = 0;
        while c < self.properties.len()
            invariant
                c <= self.properties@.len(),
                out@.len() == c,
                forall|k: int| 0 <= k < c ==> (#[trigger] out@[k])@.len() == self.properties@[k]@.len(),
                forall|k: int, e: int|
                    0 <= k < c && 0 <= e < out@[k]@.len() ==> vview(#[trigger] out@[k]@[e]) == vview(
                        self.properties@[k]@[e],
                    ),
            decreases self.properties@.len() - c,
        {
            let col = &self.properties[c];
            let mut copy: Vec<Value> = Vec::new();
            let mut e: usize = 0;
            while e < col.len()
                invariant
                    e <= col@.len(),
                    copy@.len() == e,
                    forall|i: int| 0 <= i < e ==> vview(#[trigger] copy@[i]) == vview(col@[i]),
                decreases col@.len() - e,
            {
                copy.push(copy_value(&col[e]));
                e = e + 1;
            }
            out.push(copy);
            c = c + 1;
        }
        out
    }
}

/// Inserting an edge from `from` to `to` appends it (with its index) to
/// the adjacency list of `from` and to the reverse list of `to`, and leaves
/// the lists of every other node as they were.
pub proof fn law_insert_then_scan(edges: Seq<(u64, u64)>, from: u64, to: u64, other: u64)
    ensures
        out_edges(edges.push((from, to)), from) == out_edges(edges, from).push(
            (to, edges.len() as usize),
        ),
        in_edges(edges.push((from, to)), to) == in_edges(edges, to).push(
            (from, edges.len() as usize),
        ),
        other != from ==> out_edges(edges.push((from, to)), other) == out_edges(edges, other),
        other != to ==> in_edges(edges.push((from, to)), other) == in_edges(edges, other),
{
    let e2 = edges.push((from, to));
    assert(e2.drop_last() =~= edges);
}

} // verus!
