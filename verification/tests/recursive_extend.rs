use kuzu_storage::recursive_extend::{
    all_source_nodes, extend_from, recursive_extend, ExtendDirection, PathRow, PathSemantic,
};
use kuzu_storage::table::RelTable;

fn graph(edges: &[(u64, u64)]) -> RelTable {
    let mut t = RelTable::new(7, "knows".into(), 0, 0, vec![]);
    for &(a, b) in edges {
        t.insert_rel(a, b, vec![]).unwrap();
    }
    t
}

fn summary(rows: &[PathRow]) -> Vec<(i64, i64, i64)> {
    let mut v: Vec<(i64, i64, i64)> = rows.iter().map(|r| (r.src, r.dst, r.len)).collect();
    v.sort();
    v
}

#[test]
fn chain_within_bounds() {
    // 0 -> 1 -> 2 -> 3
    let t = graph(&[(0, 1), (1, 2), (2, 3)]);
    let rows = extend_from(&t, 0, 1, 2, ExtendDirection::Fwd);
    assert_eq!(summary(&rows), vec![(0, 1, 1), (0, 2, 2)]);
    let two = rows.iter().find(|r| r.dst == 2).unwrap();
    assert_eq!(two.path_nodes, vec![0, 1, 2]);
    assert_eq!(two.path_edges, vec![0, 1]);
}

#[test]
fn lower_bound_zero_includes_the_source() {
    let t = graph(&[(0, 1)]);
    let rows = extend_from(&t, 0, 0, 3, ExtendDirection::Fwd);
    assert_eq!(summary(&rows), vec![(0, 0, 0), (0, 1, 1)]);
    let zero = rows.iter().find(|r| r.dst == 0).unwrap();
    assert_eq!(zero.path_nodes, vec![0]);
    assert!(zero.path_edges.is_empty());
}

#[test]
fn each_node_once_at_its_shortest_distance() {
    // 0 -> 1 -> 2 and a shortcut 0 -> 2
    let t = graph(&[(0, 1), (1, 2), (0, 2)]);
    let rows = extend_from(&t, 0, 1, 5, ExtendDirection::Fwd);
    assert_eq!(summary(&rows), vec![(0, 1, 1), (0, 2, 1)]);
    let two = rows.iter().find(|r| r.dst == 2).unwrap();
    assert_eq!(two.path_edges, vec![2]);
}

#[test]
fn backward_and_both_directions() {
    let t = graph(&[(0, 1), (2, 1)]);
    assert_eq!(summary(&extend_from(&t, 1, 1, 1, ExtendDirection::Bwd)), vec![(1, 0, 1), (1, 2, 1)]);
    assert!(extend_from(&t, 1, 1, 1, ExtendDirection::Fwd).is_empty());
    assert_eq!(summary(&extend_from(&t, 0, 1, 2, ExtendDirection::Both)), vec![(0, 1, 1), (0, 2, 2)]);
}

#[test]
fn cycles_end_the_search() {
    let t = graph(&[(0, 1), (1, 0), (0, 2)]);
    let rows = extend_from(&t, 0, 1, 10, ExtendDirection::Fwd);
    assert_eq!(summary(&rows), vec![(0, 1, 1), (0, 2, 1)]);
}

#[test]
fn lower_above_upper_gives_nothing() {
    let t = graph(&[(0, 1), (1, 2)]);
    assert!(extend_from(&t, 0, 3, 2, ExtendDirection::Fwd).is_empty());
}

#[test]
fn results_come_source_by_source() {
    let t = graph(&[(0, 1), (1, 2)]);
    let rows = recursive_extend(&t, &vec![1, 0], 1, 1, ExtendDirection::Fwd, PathSemantic::Walk);
    let seen: Vec<(i64, i64, i64)> = rows.iter().map(|r| (r.src, r.dst, r.len)).collect();
    assert_eq!(seen, vec![(1, 2, 1), (0, 1, 1)]);
    for semantic in [PathSemantic::Trail, PathSemantic::Acyclic] {
        let again = recursive_extend(&t, &vec![1, 0], 1, 1, ExtendDirection::Fwd, semantic);
        assert_eq!(again.len(), 2);
    }
}

#[test]
fn every_edge_end_is_a_source_once_in_order() {
    let t = graph(&[(5, 1), (1, 3), (3, 5), (9, 9)]);
    assert_eq!(all_source_nodes(&t), vec![1, 3, 5, 9]);
    assert!(all_source_nodes(&graph(&[])).is_empty());
}

#[test]
fn first_path_follows_adjacency_order() {
    // edges 0: 0->2, 1: 0->1, 2: 1->3, 3: 2->3, 4: 0->2 (a parallel edge)
    let t = graph(&[(0, 2), (0, 1), (1, 3), (2, 3), (0, 2)]);
    let rows = extend_from(&t, 0, 1, 2, ExtendDirection::Fwd);
    let two = rows.iter().find(|r| r.dst == 2).unwrap();
    assert_eq!(two.path_edges, vec![0]);
    let three = rows.iter().find(|r| r.dst == 3).unwrap();
    assert_eq!(three.path_nodes, vec![0, 2, 3]);
    assert_eq!(three.path_edges, vec![0, 3]);
}
