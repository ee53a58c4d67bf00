use conversion_planner::edge::{Edge, EdgeSet};
use conversion_planner::variations::Variations;

fn set(items: &[u64]) -> Variations {
    Variations::from_vec(items.to_vec())
}

fn edge(
    cost: i32,
    key_in: u64,
    variations_in: &[u64],
    key_out: u64,
    variations_out: &[u64],
    data: u64,
) -> Edge {
    Edge::new(cost, key_in, set(variations_in), key_out, set(variations_out), data)
}

#[test]
fn getters_give_the_fields() {
    let e = edge(3, 10, &[1], 20, &[2, 3], 99);
    assert_eq!(e.cost(), 3);
    assert_eq!(e.key_in(), 10);
    assert_eq!(e.key_out(), 20);
    assert_eq!(e.data(), 99);
    assert_eq!(e.data, 99);
    assert_eq!(e.variations_in().to_vec(), vec![1]);
    assert_eq!(e.variations_out().to_vec(), vec![2, 3]);
}

#[test]
fn edges_are_equal_when_all_six_fields_are() {
    let e = edge(1, 2, &[3], 4, &[5], 6);
    assert!(e.equals(&edge(1, 2, &[3], 4, &[5], 6)));
    assert!(e.equals(&e.clone()));
    assert!(!e.equals(&edge(9, 2, &[3], 4, &[5], 6)));
    assert!(!e.equals(&edge(1, 9, &[3], 4, &[5], 6)));
    assert!(!e.equals(&edge(1, 2, &[9], 4, &[5], 6)));
    assert!(!e.equals(&edge(1, 2, &[3], 9, &[5], 6)));
    assert!(!e.equals(&edge(1, 2, &[3], 4, &[9], 6)));
    assert!(!e.equals(&edge(1, 2, &[3], 4, &[5], 9)));
}

#[test]
fn edges_are_ordered_field_by_field() {
    let e = edge(1, 2, &[3], 4, &[5], 6);
    assert_eq!(e.order(&edge(1, 2, &[3], 4, &[5], 6)), 0);
    // The cost decides first.
    assert_eq!(e.order(&edge(2, 0, &[], 0, &[], 0)), -1);
    assert_eq!(edge(2, 0, &[], 0, &[], 0).order(&e), 1);
    // Then the key the edge leads from, the key it leads to, the payload.
    assert_eq!(e.order(&edge(1, 3, &[], 0, &[], 0)), -1);
    assert_eq!(e.order(&edge(1, 2, &[], 5, &[], 0)), -1);
    assert_eq!(e.order(&edge(1, 2, &[], 4, &[], 7)), -1);
    assert_eq!(e.order(&edge(1, 2, &[9], 4, &[9], 5)), 1);
    // Then what it requires, then what it provides.
    assert_eq!(e.order(&edge(1, 2, &[3, 4], 4, &[], 6)), -1);
    assert_eq!(e.order(&edge(1, 2, &[2], 4, &[9], 6)), 1);
    assert_eq!(e.order(&edge(1, 2, &[3], 4, &[5, 6], 6)), -1);
    assert_eq!(e.order(&edge(1, 2, &[3], 4, &[4], 6)), 1);
}

#[test]
fn an_edge_set_holds_each_edge_once() {
    let mut edges = EdgeSet::new();
    let e = edge(1, 2, &[3], 4, &[5], 6);
    assert!(!edges.contains(&e));
    assert!(edges.insert(e.clone()));
    assert!(edges.contains(&e));
    assert!(!edges.insert(e.clone()));
    assert!(!edges.contains(&edge(1, 2, &[3], 4, &[5], 7)));
    assert!(edges.insert(edge(1, 2, &[3], 4, &[5], 7)));
    assert!(edges.contains(&edge(1, 2, &[3], 4, &[5], 7)));
}
