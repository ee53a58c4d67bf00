use conversion_planner::edge::{Edge, EdgeSet};
use conversion_planner::graph::{Direction, Graph};
use conversion_planner::variations::Variations;

fn set(items: &[u64]) -> Variations {
    Variations::from_vec(items.to_vec())
}

fn graph(edges: &[(i32, u64, &[u64], u64, &[u64], u64)]) -> Graph {
    let mut graph = Graph::new();
    for (cost, key_in, variations_in, key_out, variations_out, data) in edges {
        graph.add_edge(*cost, *key_in, set(variations_in), *key_out, set(variations_out), *data);
    }
    graph
}

fn search(
    graph: &Graph,
    key_in: u64,
    variations_in: &[u64],
    key_out: u64,
    variations_out: &[u64],
) -> Option<Vec<u64>> {
    let skip = EdgeSet::new();
    graph
        .search(key_in, &set(variations_in), key_out, &set(variations_out), &skip)
        .map(|chain| chain.iter().map(|edge| edge.data).collect())
}

const A: u64 = 101;
const B: u64 = 102;
const C: u64 = 103;
const D: u64 = 104;
const X: u64 = 7;

#[test]
fn a_new_graph_has_no_edges() {
    let graph = Graph::new();
    assert_eq!(graph.len(), 0);
    assert!(graph.edges_at(Direction::Forward, 1).is_none());
    assert_eq!(search(&graph, 1, &[], 2, &[]), None);
}

#[test]
fn an_edge_is_registered_once() {
    let mut graph = Graph::new();
    graph.add_edge(1, 1, set(&[X]), 2, set(&[]), A);
    graph.add_edge(1, 1, set(&[X]), 2, set(&[]), A);
    assert_eq!(graph.len(), 1);
    // Another payload makes another edge.
    graph.add_edge(1, 1, set(&[X]), 2, set(&[]), B);
    assert_eq!(graph.len(), 2);
    assert_eq!(graph.edge(0).data, A);
    assert_eq!(graph.edge(1).data, B);
}

#[test]
fn both_indices_list_every_edge_under_its_keys() {
    let graph = graph(&[
        (1, 1, &[], 2, &[], A),
        (1, 1, &[X], 4, &[], B),
        (1, 2, &[], 3, &[], C),
        (1, 4, &[], 3, &[], D),
    ]);
    for id in 0..graph.len() {
        let edge = graph.edge(id);
        let from = graph.edges_at(Direction::Forward, edge.key_in()).unwrap();
        let into = graph.edges_at(Direction::Backward, edge.key_out()).unwrap();
        assert!(from.contains(&id));
        assert!(into.contains(&id));
    }
    assert_eq!(graph.edges_at(Direction::Forward, 1).unwrap(), &vec![0, 1]);
    assert_eq!(graph.edges_at(Direction::Backward, 3).unwrap(), &vec![2, 3]);
    assert_eq!(graph.edges_at(Direction::Backward, 2).unwrap(), &vec![0]);
    assert!(graph.edges_at(Direction::Forward, 3).is_none());
    assert!(graph.edges_at(Direction::Backward, 1).is_none());
}

#[test]
fn position_of_finds_an_equal_edge() {
    let graph = graph(&[(1, 1, &[], 2, &[], A), (1, 1, &[X], 2, &[], A)]);
    let twin = Edge::new(1, 1, set(&[X]), 2, set(&[]), A);
    assert_eq!(graph.position_of(&twin), Some(1));
    let other = Edge::new(2, 1, set(&[X]), 2, set(&[]), A);
    assert_eq!(graph.position_of(&other), None);
}

#[test]
fn search_takes_one_edge() {
    let graph = graph(&[(1, 1, &[], 2, &[], A)]);
    assert_eq!(search(&graph, 1, &[], 2, &[]), Some(vec![A]));
}

#[test]
fn search_takes_two_edges_in_a_row() {
    let graph = graph(&[(1, 1, &[], 2, &[], A), (1, 2, &[], 3, &[], B)]);
    assert_eq!(search(&graph, 1, &[], 3, &[]), Some(vec![A, B]));
}

#[test]
fn search_takes_the_cheaper_last_edge() {
    let graph = graph(&[(1, 1, &[], 2, &[], A), (2, 2, &[], 3, &[], B), (1, 2, &[], 3, &[], C)]);
    assert_eq!(search(&graph, 1, &[], 3, &[]), Some(vec![A, C]));
}

#[test]
fn search_prefers_the_chain_that_consumes_a_variation() {
    let graph = graph(&[
        (1, 1, &[], 2, &[], A),
        (1, 1, &[X], 4, &[], B),
        (1, 2, &[], 3, &[], C),
        (1, 4, &[], 3, &[], D),
    ]);
    assert_eq!(search(&graph, 1, &[X], 3, &[]), Some(vec![B, D]));
    // Without the variation only the other chain is open.
    assert_eq!(search(&graph, 1, &[], 3, &[]), Some(vec![A, C]));
}

#[test]
fn search_finds_nothing_where_no_chain_leads_to_the_key() {
    let graph = graph(&[(1, 1, &[], 2, &[], A)]);
    assert_eq!(search(&graph, 1, &[], 3, &[]), None);
    assert_eq!(search(&graph, 2, &[], 1, &[]), None);
}

#[test]
fn search_uses_no_excluded_edge() {
    let graph = graph(&[
        (1, 1, &[], 2, &[], A),
        (1, 2, &[], 3, &[], B),
        (5, 1, &[], 3, &[], C),
    ]);
    let none = set(&[]);
    let mut skip = EdgeSet::new();
    let found = graph.search(1, &none, 3, &none, &skip).unwrap();
    assert_eq!(found.iter().map(|e| e.data).collect::<Vec<_>>(), vec![A, B]);
    skip.insert(graph.edge(0).clone());
    let found = graph.search(1, &none, 3, &none, &skip).unwrap();
    assert_eq!(found.iter().map(|e| e.data).collect::<Vec<_>>(), vec![C]);
    skip.insert(graph.edge(2).clone());
    assert!(graph.search(1, &none, 3, &none, &skip).is_none());
}

#[test]
fn search_wants_the_wanted_variations() {
    let graph = graph(&[(1, 1, &[], 2, &[], A), (3, 1, &[], 2, &[X], B)]);
    assert_eq!(search(&graph, 1, &[], 2, &[]), Some(vec![A]));
    assert_eq!(search(&graph, 1, &[], 2, &[X]), Some(vec![B]));
    assert_eq!(search(&graph, 1, &[], 2, &[X, 8]), None);
    // A variation one has and does not consume stays active.
    assert_eq!(search(&graph, 1, &[8], 2, &[8]), Some(vec![A]));
}

#[test]
fn a_forward_search_of_equal_cost_prefers_the_chain_that_adds_more() {
    // Two edges into the wanted key that come from nowhere keep the
    // backward queue the longer one, so that every step is a forward step.
    let graph = graph(&[
        (1, 1, &[], 2, &[], A),
        (1, 2, &[], 3, &[], B),
        (1, 2, &[], 3, &[X], C),
        (1000, 70, &[], 3, &[], 1),
        (1000, 71, &[], 3, &[], 2),
    ]);
    assert_eq!(search(&graph, 1, &[], 3, &[]), Some(vec![A, C]));
}

#[test]
fn ties_are_broken_by_what_the_last_edge_consumes_not_by_what_the_chain_has() {
    // Two edges into the wanted key that come from nowhere keep the
    // backward queue the longer one, so that every step is a forward step.
    // One chain consumes the variation with its first edge, the other with
    // its last: the two cost the same, and the other comes first.
    let graph = graph(&[
        (1, 1, &[X], 2, &[], A),
        (1, 1, &[], 4, &[], B),
        (1, 2, &[], 3, &[], C),
        (1, 4, &[X], 3, &[], D),
        (1000, 70, &[], 3, &[], 1),
        (1000, 71, &[], 3, &[], 2),
    ]);
    assert_eq!(search(&graph, 1, &[X], 3, &[]), Some(vec![B, D]));
}

#[test]
fn a_backward_search_of_equal_rank_prefers_the_lesser_edge() {
    let graph = graph(&[(1, 1, &[], 2, &[X], B), (1, 1, &[], 2, &[], A)]);
    assert_eq!(search(&graph, 1, &[], 2, &[]), Some(vec![A]));
}

#[test]
fn a_backward_chain_may_consume_what_a_later_edge_requires() {
    // Both edges require the one variation that there is, and the first
    // consumes it. Walked backward the chain works out all the same.
    let graph = graph(&[(1, 1, &[X], 2, &[], A), (1, 2, &[X], 3, &[], B)]);
    assert_eq!(search(&graph, 1, &[X], 3, &[]), Some(vec![A, B]));
}

#[test]
fn a_chain_found_where_the_directions_meet_need_not_be_the_cheapest() {
    const E: u64 = 105;
    const F: u64 = 106;
    const G: u64 = 107;
    const H: u64 = 108;
    const I: u64 = 109;
    let mut edges: Vec<(i32, u64, &[u64], u64, &[u64], u64)> = vec![
        (4, 1, &[], 20, &[], H),
        (1, 20, &[], 30, &[], E),
        (4, 30, &[], 9, &[], G),
        (5, 1, &[], 40, &[], I),
        (1, 40, &[], 9, &[], F),
    ];
    // Edges from the first key that lead nowhere, and edges into the key
    // that the middle edge leads from that come from nowhere.
    for n in 0..3 {
        edges.push((1000, 1, &[], 50 + n, &[], 200 + n));
    }
    for n in 0..5 {
        edges.push((1000, 60 + n, &[], 20, &[], 300 + n));
    }
    let graph = graph(&edges);
    assert_eq!(search(&graph, 1, &[], 9, &[]), Some(vec![H, E, G]));
}

/// Whether the chain leads from the one key to the other over edges that
/// follow one another, each edge finds active what it requires, and all
/// that is wanted is active in the end.
fn works_out(
    chain: &[&Edge],
    key_in: u64,
    variations_in: &[u64],
    key_out: u64,
    variations_out: &[u64],
) -> bool {
    let mut key = key_in;
    let mut active = set(variations_in);
    for edge in chain {
        if edge.key_in() != key || !edge.variations_in().is_subset(&active) {
            return false;
        }
        active = active.difference(edge.variations_in()).union(edge.variations_out());
        key = edge.key_out();
    }
    !chain.is_empty() && key == key_out && set(variations_out).is_subset(&active)
}

#[test]
fn a_chain_found_in_a_graph_whose_edges_provide_what_they_require_works_out() {
    const Y: u64 = 8;
    let graph = graph(&[
        (2, 1, &[], 2, &[X], A),
        (1, 1, &[], 2, &[], B),
        (1, 2, &[X], 3, &[X, Y], C),
        (3, 2, &[], 3, &[Y], D),
        (1, 3, &[Y], 4, &[Y], 5),
        (1, 3, &[X, Y], 4, &[X, Y], 6),
    ]);
    let skip = EdgeSet::new();
    let requests =
        [(vec![], vec![]), (vec![], vec![X]), (vec![X], vec![Y]), (vec![], vec![X, Y])];
    for (have, want) in requests {
        let (variations_in, variations_out) = (set(&have), set(&want));
        let found = graph.search(1, &variations_in, 4, &variations_out, &skip).unwrap();
        assert!(works_out(&found, 1, &have, 4, &want));
    }
    // What no edge provides cannot be had in the end.
    assert!(graph.search(1, &set(&[]), 4, &set(&[9]), &skip).is_none());
}

#[test]
fn the_same_search_finds_the_same_chain() {
    let edges: Vec<(i32, u64, &[u64], u64, &[u64], u64)> = vec![
        (1, 1, &[], 2, &[], A),
        (1, 1, &[], 2, &[], B),
        (1, 2, &[], 3, &[], C),
        (1, 2, &[], 3, &[], D),
    ];
    let first = search(&graph(&edges), 1, &[], 3, &[]);
    assert_eq!(first, Some(vec![A, C]));
    for _ in 0..5 {
        assert_eq!(search(&graph(&edges), 1, &[], 3, &[]), first);
    }
}
