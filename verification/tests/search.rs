use conversion_planner::edge::{Edge, EdgeSet};
use conversion_planner::graph::Graph;
use conversion_planner::search::Searcher;
use conversion_planner::variations::Variations;

fn set(items: &[u64]) -> Variations {
    Variations::from_vec(items.to_vec())
}

fn graph(edges: &[(i32, u64, &[u64], u64, &[u64], u64)]) -> Graph {
    let mut graph = Graph::new();
    for (cost, key_in, variations_in, key_out, variations_out, data) in edges {
        graph.add_edge(*cost, *key_in, set(variations_in), *key_out, set(variations_out), *data);
    }
    graph
}

fn payloads(chain: Option<Vec<&Edge>>) -> Option<Vec<u64>> {
    chain.map(|edges| edges.iter().map(|edge| edge.data).collect())
}

/// Runs the given steps on a fresh search, `true` for a forward step and
/// `false` for a backward step, and hands back what the last step found.
fn run(
    query: (u64, &[u64], u64, &[u64]),
    edges: &[(i32, u64, &[u64], u64, &[u64], u64)],
    steps: &[bool],
) -> Option<Vec<u64>> {
    let graph = graph(edges);
    let variations_in = set(query.1);
    let variations_out = set(query.3);
    let skip_null = EdgeSet::new();
    let mut searcher =
        Searcher::new(query.0, &variations_in, query.2, &variations_out, &graph, &skip_null);
    searcher.set_queue_in();
    searcher.set_queue_out();
    let mut found = None;
    for forward in steps {
        found = if *forward { searcher.search_forward() } else { searcher.search_backward() };
    }
    payloads(found)
}

const FORWARD: bool = true;
const BACKWARD: bool = false;

#[test]
fn test_forward_no_path() {
    let result = run((1, &[], 2, &[]), &[(1, 2, &[], 3, &[], 1)], &[FORWARD]).is_some();
    assert_eq!(result, false);
}

#[test]
fn test_backward_no_path() {
    let result = run((1, &[], 2, &[]), &[(1, 2, &[], 3, &[], 1)], &[BACKWARD]).is_some();
    assert_eq!(result, false);
}

#[test]
fn test_forward_no_path_variations() {
    let result = run((1, &[], 2, &[]), &[(1, 1, &[1], 2, &[], 1)], &[FORWARD]).is_some();
    assert_eq!(result, false);
}

#[test]
fn test_backward_no_path_variations() {
    let result = run((1, &[], 2, &[]), &[(1, 1, &[1], 2, &[], 1)], &[BACKWARD]).is_some();
    assert_eq!(result, false);
}

#[test]
fn test_forward_one_step() {
    let result = run((1, &[], 2, &[]), &[(1, 1, &[], 2, &[], 1)], &[FORWARD]).unwrap();
    assert_eq!(result[0], 1);
}

#[test]
fn test_forward_one_step_variations_in() {
    let result = run((1, &[1], 2, &[]), &[(1, 1, &[1], 2, &[], 1)], &[FORWARD]).unwrap();
    assert_eq!(result[0], 1);
}

#[test]
fn test_forward_one_step_variations_out() {
    let result = run(
        (1, &[], 2, &[1]),
        &[(5, 1, &[], 2, &[1], 1), (1, 1, &[], 2, &[], 2)],
        &[FORWARD, FORWARD],
    )
    .unwrap();
    assert_eq!(result[0], 1);
}

#[test]
fn test_backward_one_step() {
    let result = run((1, &[], 2, &[]), &[(1, 1, &[], 2, &[], 1)], &[BACKWARD]).unwrap();
    assert_eq!(result[0], 1);
}

#[test]
fn test_backward_one_step_variations_in() {
    let result = run((1, &[1], 2, &[]), &[(1, 1, &[1], 2, &[], 1)], &[BACKWARD]).unwrap();
    assert_eq!(result[0], 1);
}

#[test]
fn test_backward_one_step_variations_out() {
    let result = run(
        (1, &[], 2, &[1]),
        &[(5, 1, &[], 2, &[1], 1), (1, 1, &[], 2, &[], 2)],
        &[BACKWARD, BACKWARD],
    )
    .unwrap();
    assert_eq!(result[0], 1);
}

#[test]
fn test_forward_two_step() {
    let result = run(
        (1, &[], 3, &[]),
        &[(1, 1, &[], 2, &[], 1), (1, 2, &[], 3, &[], 2)],
        &[FORWARD, FORWARD],
    )
    .unwrap();
    assert_eq!(result[0], 1);
    assert_eq!(result[1], 2);
}

#[test]
fn test_backward_two_step() {
    let result = run(
        (1, &[], 3, &[]),
        &[(1, 1, &[], 2, &[], 1), (1, 2, &[], 3, &[], 2)],
        &[BACKWARD, BACKWARD],
    )
    .unwrap();
    assert_eq!(result[0], 1);
    assert_eq!(result[1], 2);
}

#[test]
fn test_forward_cheapest() {
    let result = run(
        (1, &[], 3, &[]),
        &[(1, 1, &[], 2, &[], 1), (2, 2, &[], 3, &[], 2), (1, 2, &[], 3, &[], 3)],
        &[FORWARD, FORWARD],
    )
    .unwrap();
    assert_eq!(result[0], 1);
    assert_eq!(result[1], 3);
}

#[test]
fn test_forward_cheapest_variations_in() {
    let result = run(
        (1, &[1], 3, &[]),
        &[(1, 1, &[], 2, &[], 1), (1, 2, &[1], 3, &[], 2), (1, 2, &[], 3, &[], 3)],
        &[FORWARD, FORWARD],
    )
    .unwrap();
    assert_eq!(result[0], 1);
    assert_eq!(result[1], 2);
}

#[test]
fn test_backward_cheapest() {
    let result = run(
        (1, &[], 3, &[]),
        &[(1, 1, &[], 2, &[], 1), (2, 2, &[], 3, &[], 2), (1, 2, &[], 3, &[], 3)],
        &[BACKWARD, BACKWARD],
    )
    .unwrap();
    assert_eq!(result[0], 1);
    assert_eq!(result[1], 3);
}

#[test]
fn test_backward_cheapest_variations_in() {
    let result = run(
        (1, &[1], 3, &[]),
        &[(1, 1, &[], 2, &[], 1), (1, 2, &[1], 3, &[], 2), (1, 2, &[], 3, &[], 3)],
        &[BACKWARD, BACKWARD, BACKWARD],
    )
    .unwrap();
    // The third step chooses between two chains of the same cost. In both
    // the edge taken last, the one from the first key, consumes and adds
    // nothing, so they tie on both counts, and the chain that leaves no
    // variation required comes first. What the edge taken before it has
    // added does not count.
    assert_eq!(result[0], 1);
    assert_eq!(result[1], 3);
}

#[test]
fn test_backward_cheapest_variations_out() {
    let result = run(
        (1, &[], 4, &[1]),
        &[
            (1, 1, &[], 2, &[], 1),
            (1, 2, &[], 3, &[1], 2),
            (1, 2, &[], 3, &[], 3),
            (1, 3, &[], 4, &[], 4),
        ],
        &[BACKWARD, BACKWARD, BACKWARD, BACKWARD],
    )
    .unwrap();
    assert_eq!(result[0], 1);
    assert_eq!(result[1], 2);
    assert_eq!(result[2], 4);
}

#[test]
fn test_forward_intersect() {
    let result = run(
        (1, &[], 4, &[]),
        &[(1, 1, &[], 2, &[], 1), (1, 2, &[], 3, &[], 2), (1, 3, &[], 4, &[], 3)],
        &[FORWARD, FORWARD, BACKWARD, FORWARD],
    )
    .unwrap();
    assert_eq!(result[0], 1);
    assert_eq!(result[1], 2);
    assert_eq!(result[2], 3);
}

#[test]
fn test_backward_intersect() {
    let result = run(
        (1, &[], 4, &[]),
        &[(1, 1, &[], 2, &[], 1), (1, 2, &[], 3, &[], 2), (1, 3, &[], 4, &[], 3)],
        &[BACKWARD, BACKWARD, FORWARD, BACKWARD],
    )
    .unwrap();
    assert_eq!(result[0], 1);
    assert_eq!(result[1], 2);
    assert_eq!(result[2], 3);
}

#[test]
fn test_search_variation() {
    let graph = graph(&[
        (1, 1, &[], 2, &[], 1),
        (1, 1, &[1], 4, &[], 2),
        (1, 2, &[], 3, &[], 3),
        (1, 4, &[], 3, &[], 4),
    ]);
    let variations_in = set(&[1]);
    let variations_out = set(&[]);
    let skip_null = EdgeSet::new();
    let mut searcher = Searcher::new(1, &variations_in, 3, &variations_out, &graph, &skip_null);
    searcher.set_queue_in();
    searcher.set_queue_out();
    let result = searcher.search().unwrap();
    assert_eq!(result[0].data, 2);
    assert_eq!(result[1].data, 4);
}
