use conversion_planner::edge::EdgeSet;
use conversion_planner::graph::{Direction, Graph};
use conversion_planner::search::Searcher;
use conversion_planner::state::{reversed, Frontier, State};
use conversion_planner::variations::Variations;

fn set(items: &[u64]) -> Variations {
    Variations::from_vec(items.to_vec())
}

#[test]
fn a_first_state_has_what_its_edge_has() {
    let state = State::new(2, 3, 5, 7, None, set(&[1, 2]));
    assert_eq!(state.cost(), 7);
    assert_eq!(state.var_consumed(), 2);
    assert_eq!(state.var_added(), 3);
    assert_eq!(state.edge(), 5);
    assert_eq!(state.parent(), None);
    assert_eq!(state.variations().to_vec(), vec![1, 2]);
}

#[test]
fn a_later_state_adds_its_cost_to_that_of_its_parent_and_counts_for_its_own_edge() {
    let parent = State::new(2, 3, 5, 7, None, set(&[1, 2]));
    let state = State::new(1, 4, 6, 10, Some((0, &parent)), set(&[9]));
    assert_eq!(state.cost(), 17);
    assert_eq!(state.var_consumed(), 1);
    assert_eq!(state.var_added(), 4);
    assert_eq!(state.edge(), 6);
    assert_eq!(state.parent(), Some(0));
    assert_eq!(state.variations().to_vec(), vec![9]);
}

#[test]
fn costs_beyond_the_range_of_one_edge_add_up() {
    let mut state = State::new(0, 0, 0, i32::MAX, None, set(&[]));
    for _ in 0..4 {
        state = State::new(usize::MAX, usize::MAX, 0, i32::MAX, Some((0, &state)), set(&[]));
    }
    assert_eq!(state.cost(), 5 * (i32::MAX as u128));
    assert_eq!(state.var_consumed(), usize::MAX);
    assert_eq!(state.var_added(), usize::MAX);
}

#[test]
fn reversed_turns_a_vector_round() {
    assert_eq!(reversed(&vec![1, 2, 3]), vec![3, 2, 1]);
    assert_eq!(reversed(&vec![]), Vec::<usize>::new());
}

#[test]
fn the_least_state_leaves_the_queue_first() {
    let mut graph = Graph::new();
    graph.add_edge(3, 1, set(&[]), 2, set(&[]), 10);
    graph.add_edge(1, 1, set(&[]), 2, set(&[]), 11);
    graph.add_edge(2, 1, set(&[]), 2, set(&[]), 12);
    let mut frontier = Frontier::new(graph.len());
    assert_eq!(frontier.pop(&graph), None);
    for id in 0..3 {
        frontier.push(State::new(0, 0, id, graph.edge(id).cost(), None, set(&[])));
    }
    assert_eq!(frontier.queued(), 3);
    assert_eq!(frontier.created(), 3);
    assert_eq!(frontier.pop(&graph), Some(1));
    assert_eq!(frontier.pop(&graph), Some(2));
    assert_eq!(frontier.pop(&graph), Some(0));
    assert_eq!(frontier.pop(&graph), None);
    assert_eq!(frontier.created(), 3);
}

#[test]
fn of_equal_cost_the_state_that_consumed_more_leaves_first() {
    let mut graph = Graph::new();
    graph.add_edge(1, 1, set(&[]), 2, set(&[]), 10);
    let mut frontier = Frontier::new(graph.len());
    frontier.push(State::new(0, 5, 0, 1, None, set(&[])));
    frontier.push(State::new(1, 0, 0, 1, None, set(&[])));
    frontier.push(State::new(1, 2, 0, 1, None, set(&[])));
    frontier.push(State::new(1, 2, 0, 1, None, set(&[4])));
    assert_eq!(frontier.pop(&graph), Some(2));
    assert_eq!(frontier.pop(&graph), Some(3));
    assert_eq!(frontier.pop(&graph), Some(1));
    assert_eq!(frontier.pop(&graph), Some(0));
}

#[test]
fn what_the_parent_consumed_and_added_does_not_count_for_a_later_state() {
    let mut graph = Graph::new();
    graph.add_edge(1, 1, set(&[]), 2, set(&[]), 10);
    let mut frontier = Frontier::new(graph.len());
    // A first state that consumed and added much, and a state after it that
    // consumed and added nothing.
    let first = State::new(5, 5, 0, 1, None, set(&[]));
    frontier.push(State::new(5, 5, 0, 1, None, set(&[])));
    frontier.push(State::new(0, 0, 0, 1, Some((0, &first)), set(&[])));
    // Two first states of the same cost as the later state.
    frontier.push(State::new(1, 0, 0, 2, None, set(&[])));
    frontier.push(State::new(0, 1, 0, 2, None, set(&[])));
    assert_eq!(frontier.pop(&graph), Some(0));
    assert_eq!(frontier.pop(&graph), Some(2));
    assert_eq!(frontier.pop(&graph), Some(3));
    assert_eq!(frontier.pop(&graph), Some(1));
}

#[test]
fn a_trail_runs_from_a_state_back_to_its_first() {
    let mut graph = Graph::new();
    for id in 0..3 {
        graph.add_edge(1, id, set(&[]), id + 1, set(&[]), id);
    }
    let mut frontier = Frontier::new(graph.len());
    frontier.push(State::new(0, 0, 0, 1, None, set(&[])));
    let first = State::new(0, 0, 0, 1, None, set(&[]));
    frontier.push(State::new(0, 0, 1, 1, Some((0, &first)), set(&[])));
    let second = State::new(0, 0, 1, 1, Some((0, &first)), set(&[]));
    frontier.push(State::new(0, 0, 2, 1, Some((1, &second)), set(&[])));
    assert_eq!(frontier.trail(2), vec![2, 1, 0]);
    assert_eq!(frontier.trail(0), vec![0]);
}

#[test]
fn records_are_kept_by_edge_and_variations() {
    let mut frontier = Frontier::new(2);
    frontier.push(State::new(0, 0, 1, 1, None, set(&[])));
    frontier.push(State::new(0, 0, 1, 1, None, set(&[])));
    assert!(!frontier.seen(1, &set(&[3])));
    frontier.record(1, set(&[3]), 0);
    assert!(frontier.seen(1, &set(&[3])));
    assert!(!frontier.seen(0, &set(&[3])));
    assert!(!frontier.seen(1, &set(&[])));
    frontier.record(1, set(&[]), 0);
    frontier.record(1, set(&[3]), 1);
    let visits = frontier.visits(1);
    assert_eq!(visits.len(), 2);
    assert_eq!(visits[0].variations().to_vec(), vec![3]);
    assert_eq!(visits[0].state(), 1);
    assert_eq!(visits[1].variations().to_vec(), Vec::<u64>::new());
    assert_eq!(visits[1].state(), 0);
}

#[test]
fn queueing_first_states_twice_queues_them_twice() {
    let mut graph = Graph::new();
    graph.add_edge(1, 1, set(&[]), 2, set(&[]), 10);
    let (have, want) = (set(&[]), set(&[]));
    let skip = EdgeSet::new();
    let mut searcher = Searcher::new(1, &have, 2, &want, &graph, &skip);
    searcher.set_queue_in();
    searcher.set_queue_in();
    let found = searcher.search_forward().unwrap();
    assert_eq!(found[0].data, 10);
    let found = searcher.search_forward().unwrap();
    assert_eq!(found[0].data, 10);
    assert!(searcher.search_forward().is_none());
    assert!(searcher.search_backward().is_none());
}

#[test]
fn a_step_drops_a_state_whose_edge_is_excluded() {
    let mut graph = Graph::new();
    graph.add_edge(1, 1, set(&[]), 2, set(&[]), 10);
    let (have, want) = (set(&[]), set(&[]));
    let mut skip = EdgeSet::new();
    skip.insert(graph.edge(0).clone());
    let mut searcher = Searcher::new(1, &have, 2, &want, &graph, &skip);
    searcher.set_queue_in();
    searcher.set_queue_out();
    assert!(searcher.search_forward().is_none());
    assert!(searcher.search_backward().is_none());
    assert!(searcher.search().is_none());
}

#[test]
fn queueing_what_may_follow_a_state_again_queues_what_was_not_expanded() {
    let mut graph = Graph::new();
    graph.add_edge(1, 1, set(&[]), 2, set(&[]), 10);
    graph.add_edge(1, 2, set(&[]), 3, set(&[]), 11);
    graph.add_edge(1, 3, set(&[]), 4, set(&[]), 12);
    let (have, want) = (set(&[]), set(&[]));
    let skip = EdgeSet::new();
    let mut searcher = Searcher::new(1, &have, 4, &want, &graph, &skip);
    searcher.set_queue_in();
    // The first step expands the first state and queues the second.
    assert!(searcher.search_forward().is_none());
    // Queueing what may follow the first state queues the second once more.
    searcher.add_queue_in(0);
    assert!(searcher.search_forward().is_none());
    // Now that the second is expanded, nothing follows the first any more.
    searcher.add_queue_in(0);
    // The state that was queued twice is expanded twice.
    assert!(searcher.search_forward().is_none());
    let found = searcher.search_forward().unwrap();
    assert_eq!(found.iter().map(|edge| edge.data).collect::<Vec<_>>(), vec![10, 11, 12]);
    let found = searcher.search_forward().unwrap();
    assert_eq!(found.iter().map(|edge| edge.data).collect::<Vec<_>>(), vec![10, 11, 12]);
    assert!(searcher.search_forward().is_none());
    assert!(searcher.search_forward().is_none());
}

#[test]
fn the_first_states_hold_what_their_edges_leave_active() {
    let mut graph = Graph::new();
    graph.add_edge(3, 1, set(&[5]), 2, set(&[6, 7]), 10);
    graph.add_edge(4, 1, set(&[5, 9]), 2, set(&[]), 11);
    graph.add_edge(2, 8, set(&[5]), 2, set(&[6, 1]), 12);
    let (have, want) = (set(&[5, 4]), set(&[6, 2]));
    let skip = EdgeSet::new();
    let mut searcher = Searcher::new(1, &have, 2, &want, &graph, &skip);
    searcher.set_queue_in();
    searcher.set_queue_out();

    // Forward: only the edge that requires no more than one has. What it
    // requires is consumed, what it provides is added.
    let forward = searcher.frontier(Direction::Forward);
    assert_eq!(forward.created(), 1);
    assert_eq!(forward.queued(), 1);
    let state = forward.state(0);
    assert_eq!(state.edge(), 0);
    assert_eq!(state.parent(), None);
    assert_eq!(state.cost(), 3);
    assert_eq!(state.var_consumed(), 1);
    assert_eq!(state.var_added(), 2);
    assert_eq!(state.variations().to_vec(), vec![4, 6, 7]);

    // Backward: every edge that leads to the key. What it provides of the
    // wanted is consumed, what it requires is added.
    let backward = searcher.frontier(Direction::Backward);
    assert_eq!(backward.created(), 3);
    let state = backward.state(0);
    assert_eq!((state.cost(), state.var_consumed(), state.var_added()), (3, 1, 1));
    assert_eq!(state.variations().to_vec(), vec![2, 5]);
    let state = backward.state(1);
    assert_eq!((state.cost(), state.var_consumed(), state.var_added()), (4, 0, 2));
    assert_eq!(state.variations().to_vec(), vec![2, 5, 6, 9]);
    let state = backward.state(2);
    assert_eq!((state.cost(), state.var_consumed(), state.var_added()), (2, 1, 1));
    assert_eq!(state.variations().to_vec(), vec![2, 5]);
}

#[test]
fn a_later_state_holds_what_its_chain_costs_and_what_its_edge_consumes_and_adds() {
    let mut graph = Graph::new();
    graph.add_edge(3, 1, set(&[5]), 2, set(&[6, 7]), 10);
    graph.add_edge(4, 2, set(&[6]), 3, set(&[8]), 11);
    graph.add_edge(1, 2, set(&[9]), 3, set(&[]), 12);
    let (have, want) = (set(&[5, 4]), set(&[0]));
    let skip = EdgeSet::new();
    let mut searcher = Searcher::new(1, &have, 3, &want, &graph, &skip);
    searcher.set_queue_in();
    assert!(searcher.search_forward().is_none());
    let forward = searcher.frontier(Direction::Forward);
    // The edge whose requirement is not active gets no state.
    assert_eq!(forward.created(), 2);
    let state = forward.state(1);
    assert_eq!(state.edge(), 1);
    assert_eq!(state.parent(), Some(0));
    assert_eq!((state.cost(), state.var_consumed(), state.var_added()), (7, 1, 1));
    assert_eq!(state.variations().to_vec(), vec![4, 7, 8]);
    // The state that was expanded is recorded under what was active before
    // its edge.
    let visits = forward.visits(0);
    assert_eq!(visits.len(), 1);
    assert_eq!(visits[0].state(), 0);
    assert_eq!(visits[0].variations().to_vec(), vec![4, 5]);
    assert!(forward.visits(1).is_empty());
}
