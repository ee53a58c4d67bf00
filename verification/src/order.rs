//! Facts about the order in which states leave a queue.

use crate::edge::{edge_order, lemma_edge_order_flip, lemma_edge_order_trans, EdgeView};
use crate::model::{is_least, least, state_order, StateView};
use crate::variations::{lemma_seq_order_flip, lemma_seq_order_trans, listing, seq_order};
use vstd::prelude::*;

verus! {

/// Whether every state names as its parent a state created before it.
pub open spec fn linked(states: Seq<StateView>) -> bool {
    forall|i: int|
        0 <= i < states.len() ==> ((#[trigger] states[i]).parent matches Some(p) ==> p < i)
}

/// Swapping the two states negates their order.
pub proof fn lemma_state_order_flip(
    edges: Seq<EdgeView>,
    states: Seq<StateView>,
    a: usize,
    b: usize,
)
    requires
        linked(states),
        a < states.len(),
        b < states.len(),
    ensures
        state_order(edges, states, b, a) == -state_order(edges, states, a, b),
        -1 <= state_order(edges, states, a, b) <= 1,
    decreases a,
{
    let x = states[a as int];
    let y = states[b as int];
    lemma_seq_order_flip(listing(x.variations), listing(y.variations));
    lemma_edge_order_flip(edges[x.edge as int], edges[y.edge as int]);
    match (x.parent, y.parent) {
        (Some(p), Some(r)) => {
            lemma_state_order_flip(edges, states, p, r);
        },
        _ => {},
    }
}

/// The order of states is transitive, and strictly so where one of the two
/// steps is strict.
pub proof fn lemma_state_order_trans(
    edges: Seq<EdgeView>,
    states: Seq<StateView>,
    a: usize,
    b: usize,
    c: usize,
)
    requires
        linked(states),
        a < states.len(),
        b < states.len(),
        c < states.len(),
        state_order(edges, states, a, b) <= 0,
        state_order(edges, states, b, c) <= 0,
    ensures
        state_order(edges, states, a, c) <= 0,
        state_order(edges, states, a, b) < 0 || state_order(edges, states, b, c) < 0
            ==> state_order(edges, states, a, c) < 0,
    decreases a,
{
    let x = states[a as int];
    let y = states[b as int];
    let z = states[c as int];
    let (vx, vy, vz) = (listing(x.variations), listing(y.variations), listing(z.variations));
    let (ex, ey, ez) = (edges[x.edge as int], edges[y.edge as int], edges[z.edge as int]);
    lemma_seq_order_flip(vx, vy);
    lemma_seq_order_flip(vy, vz);
    lemma_seq_order_flip(vx, vz);
    lemma_edge_order_flip(ex, ey);
    lemma_edge_order_flip(ey, ez);
    lemma_edge_order_flip(ex, ez);
    if x.cost == y.cost && y.cost == z.cost && x.var_consumed == y.var_consumed && y.var_consumed
        == z.var_consumed && x.var_added == y.var_added && y.var_added == z.var_added {
        lemma_seq_order_trans(vx, vy, vz);
        if seq_order(vx, vy) == 0 && seq_order(vy, vz) == 0 {
            lemma_edge_order_trans(ex, ey, ez);
            if edge_order(ex, ey) == 0 && edge_order(ey, ez) == 0 {
                match (x.parent, y.parent, z.parent) {
                    (Some(p), Some(r), Some(t)) => {
                        lemma_state_order_flip(edges, states, p, r);
                        lemma_state_order_flip(edges, states, r, t);
                        lemma_state_order_trans(edges, states, p, r, t);
                    },
                    _ => {},
                }
            }
        }
    }
}

/// The state that leaves a queue next costs no more than any state of the
/// queue; of those that cost the same, its edge has consumed no less than
/// that of any; and of those, its edge has added no less than that of any.
pub proof fn lemma_least_is_cheapest(
    edges: Seq<EdgeView>,
    states: Seq<StateView>,
    queue: Seq<usize>,
    k: int,
)
    requires
        is_least(edges, states, queue, k),
    ensures
        forall|j: int|
            0 <= j < queue.len() ==> {
                let x = states[queue[k] as int];
                let y = states[(#[trigger] queue[j]) as int];
                &&& x.cost <= y.cost
                &&& x.cost == y.cost ==> x.var_consumed >= y.var_consumed
                &&& x.cost == y.cost && x.var_consumed == y.var_consumed ==> x.var_added
                    >= y.var_added
            },
{
    assert forall|j: int| 0 <= j < queue.len() implies {
        let x = states[queue[k] as int];
        let y = states[(#[trigger] queue[j]) as int];
        &&& x.cost <= y.cost
        &&& x.cost == y.cost ==> x.var_consumed >= y.var_consumed
        &&& x.cost == y.cost && x.var_consumed == y.var_consumed ==> x.var_added >= y.var_added
    } by {
        assert(state_order(edges, states, queue[k], queue[j]) <= 0);
    }
}

/// At most one position of a queue holds the state that leaves it next.
pub proof fn lemma_least_unique(
    edges: Seq<EdgeView>,
    states: Seq<StateView>,
    queue: Seq<usize>,
    k: int,
)
    requires
        linked(states),
        forall|j: int| 0 <= j < queue.len() ==> (#[trigger] queue[j]) < states.len(),
        is_least(edges, states, queue, k),
    ensures
        least(edges, states, queue) == k,
{
    let c = least(edges, states, queue);
    assert(is_least(edges, states, queue, c));
    if c < k {
        assert(state_order(edges, states, queue[k], queue[c]) < 0);
        assert(state_order(edges, states, queue[c], queue[k]) <= 0);
        lemma_state_order_flip(edges, states, queue[c], queue[k]);
    } else if k < c {
        assert(state_order(edges, states, queue[c], queue[k]) < 0);
        assert(state_order(edges, states, queue[k], queue[c]) <= 0);
        lemma_state_order_flip(edges, states, queue[k], queue[c]);
    }
}

} // verus!
