//! The search as a mathematical machine.
//!
//! A search keeps, for each direction, the states it has created, a queue of
//! those not yet looked at, and a record of those it has expanded. One step
//! takes the least state off one queue and either drops it, finds a chain, or
//! expands it. The functions here say what each step does; the executable
//! search is proved to follow them.

use crate::edge::{edge_order, int_order, then_order, EdgeView, Key};
use crate::graph::{exit_key, positions, Direction};
use crate::variations::{set_order, Variant};
use vstd::prelude::*;

verus! {

/// What a search is asked: the edges, the keys and variations to lead from
/// and to, and the edges that it must not use.
pub ghost struct Query {
    pub edges: Seq<EdgeView>,
    pub key_in: Key,
    pub variations_in: Set<Variant>,
    pub key_out: Key,
    pub variations_out: Set<Variant>,
    pub excluded: Set<EdgeView>,
}

impl Query {
    /// The key at which a walk in direction `dir` starts.
    pub open spec fn start_key(self, dir: Direction) -> Key {
        match dir {
            Direction::Forward => self.key_in,
            Direction::Backward => self.key_out,
        }
    }

    /// The key at which a walk in direction `dir` is to arrive.
    pub open spec fn goal_key(self, dir: Direction) -> Key {
        self.start_key(dir.opposite())
    }

    /// The variations with which a walk in direction `dir` starts.
    pub open spec fn seed(self, dir: Direction) -> Set<Variant> {
        match dir {
            Direction::Forward => self.variations_in,
            Direction::Backward => self.variations_out,
        }
    }
}

/// The variations that a walk in direction `dir` hands to the edge: what the
/// edge requires when walked forward, what it provides when walked backward.
pub open spec fn takes(dir: Direction, e: EdgeView) -> Set<Variant> {
    match dir {
        Direction::Forward => e.variations_in,
        Direction::Backward => e.variations_out,
    }
}

/// The variations that a walk in direction `dir` gets from the edge.
pub open spec fn gives(dir: Direction, e: EdgeView) -> Set<Variant> {
    takes(dir.opposite(), e)
}

/// The variations that are active after a walk in direction `dir` has taken
/// the edge with `w` active before it.
pub open spec fn advance(dir: Direction, w: Set<Variant>, e: EdgeView) -> Set<Variant> {
    w.difference(takes(dir, e)).union(gives(dir, e))
}

/// A state of the search: the last edge of a partial chain, the variations
/// active after it, what the chain has cost so far, how many variations this
/// edge has consumed and how many it has added, and the state of the chain
/// before this edge.
pub ghost struct StateView {
    pub cost: nat,
    pub var_consumed: nat,
    pub var_added: nat,
    pub variations: Set<Variant>,
    pub edge: usize,
    pub parent: Option<usize>,
}

/// A record that a state was expanded: the variations that were active
/// before its edge, and the state.
pub ghost struct VisitView {
    pub variations: Set<Variant>,
    pub state: usize,
}

/// What a search holds for one direction.
pub ghost struct FrontierView {
    /// Every state created so far; states name each other by position.
    pub states: Seq<StateView>,
    /// The states not yet looked at.
    pub queue: Seq<usize>,
    /// For each edge, by its position, the states with that edge that were
    /// expanded, in the order in which their variations were first recorded.
    pub visited: Seq<Seq<VisitView>>,
}

/// What a search holds.
pub ghost struct SearchView {
    pub forward: FrontierView,
    pub backward: FrontierView,
}

impl SearchView {
    /// What the search holds for direction `dir`.
    pub open spec fn side(self, dir: Direction) -> FrontierView {
        match dir {
            Direction::Forward => self.forward,
            Direction::Backward => self.backward,
        }
    }

    /// The search with `f` in place of what it holds for direction `dir`.
    pub open spec fn with_side(self, dir: Direction, f: FrontierView) -> SearchView {
        match dir {
            Direction::Forward => SearchView { forward: f, backward: self.backward },
            Direction::Backward => SearchView { forward: self.forward, backward: f },
        }
    }
}

/// The search before anything was queued.
pub open spec fn blank(q: Query) -> SearchView {
    let f = FrontierView {
        states: Seq::empty(),
        queue: Seq::empty(),
        visited: Seq::new(q.edges.len(), |i: int| Seq::empty()),
    };
    SearchView { forward: f, backward: f }
}

/// The variations active before the edge of a state with this parent: the
/// seed where it has none.
pub open spec fn incoming(
    q: Query,
    dir: Direction,
    states: Seq<StateView>,
    parent: Option<usize>,
) -> Set<Variant> {
    match parent {
        None => q.seed(dir),
        Some(p) => states[p as int].variations,
    }
}

/// The state that takes edge `e` after `parent`.
pub open spec fn extend(
    q: Query,
    dir: Direction,
    states: Seq<StateView>,
    parent: Option<usize>,
    e: usize,
) -> StateView {
    let w = incoming(q, dir, states, parent);
    let edge = q.edges[e as int];
    let consumed = w.intersect(takes(dir, edge)).len();
    let added = gives(dir, edge).len();
    match parent {
        None => StateView {
            cost: edge.cost as nat,
            var_consumed: consumed,
            var_added: added,
            variations: advance(dir, w, edge),
            edge: e,
            parent,
        },
        Some(p) => StateView {
            cost: states[p as int].cost + edge.cost as nat,
            var_consumed: consumed,
            var_added: added,
            variations: advance(dir, w, edge),
            edge: e,
            parent,
        },
    }
}

/// Whether `list` records a state that had `w` active before its edge.
pub open spec fn seen(list: Seq<VisitView>, w: Set<Variant>) -> bool {
    exists|j: int| 0 <= j < list.len() && (#[trigger] list[j]).variations == w
}

/// Whether edge `e` may follow `parent`. A forward walk takes an edge only
/// where what it requires is active; a backward walk takes any. No walk takes
/// an edge after a state if the edge was already expanded with the same
/// variations before it.
pub open spec fn admits(
    q: Query,
    dir: Direction,
    f: FrontierView,
    parent: Option<usize>,
    e: usize,
) -> bool {
    let w = incoming(q, dir, f.states, parent);
    &&& dir == Direction::Forward ==> takes(dir, q.edges[e as int]).subset_of(w)
    &&& parent is Some ==> !seen(f.visited[e as int], w)
}

/// The key at which the edges that may follow `parent` are entered.
pub open spec fn next_key(
    q: Query,
    dir: Direction,
    states: Seq<StateView>,
    parent: Option<usize>,
) -> Key {
    match parent {
        None => q.start_key(dir),
        Some(p) => exit_key(dir, q.edges[states[p as int].edge as int]),
    }
}

/// The frontier with one new state queued for each of the edges of `list`
/// that may follow `parent`.
pub open spec fn grow(
    q: Query,
    dir: Direction,
    f: FrontierView,
    parent: Option<usize>,
    list: Seq<usize>,
) -> FrontierView {
    let taken = list.filter(|e: usize| admits(q, dir, f, parent, e));
    FrontierView {
        states: f.states + taken.map_values(|e: usize| extend(q, dir, f.states, parent, e)),
        queue: f.queue + Seq::new(taken.len(), |j: int| (f.states.len() + j) as usize),
        visited: f.visited,
    }
}

/// The frontier with one new state queued for each edge that may follow
/// `parent`.
pub open spec fn expand(q: Query, dir: Direction, f: FrontierView, parent: Option<usize>) -> FrontierView {
    grow(q, dir, f, parent, positions(q.edges, dir, next_key(q, dir, f.states, parent)))
}

/// The search with the first states of both directions queued.
pub open spec fn with_roots(q: Query, m: SearchView) -> SearchView {
    SearchView {
        forward: expand(q, Direction::Forward, m.forward, None),
        backward: expand(q, Direction::Backward, m.backward, None),
    }
}

/// The search as it starts: nothing recorded, and the first states of both
/// directions queued.
pub open spec fn seeded(q: Query) -> SearchView {
    with_roots(q, blank(q))
}

/// The order in which states leave a queue: by cost, the cheaper first; then
/// by what the last edge consumed and by what it added, the greater first;
/// then by the active variations, by the edge, and by the parents, a state
/// without parent first.
pub open spec fn state_order(edges: Seq<EdgeView>, states: Seq<StateView>, a: usize, b: usize) -> int
    decreases a,
{
    let x = states[a as int];
    let y = states[b as int];
    then_order(
        int_order(x.cost as int, y.cost as int),
        then_order(
            int_order(y.var_consumed as int, x.var_consumed as int),
            then_order(
                int_order(y.var_added as int, x.var_added as int),
                then_order(
                    set_order(x.variations, y.variations),
                    then_order(
                        edge_order(edges[x.edge as int], edges[y.edge as int]),
                        match (x.parent, y.parent) {
                            (None, None) => 0,
                            (None, Some(_)) => -1,
                            (Some(_), None) => 1,
                            (Some(p), Some(r)) => if p < a {
                                state_order(edges, states, p, r)
                            } else {
                                0
                            },
                        },
                    ),
                ),
            ),
        ),
    )
}

/// Whether position `k` of the queue holds the state that leaves it next:
/// the first of those that no other state precedes.
pub open spec fn is_least(
    edges: Seq<EdgeView>,
    states: Seq<StateView>,
    queue: Seq<usize>,
    k: int,
) -> bool {
    &&& 0 <= k < queue.len()
    &&& forall|j: int|
        0 <= j < queue.len() ==> state_order(edges, states, queue[k], #[trigger] queue[j]) <= 0
    &&& forall|j: int| 0 <= j < k ==> state_order(edges, states, queue[k], #[trigger] queue[j]) < 0
}

/// The position in the queue of the state that leaves it next.
pub open spec fn least(edges: Seq<EdgeView>, states: Seq<StateView>, queue: Seq<usize>) -> int {
    choose|k: int| is_least(edges, states, queue, k)
}

/// The positions of the edges of the chain that ends in state `i`, first
/// edge taken first.
pub open spec fn chain(states: Seq<StateView>, i: usize) -> Seq<usize>
    decreases i,
{
    match states[i as int].parent {
        Some(p) => if p < i {
            chain(states, p).push(states[i as int].edge)
        } else {
            seq![states[i as int].edge]
        },
        None => seq![states[i as int].edge],
    }
}

/// The edges at the given positions.
pub open spec fn edges_at(q: Query, at: Seq<usize>) -> Seq<EdgeView> {
    at.map_values(|e: usize| q.edges[e as int])
}

/// Whether state `s` of direction `dir` completes a chain by itself: its
/// edge arrives at the wanted key and, walking forward, every wanted
/// variation is active, or, walking backward, every variation still required
/// is among those one has.
pub open spec fn is_goal(q: Query, dir: Direction, s: StateView) -> bool {
    &&& exit_key(dir, q.edges[s.edge as int]) == q.goal_key(dir)
    &&& match dir {
        Direction::Forward => q.variations_out.subset_of(s.variations),
        Direction::Backward => s.variations.subset_of(q.variations_in),
    }
}

/// The chain of a state that completes a chain by itself, from the key one
/// has to the key one wants.
pub open spec fn route(dir: Direction, states: Seq<StateView>, s: usize) -> Seq<usize> {
    match dir {
        Direction::Forward => chain(states, s),
        Direction::Backward => chain(states, s).reverse(),
    }
}

/// Whether forward state `x` and backward state `y`, which have the same
/// edge, make a chain together: what the backward walk still requires
/// before that edge is active before it in the forward walk.
pub open spec fn meets(q: Query, m: SearchView, x: usize, y: usize) -> bool {
    m.backward.states[y as int].variations.subset_of(
        incoming(q, Direction::Forward, m.forward.states, m.forward.states[x as int].parent),
    )
}

/// The chain made of the forward chain before the edge of `x` and the
/// backward chain from the edge of `y` on.
pub open spec fn splice(m: SearchView, x: usize, y: usize) -> Seq<usize> {
    chain(m.forward.states, x).drop_last() + chain(m.backward.states, y).reverse()
}

/// Whether state `s` of direction `dir` meets the state recorded at position
/// `j` of `list`, a list of states of the other direction.
pub open spec fn meets_at(
    q: Query,
    m: SearchView,
    dir: Direction,
    s: usize,
    list: Seq<VisitView>,
    j: int,
) -> bool {
    match dir {
        Direction::Forward => meets(q, m, s, list[j].state),
        Direction::Backward => meets(q, m, list[j].state, s),
    }
}

/// Whether position `j` is the first of `list` at which state `s` meets the
/// recorded state.
pub open spec fn is_first_meeting(
    q: Query,
    m: SearchView,
    dir: Direction,
    s: usize,
    list: Seq<VisitView>,
    j: int,
) -> bool {
    &&& 0 <= j < list.len()
    &&& meets_at(q, m, dir, s, list, j)
    &&& forall|i: int| 0 <= i < j ==> !meets_at(q, m, dir, s, list, i)
}

/// The first position of `list` at which state `s` meets the recorded state,
/// if there is one.
pub open spec fn first_meeting(
    q: Query,
    m: SearchView,
    dir: Direction,
    s: usize,
    list: Seq<VisitView>,
) -> Option<int> {
    if exists|j: int| is_first_meeting(q, m, dir, s, list, j) {
        Some(choose|j: int| is_first_meeting(q, m, dir, s, list, j))
    } else {
        None
    }
}

/// The chain that state `s` of direction `dir` makes with state `t` of the
/// other direction.
pub open spec fn joined(m: SearchView, dir: Direction, s: usize, t: usize) -> Seq<usize> {
    match dir {
        Direction::Forward => splice(m, s, t),
        Direction::Backward => splice(m, t, s),
    }
}

/// Whether position `j` is the first of `list` that records variations `w`.
pub open spec fn is_slot(list: Seq<VisitView>, w: Set<Variant>, j: int) -> bool {
    &&& 0 <= j < list.len()
    &&& list[j].variations == w
    &&& forall|i: int| 0 <= i < j ==> (#[trigger] list[i]).variations != w
}

/// The list with state `s` recorded under variations `w`: in place of the
/// state recorded under `w` before, or else at the end.
pub open spec fn record(list: Seq<VisitView>, w: Set<Variant>, s: usize) -> Seq<VisitView> {
    let visit = VisitView { variations: w, state: s };
    if exists|j: int| is_slot(list, w, j) {
        list.update(choose|j: int| is_slot(list, w, j), visit)
    } else {
        list.push(visit)
    }
}

/// Recording a state changes one place of the list or adds one at its end.
pub proof fn lemma_record(list: Seq<VisitView>, w: Set<Variant>, s: usize)
    ensures
        list.len() <= record(list, w, s).len() <= list.len() + 1,
        forall|j: int|
            0 <= j < record(list, w, s).len() ==> {
                ||| (#[trigger] record(list, w, s)[j]) == (VisitView { variations: w, state: s })
                ||| (j < list.len() && record(list, w, s)[j] == list[j])
            },
        seen(record(list, w, s), w),
{
    let visit = VisitView { variations: w, state: s };
    let after = record(list, w, s);
    if exists|j: int| is_slot(list, w, j) {
        let c = choose|j: int| is_slot(list, w, j);
        assert(after[c].variations == w);
    } else {
        assert(after[list.len() as int].variations == w);
    }
}

/// The two frontiers as one search, `this` being the one of direction `dir`.
pub open spec fn paired(dir: Direction, this: FrontierView, other: FrontierView) -> SearchView {
    match dir {
        Direction::Forward => SearchView { forward: this, backward: other },
        Direction::Backward => SearchView { forward: other, backward: this },
    }
}

/// The frontier after the state at position `k` of the queue was taken off
/// and recorded as expanded.
pub open spec fn marked(q: Query, dir: Direction, f: FrontierView, k: int) -> FrontierView {
    let s = f.queue[k];
    let st = f.states[s as int];
    FrontierView {
        states: f.states,
        queue: f.queue.remove(k),
        visited: f.visited.update(
            st.edge as int,
            record(f.visited[st.edge as int], incoming(q, dir, f.states, st.parent), s),
        ),
    }
}

/// The frontier after the state at position `k` of the queue was taken off
/// and expanded.
pub open spec fn stepped(q: Query, dir: Direction, f: FrontierView, k: int) -> FrontierView {
    expand(q, dir, marked(q, dir, f, k), Some(f.queue[k]))
}

/// What a step gives: the search after it, and the chain if it found one.
pub ghost struct Outcome {
    pub next: SearchView,
    pub found: Option<Seq<EdgeView>>,
}

/// One step in direction `dir`, whose queue is not empty. The least state
/// leaves the queue. If its edge is excluded, nothing else happens. If it
/// completes a chain by itself, or with a state that the other direction has
/// expanded with the same edge, that chain is found. Otherwise the state is
/// recorded as expanded and the states that may follow it are queued.
pub open spec fn step(q: Query, dir: Direction, m: SearchView) -> Outcome {
    let f = m.side(dir);
    let k = least(q.edges, f.states, f.queue);
    let s = f.queue[k];
    let state = f.states[s as int];
    let popped = FrontierView { states: f.states, queue: f.queue.remove(k), visited: f.visited };
    let others = m.side(dir.opposite()).visited[state.edge as int];
    if q.excluded.contains(q.edges[state.edge as int]) {
        Outcome { next: m.with_side(dir, popped), found: None }
    } else if is_goal(q, dir, state) {
        Outcome {
            next: m.with_side(dir, popped),
            found: Some(edges_at(q, route(dir, f.states, s))),
        }
    } else if let Some(j) = first_meeting(q, m, dir, s, others) {
        Outcome {
            next: m.with_side(dir, popped),
            found: Some(edges_at(q, joined(m, dir, s, others[j].state))),
        }
    } else {
        Outcome { next: m.with_side(dir, stepped(q, dir, f, k)), found: None }
    }
}

/// The direction of the next step: forward where the forward queue is not
/// empty and is shorter than the backward queue or the backward queue is
/// empty; else backward where the backward queue is not empty; else none.
pub open spec fn turn(m: SearchView) -> Option<Direction> {
    if m.forward.queue.len() > 0 && (m.forward.queue.len() < m.backward.queue.len()
        || m.backward.queue.len() == 0) {
        Some(Direction::Forward)
    } else if m.backward.queue.len() > 0 {
        Some(Direction::Backward)
    } else {
        None
    }
}

/// The search after up to `n` steps from `m`: it stops before that where a
/// step finds a chain or both queues are empty.
pub open spec fn run(q: Query, m: SearchView, n: nat) -> Outcome
    decreases n,
{
    if n == 0 {
        Outcome { next: m, found: None }
    } else {
        match turn(m) {
            None => Outcome { next: m, found: None },
            Some(dir) => {
                let o = step(q, dir, m);
                if o.found is Some {
                    o
                } else {
                    run(q, o.next, (n - 1) as nat)
                }
            },
        }
    }
}

/// The outcome after one more step, unless the search has ended.
pub open spec fn proceed(q: Query, o: Outcome) -> Outcome {
    if o.found is Some {
        o
    } else {
        match turn(o.next) {
            None => o,
            Some(dir) => step(q, dir, o.next),
        }
    }
}

/// A search of `n + 1` steps is a search of `n` steps and one more.
pub proof fn lemma_run_proceed(q: Query, m: SearchView, n: nat)
    ensures
        run(q, m, n + 1) == proceed(q, run(q, m, n)),
        run(q, m, 0) == (Outcome { next: m, found: None }),
    decreases n,
{
    reveal_with_fuel(run, 2);
    match turn(m) {
        None => {},
        Some(dir) => {
            let o = step(q, dir, m);
            if o.found is None {
                assert(o == (Outcome { next: o.next, found: None }));
                if n > 0 {
                    lemma_run_proceed(q, o.next, (n - 1) as nat);
                    assert(run(q, m, n + 1) == run(q, o.next, n));
                    assert(run(q, m, n) == run(q, o.next, (n - 1) as nat));
                }
            }
        },
    }
}

/// Whether the search from `m` ends within `n` steps with `found`: with a
/// chain, or with both queues empty and none.
pub open spec fn ends_with(q: Query, m: SearchView, n: nat, found: Option<Seq<EdgeView>>) -> bool {
    let o = run(q, m, n);
    &&& o.found == found
    &&& found is None ==> turn(o.next) is None
}

/// Whether a step in direction `dir` finds a chain that the state it takes
/// off the queue completes by itself.
pub open spec fn by_itself(q: Query, dir: Direction, m: SearchView) -> bool {
    let f = m.side(dir);
    let state = f.states[f.queue[least(q.edges, f.states, f.queue)] as int];
    !q.excluded.contains(q.edges[state.edge as int]) && is_goal(q, dir, state)
}

/// Whether the search from `m` finds, within `n` steps, a chain that one
/// state completes by itself.
pub open spec fn run_by_itself(q: Query, m: SearchView, n: nat) -> bool
    decreases n,
{
    if n == 0 {
        false
    } else {
        match turn(m) {
            None => false,
            Some(dir) => {
                let o = step(q, dir, m);
                if o.found is Some {
                    by_itself(q, dir, m)
                } else {
                    run_by_itself(q, o.next, (n - 1) as nat)
                }
            },
        }
    }
}

/// Whether the search from `m` finds a chain that one state completes by
/// itself, rather than one that is made where the two directions meet.
pub open spec fn ends_by_itself(q: Query, m: SearchView) -> bool {
    exists|n: nat| run_by_itself(q, m, n)
}

/// How a search of `n + 1` steps finds its chain is how a search of `n`
/// steps and one more finds it.
pub proof fn lemma_run_by_itself_proceed(q: Query, m: SearchView, n: nat)
    ensures
        run_by_itself(q, m, n + 1) == if run(q, m, n).found is Some {
            run_by_itself(q, m, n)
        } else {
            match turn(run(q, m, n).next) {
                None => false,
                Some(dir) => step(q, dir, run(q, m, n).next).found is Some && by_itself(
                    q,
                    dir,
                    run(q, m, n).next,
                ),
            }
        },
        !run_by_itself(q, m, 0),
        run_by_itself(q, m, n) ==> run(q, m, n).found is Some,
    decreases n,
{
    reveal_with_fuel(run, 2);
    reveal_with_fuel(run_by_itself, 2);
    match turn(m) {
        None => {},
        Some(dir) => {
            let o = step(q, dir, m);
            if o.found is None {
                if n > 0 {
                    lemma_run_by_itself_proceed(q, o.next, (n - 1) as nat);
                    assert(run(q, m, n + 1) == run(q, o.next, n));
                    assert(run(q, m, n) == run(q, o.next, (n - 1) as nat));
                    assert(run_by_itself(q, m, n + 1) == run_by_itself(q, o.next, n));
                    assert(run_by_itself(q, m, n) == run_by_itself(q, o.next, (n - 1) as nat));
                }
            }
        },
    }
}

/// How a search finds its chain does not depend on how many steps it was
/// given.
pub proof fn lemma_by_itself_settles(q: Query, m: SearchView, n1: nat, n2: nat)
    requires
        run(q, m, n1).found is Some,
        run(q, m, n2).found is Some,
    ensures
        run_by_itself(q, m, n1) == run_by_itself(q, m, n2),
    decreases n1,
{
    if n1 > 0 && n2 > 0 {
        match turn(m) {
            None => {},
            Some(dir) => {
                let o = step(q, dir, m);
                if o.found is None {
                    lemma_by_itself_settles(q, o.next, (n1 - 1) as nat, (n2 - 1) as nat);
                }
            },
        }
    }
}

/// A search that finds a chain that one state completes by itself has found
/// it so within any number of steps within which it finds a chain.
pub proof fn lemma_ends_by_itself(q: Query, m: SearchView, n: nat)
    requires
        run(q, m, n).found is Some,
        ends_by_itself(q, m),
    ensures
        run_by_itself(q, m, n),
{
    let other = choose|other: nat| run_by_itself(q, m, other);
    lemma_run_by_itself_proceed(q, m, other);
    lemma_by_itself_settles(q, m, other, n);
}

/// Whether the search for `q` ends with `found`.
pub open spec fn finds(q: Query, found: Option<Seq<EdgeView>>) -> bool {
    exists|n: nat| ends_with(q, seeded(q), n, found)
}

/// What the search for `q` finds: the chain with which it ends, or nothing
/// where it ends with both queues empty.
pub open spec fn search_result(q: Query) -> Option<Seq<EdgeView>> {
    choose|found: Option<Seq<EdgeView>>| finds(q, found)
}

/// A search finds one thing only: what it ends with is its result.
pub proof fn lemma_search_result(q: Query, n: nat, found: Option<Seq<EdgeView>>)
    requires
        ends_with(q, seeded(q), n, found),
    ensures
        search_result(q) == found,
{
    let chosen = search_result(q);
    assert(finds(q, found));
    assert(finds(q, chosen));
    let k = choose|k: nat| ends_with(q, seeded(q), k, chosen);
    lemma_run_settles(q, seeded(q), n, k, found, chosen);
}

/// What a search from `m` ends with does not depend on how many steps it
/// was given.
pub proof fn lemma_run_settles(
    q: Query,
    m: SearchView,
    n1: nat,
    n2: nat,
    found1: Option<Seq<EdgeView>>,
    found2: Option<Seq<EdgeView>>,
)
    requires
        ends_with(q, m, n1, found1),
        ends_with(q, m, n2, found2),
    ensures
        found1 == found2,
    decreases n1,
{
    if n1 > 0 && n2 > 0 {
        match turn(m) {
            None => {},
            Some(dir) => {
                let o = step(q, dir, m);
                if o.found is None {
                    lemma_run_settles(q, o.next, (n1 - 1) as nat, (n2 - 1) as nat, found1, found2);
                }
            },
        }
    }
}

} // verus!
