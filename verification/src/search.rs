//! The search for a chain of edges, from both ends at once.

use crate::cheapest::{
    complete, is_cheapest, lemma_alone_is_cheapest, lemma_drop_complete, lemma_expand_complete,
    lemma_no_plan_is_left, lemma_seed_complete, thorough, unmarked,
};
use crate::edge::{edge_views, Edge, EdgeSet, EdgeView, Key};
use crate::ending::{
    finite, lemma_drop_nearer, lemma_expand_nearer, lemma_grow_tidy, lemma_record_tidy, lemma_room,
    nearer, room, stale, tidy,
};
use crate::graph::{exit_key, lemma_positions, positions, Direction, Graph};
use crate::model::{
    admits, blank, by_itself, chain, edges_at, ends_by_itself, ends_with, expand, extend,
    first_meeting, grow, incoming, is_first_meeting, is_goal, joined, least, lemma_ends_by_itself,
    lemma_run_by_itself_proceed, lemma_run_proceed, meets, meets_at, next_key, paired, record,
    route, run, splice, step, takes, turn, with_roots, FrontierView, Outcome, Query, SearchView,
};
use crate::order::linked;
use crate::plan::is_plan;
use crate::sound::{
    lemma_goal_plan, lemma_grow_ok, lemma_meeting_plan, lemma_record_ok, search_ok, side_ok,
    visit_ok,
};
use crate::state::{
    countable, lemma_chain_within, reversed, valid, visit_views, Frontier, State, COST_MAX,
    SIZE_MAX,
};
use crate::variations::Variations;
use vstd::prelude::*;

verus! {

/// What a search is asked.
#[derive(Clone, Copy)]
struct Request<'a> {
    graph: &'a Graph,
    key_in: Key,
    variations_in: &'a Variations,
    key_out: Key,
    variations_out: &'a Variations,
    skip_edges: &'a EdgeSet,
}

impl<'a> View for Request<'a> {
    type V = Query;

    closed spec fn view(&self) -> Query {
        Query {
            edges: self.graph@,
            key_in: self.key_in,
            variations_in: self.variations_in@,
            key_out: self.key_out,
            variations_out: self.variations_out@,
            excluded: self.skip_edges@,
        }
    }
}

impl<'a> Request<'a> {
    /// The representation invariant: the graph, both variation sets and the
    /// set of excluded edges are well formed.
    spec fn wf(&self) -> bool {
        &&& self.graph.wf()
        &&& self.variations_in.wf()
        &&& self.variations_out.wf()
        &&& self.skip_edges.wf()
    }

    /// What a well-formed request asks is finite, and its edges can be
    /// counted.
    proof fn lemma_countable(&self)
        requires
            self.wf(),
        ensures
            countable(self@.edges),
            finite(self@),
    {
        self.graph.lemma_countable();
        self.variations_in.lemma_wf();
        self.variations_out.lemma_wf();
    }

    /// The key at which a walk in direction `dir` starts.
    fn start_key(&self, dir: Direction) -> (r: Key)
        ensures
            r == self@.start_key(dir),
    {
        match dir {
            Direction::Forward => self.key_in,
            Direction::Backward => self.key_out,
        }
    }

    /// The variations with which a walk in direction `dir` starts.
    fn seed(&self, dir: Direction) -> (r: &'a Variations)
        requires
            self.wf(),
        ensures
            r@ == self@.seed(dir),
            r.wf(),
    {
        match dir {
            Direction::Forward => self.variations_in,
            Direction::Backward => self.variations_out,
        }
    }
}

/// The variations that a walk in direction `dir` hands to the edge.
fn taken<'a>(dir: Direction, edge: &'a Edge) -> (r: &'a Variations)
    requires
        edge.wf(),
    ensures
        r@ == takes(dir, edge@),
        r.wf(),
{
    match dir {
        Direction::Forward => edge.variations_in(),
        Direction::Backward => edge.variations_out(),
    }
}

/// The key at which a walk in direction `dir` leaves the edge.
fn exit_of(dir: Direction, edge: &Edge) -> (r: Key)
    ensures
        r == exit_key(dir, edge@),
{
    match dir {
        Direction::Forward => edge.key_out(),
        Direction::Backward => edge.key_in(),
    }
}

/// Growing by one more edge either queues one more state or changes nothing.
proof fn lemma_grow_push(
    q: Query,
    dir: Direction,
    f: FrontierView,
    parent: Option<usize>,
    list: Seq<usize>,
    e: usize,
)
    ensures
        grow(q, dir, f, parent, list.push(e)) == if admits(q, dir, f, parent, e) {
            let g = grow(q, dir, f, parent, list);
            FrontierView {
                states: g.states.push(extend(q, dir, f.states, parent, e)),
                queue: g.queue.push(g.states.len() as usize),
                visited: g.visited,
            }
        } else {
            grow(q, dir, f, parent, list)
        },
        grow(q, dir, f, parent, Seq::empty()) == f,
        grow(q, dir, f, parent, list).states.len() - grow(q, dir, f, parent, list).queue.len()
            == f.states.len() - f.queue.len(),
{
    let pred = |e: usize| admits(q, dir, f, parent, e);
    let make = |e: usize| extend(q, dir, f.states, parent, e);
    list.lemma_filter_push(e, pred);
    let before = list.filter(pred);
    let g = grow(q, dir, f, parent, list);
    let h = grow(q, dir, f, parent, list.push(e));
    if admits(q, dir, f, parent, e) {
        assert(before.push(e).map_values(make) =~= before.map_values(make).push(make(e)));
        assert(h.states =~= g.states.push(make(e)));
        assert(h.queue =~= g.queue.push(g.states.len() as usize));
    }
    reveal(Seq::filter);
    let none = Seq::<usize>::empty();
    assert(none.filter(pred) =~= none);
    let z = grow(q, dir, f, parent, none);
    assert(z.states =~= f.states);
    assert(z.queue =~= f.queue);
}

/// Queues one new state for each edge that may follow `parent`.
fn expand_from(f: &mut Frontier, ask: &Request, dir: Direction, parent: Option<usize>)
    requires
        old(f).wf(),
        ask.wf(),
        side_ok(ask@, dir, old(f)@),
        tidy(ask@, old(f)@),
        parent matches Some(p) ==> p < old(f)@.states.len() && !ask@.excluded.contains(
            ask@.edges[old(f)@.states[p as int].edge as int],
        ),
    ensures
        final(f).wf(),
        side_ok(ask@, dir, final(f)@),
        tidy(ask@, final(f)@),
        final(f)@ == expand(ask@, dir, old(f)@, parent),
        parent is None && unmarked(old(f)@) ==> complete(ask@, dir, final(f)@),
{
    let ghost q = ask@;
    let ghost start = f@;
    let graph = ask.graph;
    proof {
        ask.lemma_countable();
        lemma_grow_push(q, dir, start, parent, Seq::empty(), 0);
    }
    let key = match parent {
        None => ask.start_key(dir),
        Some(p) => exit_of(dir, graph.edge(f.state(p).edge())),
    };
    assert(key == next_key(q, dir, start.states, parent));
    let w = match parent {
        None => ask.seed(dir).clone(),
        Some(p) => f.state(p).variations().clone(),
    };
    assert(w@ == incoming(q, dir, start.states, parent));
    let list = match graph.edges_at(dir, key) {
        None => {
            proof {
                if parent is None && unmarked(start) {
                    lemma_seed_complete(q, dir, start);
                }
            }
            return ;
        },
        Some(list) => list,
    };
    proof {
        lemma_positions(q.edges, dir, key);
    }
    let mut k: usize = 0;
    assert(list@.take(0) =~= Seq::empty());
    while k < list.len()
        invariant
            k <= list.len(),
            f.wf(),
            ask.wf(),
            w.wf(),
            q == ask@,
            graph == ask.graph,
            countable(q.edges),
            side_ok(q, dir, start),
            valid(q.edges, f@),
            parent matches Some(p) ==> p < start.states.len(),
            w@ == incoming(q, dir, start.states, parent),
            list@ == positions(q.edges, dir, key),
            forall|j: int| 0 <= j < list.len() ==> (#[trigger] list@[j]) < q.edges.len(),
            f@ == grow(q, dir, start, parent, list@.take(k as int)),
        decreases list.len() - k,
    {
        let e = list[k];
        let edge = graph.edge(e);
        proof {
            assert(list@.take(k + 1) =~= list@.take(k as int).push(e));
            lemma_grow_push(q, dir, start, parent, list@.take(k as int), e);
            f.lemma_counted();
            edge.lemma_wf();
        }
        let feasible = match dir {
            Direction::Forward => taken(dir, edge).is_subset(&w),
            Direction::Backward => true,
        };
        let fresh = match parent {
            None => true,
            Some(_) => !f.seen(e, &w),
        };
        if feasible && fresh {
            assert(admits(q, dir, start, parent, e));
            let consumed = w.intersection_count(taken(dir, edge));
            let added = taken(dir.flip(), edge).len();
            let after = w.difference(taken(dir, edge)).union(taken(dir.flip(), edge));
            let ghost at = f@.states.len();
            let state = match parent {
                None => State::new(consumed, added, e, edge.cost(), None, after),
                Some(p) => {
                    assert(f@.states[p as int] == start.states[p as int]);
                    assert(f@.states[p as int].cost <= (p + 1) * COST_MAX);
                    State::new(consumed, added, e, edge.cost(), Some((p, f.state(p))), after)
                },
            };
            assert(state@ == extend(q, dir, start.states, parent, e));
            f.push(state);
            proof {
                f.lemma_counted();
                let g = f@;
                assert forall|i: int| 0 <= i < g.states.len() implies {
                    &&& (#[trigger] g.states[i]).edge < q.edges.len()
                    &&& g.states[i].cost <= (i + 1) * COST_MAX
                    &&& g.states[i].var_consumed <= SIZE_MAX
                    &&& g.states[i].var_added <= SIZE_MAX
                    &&& (g.states[i].parent matches Some(p) ==> p < i)
                } by {
                    if i == at {
                        if let Some(p) = parent {
                            assert(g.states[p as int] == start.states[p as int]);
                            assert(start.states[p as int].cost <= (p + 1) * COST_MAX);
                        }
                    }
                }
            }
        } else {
            assert(!admits(q, dir, start, parent, e));
        }
        k += 1;
    }
    assert(list@.take(list.len() as int) =~= list@);
    proof {
        lemma_grow_ok(q, dir, start, parent, list@);
        lemma_grow_tidy(q, dir, start, parent, list@);
        if parent is None && unmarked(start) {
            lemma_seed_complete(q, dir, start);
        }
    }
}

/// The chain made of the forward chain before the edge of state `x` and the
/// backward chain from the edge of state `y` on.
fn spliced(forward: &Frontier, x: usize, backward: &Frontier, y: usize) -> (r: Vec<usize>)
    requires
        forward.wf(),
        backward.wf(),
        linked(forward@.states),
        linked(backward@.states),
        x < forward@.states.len(),
        y < backward@.states.len(),
    ensures
        r@ == splice(SearchView { forward: forward@, backward: backward@ }, x, y),
{
    let mut head = reversed(&forward.trail(x));
    assert(head@ =~= chain(forward@.states, x)) by {
        let c = chain(forward@.states, x);
        assert(c.reverse().reverse() =~= c);
    }
    head.pop();
    let mut tail = backward.trail(y);
    head.append(&mut tail);
    assert(head@ =~= chain(forward@.states, x).drop_last() + chain(backward@.states, y).reverse());
    head
}

/// Whether state `s` of direction `dir` meets state `t` of the other
/// direction.
fn meeting(f: &Frontier, other: &Frontier, ask: &Request, dir: Direction, s: usize, t: usize) -> (r:
    bool)
    requires
        f.wf(),
        other.wf(),
        ask.wf(),
        valid(ask@.edges, f@),
        valid(ask@.edges, other@),
        s < f@.states.len(),
        t < other@.states.len(),
    ensures
        r == match dir {
            Direction::Forward => meets(ask@, paired(dir, f@, other@), s, t),
            Direction::Backward => meets(ask@, paired(dir, f@, other@), t, s),
        },
{
    let (forward, x, backward, y) = match dir {
        Direction::Forward => (f, s, other, t),
        Direction::Backward => (other, t, f, s),
    };
    let before = match forward.state(x).parent() {
        None => ask.variations_in,
        Some(p) => forward.state(p).variations(),
    };
    backward.state(y).variations().is_subset(before)
}

/// One step in direction `dir`: see `step`. Where the queue is empty,
/// nothing happens. A chain that is found is given by the positions of its
/// edges.
fn step_in(f: &mut Frontier, other: &Frontier, ask: &Request, dir: Direction) -> (r: Option<
    Vec<usize>,
>)
    requires
        old(f).wf(),
        other.wf(),
        ask.wf(),
        side_ok(ask@, dir, old(f)@),
        side_ok(ask@, dir.opposite(), other@),
        tidy(ask@, old(f)@),
    ensures
        final(f).wf(),
        side_ok(ask@, dir, final(f)@),
        tidy(ask@, final(f)@),
        r is None && old(f)@.queue.len() > 0 ==> nearer(ask@, dir, old(f)@, final(f)@),
        r matches Some(c) ==> is_plan(ask@, edges_at(ask@, c@)),
        r is None && complete(ask@, dir, old(f)@) ==> complete(ask@, dir, final(f)@),
        r matches Some(c) ==> (complete(ask@, dir, old(f)@) && by_itself(
            ask@,
            dir,
            paired(dir, old(f)@, other@),
        ) ==> is_cheapest(ask@, edges_at(ask@, c@))),
        old(f)@.queue.len() == 0 ==> r is None && final(f)@ == old(f)@,
        old(f)@.queue.len() > 0 ==> ({
            let o = step(ask@, dir, paired(dir, old(f)@, other@));
            &&& o.next == paired(dir, final(f)@, other@)
            &&& match r {
                Some(c) => o.found == Some(edges_at(ask@, c@)) && forall|i: int|
                    0 <= i < c.len() ==> (#[trigger] c@[i]) < ask@.edges.len(),
                None => o.found is None,
            }
        }),
{
    let ghost q = ask@;
    let ghost m = paired(dir, f@, other@);
    let ghost start = f@;
    let graph = ask.graph;
    proof {
        ask.lemma_countable();
        assert(m.side(dir) == start);
        assert(m.side(dir.opposite()) == other@);
    }
    let s = match f.pop(graph) {
        None => {
            return None;
        },
        Some(s) => s,
    };
    let ghost popped = f@;
    let ghost k = least(q.edges, start.states, start.queue);
    proof {
        lemma_drop_nearer(q, dir, start, k);
    }
    assert(start.queue.remove(k).len() == start.queue.len() - 1) by {
        start.queue.remove_ensures(k);
    }
    assert(m.with_side(dir, popped) == paired(dir, popped, other@));
    let e = f.state(s).edge();
    let edge = graph.edge(e);
    if ask.skip_edges.contains(edge) {
        proof {
            if complete(q, dir, start) {
                lemma_drop_complete(q, dir, start, k);
            }
        }
        return None;
    }
    let reached = exit_of(dir, edge) == ask.start_key(dir.flip()) && match dir {
        Direction::Forward => f.state(s).variations().is_superset(ask.variations_out),
        Direction::Backward => f.state(s).variations().is_subset(ask.variations_in),
    };
    assert(reached == is_goal(q, dir, start.states[s as int]));
    if reached {
        let trail = f.trail(s);
        proof {
            lemma_chain_within(q.edges, start, s);
            let c = chain(start.states, s);
            assert(c.reverse().reverse() =~= c);
        }
        let found = match dir {
            Direction::Forward => reversed(&trail),
            Direction::Backward => trail,
        };
        assert(found@ == route(dir, start.states, s));
        proof {
            lemma_goal_plan(q, dir, start, s);
            if complete(q, dir, start) {
                lemma_alone_is_cheapest(q, dir, start, k);
            }
        }
        return Some(found);
    }
    let others = other.visits(e);
    let ghost list = other@.visited[e as int];
    let mut j: usize = 0;
    while j < others.len()
        invariant
            j <= others.len(),
            f.wf(),
            other.wf(),
            ask.wf(),
            q == ask@,
            f@ == popped,
            popped.states == start.states,
            m == paired(dir, start, other@),
            countable(q.edges),
            0 <= k < start.queue.len(),
            side_ok(q, dir, f@),
            side_ok(q, dir.opposite(), other@),
            side_ok(q, dir, start),
            tidy(q, f@),
            tidy(q, start),
            finite(q),
            s < start.states.len(),
            e < q.edges.len(),
            list == other@.visited[e as int],
            list == visit_views(others@),
            start == old(f)@,
            start.queue.len() > 0,
            k == least(q.edges, start.states, start.queue),
            s == start.queue[k],
            e == start.states[s as int].edge,
            popped == (FrontierView {
                states: start.states,
                queue: start.queue.remove(k),
                visited: start.visited,
            }),
            start.queue.remove(k).len() == start.queue.len() - 1,
            !q.excluded.contains(q.edges[e as int]),
            !is_goal(q, dir, start.states[s as int]),
            forall|i: int| 0 <= i < j ==> !meets_at(q, m, dir, s, list, i),
        decreases others.len() - j,
    {
        let t = others[j].state();
        assert(list[j as int] == others@[j as int]@);
        assert(other@.visited[e as int][j as int].state < other@.states.len());
        assert(visit_ok(q, dir.opposite(), other@.states, other@.visited, e as int, j as int));
        let hit = meeting(f, other, ask, dir, s, t);
        assert(hit == meets_at(q, m, dir, s, list, j as int)) by {
            assert(paired(dir, f@, other@).forward.states == m.forward.states);
            assert(paired(dir, f@, other@).backward.states == m.backward.states);
        }
        if hit {
            proof {
                assert(is_first_meeting(q, m, dir, s, list, j as int));
                let c = choose|c: int| is_first_meeting(q, m, dir, s, list, c);
                assert(c == j);
                lemma_chain_within(q.edges, start, s);
                lemma_chain_within(q.edges, other@, t);
            }
            let found = match dir {
                Direction::Forward => spliced(f, s, other, t),
                Direction::Backward => spliced(other, t, f, s),
            };
            assert(found@ == joined(m, dir, s, t)) by {
                match dir {
                    Direction::Forward => {
                        assert(m.forward.states == f@.states);
                        assert(m.backward.states == other@.states);
                    },
                    Direction::Backward => {
                        assert(m.backward.states == f@.states);
                        assert(m.forward.states == other@.states);
                    },
                }
            }
            proof {
                match dir {
                    Direction::Forward => {
                        lemma_meeting_plan(q, m, s, t);
                    },
                    Direction::Backward => {
                        lemma_meeting_plan(q, m, t, s);
                    },
                }
            }
            return Some(found);
        }
        j += 1;
    }
    assert(first_meeting(q, m, dir, s, list) is None);
    let w = match f.state(s).parent() {
        None => ask.seed(dir).clone(),
        Some(p) => f.state(p).variations().clone(),
    };
    assert(w@ == incoming(q, dir, start.states, start.states[s as int].parent));
    f.record(e, w, s);
    proof {
        lemma_record_ok(q, dir, popped, s);
        lemma_record_tidy(q, popped, e as int, w@, s);
    }
    expand_from(f, ask, dir, Some(s));
    assert(m.with_side(dir, f@) == paired(dir, f@, other@));
    proof {
        lemma_expand_nearer(q, dir, start, k);
        if complete(q, dir, start) {
            lemma_expand_complete(q, dir, start, k);
        }
    }
    None
}

/// A search for a chain of edges: what it is asked, and what it holds for
/// each direction.
pub struct Searcher<'a> {
    ask: Request<'a>,
    forward: Frontier,
    backward: Frontier,
}

impl<'a> View for Searcher<'a> {
    type V = SearchView;

    closed spec fn view(&self) -> SearchView {
        SearchView { forward: self.forward@, backward: self.backward@ }
    }
}

/// The chain found, as views of its edges.
pub open spec fn found_views(r: Option<Vec<&Edge>>) -> Option<Seq<EdgeView>> {
    match r {
        Some(c) => Some(edge_views(c@)),
        None => None,
    }
}

impl<'a> Searcher<'a> {
    /// What the search is asked.
    pub closed spec fn query(&self) -> Query {
        self.ask@
    }

    /// The representation invariant: the request and both directions are
    /// well formed, and what is held for each direction hangs together.
    pub closed spec fn wf(&self) -> bool {
        &&& self.ask.wf()
        &&& self.forward.wf()
        &&& self.backward.wf()
        &&& search_ok(self.ask@, self@)
        &&& tidy(self.ask@, self.forward@)
        &&& tidy(self.ask@, self.backward@)
    }

    /// How far the search is from its end at most, in three numbers of
    /// which each counts only while those before it stay as they are: the
    /// room that is left for records, the states in the queues that are
    /// recorded already, and the states in the queues.
    pub open spec fn distance(q: Query, m: SearchView) -> (int, nat, nat) {
        (
            room(q, m.forward) + room(q, m.backward),
            stale(q, Direction::Forward, m.forward, m.forward.queue) + stale(
                q,
                Direction::Backward,
                m.backward,
                m.backward.queue,
            ),
            m.forward.queue.len() + m.backward.queue.len(),
        )
    }

    /// Whether the search with `m` is nearer to its end than with `n`.
    pub open spec fn is_nearer(q: Query, n: SearchView, m: SearchView) -> bool {
        let (a, b, c) = Self::distance(q, n);
        let (x, y, z) = Self::distance(q, m);
        &&& 0 <= room(q, m.forward)
        &&& 0 <= room(q, m.backward)
        &&& x < a || (x == a && (y < b || (y == b && z < c)))
    }

    /// A search from `key_in` with `variations_in` to `key_out` with
    /// `variations_out` over the edges of `graph`, but for those of
    /// `skip_edges`. Nothing is queued yet.
    pub fn new(
        key_in: Key,
        variations_in: &'a Variations,
        key_out: Key,
        variations_out: &'a Variations,
        graph: &'a Graph,
        skip_edges: &'a EdgeSet,
    ) -> (r: Searcher<'a>)
        requires
            graph.wf(),
            variations_in.wf(),
            variations_out.wf(),
            skip_edges.wf(),
        ensures
            r.wf(),
            r.query() == (Query {
                edges: graph@,
                key_in,
                variations_in: variations_in@,
                key_out,
                variations_out: variations_out@,
                excluded: skip_edges@,
            }),
            r@ == blank(r.query()),
    {
        let ask = Request { graph, key_in, variations_in, key_out, variations_out, skip_edges };
        let forward = Frontier::new(graph.len());
        let backward = Frontier::new(graph.len());
        proof {
            forward.lemma_counted();
            ask.lemma_countable();
        }
        Searcher { ask, forward, backward }
    }

    /// What the search holds for direction `dir`.
    pub fn frontier(&self, dir: Direction) -> (r: &Frontier)
        requires
            self.wf(),
        ensures
            r@ == self@.side(dir),
            r.wf(),
    {
        match dir {
            Direction::Forward => &self.forward,
            Direction::Backward => &self.backward,
        }
    }

    /// Queues a first state for each edge that leads from the key one has
    /// and requires no more than the variations one has.
    pub fn set_queue_in(&mut self)
        requires
            old(self).wf(),
        ensures
            final(self).wf(),
            final(self).query() == old(self).query(),
            final(self)@ == old(self)@.with_side(
                Direction::Forward,
                expand(old(self).query(), Direction::Forward, old(self)@.forward, None),
            ),
            unmarked(old(self)@.forward) ==> complete(
                old(self).query(),
                Direction::Forward,
                final(self)@.forward,
            ),
    {
        let ask = self.ask;
        expand_from(&mut self.forward, &ask, Direction::Forward, None);
    }

    /// Queues a first state for each edge that leads to the key one wants.
    pub fn set_queue_out(&mut self)
        requires
            old(self).wf(),
        ensures
            final(self).wf(),
            final(self).query() == old(self).query(),
            final(self)@ == old(self)@.with_side(
                Direction::Backward,
                expand(old(self).query(), Direction::Backward, old(self)@.backward, None),
            ),
            unmarked(old(self)@.backward) ==> complete(
                old(self).query(),
                Direction::Backward,
                final(self)@.backward,
            ),
    {
        let ask = self.ask;
        expand_from(&mut self.backward, &ask, Direction::Backward, None);
    }

    /// Queues the states that may follow the forward state at position
    /// `state`.
    pub fn add_queue_in(&mut self, state: usize)
        requires
            old(self).wf(),
            state < old(self)@.forward.states.len(),
            !old(self).query().excluded.contains(
                old(self).query().edges[old(self)@.forward.states[state as int].edge as int],
            ),
        ensures
            final(self).wf(),
            final(self).query() == old(self).query(),
            final(self)@ == old(self)@.with_side(
                Direction::Forward,
                expand(old(self).query(), Direction::Forward, old(self)@.forward, Some(state)),
            ),
    {
        let ask = self.ask;
        expand_from(&mut self.forward, &ask, Direction::Forward, Some(state));
    }

    /// Queues the states that may follow the backward state at position
    /// `state`.
    pub fn add_queue_out(&mut self, state: usize)
        requires
            old(self).wf(),
            state < old(self)@.backward.states.len(),
            !old(self).query().excluded.contains(
                old(self).query().edges[old(self)@.backward.states[state as int].edge as int],
            ),
        ensures
            final(self).wf(),
            final(self).query() == old(self).query(),
            final(self)@ == old(self)@.with_side(
                Direction::Backward,
                expand(old(self).query(), Direction::Backward, old(self)@.backward, Some(state)),
            ),
    {
        let ask = self.ask;
        expand_from(&mut self.backward, &ask, Direction::Backward, Some(state));
    }

    /// The edges at the given positions.
    fn collect(&self, at: Vec<usize>) -> (r: Vec<&'a Edge>)
        requires
            self.wf(),
            forall|i: int| 0 <= i < at.len() ==> (#[trigger] at@[i]) < self.query().edges.len(),
        ensures
            edge_views(r@) == edges_at(self.query(), at@),
            forall|i: int| 0 <= i < r.len() ==> (#[trigger] r[i]).wf(),
    {
        let graph = self.ask.graph;
        let mut out: Vec<&'a Edge> = Vec::new();
        let mut i: usize = 0;
        while i < at.len()
            invariant
                i <= at.len(),
                out.len() == i,
                graph.wf(),
                graph@ == self.query().edges,
                forall|k: int| 0 <= k < at.len() ==> (#[trigger] at@[k]) < graph@.len(),
                forall|k: int| 0 <= k < i ==> (#[trigger] out@[k])@ == graph@[at@[k] as int],
                forall|k: int| 0 <= k < i ==> (#[trigger] out@[k]).wf(),
            decreases at.len() - i,
        {
            out.push(graph.edge(at[i]));
            i += 1;
        }
        assert(edge_views(out@) =~= edges_at(self.query(), at@));
        out
    }

    /// One step of the forward search: see `step`. Where the forward queue
    /// is empty, nothing happens.
    pub fn search_forward(&mut self) -> (r: Option<Vec<&'a Edge>>)
        requires
            old(self).wf(),
        ensures
            final(self).wf(),
            final(self).query() == old(self).query(),
            r matches Some(c) ==> is_plan(old(self).query(), edge_views(c@)),
            r matches Some(c) ==> forall|i: int| 0 <= i < c.len() ==> (#[trigger] c[i]).wf(),
            r is None && thorough(old(self).query(), old(self)@) ==> thorough(
                old(self).query(),
                final(self)@,
            ),
            r matches Some(c) ==> (thorough(old(self).query(), old(self)@) && by_itself(
                old(self).query(),
                Direction::Forward,
                old(self)@,
            ) ==> is_cheapest(old(self).query(), edge_views(c@))),
            old(self)@.forward.queue.len() == 0 ==> r is None && final(self)@ == old(self)@,
            old(self)@.forward.queue.len() > 0 ==> step(
                old(self).query(),
                Direction::Forward,
                old(self)@,
            ) == (Outcome { next: final(self)@, found: found_views(r) }),
            r is None && old(self)@.forward.queue.len() > 0 ==> Self::is_nearer(
                old(self).query(),
                old(self)@,
                final(self)@,
            ),
    {
        let ask = self.ask;
        proof {
            ask.lemma_countable();
            lemma_room(ask@, self@.backward);
        }
        match step_in(&mut self.forward, &self.backward, &ask, Direction::Forward) {
            None => None,
            Some(at) => Some(self.collect(at)),
        }
    }

    /// One step of the backward search: see `step`. Where the backward
    /// queue is empty, nothing happens.
    pub fn search_backward(&mut self) -> (r: Option<Vec<&'a Edge>>)
        requires
            old(self).wf(),
        ensures
            final(self).wf(),
            final(self).query() == old(self).query(),
            r matches Some(c) ==> is_plan(old(self).query(), edge_views(c@)),
            r matches Some(c) ==> forall|i: int| 0 <= i < c.len() ==> (#[trigger] c[i]).wf(),
            r is None && thorough(old(self).query(), old(self)@) ==> thorough(
                old(self).query(),
                final(self)@,
            ),
            r matches Some(c) ==> (thorough(old(self).query(), old(self)@) && by_itself(
                old(self).query(),
                Direction::Backward,
                old(self)@,
            ) ==> is_cheapest(old(self).query(), edge_views(c@))),
            old(self)@.backward.queue.len() == 0 ==> r is None && final(self)@ == old(self)@,
            old(self)@.backward.queue.len() > 0 ==> step(
                old(self).query(),
                Direction::Backward,
                old(self)@,
            ) == (Outcome { next: final(self)@, found: found_views(r) }),
            r is None && old(self)@.backward.queue.len() > 0 ==> Self::is_nearer(
                old(self).query(),
                old(self)@,
                final(self)@,
            ),
    {
        let ask = self.ask;
        proof {
            ask.lemma_countable();
            lemma_room(ask@, self@.forward);
        }
        match step_in(&mut self.backward, &self.forward, &ask, Direction::Backward) {
            None => None,
            Some(at) => Some(self.collect(at)),
        }
    }

    /// Queues the first states of both directions, then takes steps until a
    /// chain is found or both queues are empty. Each step is taken forward
    /// where the forward queue is not empty and is shorter than the backward
    /// queue or the backward queue is empty, else backward. Each step
    /// brings the search nearer to its end.
    ///
    /// A chain that is found is a plan. A search that started with nothing
    /// queued and recorded finds a chain whenever there is a plan; where one
    /// state completes the chain by itself, the chain costs no more than any
    /// chain that works out when all of it is walked forward.
    pub fn search(&mut self) -> (r: Option<Vec<&'a Edge>>)
        requires
            old(self).wf(),
        ensures
            final(self).wf(),
            final(self).query() == old(self).query(),
            r matches Some(c) ==> is_plan(old(self).query(), edge_views(c@)),
            r matches Some(c) ==> forall|i: int| 0 <= i < c.len() ==> (#[trigger] c[i]).wf(),
            exists|n: nat|
                ends_with(
                    old(self).query(),
                    with_roots(old(self).query(), old(self)@),
                    n,
                    found_views(r),
                ),
            r matches Some(c) ==> (old(self)@ == blank(old(self).query()) && ends_by_itself(
                old(self).query(),
                with_roots(old(self).query(), old(self)@),
            ) ==> is_cheapest(old(self).query(), edge_views(c@))),
            r is None && old(self)@ == blank(old(self).query()) ==> forall|c: Seq<EdgeView>|
                !#[trigger] is_plan(old(self).query(), c),
    {
        self.set_queue_in();
        self.set_queue_out();
        let ghost q = self.query();
        let ghost start = self@;
        let ghost mut n: nat = 0;
        let ghost fresh = old(self)@ == blank(q);
        proof {
            lemma_run_proceed(q, start, 0);
            lemma_run_by_itself_proceed(q, start, 0);
            self.ask.lemma_countable();
            lemma_room(q, self@.forward);
            lemma_room(q, self@.backward);
        }
        loop
            invariant
                self.wf(),
                self.query() == q,
                q == old(self).query(),
                start == with_roots(q, old(self)@),
                fresh == (old(self)@ == blank(q)),
                fresh ==> thorough(q, self@),
                run(q, start, n) == (Outcome { next: self@, found: None }),
                0 <= room(q, self@.forward),
                0 <= room(q, self@.backward),
            decreases Self::distance(q, self@).0, Self::distance(q, self@).1, Self::distance(
                q,
                self@,
            ).2,
        {
            let ahead = self.forward.queued();
            let behind = self.backward.queued();
            let ghost before = self@;
            proof {
                lemma_run_proceed(q, start, n);
                lemma_run_by_itself_proceed(q, start, n);
            }
            if ahead > 0 && (ahead < behind || behind == 0) {
                assert(turn(before) == Some(Direction::Forward));
                let r = self.search_forward();
                if r.is_some() {
                    assert(ends_with(q, start, n + 1, found_views(r)));
                    proof {
                        if ends_by_itself(q, start) {
                            lemma_ends_by_itself(q, start, n + 1);
                        }
                    }
                    return r;
                }
            } else if behind > 0 {
                assert(turn(before) == Some(Direction::Backward));
                let r = self.search_backward();
                if r.is_some() {
                    assert(ends_with(q, start, n + 1, found_views(r)));
                    proof {
                        if ends_by_itself(q, start) {
                            lemma_ends_by_itself(q, start, n + 1);
                        }
                    }
                    return r;
                }
            } else {
                assert(turn(before) is None);
                assert(ends_with(q, start, n, None));
                proof {
                    if fresh {
                        assert forall|c: Seq<EdgeView>| !#[trigger] is_plan(q, c) by {
                            self.ask.lemma_countable();
                            lemma_no_plan_is_left(q, self@.backward, c);
                        }
                    }
                }
                return None;
            }
            proof {
                n = n + 1;
            }
        }
    }
}

} // verus!
