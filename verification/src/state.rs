//! States of a search and what a search holds of them for one direction.

use crate::edge::{Cost, EdgeView};
use crate::graph::Graph;
use crate::model::{
    chain, is_least, is_slot, least, record, seen, state_order, FrontierView, StateView, VisitView,
};
use crate::order::{lemma_least_unique, lemma_state_order_flip, lemma_state_order_trans, linked};
use crate::variations::Variations;
use vstd::prelude::*;

verus! {

/// The most that one edge can cost.
pub const COST_MAX: u128 = 0x7fff_ffff;

/// The most variations that one edge can consume or add.
pub const SIZE_MAX: u128 = 0xffff_ffff_ffff_ffff;

/// Whether the edges are such that a search can hold them: there are no more
/// than can be counted, and each has a cost and variation sets of a size
/// that can be counted.
pub open spec fn countable(edges: Seq<EdgeView>) -> bool {
    &&& edges.len() <= usize::MAX
    &&& forall|i: int|
        0 <= i < edges.len() ==> {
            &&& 0 <= (#[trigger] edges[i]).cost <= COST_MAX
            &&& edges[i].variations_in.finite()
            &&& edges[i].variations_out.finite()
            &&& edges[i].variations_in.len() <= SIZE_MAX
            &&& edges[i].variations_out.len() <= SIZE_MAX
        }
}

/// Whether what a search holds for one direction hangs together: states name
/// edges and earlier states, the queue and the records name states, no
/// state has cost more than its place allows, and none has consumed or added
/// more with its edge than one edge can.
pub open spec fn valid(edges: Seq<EdgeView>, f: FrontierView) -> bool {
    &&& f.visited.len() == edges.len()
    &&& f.queue.len() <= f.states.len() <= usize::MAX
    &&& linked(f.states)
    &&& forall|i: int|
        0 <= i < f.states.len() ==> {
            &&& (#[trigger] f.states[i]).edge < edges.len()
            &&& f.states[i].cost <= (i + 1) * COST_MAX
            &&& f.states[i].var_consumed <= SIZE_MAX
            &&& f.states[i].var_added <= SIZE_MAX
        }
    &&& forall|k: int| 0 <= k < f.queue.len() ==> (#[trigger] f.queue[k]) < f.states.len()
    &&& forall|e: int, j: int|
        0 <= e < f.visited.len() && 0 <= j < f.visited[e].len() ==> (
        #[trigger] f.visited[e][j]).state < f.states.len()
}

/// The chain of a state names edges of the graph, and at least one.
pub proof fn lemma_chain_within(edges: Seq<EdgeView>, f: FrontierView, s: usize)
    requires
        valid(edges, f),
        s < f.states.len(),
    ensures
        chain(f.states, s).len() > 0,
        chain(f.states, s).last() == f.states[s as int].edge,
        forall|i: int|
            0 <= i < chain(f.states, s).len() ==> (#[trigger] chain(f.states, s)[i]) < edges.len(),
    decreases s,
{
    match f.states[s as int].parent {
        Some(p) => {
            lemma_chain_within(edges, f, p);
        },
        None => {},
    }
}

/// A state of a search.
pub struct State {
    cost: u128,
    var_consumed: usize,
    var_added: usize,
    variations: Variations,
    edge: usize,
    parent: Option<usize>,
}

impl View for State {
    type V = StateView;

    closed spec fn view(&self) -> StateView {
        StateView {
            cost: self.cost as nat,
            var_consumed: self.var_consumed as nat,
            var_added: self.var_added as nat,
            variations: self.variations@,
            edge: self.edge,
            parent: self.parent,
        }
    }
}

impl State {
    /// The representation invariant: the variations are well formed.
    pub closed spec fn wf(&self) -> bool {
        self.variations.wf()
    }

    /// The state that takes the edge at position `edge`, which costs `cost`,
    /// after the state `parent`, given with its position, or as the first
    /// edge of a chain. Its cost is that of the edge and of the chain before
    /// it. The edge consumes `var_consumed` variations and adds `var_added`:
    /// these two count for this edge only. `variations` are active after
    /// it.
    pub fn new(
        var_consumed: usize,
        var_added: usize,
        edge: usize,
        cost: Cost,
        parent: Option<(usize, &State)>,
        variations: Variations,
    ) -> (r: State)
        requires
            cost >= 0,
            variations.wf(),
            parent matches Some((_, p)) ==> p@.cost + cost <= u128::MAX,
        ensures
            r.wf(),
            r@ == match parent {
                None => StateView {
                    cost: cost as nat,
                    var_consumed: var_consumed as nat,
                    var_added: var_added as nat,
                    variations: variations@,
                    edge,
                    parent: None,
                },
                Some((at, p)) => StateView {
                    cost: p@.cost + cost as nat,
                    var_consumed: var_consumed as nat,
                    var_added: var_added as nat,
                    variations: variations@,
                    edge,
                    parent: Some(at),
                },
            },
    {
        match parent {
            None => State {
                cost: cost as u128,
                var_consumed,
                var_added,
                variations,
                edge,
                parent: None,
            },
            Some((at, p)) => State {
                cost: p.cost + cost as u128,
                var_consumed,
                var_added,
                variations,
                edge,
                parent: Some(at),
            },
        }
    }
}

impl State {
    /// What the chain that ends in this state costs.
    pub fn cost(&self) -> (r: u128)
        ensures
            r == self@.cost,
    {
        self.cost
    }

    /// How many variations the edge of this state has consumed.
    pub fn var_consumed(&self) -> (r: usize)
        ensures
            r == self@.var_consumed,
    {
        self.var_consumed
    }

    /// How many variations the edge of this state has added.
    pub fn var_added(&self) -> (r: usize)
        ensures
            r == self@.var_added,
    {
        self.var_added
    }

    /// The variations that are active after the edge of this state.
    pub fn variations(&self) -> (r: &Variations)
        ensures
            r@ == self@.variations,
            self.wf() ==> r.wf(),
    {
        &self.variations
    }

    /// The position of the edge of this state.
    pub fn edge(&self) -> (r: usize)
        ensures
            r == self@.edge,
    {
        self.edge
    }

    /// The position of the state before this one, if there is one.
    pub fn parent(&self) -> (r: Option<usize>)
        ensures
            r == self@.parent,
    {
        self.parent
    }
}

/// A record that a state was expanded.
pub struct Visit {
    variations: Variations,
    state: usize,
}

impl View for Visit {
    type V = VisitView;

    closed spec fn view(&self) -> VisitView {
        VisitView { variations: self.variations@, state: self.state }
    }
}

impl Visit {
    /// The representation invariant: the variations are well formed.
    pub closed spec fn wf(&self) -> bool {
        self.variations.wf()
    }

    /// The variations that were active before the edge of the state.
    pub fn variations(&self) -> (r: &Variations)
        ensures
            r@ == self@.variations,
            self.wf() ==> r.wf(),
    {
        &self.variations
    }

    /// The position of the state.
    pub fn state(&self) -> (r: usize)
        ensures
            r == self@.state,
    {
        self.state
    }
}

/// The views of the records of a list.
pub open spec fn visit_views(list: Seq<Visit>) -> Seq<VisitView> {
    list.map_values(|v: Visit| v@)
}

/// What a search holds for one direction.
pub struct Frontier {
    states: Vec<State>,
    queue: Vec<usize>,
    visited: Vec<Vec<Visit>>,
}

impl View for Frontier {
    type V = FrontierView;

    closed spec fn view(&self) -> FrontierView {
        FrontierView {
            states: self.states@.map_values(|s: State| s@),
            queue: self.queue@,
            visited: self.visited@.map_values(|list: Vec<Visit>| visit_views(list@)),
        }
    }
}

impl Frontier {
    /// The representation invariant: the variations of every state and of
    /// every record are well formed.
    pub closed spec fn wf(&self) -> bool {
        &&& forall|i: int| 0 <= i < self.states.len() ==> (#[trigger] self.states[i]).wf()
        &&& forall|e: int, j: int|
            0 <= e < self.visited.len() && 0 <= j < self.visited[e].len() ==> (
            #[trigger] self.visited[e][j]).wf()
    }

    /// A frontier without states, for a graph of `edges` edges.
    pub fn new(edges: usize) -> (r: Frontier)
        ensures
            r.wf(),
            r@ == (FrontierView {
                states: Seq::empty(),
                queue: Seq::empty(),
                visited: Seq::new(edges as nat, |i: int| Seq::empty()),
            }),
    {
        let mut visited: Vec<Vec<Visit>> = Vec::new();
        let mut i: usize = 0;
        while i < edges
            invariant
                i <= edges,
                visited.len() == i,
                forall|e: int| 0 <= e < i ==> (#[trigger] visited[e]).len() == 0,
            decreases edges - i,
        {
            visited.push(Vec::new());
            i += 1;
        }
        let r = Frontier { states: Vec::new(), queue: Vec::new(), visited };
        proof {
            assert(r@.states =~= Seq::empty());
            assert(r@.queue =~= Seq::empty());
            assert forall|e: int| 0 <= e < edges implies #[trigger] r@.visited[e] == Seq::<
                VisitView,
            >::empty() by {
                assert(visit_views(r.visited[e]@) =~= Seq::empty());
            }
            assert(r@.visited =~= Seq::new(edges as nat, |i: int| Seq::empty()));
        }
        r
    }

    /// What follows from the representation about the view: the states and
    /// the queue can be counted.
    pub proof fn lemma_counted(&self)
        ensures
            self@.states.len() <= usize::MAX,
            self@.queue.len() <= usize::MAX,
            self@.visited.len() <= usize::MAX,
    {
        assert(self.states@.len() == self.states.len());
        assert(self.queue@.len() == self.queue.len());
        assert(self.visited@.len() == self.visited.len());
    }

    /// The number of states created so far.
    pub fn created(&self) -> (r: usize)
        ensures
            r == self@.states.len(),
    {
        self.states.len()
    }

    /// The number of states in the queue.
    pub fn queued(&self) -> (r: usize)
        ensures
            r == self@.queue.len(),
    {
        self.queue.len()
    }

    /// Orders the states at positions `a` and `b`: -1 where `a` leaves a
    /// queue first, 1 where `b` does, 0 where neither does.
    fn order(&self, graph: &Graph, a: usize, b: usize) -> (r: i8)
        requires
            self.wf(),
            graph.wf(),
            valid(graph@, self@),
            a < self@.states.len(),
            b < self@.states.len(),
        ensures
            r == state_order(graph@, self@.states, a, b),
    {
        let mut x = a;
        let mut y = b;
        loop
            invariant
                self.wf(),
                graph.wf(),
                valid(graph@, self@),
                x < self@.states.len(),
                y < self@.states.len(),
                state_order(graph@, self@.states, a, b) == state_order(graph@, self@.states, x, y),
            decreases x,
        {
            let s = &self.states[x];
            let t = &self.states[y];
            assert(self@.states[x as int] == s@);
            assert(self@.states[y as int] == t@);
            if s.cost < t.cost {
                return -1;
            }
            if s.cost > t.cost {
                return 1;
            }
            if s.var_consumed > t.var_consumed {
                return -1;
            }
            if s.var_consumed < t.var_consumed {
                return 1;
            }
            if s.var_added > t.var_added {
                return -1;
            }
            if s.var_added < t.var_added {
                return 1;
            }
            let by_variations = s.variations.order(&t.variations);
            if by_variations != 0 {
                return by_variations;
            }
            let by_edge = graph.edge(s.edge).order(graph.edge(t.edge));
            if by_edge != 0 {
                return by_edge;
            }
            match (s.parent, t.parent) {
                (None, None) => {
                    return 0;
                },
                (None, Some(_)) => {
                    return -1;
                },
                (Some(_), None) => {
                    return 1;
                },
                (Some(p), Some(r)) => {
                    x = p;
                    y = r;
                },
            }
        }
    }

    /// Takes the least state off the queue, if the queue is not empty.
    pub fn pop(&mut self, graph: &Graph) -> (r: Option<usize>)
        requires
            old(self).wf(),
            graph.wf(),
            valid(graph@, old(self)@),
        ensures
            final(self).wf(),
            valid(graph@, final(self)@),
            match r {
                None => old(self)@.queue.len() == 0 && final(self)@ == old(self)@,
                Some(s) => {
                    let k = least(graph@, old(self)@.states, old(self)@.queue);
                    &&& old(self)@.queue.len() > 0
                    &&& is_least(graph@, old(self)@.states, old(self)@.queue, k)
                    &&& s == old(self)@.queue[k]
                    &&& final(self)@ == (FrontierView {
                        states: old(self)@.states,
                        queue: old(self)@.queue.remove(k),
                        visited: old(self)@.visited,
                    })
                },
            },
    {
        if self.queue.len() == 0 {
            return None;
        }
        let mut best: usize = 0;
        let mut j: usize = 1;
        proof {
            lemma_state_order_flip(graph@, self@.states, self.queue@[0], self.queue@[0]);
        }
        while j < self.queue.len()
            invariant
                self.wf(),
                graph.wf(),
                valid(graph@, self@),
                self == old(self),
                0 <= best < j <= self.queue.len(),
                forall|i: int|
                    0 <= i < j ==> state_order(
                        graph@,
                        self@.states,
                        self.queue@[best as int],
                        #[trigger] self.queue@[i],
                    ) <= 0,
                forall|i: int|
                    0 <= i < best ==> state_order(
                        graph@,
                        self@.states,
                        self.queue@[best as int],
                        #[trigger] self.queue@[i],
                    ) < 0,
            decreases self.queue.len() - j,
        {
            let c = self.order(graph, self.queue[j], self.queue[best]);
            proof {
                let states = self@.states;
                let qj = self.queue@[j as int];
                let qb = self.queue@[best as int];
                lemma_state_order_flip(graph@, states, qj, qb);
                lemma_state_order_flip(graph@, states, qj, qj);
                if c < 0 {
                    assert forall|i: int| 0 <= i < j implies state_order(
                        graph@,
                        states,
                        qj,
                        #[trigger] self.queue@[i],
                    ) < 0 by {
                        lemma_state_order_trans(graph@, states, qj, qb, self.queue@[i]);
                    }
                }
            }
            if c < 0 {
                best = j;
            }
            j += 1;
        }
        let ghost before = self@;
        proof {
            assert(is_least(graph@, before.states, before.queue, best as int));
            lemma_least_unique(graph@, before.states, before.queue, best as int);
        }
        let s = self.queue.remove(best);
        proof {
            assert(self@.states == before.states);
            assert(self@.visited == before.visited);
            before.queue.remove_ensures(best as int);
        }
        Some(s)
    }

    /// The state at position `s`.
    pub fn state(&self, s: usize) -> (r: &State)
        requires
            self.wf(),
            s < self@.states.len(),
        ensures
            r@ == self@.states[s as int],
            r.wf(),
    {
        &self.states[s]
    }

    /// The records of the states with the edge at position `edge`.
    pub fn visits(&self, edge: usize) -> (r: &Vec<Visit>)
        requires
            self.wf(),
            edge < self@.visited.len(),
        ensures
            visit_views(r@) == self@.visited[edge as int],
            forall|j: int| 0 <= j < r.len() ==> (#[trigger] r[j]).wf(),
    {
        let r = &self.visited[edge];
        assert forall|j: int| 0 <= j < r.len() implies (#[trigger] r[j]).wf() by {
            assert(self.visited[edge as int][j].wf());
        }
        r
    }

    /// Whether a state was expanded that has the edge at position `edge`
    /// and had `w` active before it.
    pub fn seen(&self, edge: usize, w: &Variations) -> (r: bool)
        requires
            self.wf(),
            w.wf(),
            edge < self@.visited.len(),
        ensures
            r == seen(self@.visited[edge as int], w@),
    {
        let list = self.visits(edge);
        let mut j: usize = 0;
        while j < list.len()
            invariant
                j <= list.len(),
                w.wf(),
                edge < self@.visited.len(),
                visit_views(list@) == self@.visited[edge as int],
                forall|i: int| 0 <= i < list.len() ==> (#[trigger] list[i]).wf(),
                forall|i: int| 0 <= i < j ==> (#[trigger] visit_views(list@)[i]).variations != w@,
            decreases list.len() - j,
        {
            if list[j].variations.equals(w) {
                assert(visit_views(list@)[j as int].variations == w@);
                return true;
            }
            j += 1;
        }
        false
    }

    /// Records that state `s`, which has the edge at position `edge` and had
    /// `w` active before it, was expanded.
    pub fn record(&mut self, edge: usize, w: Variations, s: usize)
        requires
            old(self).wf(),
            w.wf(),
            edge < old(self)@.visited.len(),
        ensures
            final(self).wf(),
            final(self)@ == (FrontierView {
                states: old(self)@.states,
                queue: old(self)@.queue,
                visited: old(self)@.visited.update(
                    edge as int,
                    record(old(self)@.visited[edge as int], w@, s),
                ),
            }),
    {
        let ghost before = self@;
        let ghost list = before.visited[edge as int];
        let n = self.visited[edge].len();
        assert(visit_views(self.visited[edge as int]@) == list);
        let mut j: usize = 0;
        while j < n
            invariant
                j <= n,
                n == list.len(),
                self == old(self),
                self.wf(),
                w.wf(),
                edge < self.visited.len(),
                list == visit_views(self.visited[edge as int]@),
                forall|i: int| 0 <= i < j ==> (#[trigger] list[i]).variations != w@,
            ensures
                j < n ==> list[j as int].variations == w@,
            decreases n - j,
        {
            assert(self.visited[edge as int][j as int].wf());
            if self.visited[edge][j].variations.equals(&w) {
                break ;
            }
            assert(list[j as int].variations != w@);
            j += 1;
        }
        let ghost at = j as int;
        let visit = Visit { variations: w, state: s };
        let ghost rows = self.visited@;
        if j < n {
            assert(is_slot(list, w@, at));
            assert forall|c: int| is_slot(list, w@, c) implies c == at by {
                if c < at {
                    assert(list[c].variations != w@);
                } else if at < c {
                    assert(list[at].variations != w@);
                }
            }
            self.visited[edge].set(j, visit);
            proof {
                assert(visit_views(self.visited[edge as int]@) =~= list.update(at, visit@));
            }
        } else {
            assert forall|c: int| !is_slot(list, w@, c) by {
                if 0 <= c < list.len() {
                    assert(list[c].variations != w@);
                }
            }
            self.visited[edge].push(visit);
            proof {
                assert(visit_views(self.visited[edge as int]@) =~= list.push(visit@));
            }
        }
        proof {
            assert(self@.states == before.states);
            assert(self@.queue == before.queue);
            assert forall|e: int| 0 <= e < rows.len() && e != edge implies self.visited@[e]
                == rows[e] by {}
            assert(self@.visited =~= before.visited.update(edge as int, record(list, w@, s)));
            assert forall|e: int, i: int|
                0 <= e < self.visited.len() && 0 <= i < self.visited[e].len() implies (
            #[trigger] self.visited[e][i]).wf() by {
                if e != edge {
                    assert(self.visited[e] == old(self).visited[e]);
                    assert(old(self).visited[e][i].wf());
                } else if i < n && i != at {
                    assert(old(self).visited[e][i].wf());
                }
            }
        }
    }

    /// Adds a state, and puts it in the queue.
    pub fn push(&mut self, state: State)
        requires
            old(self).wf(),
            state.wf(),
        ensures
            final(self).wf(),
            final(self)@ == (FrontierView {
                states: old(self)@.states.push(state@),
                queue: old(self)@.queue.push(old(self)@.states.len() as usize),
                visited: old(self)@.visited,
            }),
    {
        let at = self.states.len();
        let ghost before = self@;
        self.states.push(state);
        self.queue.push(at);
        proof {
            assert(self@.states =~= before.states.push(state@));
            assert(self@.visited == before.visited);
        }
    }

    /// The positions of the edges of the chain that ends in state `s`, last
    /// edge taken first.
    pub fn trail(&self, s: usize) -> (r: Vec<usize>)
        requires
            self.wf(),
            linked(self@.states),
            s < self@.states.len(),
        ensures
            r@ == chain(self@.states, s).reverse(),
            r.len() > 0,
    {
        let mut out: Vec<usize> = Vec::new();
        let mut at = s;
        let ghost states = self@.states;
        assert(out@.reverse() =~= Seq::<usize>::empty());
        assert(chain(states, s) =~= chain(states, at) + out@.reverse());
        loop
            invariant_except_break
                chain(states, s) == chain(states, at) + out@.reverse(),
            invariant
                self.wf(),
                states == self@.states,
                linked(states),
                at < states.len(),
            ensures
                chain(states, s) == out@.reverse(),
                out.len() > 0,
            decreases at,
        {
            let state = &self.states[at];
            assert(state@ == states[at as int]);
            let ghost shorter = out@;
            out.push(state.edge);
            assert(out@.reverse() =~= seq![state.edge] + shorter.reverse());
            match state.parent {
                Some(p) => {
                    assert(chain(states, at) == chain(states, p).push(state.edge));
                    assert(chain(states, p).push(state.edge) + shorter.reverse() =~= chain(
                        states,
                        p,
                    ) + out@.reverse());
                    at = p;
                },
                None => {
                    assert(chain(states, at) == seq![state.edge]);
                    break ;
                },
            }
        }
        assert(out@ =~= out@.reverse().reverse());
        out
    }
}

/// The items of `v` in reverse order.
pub fn reversed(v: &Vec<usize>) -> (r: Vec<usize>)
    ensures
        r@ == v@.reverse(),
{
    let mut out: Vec<usize> = Vec::new();
    let mut i: usize = v.len();
    while i > 0
        invariant
            i <= v.len(),
            out.len() == v.len() - i,
            forall|k: int| 0 <= k < out.len() ==> out@[k] == v@[v.len() - 1 - k],
        decreases i,
    {
        i -= 1;
        out.push(v[i]);
    }
    assert(out@ =~= v@.reverse());
    out
}

} // verus!
