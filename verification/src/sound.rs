//! Why the chains that a search finds are plans.
//!
//! Every state of a search takes an edge that may follow its parent, and
//! every state that was expanded has an edge that is not excluded. From this
//! it follows, along the parents of a state, that its chain works out in the
//! direction of its search, and that two chains that meet make a plan.

use crate::edge::EdgeView;
use crate::graph::{entry_key, Direction};
use crate::model::{
    admits, chain, edges_at, extend, grow, incoming, is_goal, lemma_record, meets, next_key, record,
    route, splice, takes, FrontierView, Query, SearchView, StateView, VisitView,
};
use crate::plan::{
    after, connected, feasible, is_plan, is_sound, leads, lemma_total_cost, lemma_total_cost_first,
    meets_after, required, total_cost,
};
use crate::state::{countable, valid};
use vstd::prelude::*;

verus! {

/// Whether state `i` is the state that takes its edge after its parent, the
/// edge may follow the parent, and the edge of the parent is not excluded.
pub open spec fn state_ok(q: Query, dir: Direction, states: Seq<StateView>, i: int) -> bool {
    let st = states[i];
    let edge = q.edges[st.edge as int];
    let w = incoming(q, dir, states, st.parent);
    &&& st == extend(q, dir, states, st.parent, st.edge)
    &&& entry_key(dir, edge) == next_key(q, dir, states, st.parent)
    &&& dir == Direction::Forward ==> takes(dir, edge).subset_of(w)
    &&& st.parent matches Some(p) ==> !q.excluded.contains(q.edges[states[p as int].edge as int])
}

/// Whether the record at position `j` under edge `e` names a state with
/// that edge, holds the variations that were active before it, and the edge
/// is not excluded.
pub open spec fn visit_ok(
    q: Query,
    dir: Direction,
    states: Seq<StateView>,
    visited: Seq<Seq<VisitView>>,
    e: int,
    j: int,
) -> bool {
    let v = visited[e][j];
    let st = states[v.state as int];
    &&& st.edge == e
    &&& v.variations == incoming(q, dir, states, st.parent)
    &&& !q.excluded.contains(q.edges[e])
}

/// Whether what a search holds for direction `dir` is as a search leaves
/// it.
pub open spec fn side_ok(q: Query, dir: Direction, f: FrontierView) -> bool {
    &&& valid(q.edges, f)
    &&& forall|i: int| 0 <= i < f.states.len() ==> #[trigger] state_ok(q, dir, f.states, i)
    &&& forall|e: int, j: int|
        0 <= e < f.visited.len() && 0 <= j < f.visited[e].len() ==> #[trigger] visit_ok(
            q,
            dir,
            f.states,
            f.visited,
            e,
            j,
        )
}

/// Whether what a search holds is as a search leaves it.
pub open spec fn search_ok(q: Query, m: SearchView) -> bool {
    &&& countable(q.edges)
    &&& side_ok(q, Direction::Forward, m.forward)
    &&& side_ok(q, Direction::Backward, m.backward)
}

/// Queueing states for edges that are entered where the parent leaves keeps
/// a frontier as a search leaves it.
pub proof fn lemma_grow_ok(
    q: Query,
    dir: Direction,
    f: FrontierView,
    parent: Option<usize>,
    list: Seq<usize>,
)
    requires
        side_ok(q, dir, f),
        valid(q.edges, grow(q, dir, f, parent, list)),
        parent matches Some(p) ==> p < f.states.len() && !q.excluded.contains(
            q.edges[f.states[p as int].edge as int],
        ),
        forall|j: int|
            0 <= j < list.len() ==> (#[trigger] list[j]) < q.edges.len() && entry_key(
                dir,
                q.edges[list[j] as int],
            ) == next_key(q, dir, f.states, parent),
    ensures
        side_ok(q, dir, grow(q, dir, f, parent, list)),
{
    let g = grow(q, dir, f, parent, list);
    let pred = |e: usize| admits(q, dir, f, parent, e);
    let taken = list.filter(pred);
    let n = f.states.len() as int;
    assert forall|i: int| 0 <= i < g.states.len() implies #[trigger] state_ok(
        q,
        dir,
        g.states,
        i,
    ) by {
        if i < n {
            assert(state_ok(q, dir, f.states, i));
            assert(g.states[i] == f.states[i]);
            if let Some(p) = f.states[i].parent {
                assert(g.states[p as int] == f.states[p as int]);
            }
        } else {
            let e = taken[i - n];
            list.lemma_filter_pred(pred, i - n);
            assert(taken.contains(e));
            list.lemma_filter_contains_rev(pred, e);
            let j = choose|j: int| 0 <= j < list.len() && list[j] == e;
            assert(list[j] < q.edges.len());
            assert(g.states[i] == extend(q, dir, f.states, parent, e));
            if let Some(p) = parent {
                assert(g.states[p as int] == f.states[p as int]);
            }
        }
    }
    assert forall|e: int, j: int|
        0 <= e < g.visited.len() && 0 <= j < g.visited[e].len() implies #[trigger] visit_ok(
        q,
        dir,
        g.states,
        g.visited,
        e,
        j,
    ) by {
        assert(visit_ok(q, dir, f.states, f.visited, e, j));
        let t = f.visited[e][j].state;
        assert(g.states[t as int] == f.states[t as int]);
        if let Some(p) = f.states[t as int].parent {
            assert(g.states[p as int] == f.states[p as int]);
        }
    }
}

/// Recording a state whose edge is not excluded keeps a frontier as a
/// search leaves it.
pub proof fn lemma_record_ok(q: Query, dir: Direction, f: FrontierView, s: usize)
    requires
        side_ok(q, dir, f),
        s < f.states.len(),
        !q.excluded.contains(q.edges[f.states[s as int].edge as int]),
    ensures
        side_ok(
            q,
            dir,
            FrontierView {
                states: f.states,
                queue: f.queue,
                visited: f.visited.update(
                    f.states[s as int].edge as int,
                    record(
                        f.visited[f.states[s as int].edge as int],
                        incoming(q, dir, f.states, f.states[s as int].parent),
                        s,
                    ),
                ),
            },
        ),
{
    let at = f.states[s as int].edge as int;
    let w = incoming(q, dir, f.states, f.states[s as int].parent);
    let list = record(f.visited[at], w, s);
    let g = FrontierView { states: f.states, queue: f.queue, visited: f.visited.update(at, list) };
    lemma_record(f.visited[at], w, s);
    assert forall|e: int, j: int|
        0 <= e < g.visited.len() && 0 <= j < g.visited[e].len() implies (
    #[trigger] g.visited[e][j]).state < g.states.len() && #[trigger] visit_ok(
        q,
        dir,
        g.states,
        g.visited,
        e,
        j,
    ) by {
        if e != at {
            assert(g.visited[e] == f.visited[e]);
            assert(visit_ok(q, dir, f.states, f.visited, e, j));
            assert(f.visited[e][j].state < f.states.len());
        } else if list[j] != (VisitView { variations: w, state: s }) {
            assert(visit_ok(q, dir, f.states, f.visited, e, j));
            assert(f.visited[e][j].state < f.states.len());
        }
    }
}

/// The chain of a forward state leads from the key one has over edges that
/// follow one another, each of which finds active what it requires, and
/// leaves active what the state has active.
pub proof fn lemma_forward_chain(q: Query, f: FrontierView, s: usize)
    requires
        countable(q.edges),
        side_ok(q, Direction::Forward, f),
        s < f.states.len(),
    ensures
        ({
            let c = edges_at(q, chain(f.states, s));
            let st = f.states[s as int];
            &&& c.len() > 0
            &&& c.last() == q.edges[st.edge as int]
            &&& c.first().key_in == q.key_in
            &&& connected(c)
            &&& feasible(q.variations_in, c)
            &&& after(q.variations_in, c) == st.variations
            &&& after(q.variations_in, c.drop_last()) == incoming(
                q,
                Direction::Forward,
                f.states,
                st.parent,
            )
            &&& total_cost(c) == st.cost
            &&& forall|i: int| 0 <= i < c.len() ==> q.edges.contains(#[trigger] c[i])
            &&& forall|i: int| 0 <= i < c.len() - 1 ==> !q.excluded.contains(#[trigger] c[i])
        }),
    decreases s,
{
    let st = f.states[s as int];
    let c = edges_at(q, chain(f.states, s));
    assert(state_ok(q, Direction::Forward, f.states, s as int));
    assert(q.edges.contains(q.edges[st.edge as int]));
    match st.parent {
        None => {
            let none = Seq::<EdgeView>::empty();
            assert(c =~= seq![q.edges[st.edge as int]]);
            assert(c.drop_last() =~= none);
            assert(after(q.variations_in, none) == q.variations_in);
            assert(feasible(q.variations_in, none));
            assert(c.last() == q.edges[st.edge as int]);
            assert(after(q.variations_in, c) == st.variations);
            assert(feasible(q.variations_in, c));
            lemma_total_cost(none, c.last());
            assert(c =~= none.push(c.last()));
        },
        Some(p) => {
            lemma_forward_chain(q, f, p);
            let d = edges_at(q, chain(f.states, p));
            assert(c =~= d.push(q.edges[st.edge as int]));
            assert(c.drop_last() =~= d);
            lemma_total_cost(d, c.last());
            assert forall|i: int| 0 < i < c.len() implies c[i - 1].key_out == (
            #[trigger] c[i]).key_in by {
                if i < d.len() {
                    assert(d[i - 1].key_out == d[i].key_in);
                }
            }
            assert forall|i: int| 0 <= i < c.len() implies q.edges.contains(#[trigger] c[i]) by {
                if i < d.len() {
                    assert(q.edges.contains(d[i]));
                }
            }
            assert forall|i: int| 0 <= i < c.len() - 1 implies !q.excluded.contains(
                #[trigger] c[i],
            ) by {
                if i < d.len() - 1 {
                    assert(!q.excluded.contains(d[i]));
                }
            }
        },
    }
}

/// The chain of a backward state, taken from its own edge on, leads to the
/// key one wants over edges that follow one another, and requires before it
/// what the state has active.
pub proof fn lemma_backward_chain(q: Query, f: FrontierView, s: usize)
    requires
        countable(q.edges),
        side_ok(q, Direction::Backward, f),
        s < f.states.len(),
    ensures
        ({
            let c = edges_at(q, chain(f.states, s).reverse());
            let st = f.states[s as int];
            &&& c.len() > 0
            &&& c.first() == q.edges[st.edge as int]
            &&& c.last().key_out == q.key_out
            &&& connected(c)
            &&& required(c, q.variations_out) == st.variations
            &&& total_cost(c) == st.cost
            &&& forall|i: int| 0 <= i < c.len() ==> q.edges.contains(#[trigger] c[i])
            &&& forall|i: int| 0 < i < c.len() ==> !q.excluded.contains(#[trigger] c[i])
        }),
    decreases s,
{
    let st = f.states[s as int];
    let c = edges_at(q, chain(f.states, s).reverse());
    assert(state_ok(q, Direction::Backward, f.states, s as int));
    assert(q.edges.contains(q.edges[st.edge as int]));
    match st.parent {
        None => {
            let none = Seq::<EdgeView>::empty();
            assert(chain(f.states, s).reverse() =~= seq![st.edge]);
            assert(c =~= seq![q.edges[st.edge as int]]);
            assert(c.drop_first() =~= none);
            assert(required(none, q.variations_out) == q.variations_out);
            assert(c.first() == q.edges[st.edge as int]);
            assert(required(c, q.variations_out) == st.variations);
            lemma_total_cost(none, c.first());
            assert(c =~= none.push(c.first()));
        },
        Some(p) => {
            lemma_backward_chain(q, f, p);
            let d = edges_at(q, chain(f.states, p).reverse());
            assert(chain(f.states, s).reverse() =~= seq![st.edge] + chain(f.states, p).reverse());
            assert(c =~= seq![q.edges[st.edge as int]] + d);
            assert(c.drop_first() =~= d);
            lemma_total_cost_first(c);
            assert forall|i: int| 0 < i < c.len() implies c[i - 1].key_out == (
            #[trigger] c[i]).key_in by {
                if i > 1 {
                    assert(d[i - 1 - 1].key_out == d[i - 1].key_in);
                }
            }
            assert forall|i: int| 0 <= i < c.len() implies q.edges.contains(#[trigger] c[i]) by {
                if i > 0 {
                    assert(q.edges.contains(d[i - 1]));
                }
            }
            assert forall|i: int| 0 < i < c.len() implies !q.excluded.contains(#[trigger] c[i]) by {
                if i > 1 {
                    assert(!q.excluded.contains(d[i - 1]));
                }
            }
        },
    }
}

/// The chain of a state that completes a chain by itself, and whose edge is
/// not excluded, is a plan, and costs what the state has as its cost. Where
/// the state is a forward state, the chain works out when all of it is
/// walked forward.
pub proof fn lemma_goal_plan(q: Query, dir: Direction, f: FrontierView, s: usize)
    requires
        countable(q.edges),
        side_ok(q, dir, f),
        s < f.states.len(),
        is_goal(q, dir, f.states[s as int]),
        !q.excluded.contains(q.edges[f.states[s as int].edge as int]),
    ensures
        is_plan(q, edges_at(q, route(dir, f.states, s))),
        total_cost(edges_at(q, route(dir, f.states, s))) == f.states[s as int].cost,
        dir == Direction::Forward ==> is_sound(q, edges_at(q, route(dir, f.states, s))),
{
    let c = edges_at(q, route(dir, f.states, s));
    match dir {
        Direction::Forward => {
            lemma_forward_chain(q, f, s);
            assert(c.take(c.len() as int) =~= c);
            assert(c.skip(c.len() as int) =~= Seq::empty());
            assert(meets_after(q, c, c.len() as int));
        },
        Direction::Backward => {
            lemma_backward_chain(q, f, s);
            assert(c.take(0) =~= Seq::empty());
            assert(c.skip(0) =~= c);
            assert(meets_after(q, c, 0));
        },
    }
}

/// The forward chain before the edge of a forward state and the backward
/// chain from the edge of a backward state on make a plan, where the two
/// states have the same edge, which is not excluded, and what the backward
/// state has active is active before that edge in the forward chain.
pub proof fn lemma_meeting_plan(q: Query, m: SearchView, x: usize, y: usize)
    requires
        countable(q.edges),
        side_ok(q, Direction::Forward, m.forward),
        side_ok(q, Direction::Backward, m.backward),
        x < m.forward.states.len(),
        y < m.backward.states.len(),
        m.forward.states[x as int].edge == m.backward.states[y as int].edge,
        !q.excluded.contains(q.edges[m.forward.states[x as int].edge as int]),
        meets(q, m, x, y),
    ensures
        is_plan(q, edges_at(q, splice(m, x, y))),
{
    lemma_forward_chain(q, m.forward, x);
    lemma_backward_chain(q, m.backward, y);
    let cf = edges_at(q, chain(m.forward.states, x));
    let cb = edges_at(q, chain(m.backward.states, y).reverse());
    let c = edges_at(q, splice(m, x, y));
    let n = cf.len() - 1;
    assert(c =~= cf.drop_last() + cb);
    assert(c.take(n) =~= cf.drop_last());
    assert(c.skip(n) =~= cb);
    assert(feasible(q.variations_in, cf.drop_last()));
    assert(meets_after(q, c, n));
    assert forall|i: int| 0 < i < c.len() implies c[i - 1].key_out == (#[trigger] c[i]).key_in by {
        if i < n {
            assert(cf[i - 1].key_out == cf[i].key_in);
        } else if i == n {
            assert(cf[n - 1].key_out == cf[n].key_in);
        } else {
            assert(cb[i - n - 1].key_out == cb[i - n].key_in);
        }
    }
    assert forall|i: int| 0 <= i < c.len() implies q.edges.contains(#[trigger] c[i])
        && !q.excluded.contains(c[i]) by {
        if i < n {
            assert(q.edges.contains(cf[i]));
            assert(!q.excluded.contains(cf[i]));
        } else {
            assert(q.edges.contains(cb[i - n]));
            if i > n {
                assert(!q.excluded.contains(cb[i - n]));
            }
        }
    }
}

} // verus!
