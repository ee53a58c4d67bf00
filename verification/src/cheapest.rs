//! Why a chain that one direction finds by itself is a cheapest one.
//!
//! A walk is a sequence of edges taken one after the other in the direction
//! of a search, none of them excluded. While a search runs, every walk has
//! its last edge recorded as expanded with the variations that are active
//! before it, or begins with a walk for which a state is queued that costs
//! no more. A state that leaves the queue therefore costs no more than any
//! walk that ends as the state does.

use crate::edge::{EdgeView, Key};
use crate::graph::{entry_key, exit_key, lemma_positions, positions, Direction};
use crate::model::{
    admits, advance, edges_at, expand, extend, grow, incoming, is_goal, is_least, lemma_record,
    marked, next_key, record, route, seen, stepped, takes, FrontierView, Query, SearchView,
    StateView, VisitView,
};
use crate::order::lemma_least_is_cheapest;
use crate::plan::{
    after, feasible, is_plan, is_sound, leads, lemma_plan_requires_what_one_has,
    lemma_required_is_active, lemma_total_cost_first, lemma_walk_split, required, total_cost,
};
use crate::sound::{lemma_goal_plan, side_ok, state_ok};
use crate::state::{countable, valid};
use crate::variations::Variant;
use vstd::prelude::*;

verus! {

/// The variations that are active after the walk.
pub open spec fn walked(q: Query, dir: Direction, p: Seq<usize>) -> Set<Variant>
    decreases p.len(),
{
    if p.len() == 0 {
        q.seed(dir)
    } else {
        advance(dir, walked(q, dir, p.drop_last()), q.edges[p.last() as int])
    }
}

/// The key at which the walk has arrived.
pub open spec fn reached(q: Query, dir: Direction, p: Seq<usize>) -> Key {
    if p.len() == 0 {
        q.start_key(dir)
    } else {
        exit_key(dir, q.edges[p.last() as int])
    }
}

/// Whether the edge at position `e` may be taken after the walk: it is
/// entered where the walk has arrived, finds active what it requires where
/// the walk goes forward, and is not excluded.
pub open spec fn may_take(q: Query, dir: Direction, p: Seq<usize>, e: usize) -> bool {
    &&& e < q.edges.len()
    &&& entry_key(dir, q.edges[e as int]) == reached(q, dir, p)
    &&& dir == Direction::Forward ==> takes(dir, q.edges[e as int]).subset_of(walked(q, dir, p))
    &&& !q.excluded.contains(q.edges[e as int])
}

/// Whether each edge of the walk may be taken after those before it.
pub open spec fn walkable(q: Query, dir: Direction, p: Seq<usize>) -> bool
    decreases p.len(),
{
    p.len() == 0 || (walkable(q, dir, p.drop_last()) && may_take(
        q,
        dir,
        p.drop_last(),
        p.last(),
    ))
}

/// What the walk costs.
pub open spec fn walk_cost(q: Query, p: Seq<usize>) -> int
    decreases p.len(),
{
    if p.len() == 0 {
        0
    } else {
        walk_cost(q, p.drop_last()) + q.edges[p.last() as int].cost
    }
}

/// Whether the walk ends with the edge at position `e`, with `w` active
/// before that edge.
pub open spec fn ends_at(q: Query, dir: Direction, p: Seq<usize>, e: usize, w: Set<Variant>) -> bool {
    &&& p.len() > 0
    &&& p.last() == e
    &&& walked(q, dir, p.drop_last()) == w
}

/// Whether state `i` has the edge at position `e`, with `w` active before
/// it.
pub open spec fn at_node(
    q: Query,
    dir: Direction,
    states: Seq<StateView>,
    i: usize,
    e: usize,
    w: Set<Variant>,
) -> bool {
    &&& states[i as int].edge == e
    &&& incoming(q, dir, states, states[i as int].parent) == w
}

/// Whether position `k` of the queue holds a state that has the edge at
/// position `e`, with `w` active before it, and costs `bound` at most.
pub open spec fn queued_at(
    q: Query,
    dir: Direction,
    f: FrontierView,
    k: int,
    e: usize,
    w: Set<Variant>,
    bound: int,
) -> bool {
    &&& 0 <= k < f.queue.len()
    &&& at_node(q, dir, f.states, f.queue[k], e, w)
    &&& f.states[f.queue[k] as int].cost <= bound
}

/// Whether the edge at position `e` with `w` active before it is taken care
/// of: it was expanded so, or a state for it that costs `bound` at most is
/// queued.
pub open spec fn covered(
    q: Query,
    dir: Direction,
    f: FrontierView,
    e: usize,
    w: Set<Variant>,
    bound: int,
) -> bool {
    seen(f.visited[e as int], w) || exists|k: int| queued_at(q, dir, f, k, e, w, bound)
}

/// Whether every walk that ends with the edge at position `e`, with `w`
/// active before that edge, costs `cost` at least.
pub open spec fn bounds_walks(q: Query, dir: Direction, e: usize, w: Set<Variant>, cost: int) -> bool {
    forall|p: Seq<usize>| #[trigger]
        walkable(q, dir, p) && ends_at(q, dir, p, e, w) ==> cost <= walk_cost(q, p)
}

/// Whether the edge at position `e` may be taken after a state.
pub open spec fn may_follow(q: Query, dir: Direction, st: StateView, e: usize) -> bool {
    &&& e < q.edges.len()
    &&& entry_key(dir, q.edges[e as int]) == exit_key(dir, q.edges[st.edge as int])
    &&& dir == Direction::Forward ==> takes(dir, q.edges[e as int]).subset_of(st.variations)
    &&& !q.excluded.contains(q.edges[e as int])
}

/// Whether every edge that may be taken after the state is taken care of.
pub open spec fn covers_next(q: Query, dir: Direction, f: FrontierView, st: StateView) -> bool {
    forall|e: usize| #[trigger]
        may_follow(q, dir, st, e) ==> covered(
            q,
            dir,
            f,
            e,
            st.variations,
            st.cost + q.edges[e as int].cost,
        )
}

/// Whether state `r` stands for the edge at position `e` expanded with `w`
/// active before it: it is such a state, completes no chain by itself,
/// costs no more than any walk that ends so, and every edge that may be
/// taken after it is taken care of.
pub open spec fn settles(
    q: Query,
    dir: Direction,
    f: FrontierView,
    r: usize,
    e: usize,
    w: Set<Variant>,
) -> bool {
    &&& r < f.states.len()
    &&& at_node(q, dir, f.states, r, e, w)
    &&& !is_goal(q, dir, f.states[r as int])
    &&& bounds_walks(q, dir, e, w, f.states[r as int].cost as int)
    &&& covers_next(q, dir, f, f.states[r as int])
}

/// Whether some state stands for the edge at position `e` expanded with `w`
/// active before it.
pub open spec fn settled(q: Query, dir: Direction, f: FrontierView, e: usize, w: Set<Variant>) -> bool {
    exists|r: usize| settles(q, dir, f, r, e, w)
}

/// Whether the search in direction `dir` has left nothing out: every edge
/// that may be taken first is taken care of, and some state stands for
/// every edge that is recorded as expanded.
pub open spec fn complete(q: Query, dir: Direction, f: FrontierView) -> bool {
    &&& forall|e: usize| #[trigger]
        may_take(q, dir, Seq::empty(), e) ==> covered(
            q,
            dir,
            f,
            e,
            q.seed(dir),
            q.edges[e as int].cost,
        )
    &&& forall|e: int, j: int|
        0 <= e < f.visited.len() && 0 <= j < f.visited[e].len() ==> settled(
            q,
            dir,
            f,
            e as usize,
            (#[trigger] f.visited[e][j]).variations,
        )
}

/// Whether a state is queued for the first `n` edges of the walk that costs
/// no more than they do.
pub open spec fn prefix_queued(
    q: Query,
    dir: Direction,
    f: FrontierView,
    p: Seq<usize>,
    n: int,
    k: int,
) -> bool {
    &&& 0 < n <= p.len()
    &&& queued_at(
        q,
        dir,
        f,
        k,
        p[n - 1],
        walked(q, dir, p.take(n - 1)),
        walk_cost(q, p.take(n)),
    )
}

/// The first edges of a walk cost no more than the walk.
pub proof fn lemma_walk_cost_prefix(q: Query, dir: Direction, p: Seq<usize>, n: int)
    requires
        countable(q.edges),
        walkable(q, dir, p),
        0 <= n <= p.len(),
    ensures
        0 <= walk_cost(q, p.take(n)) <= walk_cost(q, p),
        walkable(q, dir, p.take(n)),
    decreases p.len(),
{
    if n == p.len() {
        assert(p.take(n) =~= p);
        if p.len() > 0 {
            lemma_walk_cost_prefix(q, dir, p.drop_last(), n - 1);
            assert(p.drop_last().take(n - 1) =~= p.drop_last());
        }
    } else {
        lemma_walk_cost_prefix(q, dir, p.drop_last(), n);
        assert(p.drop_last().take(n) =~= p.take(n));
    }
}

/// While a search has left nothing out, every walk has its last edge
/// recorded as expanded with what is active before it, or begins with a
/// walk for which a state is queued that costs no more.
pub proof fn lemma_walk_is_covered(q: Query, dir: Direction, f: FrontierView, p: Seq<usize>)
    requires
        countable(q.edges),
        side_ok(q, dir, f),
        complete(q, dir, f),
        walkable(q, dir, p),
        p.len() > 0,
    ensures
        seen(f.visited[p.last() as int], walked(q, dir, p.drop_last())) || exists|n: int, k: int|
            prefix_queued(q, dir, f, p, n, k),
    decreases p.len(),
{
    reveal_with_fuel(walkable, 2);
    let b = p.drop_last();
    let e = p.last();
    let none = Seq::<usize>::empty();
    assert(may_take(q, dir, b, e));
    assert(p.take(p.len() as int) =~= p);
    assert(p.take(p.len() - 1) =~= b);
    if b.len() == 0 {
        assert(b =~= none);
        assert(walk_cost(q, b) == 0);
        let bound = q.edges[e as int].cost;
        assert(covered(q, dir, f, e, q.seed(dir), bound));
        if !seen(f.visited[e as int], q.seed(dir)) {
            let k = choose|k: int| queued_at(q, dir, f, k, e, q.seed(dir), bound);
            assert(prefix_queued(q, dir, f, p, 1, k));
        }
    } else {
        lemma_walk_is_covered(q, dir, f, b);
        let at = b.last();
        let w = walked(q, dir, b.drop_last());
        assert(may_take(q, dir, b.drop_last(), at));
        assert(at < f.visited.len());
        if seen(f.visited[at as int], w) {
            let j = choose|j: int|
                0 <= j < f.visited[at as int].len() && (#[trigger] f.visited[at as int][j]).variations
                    == w;
            assert(settled(q, dir, f, (at as int) as usize, f.visited[at as int][j].variations));
            let r = choose|r: usize| settles(q, dir, f, r, at, w);
            let st = f.states[r as int];
            assert(state_ok(q, dir, f.states, r as int));
            assert(st.variations == walked(q, dir, b));
            assert(ends_at(q, dir, b, at, w));
            assert(walkable(q, dir, b));
            assert(st.cost <= walk_cost(q, b));
            assert(may_follow(q, dir, st, e));
            let bound = st.cost + q.edges[e as int].cost;
            assert(covered(q, dir, f, e, st.variations, bound));
            if !seen(f.visited[e as int], st.variations) {
                let k = choose|k: int| queued_at(q, dir, f, k, e, st.variations, bound);
                assert(prefix_queued(q, dir, f, p, p.len() as int, k));
            }
        } else {
            let (n, k) = choose|n: int, k: int| prefix_queued(q, dir, f, b, n, k);
            assert(b.take(n - 1) =~= p.take(n - 1));
            assert(b.take(n) =~= p.take(n));
            assert(prefix_queued(q, dir, f, p, n, k));
        }
    }
}

/// Whether the walk arrives: its last edge leads to the key that the search
/// makes for, and what is active after it is what the search must end with.
pub open spec fn arrives(q: Query, dir: Direction, p: Seq<usize>) -> bool {
    &&& p.len() > 0
    &&& exit_key(dir, q.edges[p.last() as int]) == q.goal_key(dir)
    &&& match dir {
        Direction::Forward => q.variations_out.subset_of(walked(q, dir, p)),
        Direction::Backward => walked(q, dir, p).subset_of(q.variations_in),
    }
}

/// While a search has left nothing out, the state that leaves the queue
/// next, if it completes a chain by itself, costs no more than any walk
/// that arrives.
pub proof fn lemma_goal_is_cheapest(
    q: Query,
    dir: Direction,
    f: FrontierView,
    k: int,
    p: Seq<usize>,
)
    requires
        countable(q.edges),
        side_ok(q, dir, f),
        complete(q, dir, f),
        is_least(q.edges, f.states, f.queue, k),
        is_goal(q, dir, f.states[f.queue[k] as int]),
        walkable(q, dir, p),
        arrives(q, dir, p),
    ensures
        f.states[f.queue[k] as int].cost <= walk_cost(q, p),
{
    let e = p.last();
    let w = walked(q, dir, p.drop_last());
    assert(may_take(q, dir, p.drop_last(), e));
    lemma_walk_is_covered(q, dir, f, p);
    if seen(f.visited[e as int], w) {
        let j = choose|j: int|
            0 <= j < f.visited[e as int].len() && (#[trigger] f.visited[e as int][j]).variations
                == w;
        assert(settled(q, dir, f, (e as int) as usize, f.visited[e as int][j].variations));
        let r = choose|r: usize| settles(q, dir, f, r, e, w);
        assert(state_ok(q, dir, f.states, r as int));
        assert(f.states[r as int].variations == walked(q, dir, p));
    } else {
        let (n, k2) = choose|n: int, k2: int| prefix_queued(q, dir, f, p, n, k2);
        lemma_walk_cost_prefix(q, dir, p, n);
        lemma_least_is_cheapest(q.edges, f.states, f.queue, k);
        assert(f.states[f.queue[k] as int].cost <= f.states[f.queue[k2] as int].cost);
    }
}

/// Whether position `k` of the queue of `g` holds a state, created after
/// those of `f`, that takes the edge at position `e` after `parent`.
pub open spec fn queued_child(
    q: Query,
    dir: Direction,
    f: FrontierView,
    g: FrontierView,
    parent: Option<usize>,
    e: usize,
    k: int,
) -> bool {
    &&& 0 <= k < g.queue.len()
    &&& f.states.len() <= g.queue[k] < g.states.len()
    &&& g.states[g.queue[k] as int] == extend(q, dir, f.states, parent, e)
}

/// Each edge of the list that may follow the parent gets a state in the
/// queue when the frontier grows.
pub proof fn lemma_grow_has(
    q: Query,
    dir: Direction,
    f: FrontierView,
    parent: Option<usize>,
    list: Seq<usize>,
    j: int,
)
    requires
        valid(q.edges, grow(q, dir, f, parent, list)),
        0 <= j < list.len(),
        admits(q, dir, f, parent, list[j]),
    ensures
        exists|k: int| queued_child(q, dir, f, grow(q, dir, f, parent, list), parent, list[j], k),
{
    let g = grow(q, dir, f, parent, list);
    let pred = |e: usize| admits(q, dir, f, parent, e);
    let taken = list.filter(pred);
    list.lemma_filter_contains(pred, j);
    let i = choose|i: int| 0 <= i < taken.len() && taken[i] == list[j];
    let k = f.queue.len() + i;
    assert(g.queue[k] == (f.states.len() + i) as usize);
    assert(g.states[f.states.len() + i] == extend(q, dir, f.states, parent, taken[i]));
    assert(queued_child(q, dir, f, g, parent, list[j], k));
}

/// Whether frontier `g` comes after frontier `f` by a step that took the
/// state at position `k` off the queue: the states of `f` are states of
/// `g`, what `f` records `g` records, and the other queued states of `f`
/// are queued in `g`.
pub open spec fn follows(f: FrontierView, g: FrontierView, k: int) -> bool {
    &&& 0 <= k < f.queue.len()
    &&& f.states.len() <= g.states.len()
    &&& forall|i: int| 0 <= i < f.states.len() ==> #[trigger] g.states[i] == f.states[i]
    &&& g.visited.len() == f.visited.len()
    &&& forall|e: int, w: Set<Variant>|
        0 <= e < f.visited.len() && #[trigger] seen(f.visited[e], w) ==> seen(g.visited[e], w)
    &&& f.queue.len() - 1 <= g.queue.len()
    &&& forall|i: int|
        0 <= i < f.queue.len() - 1 ==> #[trigger] g.queue[i] == f.queue.remove(k)[i]
}

/// Whether the state that the step took off the queue is accounted for in
/// `g`: its edge is excluded, or recorded as expanded with what was active
/// before it.
pub open spec fn gone_ok(q: Query, dir: Direction, f: FrontierView, g: FrontierView, k: int) -> bool {
    let st = f.states[f.queue[k] as int];
    q.excluded.contains(q.edges[st.edge as int]) || seen(
        g.visited[st.edge as int],
        incoming(q, dir, f.states, st.parent),
    )
}

/// An edge that is not excluded and is taken care of stays taken care of
/// by a step.
pub proof fn lemma_covered_follows(
    q: Query,
    dir: Direction,
    f: FrontierView,
    g: FrontierView,
    k: int,
    e: usize,
    w: Set<Variant>,
    bound: int,
)
    requires
        valid(q.edges, f),
        follows(f, g, k),
        gone_ok(q, dir, f, g, k),
        e < q.edges.len(),
        !q.excluded.contains(q.edges[e as int]),
        covered(q, dir, f, e, w, bound),
    ensures
        covered(q, dir, g, e, w, bound),
{
    if seen(f.visited[e as int], w) {
        assert(seen(g.visited[e as int], w));
    } else {
        let i = choose|i: int| queued_at(q, dir, f, i, e, w, bound);
        let t = f.queue[i];
        assert(g.states[t as int] == f.states[t as int]);
        if let Some(parent) = f.states[t as int].parent {
            assert(g.states[parent as int] == f.states[parent as int]);
        }
        if i < k {
            assert(g.queue[i] == f.queue.remove(k)[i]);
            assert(queued_at(q, dir, g, i, e, w, bound));
        } else if i > k {
            assert(g.queue[i - 1] == f.queue.remove(k)[i - 1]);
            assert(queued_at(q, dir, g, i - 1, e, w, bound));
        }
    }
}

/// A state that stands for an expanded edge keeps standing for it after a
/// step.
pub proof fn lemma_settles_follows(
    q: Query,
    dir: Direction,
    f: FrontierView,
    g: FrontierView,
    k: int,
    r: usize,
    e: usize,
    w: Set<Variant>,
)
    requires
        valid(q.edges, f),
        follows(f, g, k),
        gone_ok(q, dir, f, g, k),
        settles(q, dir, f, r, e, w),
    ensures
        settles(q, dir, g, r, e, w),
{
    let st = f.states[r as int];
    assert(g.states[r as int] == st);
    if let Some(parent) = st.parent {
        assert(g.states[parent as int] == f.states[parent as int]);
    }
    assert forall|e2: usize| #[trigger] may_follow(q, dir, st, e2) implies covered(
        q,
        dir,
        g,
        e2,
        st.variations,
        st.cost + q.edges[e2 as int].cost,
    ) by {
        let bound = st.cost + q.edges[e2 as int].cost;
        assert(covered(q, dir, f, e2, st.variations, bound));
        lemma_covered_follows(q, dir, f, g, k, e2, st.variations, bound);
    }
}

/// A search that has left nothing out has left nothing out after a step
/// that drops a state whose edge is excluded.
pub proof fn lemma_drop_complete(q: Query, dir: Direction, f: FrontierView, k: int)
    requires
        valid(q.edges, f),
        complete(q, dir, f),
        0 <= k < f.queue.len(),
        q.excluded.contains(q.edges[f.states[f.queue[k] as int].edge as int]),
    ensures
        complete(
            q,
            dir,
            FrontierView { states: f.states, queue: f.queue.remove(k), visited: f.visited },
        ),
{
    let g = FrontierView { states: f.states, queue: f.queue.remove(k), visited: f.visited };
    assert(follows(f, g, k));
    assert forall|e: usize| #[trigger] may_take(q, dir, Seq::empty(), e) implies covered(
        q,
        dir,
        g,
        e,
        q.seed(dir),
        q.edges[e as int].cost,
    ) by {
        let bound = q.edges[e as int].cost;
        assert(covered(q, dir, f, e, q.seed(dir), bound));
        lemma_covered_follows(q, dir, f, g, k, e, q.seed(dir), bound);
    }
    assert forall|e: int, j: int|
        0 <= e < g.visited.len() && 0 <= j < g.visited[e].len() implies settled(
        q,
        dir,
        g,
        e as usize,
        (#[trigger] g.visited[e][j]).variations,
    ) by {
        let w = f.visited[e][j].variations;
        let at = e as usize;
        assert(settled(q, dir, f, at, w));
        let r = choose|r: usize| settles(q, dir, f, r, at, w);
        lemma_settles_follows(q, dir, f, g, k, r, at, w);
    }
}

/// What a list records after a state was recorded, it recorded before or
/// is what the state was recorded under; and what it recorded before it
/// records still.
pub proof fn lemma_record_keeps(list: Seq<VisitView>, w: Set<Variant>, s: usize, other: Set<Variant>)
    ensures
        seen(list, other) ==> seen(record(list, w, s), other),
        seen(record(list, w, s), other) ==> other == w || seen(list, other),
{
    lemma_record(list, w, s);
    let after = record(list, w, s);
    if seen(list, other) {
        let j = choose|j: int| 0 <= j < list.len() && (#[trigger] list[j]).variations == other;
        assert(after[j].variations == other);
    }
    if seen(after, other) && other != w {
        let j = choose|j: int| 0 <= j < after.len() && (#[trigger] after[j]).variations == other;
        assert(list[j].variations == other);
    }
}

/// A search that has left nothing out has left nothing out after a step
/// that records the least state and queues the states that may follow it.
pub proof fn lemma_expand_complete(q: Query, dir: Direction, f: FrontierView, k: int)
    requires
        countable(q.edges),
        side_ok(q, dir, f),
        complete(q, dir, f),
        is_least(q.edges, f.states, f.queue, k),
        !q.excluded.contains(q.edges[f.states[f.queue[k] as int].edge as int]),
        !is_goal(q, dir, f.states[f.queue[k] as int]),
        valid(q.edges, stepped(q, dir, f, k)),
    ensures
        complete(q, dir, stepped(q, dir, f, k)),
{
    let s = f.queue[k];
    let st = f.states[s as int];
    let at = st.edge;
    let w = incoming(q, dir, f.states, st.parent);
    let list = f.visited[at as int];
    let marked = marked(q, dir, f, k);
    let g = stepped(q, dir, f, k);
    let key = next_key(q, dir, marked.states, Some(s));
    let after = positions(q.edges, dir, key);
    lemma_record(list, w, s);
    lemma_positions(q.edges, dir, key);
    assert(state_ok(q, dir, f.states, s as int));
    assert forall|e: int, other: Set<Variant>|
        0 <= e < f.visited.len() && #[trigger] seen(f.visited[e], other) implies seen(
        g.visited[e],
        other,
    ) by {
        if e == at {
            lemma_record_keeps(list, w, s, other);
        }
    }
    assert(follows(f, g, k));
    assert(gone_ok(q, dir, f, g, k));
    assert forall|e: usize| #[trigger] may_take(q, dir, Seq::empty(), e) implies covered(
        q,
        dir,
        g,
        e,
        q.seed(dir),
        q.edges[e as int].cost,
    ) by {
        let bound = q.edges[e as int].cost;
        assert(covered(q, dir, f, e, q.seed(dir), bound));
        lemma_covered_follows(q, dir, f, g, k, e, q.seed(dir), bound);
    }
    assert forall|e: int, j: int|
        0 <= e < g.visited.len() && 0 <= j < g.visited[e].len() implies settled(
        q,
        dir,
        g,
        e as usize,
        (#[trigger] g.visited[e][j]).variations,
    ) by {
        let other = g.visited[e][j].variations;
        assert(seen(g.visited[e], other));
        if e == at {
            lemma_record_keeps(list, w, s, other);
        }
        if seen(f.visited[e], other) {
            let j0 = choose|j0: int|
                0 <= j0 < f.visited[e].len() && (#[trigger] f.visited[e][j0]).variations == other;
            let here = e as usize;
            assert(settled(q, dir, f, here, f.visited[e][j0].variations));
            let r = choose|r: usize| settles(q, dir, f, r, here, other);
            lemma_settles_follows(q, dir, f, g, k, r, here, other);
        } else {
            assert(e == at && other == w);
            assert(g.states[s as int] == st);
            if let Some(parent) = st.parent {
                assert(g.states[parent as int] == f.states[parent as int]);
            }
            assert forall|p: Seq<usize>| #[trigger]
                walkable(q, dir, p) && ends_at(q, dir, p, at, w) implies st.cost <= walk_cost(
                q,
                p,
            ) by {
                lemma_walk_is_covered(q, dir, f, p);
                let (n, k2) = choose|n: int, k2: int| prefix_queued(q, dir, f, p, n, k2);
                lemma_walk_cost_prefix(q, dir, p, n);
                lemma_least_is_cheapest(q.edges, f.states, f.queue, k);
                assert(st.cost <= f.states[f.queue[k2] as int].cost);
            }
            assert forall|e2: usize| #[trigger] may_follow(q, dir, st, e2) implies covered(
                q,
                dir,
                g,
                e2,
                st.variations,
                st.cost + q.edges[e2 as int].cost,
            ) by {
                let bound = st.cost + q.edges[e2 as int].cost;
                assert(after.contains(e2));
                let j2 = choose|j2: int| 0 <= j2 < after.len() && after[j2] == e2;
                if admits(q, dir, marked, Some(s), e2) {
                    lemma_grow_has(q, dir, marked, Some(s), after, j2);
                    let c = choose|c: int|
                        queued_child(q, dir, marked, g, Some(s), after[j2], c);
                    assert(queued_at(q, dir, g, c, e2, st.variations, bound));
                } else {
                    assert(seen(marked.visited[e2 as int], st.variations));
                }
            }
            assert(settles(q, dir, g, s, at, w));
        }
    }
}

/// A search that has recorded nothing has left nothing out once the states
/// for the edges that may be taken first are queued.
pub proof fn lemma_seed_complete(q: Query, dir: Direction, f: FrontierView)
    requires
        countable(q.edges),
        f.visited.len() == q.edges.len(),
        unmarked(f),
        valid(q.edges, expand(q, dir, f, None)),
    ensures
        complete(q, dir, expand(q, dir, f, None)),
{
    let g = expand(q, dir, f, None);
    let key = q.start_key(dir);
    let list = positions(q.edges, dir, key);
    lemma_positions(q.edges, dir, key);
    assert forall|e: usize| #[trigger] may_take(q, dir, Seq::empty(), e) implies covered(
        q,
        dir,
        g,
        e,
        q.seed(dir),
        q.edges[e as int].cost,
    ) by {
        let bound = q.edges[e as int].cost;
        assert(list.contains(e));
        let j = choose|j: int| 0 <= j < list.len() && list[j] == e;
        assert(admits(q, dir, f, None, e));
        lemma_grow_has(q, dir, f, None, list, j);
        let c = choose|c: int| queued_child(q, dir, f, g, None, list[j], c);
        assert(queued_at(q, dir, g, c, e, q.seed(dir), bound));
    }
}

/// Whether the search has left nothing out in either direction.
pub open spec fn thorough(q: Query, m: SearchView) -> bool {
    &&& complete(q, Direction::Forward, m.forward)
    &&& complete(q, Direction::Backward, m.backward)
}

/// Whether nothing is recorded as expanded.
pub open spec fn unmarked(f: FrontierView) -> bool {
    forall|e: int| 0 <= e < f.visited.len() ==> (#[trigger] f.visited[e]).len() == 0
}

/// Whether the chain costs no more than any chain that works out when all
/// of it is walked forward.
pub open spec fn is_cheapest(q: Query, c: Seq<EdgeView>) -> bool {
    forall|d: Seq<EdgeView>| #[trigger] is_sound(q, d) ==> total_cost(c) <= total_cost(d)
}

/// The position of the edge in the graph.
pub open spec fn place(q: Query, e: EdgeView) -> usize {
    choose|i: usize| i < q.edges.len() && q.edges[i as int] == e
}

/// The positions of the first `n` edges of the chain, in their order.
pub open spec fn places(q: Query, d: Seq<EdgeView>, n: int) -> Seq<usize> {
    Seq::new(n as nat, |i: int| place(q, d[i]))
}

/// The positions of the last `n` edges of the chain, the last edge first.
pub open spec fn places_back(q: Query, d: Seq<EdgeView>, n: int) -> Seq<usize> {
    Seq::new(n as nat, |i: int| place(q, d[d.len() - 1 - i]))
}

/// The edge of the graph at the place of an edge of the graph is that edge.
pub proof fn lemma_place(q: Query, e: EdgeView)
    requires
        q.edges.len() <= usize::MAX,
        q.edges.contains(e),
    ensures
        place(q, e) < q.edges.len(),
        q.edges[place(q, e) as int] == e,
{
    let i = choose|i: int| 0 <= i < q.edges.len() && q.edges[i] == e;
    let at = i as usize;
    assert(at < q.edges.len() && q.edges[at as int] == e);
}

/// The first edges of a chain that works out when walked forward make a
/// forward walk that leaves active, and costs, what they do.
pub proof fn lemma_sound_walks_forward(q: Query, d: Seq<EdgeView>, n: int)
    requires
        countable(q.edges),
        is_sound(q, d),
        0 <= n <= d.len(),
    ensures
        walkable(q, Direction::Forward, places(q, d, n)),
        walked(q, Direction::Forward, places(q, d, n)) == after(q.variations_in, d.take(n)),
        walk_cost(q, places(q, d, n)) == total_cost(d.take(n)),
        n > 0 ==> q.edges[places(q, d, n).last() as int] == d[n - 1],
    decreases n,
{
    let p = places(q, d, n);
    if n == 0 {
        assert(d.take(0) =~= Seq::empty());
    } else {
        lemma_sound_walks_forward(q, d, n - 1);
        let b = places(q, d, n - 1);
        assert(p.drop_last() =~= b);
        assert(d.take(n).drop_last() =~= d.take(n - 1));
        assert(d.take(n).last() == d[n - 1]);
        assert(q.edges.contains(d[n - 1]));
        lemma_place(q, d[n - 1]);
        lemma_walk_split(q.variations_in, d, n);
        assert(feasible(q.variations_in, d.take(n)));
        if n > 1 {
            assert(d[n - 1 - 1].key_out == d[n - 1].key_in);
        }
        assert(may_take(q, Direction::Forward, b, p.last()));
    }
}

/// The last edges of a chain that leads from the key one has to the key
/// one wants make, taken from the last on, a backward walk that leaves
/// active what they require, and costs what they do.
pub proof fn lemma_sound_walks_backward(q: Query, d: Seq<EdgeView>, n: int)
    requires
        countable(q.edges),
        leads(q, d),
        0 <= n <= d.len(),
    ensures
        walkable(q, Direction::Backward, places_back(q, d, n)),
        walked(q, Direction::Backward, places_back(q, d, n)) == required(
            d.skip(d.len() - n),
            q.variations_out,
        ),
        walk_cost(q, places_back(q, d, n)) == total_cost(d.skip(d.len() - n)),
        n > 0 ==> q.edges[places_back(q, d, n).last() as int] == d[d.len() - n],
    decreases n,
{
    let p = places_back(q, d, n);
    let from = d.len() - n;
    if n == 0 {
        assert(d.skip(d.len() as int) =~= Seq::empty());
    } else {
        lemma_sound_walks_backward(q, d, n - 1);
        let b = places_back(q, d, n - 1);
        assert(p.drop_last() =~= b);
        assert(d.skip(from).drop_first() =~= d.skip(from + 1));
        assert(d.skip(from).first() == d[from]);
        assert(q.edges.contains(d[from]));
        lemma_place(q, d[from]);
        lemma_total_cost_first(d.skip(from));
        if n > 1 {
            assert(d[from + 1 - 1].key_out == d[from + 1].key_in);
        }
        assert(may_take(q, Direction::Backward, b, p.last()));
    }
}

/// A state that leaves the queue next and completes a chain by itself, its
/// edge not excluded, completes a chain that costs no more than any chain
/// that works out when all of it is walked forward.
pub proof fn lemma_alone_is_cheapest(q: Query, dir: Direction, f: FrontierView, k: int)
    requires
        countable(q.edges),
        side_ok(q, dir, f),
        complete(q, dir, f),
        is_least(q.edges, f.states, f.queue, k),
        is_goal(q, dir, f.states[f.queue[k] as int]),
        !q.excluded.contains(q.edges[f.states[f.queue[k] as int].edge as int]),
    ensures
        is_cheapest(q, edges_at(q, route(dir, f.states, f.queue[k]))),
{
    let s = f.queue[k];
    let c = edges_at(q, route(dir, f.states, s));
    lemma_goal_plan(q, dir, f, s);
    assert forall|d: Seq<EdgeView>| #[trigger] is_sound(q, d) implies total_cost(c) <= total_cost(
        d,
    ) by {
        let n = d.len() as int;
        assert(d.take(n) =~= d);
        assert(d.skip(0) =~= d);
        match dir {
            Direction::Forward => {
                lemma_sound_walks_forward(q, d, n);
                let p = places(q, d, n);
                assert(arrives(q, dir, p));
                lemma_goal_is_cheapest(q, dir, f, k, p);
            },
            Direction::Backward => {
                lemma_sound_walks_backward(q, d, n);
                let p = places_back(q, d, n);
                lemma_required_is_active(q.variations_in, d, q.variations_out);
                assert(arrives(q, dir, p));
                lemma_goal_is_cheapest(q, dir, f, k, p);
            },
        }
    }
}

/// A search that has left nothing out and has emptied the backward queue
/// has shown that there is no plan.
pub proof fn lemma_no_plan_is_left(q: Query, f: FrontierView, c: Seq<EdgeView>)
    requires
        countable(q.edges),
        side_ok(q, Direction::Backward, f),
        complete(q, Direction::Backward, f),
        f.queue.len() == 0,
    ensures
        !is_plan(q, c),
{
    if is_plan(q, c) {
        let dir = Direction::Backward;
        let n = c.len() as int;
        lemma_plan_requires_what_one_has(q, c);
        lemma_sound_walks_backward(q, c, n);
        let p = places_back(q, c, n);
        assert(c.skip(0) =~= c);
        assert(arrives(q, dir, p));
        let e = p.last();
        let w = walked(q, dir, p.drop_last());
        assert(may_take(q, dir, p.drop_last(), e));
        lemma_walk_is_covered(q, dir, f, p);
        if seen(f.visited[e as int], w) {
            let j = choose|j: int|
                0 <= j < f.visited[e as int].len() && (#[trigger] f.visited[e as int][j]).variations
                    == w;
            assert(settled(q, dir, f, (e as int) as usize, f.visited[e as int][j].variations));
            let r = choose|r: usize| settles(q, dir, f, r, e, w);
            assert(state_ok(q, dir, f.states, r as int));
            assert(f.states[r as int].variations == walked(q, dir, p));
        } else {
            let (n2, k2) = choose|n2: int, k2: int| prefix_queued(q, dir, f, p, n2, k2);
        }
    }
}

} // verus!
