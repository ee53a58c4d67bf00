//! Why a search ends.
//!
//! The variations that are active in a state are among those that occur in
//! what the search is asked. An edge is recorded as expanded at most once
//! with the same variations before it, so that only so many records fit.
//! Each step takes a state whose record is new off a queue, leaving room
//! for one record less; or a state that is recorded already, leaving one
//! such state less in the queue; or a state that it drops, leaving the queue
//! one state shorter.

use crate::cheapest::lemma_record_keeps;
use crate::edge::EdgeView;
use crate::graph::{lemma_positions, positions, Direction};
use crate::model::{
    admits, extend, gives, grow, incoming, is_slot, marked, next_key, record, seen, stepped, takes,
    FrontierView, Query, VisitView,
};
use crate::state::valid;
use crate::variations::Variant;
use vstd::prelude::*;

verus! {

/// The number of subsets of a set of `n` items.
pub open spec fn subsets(n: nat) -> nat
    decreases n,
{
    if n == 0 {
        1
    } else {
        2 * subsets((n - 1) as nat)
    }
}

/// Whether no two places of the list hold the same set.
pub open spec fn distinct(list: Seq<Set<Variant>>) -> bool {
    forall|i: int, j: int| 0 <= i < j < list.len() ==> list[i] != list[j]
}

/// Whether every set of the list is a subset of `t`.
pub open spec fn within(list: Seq<Set<Variant>>, t: Set<Variant>) -> bool {
    forall|i: int| 0 <= i < list.len() ==> (#[trigger] list[i]).subset_of(t)
}

/// The sets of the list that hold `x`, where `with` is set, or that do not,
/// where it is not, each without `x`.
pub open spec fn picked(list: Seq<Set<Variant>>, x: Variant, with: bool) -> Seq<Set<Variant>>
    decreases list.len(),
{
    if list.len() == 0 {
        Seq::empty()
    } else if list.last().contains(x) == with {
        picked(list.drop_last(), x, with).push(list.last().remove(x))
    } else {
        picked(list.drop_last(), x, with)
    }
}

/// What is picked from a list of distinct subsets of `t` is a list of
/// distinct subsets of `t` without `x`, and each set of the list is picked
/// with `x` or without.
pub proof fn lemma_picked(list: Seq<Set<Variant>>, t: Set<Variant>, x: Variant, with: bool)
    requires
        distinct(list),
        within(list, t),
    ensures
        distinct(picked(list, x, with)),
        within(picked(list, x, with), t.remove(x)),
        picked(list, x, true).len() + picked(list, x, false).len() == list.len(),
        forall|i: int|
            0 <= i < picked(list, x, with).len() ==> exists|j: int|
                0 <= j < list.len() && list[j].contains(x) == with && (#[trigger] picked(
                    list,
                    x,
                    with,
                )[i]) == list[j].remove(x),
    decreases list.len(),
{
    if list.len() > 0 {
        let front = list.drop_last();
        let last = list.last();
        lemma_picked(front, t, x, with);
        lemma_picked(front, t, x, !with);
        let before = picked(front, x, with);
        let all = picked(list, x, with);
        assert forall|i: int| 0 <= i < all.len() implies exists|j: int|
            0 <= j < list.len() && list[j].contains(x) == with && (#[trigger] all[i])
                == list[j].remove(x) by {
            if i < before.len() {
                let j = choose|j: int|
                    0 <= j < front.len() && front[j].contains(x) == with && before[i]
                        == front[j].remove(x);
                assert(list[j] == front[j]);
            } else {
                assert(list[list.len() - 1] == last);
            }
        }
        if last.contains(x) == with {
            assert forall|i: int| 0 <= i < before.len() implies before[i] != last.remove(x) by {
                let j = choose|j: int|
                    0 <= j < front.len() && front[j].contains(x) == with && before[i]
                        == front[j].remove(x);
                assert(list[j] == front[j]);
                if front[j].remove(x) == last.remove(x) {
                    assert(front[j] =~= last) by {
                        assert forall|v: Variant| front[j].contains(v) == last.contains(v) by {
                            if v != x {
                                assert(front[j].remove(x).contains(v) == front[j].contains(v));
                                assert(last.remove(x).contains(v) == last.contains(v));
                            }
                        }
                    }
                }
            }
            assert(last.subset_of(t));
        }
    }
}

/// A list of distinct subsets of a finite set is no longer than the set has
/// subsets.
pub proof fn lemma_distinct_subsets(list: Seq<Set<Variant>>, t: Set<Variant>)
    requires
        t.finite(),
        distinct(list),
        within(list, t),
    ensures
        list.len() <= subsets(t.len()),
    decreases t.len(),
{
    if t.len() == 0 {
        if list.len() > 1 {
            assert(list[0].subset_of(t));
            assert(list[1].subset_of(t));
            assert(list[0] =~= list[1]);
        }
    } else {
        let x = t.choose();
        lemma_picked(list, t, x, true);
        lemma_picked(list, t, x, false);
        lemma_distinct_subsets(picked(list, x, true), t.remove(x));
        lemma_distinct_subsets(picked(list, x, false), t.remove(x));
    }
}

/// The variations that occur in the edges.
pub open spec fn tags(edges: Seq<EdgeView>) -> Set<Variant>
    decreases edges.len(),
{
    if edges.len() == 0 {
        Set::empty()
    } else {
        tags(edges.drop_last()).union(edges.last().variations_in).union(
            edges.last().variations_out,
        )
    }
}

/// The variations that occur in what the search is asked.
pub open spec fn universe(q: Query) -> Set<Variant> {
    q.variations_in.union(q.variations_out).union(tags(q.edges))
}

/// Whether what the search is asked is finite.
pub open spec fn finite(q: Query) -> bool {
    &&& q.variations_in.finite()
    &&& q.variations_out.finite()
    &&& forall|i: int|
        0 <= i < q.edges.len() ==> (#[trigger] q.edges[i]).variations_in.finite()
            && q.edges[i].variations_out.finite()
}

/// The variations that occur in finitely many finite edges are finitely
/// many, and those of each edge are among them.
pub proof fn lemma_tags(edges: Seq<EdgeView>)
    requires
        forall|i: int|
            0 <= i < edges.len() ==> (#[trigger] edges[i]).variations_in.finite()
                && edges[i].variations_out.finite(),
    ensures
        tags(edges).finite(),
        forall|i: int|
            0 <= i < edges.len() ==> (#[trigger] edges[i]).variations_in.subset_of(tags(edges))
                && edges[i].variations_out.subset_of(tags(edges)),
    decreases edges.len(),
{
    if edges.len() > 0 {
        let front = edges.drop_last();
        lemma_tags(front);
        assert forall|i: int| 0 <= i < edges.len() implies (
        #[trigger] edges[i]).variations_in.subset_of(tags(edges))
            && edges[i].variations_out.subset_of(tags(edges)) by {
            if i < front.len() {
                assert(front[i] == edges[i]);
            }
        }
    }
}

/// The most records that a search can hold for one direction.
pub open spec fn capacity(q: Query) -> nat {
    q.edges.len() * subsets(universe(q).len())
}

/// The number of records.
pub open spec fn recorded(visited: Seq<Seq<VisitView>>) -> nat
    decreases visited.len(),
{
    if visited.len() == 0 {
        0
    } else {
        recorded(visited.drop_last()) + visited.last().len()
    }
}

/// Whether state `s` has an edge that is recorded as expanded with the
/// variations that are active before it in `s`.
pub open spec fn is_stale(q: Query, dir: Direction, f: FrontierView, s: usize) -> bool {
    seen(
        f.visited[f.states[s as int].edge as int],
        incoming(q, dir, f.states, f.states[s as int].parent),
    )
}

/// The number of places of the queue that hold a state whose edge is
/// recorded as expanded with the variations that are active before it.
pub open spec fn stale(q: Query, dir: Direction, f: FrontierView, queue: Seq<usize>) -> nat
    decreases queue.len(),
{
    if queue.len() == 0 {
        0
    } else {
        stale(q, dir, f, queue.drop_last()) + if is_stale(q, dir, f, queue.last()) {
            1nat
        } else {
            0nat
        }
    }
}

/// Whether the variations of every state are among those that occur in
/// what the search is asked, and no edge is recorded twice with the same
/// variations.
pub open spec fn tidy(q: Query, f: FrontierView) -> bool {
    &&& forall|i: int|
        0 <= i < f.states.len() ==> (#[trigger] f.states[i]).variations.subset_of(universe(q))
    &&& forall|e: int, j: int|
        0 <= e < f.visited.len() && 0 <= j < f.visited[e].len() ==> (
        #[trigger] f.visited[e][j]).variations.subset_of(universe(q))
    &&& forall|e: int, i: int, j: int|
        0 <= e < f.visited.len() && 0 <= i < j < f.visited[e].len() ==> (
        #[trigger] f.visited[e][i]).variations != (#[trigger] f.visited[e][j]).variations
}

/// The room that is left for records.
pub open spec fn room(q: Query, f: FrontierView) -> int {
    capacity(q) - recorded(f.visited)
}

/// Whether frontier `g` is nearer to the end of the search than frontier
/// `f`: it leaves room for fewer records; or for as many, with fewer states
/// in the queue that are recorded already; or with as many, and a shorter
/// queue.
pub open spec fn nearer(q: Query, dir: Direction, f: FrontierView, g: FrontierView) -> bool {
    &&& 0 <= room(q, g)
    &&& {
        ||| room(q, g) < room(q, f)
        ||| room(q, g) == room(q, f) && stale(q, dir, g, g.queue) < stale(q, dir, f, f.queue)
        ||| room(q, g) == room(q, f) && stale(q, dir, g, g.queue) == stale(q, dir, f, f.queue)
            && g.queue.len() < f.queue.len()
    }
}

/// No more is recorded in lists of `bound` records at most than they can
/// hold together.
pub proof fn lemma_recorded_bound(visited: Seq<Seq<VisitView>>, bound: nat)
    requires
        forall|e: int| 0 <= e < visited.len() ==> (#[trigger] visited[e]).len() <= bound,
    ensures
        recorded(visited) <= visited.len() * bound,
    decreases visited.len(),
{
    if visited.len() > 0 {
        let front = visited.drop_last();
        assert forall|e: int| 0 <= e < front.len() implies (#[trigger] front[e]).len() <= bound by {
            assert(front[e] == visited[e]);
        }
        lemma_recorded_bound(front, bound);
        assert(visited.len() * bound == front.len() * bound + bound) by (nonlinear_arith)
            requires
                visited.len() == front.len() + 1,
        ;
    }
}

/// Putting another list in the place of one changes the number of records
/// by what the lists differ in length.
pub proof fn lemma_recorded_update(visited: Seq<Seq<VisitView>>, e: int, list: Seq<VisitView>)
    requires
        0 <= e < visited.len(),
    ensures
        recorded(visited.update(e, list)) == recorded(visited) - visited[e].len() + list.len(),
    decreases visited.len(),
{
    let after = visited.update(e, list);
    if e == visited.len() - 1 {
        assert(after.drop_last() =~= visited.drop_last());
    } else {
        lemma_recorded_update(visited.drop_last(), e, list);
        assert(after.drop_last() =~= visited.drop_last().update(e, list));
    }
}

/// While a frontier is tidy, there is room for what it records.
pub proof fn lemma_room(q: Query, f: FrontierView)
    requires
        finite(q),
        tidy(q, f),
        f.visited.len() == q.edges.len(),
    ensures
        0 <= room(q, f),
{
    let t = universe(q);
    lemma_tags(q.edges);
    assert forall|e: int| 0 <= e < f.visited.len() implies (#[trigger] f.visited[e]).len()
        <= subsets(t.len()) by {
        let keys = f.visited[e].map_values(|v: VisitView| v.variations);
        assert forall|i: int, j: int| 0 <= i < j < keys.len() implies keys[i] != keys[j] by {
            assert(f.visited[e][i].variations != f.visited[e][j].variations);
        }
        assert forall|i: int| 0 <= i < keys.len() implies (#[trigger] keys[i]).subset_of(t) by {
            assert(f.visited[e][i].variations.subset_of(t));
        }
        lemma_distinct_subsets(keys, t);
    }
    lemma_recorded_bound(f.visited, subsets(t.len()));
}

/// The number of stale places of a queue without one of its places.
pub proof fn lemma_stale_remove(q: Query, dir: Direction, f: FrontierView, queue: Seq<usize>, k: int)
    requires
        0 <= k < queue.len(),
    ensures
        stale(q, dir, f, queue.remove(k)) + (if is_stale(q, dir, f, queue[k]) {
            1nat
        } else {
            0nat
        }) == stale(q, dir, f, queue),
    decreases queue.len(),
{
    if k == queue.len() - 1 {
        assert(queue.remove(k) =~= queue.drop_last());
    } else {
        lemma_stale_remove(q, dir, f, queue.drop_last(), k);
        assert(queue.remove(k).drop_last() =~= queue.drop_last().remove(k));
        assert(queue.remove(k).last() == queue.last());
    }
}

/// The number of stale places of a queue is the same in two frontiers in
/// which the same states of the queue are stale.
pub proof fn lemma_stale_same(
    q: Query,
    dir: Direction,
    f: FrontierView,
    g: FrontierView,
    queue: Seq<usize>,
)
    requires
        forall|i: int|
            0 <= i < queue.len() ==> is_stale(q, dir, f, #[trigger] queue[i]) == is_stale(
                q,
                dir,
                g,
                queue[i],
            ),
    ensures
        stale(q, dir, f, queue) == stale(q, dir, g, queue),
    decreases queue.len(),
{
    if queue.len() > 0 {
        let front = queue.drop_last();
        assert forall|i: int| 0 <= i < front.len() implies is_stale(
            q,
            dir,
            f,
            #[trigger] front[i],
        ) == is_stale(q, dir, g, front[i]) by {
            assert(front[i] == queue[i]);
        }
        lemma_stale_same(q, dir, f, g, front);
    }
}

/// States that are not stale add nothing to the stale places of a queue.
pub proof fn lemma_stale_append(
    q: Query,
    dir: Direction,
    f: FrontierView,
    queue: Seq<usize>,
    more: Seq<usize>,
)
    requires
        forall|i: int| 0 <= i < more.len() ==> !is_stale(q, dir, f, #[trigger] more[i]),
    ensures
        stale(q, dir, f, queue + more) == stale(q, dir, f, queue),
    decreases more.len(),
{
    if more.len() == 0 {
        assert(queue + more =~= queue);
    } else {
        let front = more.drop_last();
        assert forall|i: int| 0 <= i < front.len() implies !is_stale(
            q,
            dir,
            f,
            #[trigger] front[i],
        ) by {
            assert(front[i] == more[i]);
        }
        lemma_stale_append(q, dir, f, queue, front);
        assert((queue + more).drop_last() =~= queue + front);
        assert((queue + more).last() == more.last());
        assert(!is_stale(q, dir, f, more[more.len() - 1]));
    }
}

/// A list that records a state under some variations has a first place
/// that does.
pub proof fn lemma_slot(list: Seq<VisitView>, w: Set<Variant>)
    requires
        seen(list, w),
    ensures
        exists|j: int| is_slot(list, w, j),
    decreases list.len(),
{
    let front = list.drop_last();
    if seen(front, w) {
        lemma_slot(front, w);
        let j = choose|j: int| is_slot(front, w, j);
        assert(is_slot(list, w, j)) by {
            assert(list[j] == front[j]);
            assert forall|i: int| 0 <= i < j implies (#[trigger] list[i]).variations != w by {
                assert(front[i].variations != w);
            }
        }
    } else {
        let j = list.len() - 1;
        let at = choose|at: int| 0 <= at < list.len() && (#[trigger] list[at]).variations == w;
        if at < j {
            assert(front[at].variations == w);
        }
        assert forall|i: int| 0 <= i < j implies (#[trigger] list[i]).variations != w by {
            assert(front[i].variations == list[i].variations);
        }
        assert(is_slot(list, w, j));
    }
}

/// Recording a state under variations that are recorded already changes
/// one place of the list; under others it adds one at its end.
pub proof fn lemma_record_length(list: Seq<VisitView>, w: Set<Variant>, s: usize)
    ensures
        record(list, w, s).len() == if seen(list, w) {
            list.len()
        } else {
            list.len() + 1
        },
        forall|j: int|
            0 <= j < list.len() ==> (#[trigger] record(list, w, s)[j]).variations
                == list[j].variations,
        !seen(list, w) ==> record(list, w, s)[list.len() as int].variations == w,
{
    if seen(list, w) {
        lemma_slot(list, w);
    } else {
        assert forall|j: int| !is_slot(list, w, j) by {
            if is_slot(list, w, j) {
                assert(list[j].variations == w);
            }
        }
    }
}

/// A tidy frontier stays tidy when a state is recorded under variations
/// that are among those that occur in what the search is asked.
pub proof fn lemma_record_tidy(q: Query, f: FrontierView, at: int, w: Set<Variant>, s: usize)
    requires
        tidy(q, f),
        0 <= at < f.visited.len(),
        w.subset_of(universe(q)),
    ensures
        tidy(
            q,
            FrontierView {
                states: f.states,
                queue: f.queue,
                visited: f.visited.update(at, record(f.visited[at], w, s)),
            },
        ),
{
    let list = f.visited[at];
    let after = record(list, w, s);
    let g = FrontierView { states: f.states, queue: f.queue, visited: f.visited.update(at, after) };
    lemma_record_length(list, w, s);
    assert forall|e: int, j: int|
        0 <= e < g.visited.len() && 0 <= j < g.visited[e].len() implies (
    #[trigger] g.visited[e][j]).variations.subset_of(universe(q)) by {
        if e != at {
            assert(f.visited[e][j].variations.subset_of(universe(q)));
        } else if j < list.len() {
            assert(f.visited[e][j].variations.subset_of(universe(q)));
        }
    }
    assert forall|e: int, i: int, j: int|
        0 <= e < g.visited.len() && 0 <= i < j < g.visited[e].len() implies (
    #[trigger] g.visited[e][i]).variations != (#[trigger] g.visited[e][j]).variations by {
        if e != at {
            assert(f.visited[e][i].variations != f.visited[e][j].variations);
        } else if j < list.len() {
            assert(f.visited[e][i].variations != f.visited[e][j].variations);
        } else {
            assert(list[i].variations != w);
        }
    }
}

/// A tidy frontier stays tidy when it grows.
pub proof fn lemma_grow_tidy(
    q: Query,
    dir: Direction,
    f: FrontierView,
    parent: Option<usize>,
    list: Seq<usize>,
)
    requires
        finite(q),
        tidy(q, f),
        parent matches Some(p) ==> p < f.states.len(),
        forall|j: int| 0 <= j < list.len() ==> (#[trigger] list[j]) < q.edges.len(),
    ensures
        tidy(q, grow(q, dir, f, parent, list)),
{
    let g = grow(q, dir, f, parent, list);
    let pred = |e: usize| admits(q, dir, f, parent, e);
    let taken = list.filter(pred);
    let n = f.states.len() as int;
    lemma_tags(q.edges);
    assert forall|i: int| 0 <= i < g.states.len() implies (
    #[trigger] g.states[i]).variations.subset_of(universe(q)) by {
        if i < n {
            assert(f.states[i].variations.subset_of(universe(q)));
        } else {
            let e = taken[i - n];
            assert(taken.contains(e));
            list.lemma_filter_contains_rev(pred, e);
            let j = choose|j: int| 0 <= j < list.len() && list[j] == e;
            assert(list[j] < q.edges.len());
            assert(g.states[i] == extend(q, dir, f.states, parent, e));
            let w = incoming(q, dir, f.states, parent);
            if let Some(p) = parent {
                assert(f.states[p as int].variations.subset_of(universe(q)));
            }
            assert(w.subset_of(universe(q)));
            let edge = q.edges[e as int];
            assert(edge.variations_in.subset_of(tags(q.edges)));
            assert(gives(dir, edge).subset_of(universe(q)));
        }
    }
    assert forall|e: int, j: int|
        0 <= e < g.visited.len() && 0 <= j < g.visited[e].len() implies (
    #[trigger] g.visited[e][j]).variations.subset_of(universe(q)) by {
        assert(f.visited[e][j].variations.subset_of(universe(q)));
    }
    assert forall|e: int, i: int, j: int|
        0 <= e < g.visited.len() && 0 <= i < j < g.visited[e].len() implies (
    #[trigger] g.visited[e][i]).variations != (#[trigger] g.visited[e][j]).variations by {
        assert(f.visited[e][i].variations != f.visited[e][j].variations);
    }
}

/// A step that drops the state it takes off the queue brings a tidy
/// frontier nearer to the end of the search.
pub proof fn lemma_drop_nearer(q: Query, dir: Direction, f: FrontierView, k: int)
    requires
        finite(q),
        tidy(q, f),
        f.visited.len() == q.edges.len(),
        0 <= k < f.queue.len(),
    ensures
        nearer(
            q,
            dir,
            f,
            FrontierView { states: f.states, queue: f.queue.remove(k), visited: f.visited },
        ),
        tidy(q, FrontierView { states: f.states, queue: f.queue.remove(k), visited: f.visited }),
{
    let g = FrontierView { states: f.states, queue: f.queue.remove(k), visited: f.visited };
    lemma_room(q, f);
    lemma_stale_remove(q, dir, f, f.queue, k);
    lemma_stale_same(q, dir, f, g, g.queue);
}

/// A step that records the state it takes off the queue and queues the
/// states that may follow it brings a tidy frontier nearer to the end of
/// the search.
pub proof fn lemma_expand_nearer(q: Query, dir: Direction, f: FrontierView, k: int)
    requires
        finite(q),
        q.edges.len() <= usize::MAX,
        tidy(q, f),
        valid(q.edges, f),
        valid(q.edges, stepped(q, dir, f, k)),
        0 <= k < f.queue.len(),
    ensures
        nearer(q, dir, f, stepped(q, dir, f, k)),
        tidy(q, stepped(q, dir, f, k)),
{
    let s = f.queue[k];
    let st = f.states[s as int];
    let at = st.edge as int;
    let w = incoming(q, dir, f.states, st.parent);
    let list = f.visited[at];
    let noted = marked(q, dir, f, k);
    let g = stepped(q, dir, f, k);
    let key = next_key(q, dir, noted.states, Some(s));
    let next = positions(q.edges, dir, key);
    let pred = |e: usize| admits(q, dir, noted, Some(s), e);
    let taken = next.filter(pred);
    let more = Seq::new(taken.len(), |j: int| (noted.states.len() + j) as usize);
    lemma_tags(q.edges);
    lemma_positions(q.edges, dir, key);
    if let Some(p) = st.parent {
        assert(f.states[p as int].variations.subset_of(universe(q)));
    }
    assert(w.subset_of(universe(q)));
    let popped = FrontierView { states: f.states, queue: f.queue.remove(k), visited: f.visited };
    lemma_drop_nearer(q, dir, f, k);
    lemma_record_tidy(q, popped, at, w, s);
    lemma_grow_tidy(q, dir, noted, Some(s), next);
    lemma_room(q, f);
    lemma_room(q, g);
    lemma_record_length(list, w, s);
    lemma_recorded_update(f.visited, at, record(list, w, s));
    if seen(list, w) {
        assert(g.queue =~= noted.queue + more);
        assert forall|i: int| 0 <= i < more.len() implies !is_stale(q, dir, g, #[trigger] more[i]) by {
            let e = taken[i];
            next.lemma_filter_pred(pred, i);
            assert(g.states[noted.states.len() + i] == extend(q, dir, noted.states, Some(s), e));
            assert(g.states[s as int] == noted.states[s as int]);
        }
        lemma_stale_append(q, dir, g, noted.queue, more);
        assert forall|i: int| 0 <= i < noted.queue.len() implies is_stale(
            q,
            dir,
            f,
            #[trigger] noted.queue[i],
        ) == is_stale(q, dir, g, noted.queue[i]) by {
            let t = noted.queue[i];
            assert(t == if i < k {
                f.queue[i]
            } else {
                f.queue[i + 1]
            });
            assert(g.states[t as int] == f.states[t as int]);
            if let Some(p) = f.states[t as int].parent {
                assert(g.states[p as int] == f.states[p as int]);
            }
            let e = f.states[t as int].edge as int;
            let v = incoming(q, dir, f.states, f.states[t as int].parent);
            if e == at {
                lemma_record_keeps(list, w, s, v);
            }
        }
        lemma_stale_same(q, dir, f, g, noted.queue);
        lemma_stale_remove(q, dir, f, f.queue, k);
    }
}

} // verus!
