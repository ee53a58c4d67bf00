//! What makes a chain of edges a plan.
//!
//! A chain leads from the key one has to the key one wants when its edges
//! follow one another. Walked forward, each edge consumes the variations it
//! requires and adds those it provides. Walked backward from what is wanted,
//! each edge takes away what it provides and asks for what it requires.

use crate::edge::EdgeView;
use crate::graph::Direction;
use crate::model::{advance, Query};
use crate::variations::Variant;
use vstd::prelude::*;

verus! {

/// The variations that are active after the chain was walked forward with
/// `w` active before it.
pub open spec fn after(w: Set<Variant>, c: Seq<EdgeView>) -> Set<Variant>
    decreases c.len(),
{
    if c.len() == 0 {
        w
    } else {
        advance(Direction::Forward, after(w, c.drop_last()), c.last())
    }
}

/// Whether, with `w` active before the chain, every edge finds active what
/// it requires.
pub open spec fn feasible(w: Set<Variant>, c: Seq<EdgeView>) -> bool
    decreases c.len(),
{
    c.len() == 0 || (feasible(w, c.drop_last()) && c.last().variations_in.subset_of(
        after(w, c.drop_last()),
    ))
}

/// The variations that are required before the chain when `want` is wanted
/// after it, each edge walked backward.
pub open spec fn required(c: Seq<EdgeView>, want: Set<Variant>) -> Set<Variant>
    decreases c.len(),
{
    if c.len() == 0 {
        want
    } else {
        advance(Direction::Backward, required(c.drop_first(), want), c.first())
    }
}

/// What the chain costs: the sum of the costs of its edges.
pub open spec fn total_cost(c: Seq<EdgeView>) -> int
    decreases c.len(),
{
    if c.len() == 0 {
        0
    } else {
        total_cost(c.drop_last()) + c.last().cost
    }
}

/// A chain with one more edge at its end costs that much more.
pub proof fn lemma_total_cost(c: Seq<EdgeView>, e: EdgeView)
    ensures
        total_cost(c.push(e)) == total_cost(c) + e.cost,
        total_cost(Seq::empty()) == 0,
{
    assert(c.push(e).drop_last() =~= c);
}

/// A chain costs what its first edge and the chain after it cost.
pub proof fn lemma_total_cost_first(c: Seq<EdgeView>)
    requires
        c.len() > 0,
    ensures
        total_cost(c) == c.first().cost + total_cost(c.drop_first()),
    decreases c.len(),
{
    if c.len() == 1 {
        assert(c.drop_last() =~= Seq::empty());
        assert(c.drop_first() =~= Seq::empty());
        assert(total_cost(c.drop_last()) == 0);
    } else {
        lemma_total_cost_first(c.drop_last());
        assert(c.drop_last().drop_first() =~= c.drop_first().drop_last());
        assert(c.drop_first().last() == c.last());
        assert(c.drop_last().first() == c.first());
    }
}

/// Whether each edge of the chain leads to the key that the next leads from.
pub open spec fn connected(c: Seq<EdgeView>) -> bool {
    forall|i: int| 0 < i < c.len() ==> c[i - 1].key_out == (#[trigger] c[i]).key_in
}

/// Whether the chain leads from the key one has to the key one wants over
/// edges of the graph, none of them excluded.
pub open spec fn leads(q: Query, c: Seq<EdgeView>) -> bool {
    &&& c.len() > 0
    &&& c.first().key_in == q.key_in
    &&& c.last().key_out == q.key_out
    &&& connected(c)
    &&& forall|i: int| 0 <= i < c.len() ==> q.edges.contains(#[trigger] c[i])
    &&& forall|i: int| 0 <= i < c.len() ==> !q.excluded.contains(#[trigger] c[i])
}

/// Whether the chain works out when its first `m` edges are walked forward
/// and the others backward: the first `m` find active what they require,
/// and what the others require is active after the first `m`.
pub open spec fn meets_after(q: Query, c: Seq<EdgeView>, m: int) -> bool {
    &&& 0 <= m <= c.len()
    &&& feasible(q.variations_in, c.take(m))
    &&& required(c.skip(m), q.variations_out).subset_of(after(q.variations_in, c.take(m)))
}

/// Whether the chain is a plan: it leads from the key one has to the key
/// one wants, and works out when walked forward to some edge and backward
/// from there.
pub open spec fn is_plan(q: Query, c: Seq<EdgeView>) -> bool {
    &&& leads(q, c)
    &&& exists|m: int| meets_after(q, c, m)
}

/// Whether the chain works out when all of it is walked forward: every edge
/// finds active what it requires, and in the end all that is wanted is
/// active.
pub open spec fn is_sound(q: Query, c: Seq<EdgeView>) -> bool {
    &&& leads(q, c)
    &&& feasible(q.variations_in, c)
    &&& q.variations_out.subset_of(after(q.variations_in, c))
}

/// Whether no edge of the chain consumes, without providing it again, a
/// variation that is still required after it when `want` is wanted after
/// the chain.
pub open spec fn keeps(c: Seq<EdgeView>, want: Set<Variant>) -> bool {
    forall|j: int|
        0 <= j < c.len() ==> (#[trigger] c[j]).variations_in.intersect(
            required(c.skip(j + 1), want),
        ).subset_of(c[j].variations_out)
}

/// A chain that works out when walked forward to its edge `m` and backward
/// from there works out when all of it is walked forward, provided that no
/// edge from `m` on consumes what is still required after it.
pub proof fn lemma_kept_plan_is_sound(q: Query, c: Seq<EdgeView>, m: int)
    requires
        leads(q, c),
        meets_after(q, c, m),
        keeps(c.skip(m), q.variations_out),
    ensures
        is_sound(q, c),
    decreases c.len() - m,
{
    if m == c.len() {
        assert(c.take(m) =~= c);
        assert(c.skip(m) =~= Seq::empty());
    } else {
        let rest = c.skip(m);
        let e = c[m];
        let done = c.take(m);
        assert(rest.first() == e);
        assert(rest.drop_first() =~= c.skip(m + 1));
        assert(rest.skip(0int + 1) =~= c.skip(m + 1));
        assert(c.take(m + 1).drop_last() =~= done);
        assert(c.take(m + 1).last() == e);
        let need = required(c.skip(m + 1), q.variations_out);
        let have = after(q.variations_in, done);
        assert(rest[0].variations_in.intersect(need).subset_of(rest[0].variations_out));
        assert(required(rest, q.variations_out) == advance(Direction::Backward, need, e));
        assert(after(q.variations_in, c.take(m + 1)) == advance(Direction::Forward, have, e));
        assert forall|x: Variant| need.contains(x) implies after(
            q.variations_in,
            c.take(m + 1),
        ).contains(x) by {
            if !e.variations_out.contains(x) {
                assert(required(rest, q.variations_out).contains(x));
                assert(have.contains(x));
                if e.variations_in.contains(x) {
                    assert(e.variations_in.intersect(need).contains(x));
                }
            }
        }
        assert forall|j: int| 0 <= j < c.skip(m + 1).len() implies (#[trigger] c.skip(
            m + 1,
        )[j]).variations_in.intersect(
            required(c.skip(m + 1).skip(j + 1), q.variations_out),
        ).subset_of(c.skip(m + 1)[j].variations_out) by {
            assert(rest[j + 1] == c.skip(m + 1)[j]);
            assert(rest.skip(j + 1 + 1) =~= c.skip(m + 1).skip(j + 1));
        }
        lemma_kept_plan_is_sound(q, c, m + 1);
    }
}

/// Walking a chain forward is walking its first edge and then the chain
/// after it.
pub proof fn lemma_walk_first(w: Set<Variant>, c: Seq<EdgeView>)
    requires
        c.len() > 0,
    ensures
        after(w, c) == after(advance(Direction::Forward, w, c.first()), c.drop_first()),
        feasible(w, c) == (c.first().variations_in.subset_of(w) && feasible(
            advance(Direction::Forward, w, c.first()),
            c.drop_first(),
        )),
    decreases c.len(),
{
    let none = Seq::<EdgeView>::empty();
    let next = advance(Direction::Forward, w, c.first());
    if c.len() == 1 {
        assert(c.drop_last() =~= none);
        assert(c.drop_first() =~= none);
        assert(after(w, none) == w);
        assert(after(next, none) == next);
        assert(feasible(w, none));
        assert(feasible(next, none));
    } else {
        lemma_walk_first(w, c.drop_last());
        assert(c.drop_last().drop_first() =~= c.drop_first().drop_last());
        assert(c.drop_first().last() == c.last());
        assert(c.drop_last().first() == c.first());
    }
}

/// Walking a chain forward is walking its first `m` edges and then the
/// others.
pub proof fn lemma_walk_split(w: Set<Variant>, c: Seq<EdgeView>, m: int)
    requires
        0 <= m <= c.len(),
    ensures
        after(w, c) == after(after(w, c.take(m)), c.skip(m)),
        feasible(w, c) == (feasible(w, c.take(m)) && feasible(after(w, c.take(m)), c.skip(m))),
    decreases c.len() - m,
{
    let none = Seq::<EdgeView>::empty();
    if m == c.len() {
        assert(c.take(m) =~= c);
        assert(c.skip(m) =~= none);
        assert(after(after(w, c), none) == after(w, c));
        assert(feasible(after(w, c), none));
    } else {
        lemma_walk_split(w, c, m + 1);
        lemma_walk_first(after(w, c.take(m)), c.skip(m));
        assert(c.skip(m).drop_first() =~= c.skip(m + 1));
        assert(c.take(m + 1).drop_last() =~= c.take(m));
        assert(c.take(m + 1).last() == c[m]);
        assert(c.skip(m).first() == c[m]);
    }
}

/// Where a chain works out when walked forward with `w` active before it,
/// what it requires before it, walked backward, is active.
pub proof fn lemma_required_is_active(w: Set<Variant>, c: Seq<EdgeView>, want: Set<Variant>)
    requires
        feasible(w, c),
        want.subset_of(after(w, c)),
    ensures
        required(c, want).subset_of(w),
    decreases c.len(),
{
    if c.len() > 0 {
        lemma_walk_first(w, c);
        let next = advance(Direction::Forward, w, c.first());
        lemma_required_is_active(next, c.drop_first(), want);
    }
}

/// A plan that works out when all of it is walked forward has, from the
/// edge at which its two parts meet on, no edge that consumes what is still
/// required after it.
pub proof fn lemma_sound_plan_keeps(q: Query, c: Seq<EdgeView>, m: int)
    requires
        0 <= m <= c.len(),
        is_sound(q, c),
    ensures
        keeps(c.skip(m), q.variations_out),
{
    let rest = c.skip(m);
    assert forall|j: int| 0 <= j < rest.len() implies (#[trigger] rest[j]).variations_in.intersect(
        required(rest.skip(j + 1), q.variations_out),
    ).subset_of(rest[j].variations_out) by {
        let at = m + j;
        let e = c[at];
        assert(rest[j] == e);
        assert(rest.skip(j + 1) =~= c.skip(at + 1));
        let have = after(q.variations_in, c.take(at + 1));
        lemma_walk_split(q.variations_in, c, at + 1);
        lemma_required_is_active(have, c.skip(at + 1), q.variations_out);
        assert(c.take(at + 1).last() == e);
        assert(have == advance(
            Direction::Forward,
            after(q.variations_in, c.take(at + 1).drop_last()),
            e,
        ));
    }
}

/// In a graph in which every edge provides what it requires, every plan
/// works out when all of it is walked forward.
pub proof fn lemma_plan_is_sound_where_edges_keep(q: Query, c: Seq<EdgeView>)
    requires
        is_plan(q, c),
        forall|i: int|
            0 <= i < q.edges.len() ==> (#[trigger] q.edges[i]).variations_in.subset_of(
                q.edges[i].variations_out,
            ),
    ensures
        is_sound(q, c),
{
    let m = choose|m: int| meets_after(q, c, m);
    let rest = c.skip(m);
    assert forall|j: int| 0 <= j < rest.len() implies (#[trigger] rest[j]).variations_in.intersect(
        required(rest.skip(j + 1), q.variations_out),
    ).subset_of(rest[j].variations_out) by {
        assert(q.edges.contains(c[m + j]));
        let i = choose|i: int| 0 <= i < q.edges.len() && q.edges[i] == c[m + j];
        assert(q.edges[i].variations_in.subset_of(q.edges[i].variations_out));
    }
    lemma_kept_plan_is_sound(q, c, m);
}

/// What a chain requires is what its first `m` edges require when what the
/// others require is wanted after them.
pub proof fn lemma_required_split(c: Seq<EdgeView>, m: int, want: Set<Variant>)
    requires
        0 <= m <= c.len(),
    ensures
        required(c, want) == required(c.take(m), required(c.skip(m), want)),
    decreases m,
{
    if m == 0 {
        assert(c.take(0) =~= Seq::empty());
        assert(c.skip(0) =~= c);
    } else {
        lemma_required_split(c.drop_first(), m - 1, want);
        assert(c.take(m).drop_first() =~= c.drop_first().take(m - 1));
        assert(c.skip(m) =~= c.drop_first().skip(m - 1));
        assert(c.take(m).first() == c.first());
    }
}

/// A chain is a plan exactly when it leads from the key one has to the key
/// one wants and, walked backward, requires no more than one has.
pub proof fn lemma_plan_requires_what_one_has(q: Query, c: Seq<EdgeView>)
    ensures
        is_plan(q, c) <==> leads(q, c) && required(c, q.variations_out).subset_of(
            q.variations_in,
        ),
{
    let none = Seq::<EdgeView>::empty();
    if is_plan(q, c) {
        let m = choose|m: int| meets_after(q, c, m);
        lemma_required_split(c, m, q.variations_out);
        lemma_required_is_active(
            q.variations_in,
            c.take(m),
            required(c.skip(m), q.variations_out),
        );
    }
    if leads(q, c) && required(c, q.variations_out).subset_of(q.variations_in) {
        assert(c.take(0) =~= none);
        assert(c.skip(0) =~= c);
        assert(feasible(q.variations_in, none));
        assert(after(q.variations_in, none) == q.variations_in);
        assert(meets_after(q, c, 0));
    }
}

/// A chain works out when all of it is walked forward exactly when it is a
/// plan of which no edge consumes what is still required after it.
pub proof fn lemma_sound_is_kept_plan(q: Query, c: Seq<EdgeView>)
    ensures
        is_sound(q, c) <==> is_plan(q, c) && keeps(c, q.variations_out),
{
    assert(c.skip(0) =~= c);
    if is_sound(q, c) {
        lemma_sound_is_plan(q, c);
        lemma_sound_plan_keeps(q, c, 0);
    }
    if is_plan(q, c) && keeps(c, q.variations_out) {
        lemma_plan_requires_what_one_has(q, c);
        assert(c.take(0) =~= Seq::empty());
        assert(feasible(q.variations_in, Seq::<EdgeView>::empty()));
        assert(after(q.variations_in, Seq::<EdgeView>::empty()) == q.variations_in);
        assert(meets_after(q, c, 0));
        lemma_kept_plan_is_sound(q, c, 0);
    }
}

/// A plan uses no excluded edge, and only edges of the graph.
pub proof fn lemma_plan_avoids_excluded(q: Query, c: Seq<EdgeView>)
    requires
        is_plan(q, c),
    ensures
        forall|i: int| 0 <= i < c.len() ==> !q.excluded.contains(#[trigger] c[i]),
        forall|i: int| 0 <= i < c.len() ==> q.edges.contains(#[trigger] c[i]),
{
}

/// A chain that works out when all of it is walked forward is a plan.
pub proof fn lemma_sound_is_plan(q: Query, c: Seq<EdgeView>)
    requires
        is_sound(q, c),
    ensures
        is_plan(q, c),
{
    assert(c.take(c.len() as int) =~= c);
    assert(c.skip(c.len() as int) =~= Seq::empty());
    assert(meets_after(q, c, c.len() as int));
}

} // verus!
