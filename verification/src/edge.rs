//! Edges: registered conversions with their signature.

use crate::variations::{
    lemma_seq_order_flip, lemma_seq_order_trans, listing, seq_order, set_order, Variant, Variations,
};
use vstd::prelude::*;

verus! {

/// A key: the name of a type of values, a node of the graph.
pub type Key = u64;

/// A payload: the name of the callable of an edge.
pub type Data = u64;

/// What it costs to take an edge. Costs are not negative.
pub type Cost = i32;

/// What an edge is, as plain mathematical values.
pub ghost struct EdgeView {
    pub cost: int,
    pub key_in: Key,
    pub key_out: Key,
    pub data: Data,
    pub variations_in: Set<Variant>,
    pub variations_out: Set<Variant>,
}

/// Puts the first decisive comparison first: `a` unless it is zero, else `b`.
pub open spec fn then_order(a: int, b: int) -> int {
    if a != 0 {
        a
    } else {
        b
    }
}

/// The order of two integers as -1, 0 or 1.
pub open spec fn int_order(a: int, b: int) -> int {
    if a < b {
        -1
    } else if a > b {
        1
    } else {
        0
    }
}

/// The order of two edges: by cost, then source key, target key, payload,
/// required variations and provided variations.
pub open spec fn edge_order(a: EdgeView, b: EdgeView) -> int {
    then_order(
        int_order(a.cost, b.cost),
        then_order(
            int_order(a.key_in as int, b.key_in as int),
            then_order(
                int_order(a.key_out as int, b.key_out as int),
                then_order(
                    int_order(a.data as int, b.data as int),
                    then_order(
                        set_order(a.variations_in, b.variations_in),
                        set_order(a.variations_out, b.variations_out),
                    ),
                ),
            ),
        ),
    )
}

/// Swapping the arguments of `edge_order` negates its result.
pub proof fn lemma_edge_order_flip(a: EdgeView, b: EdgeView)
    ensures
        edge_order(b, a) == -edge_order(a, b),
        -1 <= edge_order(a, b) <= 1,
{
    lemma_seq_order_flip(listing(a.variations_in), listing(b.variations_in));
    lemma_seq_order_flip(listing(a.variations_out), listing(b.variations_out));
}

/// `edge_order` is transitive, and strictly so where one of the two steps is
/// strict.
pub proof fn lemma_edge_order_trans(a: EdgeView, b: EdgeView, c: EdgeView)
    requires
        edge_order(a, b) <= 0,
        edge_order(b, c) <= 0,
    ensures
        edge_order(a, c) <= 0,
        edge_order(a, b) < 0 || edge_order(b, c) < 0 ==> edge_order(a, c) < 0,
{
    let (ai, bi, ci) = (listing(a.variations_in), listing(b.variations_in), listing(c.variations_in));
    let (ao, bo, co) = (
        listing(a.variations_out),
        listing(b.variations_out),
        listing(c.variations_out),
    );
    lemma_seq_order_flip(ai, bi);
    lemma_seq_order_flip(bi, ci);
    lemma_seq_order_flip(ai, ci);
    lemma_seq_order_flip(ao, bo);
    lemma_seq_order_flip(bo, co);
    lemma_seq_order_flip(ao, co);
    if seq_order(ai, bi) <= 0 && seq_order(bi, ci) <= 0 {
        lemma_seq_order_trans(ai, bi, ci);
    }
    if seq_order(ao, bo) <= 0 && seq_order(bo, co) <= 0 {
        lemma_seq_order_trans(ao, bo, co);
    }
}

/// A registered conversion: what it costs, the keys it leads from and to, the
/// variations it requires and provides, and the payload that names its
/// callable.
pub struct Edge {
    cost: Cost,
    key_in: Key,
    key_out: Key,
    pub data: Data,
    variations_in: Variations,
    variations_out: Variations,
}

impl View for Edge {
    type V = EdgeView;

    closed spec fn view(&self) -> EdgeView {
        EdgeView {
            cost: self.cost as int,
            key_in: self.key_in,
            key_out: self.key_out,
            data: self.data,
            variations_in: self.variations_in@,
            variations_out: self.variations_out@,
        }
    }
}

impl Clone for Edge {
    fn clone(&self) -> (r: Self)
        ensures
            r@ == self@,
            r.wf() == self.wf(),
    {
        Edge {
            cost: self.cost,
            key_in: self.key_in,
            key_out: self.key_out,
            data: self.data,
            variations_in: self.variations_in.clone(),
            variations_out: self.variations_out.clone(),
        }
    }
}

impl Edge {
    /// The representation invariant: the cost is not negative and both
    /// variation sets are well formed.
    pub closed spec fn wf(&self) -> bool {
        &&& self.cost >= 0
        &&& self.variations_in.wf()
        &&& self.variations_out.wf()
    }

    /// What follows from well-formedness about the view.
    pub proof fn lemma_wf(&self)
        requires
            self.wf(),
        ensures
            0 <= self@.cost <= i32::MAX,
            self@.variations_in.finite(),
            self@.variations_out.finite(),
            self@.variations_in.len() <= usize::MAX,
            self@.variations_out.len() <= usize::MAX,
    {
        self.variations_in.lemma_wf();
        self.variations_out.lemma_wf();
    }

    /// An edge from `key_in` to `key_out`.
    pub fn new(
        cost: Cost,
        key_in: Key,
        variations_in: Variations,
        key_out: Key,
        variations_out: Variations,
        data: Data,
    ) -> (r: Edge)
        requires
            cost >= 0,
            variations_in.wf(),
            variations_out.wf(),
        ensures
            r.wf(),
            r@ == (EdgeView {
                cost: cost as int,
                key_in,
                key_out,
                data,
                variations_in: variations_in@,
                variations_out: variations_out@,
            }),
    {
        Edge { cost, key_in, key_out, data, variations_in, variations_out }
    }

    /// The cost of taking this edge.
    pub fn cost(&self) -> (r: Cost)
        ensures
            r == self@.cost,
    {
        self.cost
    }

    /// The key this edge leads from.
    pub fn key_in(&self) -> (r: Key)
        ensures
            r == self@.key_in,
    {
        self.key_in
    }

    /// The key this edge leads to.
    pub fn key_out(&self) -> (r: Key)
        ensures
            r == self@.key_out,
    {
        self.key_out
    }

    /// The payload that names the callable of this edge.
    pub fn data(&self) -> (r: Data)
        ensures
            r == self@.data,
    {
        self.data
    }

    /// The variations this edge requires of its input.
    pub fn variations_in(&self) -> (r: &Variations)
        ensures
            r@ == self@.variations_in,
            self.wf() ==> r.wf(),
    {
        &self.variations_in
    }

    /// The variations this edge provides on its output.
    pub fn variations_out(&self) -> (r: &Variations)
        ensures
            r@ == self@.variations_out,
            self.wf() ==> r.wf(),
    {
        &self.variations_out
    }

    /// Whether the two edges agree in all six fields.
    pub fn equals(&self, other: &Edge) -> (r: bool)
        requires
            self.wf(),
            other.wf(),
        ensures
            r == (self@ == other@),
    {
        self.cost == other.cost && self.key_in == other.key_in && self.key_out == other.key_out
            && self.data == other.data && self.variations_in.equals(&other.variations_in)
            && self.variations_out.equals(&other.variations_out)
    }

    /// Orders two edges: -1 where `self` comes first, 0 where they are equal,
    /// 1 where `other` comes first.
    pub fn order(&self, other: &Edge) -> (r: i8)
        requires
            self.wf(),
            other.wf(),
        ensures
            r == edge_order(self@, other@),
    {
        if self.cost < other.cost {
            -1
        } else if self.cost > other.cost {
            1
        } else if self.key_in < other.key_in {
            -1
        } else if self.key_in > other.key_in {
            1
        } else if self.key_out < other.key_out {
            -1
        } else if self.key_out > other.key_out {
            1
        } else if self.data < other.data {
            -1
        } else if self.data > other.data {
            1
        } else {
            let by_in = self.variations_in.order(&other.variations_in);
            if by_in != 0 {
                by_in
            } else {
                self.variations_out.order(&other.variations_out)
            }
        }
    }
}

/// The views of the edges of a chain.
pub open spec fn edge_views(chain: Seq<&Edge>) -> Seq<EdgeView> {
    chain.map_values(|e: &Edge| e@)
}

/// A set of edges, such as the edges that a search must not use.
pub struct EdgeSet {
    edges: Vec<Edge>,
}

impl View for EdgeSet {
    type V = Set<EdgeView>;

    closed spec fn view(&self) -> Set<EdgeView> {
        self.edges@.map_values(|e: Edge| e@).to_set()
    }
}

impl EdgeSet {
    /// The representation invariant: every edge held is well formed.
    pub closed spec fn wf(&self) -> bool {
        forall|i: int| 0 <= i < self.edges.len() ==> (#[trigger] self.edges[i]).wf()
    }

    /// The empty set.
    pub fn new() -> (r: EdgeSet)
        ensures
            r.wf(),
            r@ == Set::<EdgeView>::empty(),
    {
        let r = EdgeSet { edges: Vec::new() };
        assert(r@ =~= Set::<EdgeView>::empty());
        r
    }

    /// Whether `edge` is in the set.
    pub fn contains(&self, edge: &Edge) -> (r: bool)
        requires
            self.wf(),
            edge.wf(),
        ensures
            r == self@.contains(edge@),
    {
        let ghost views = self.edges@.map_values(|e: Edge| e@);
        let mut i: usize = 0;
        while i < self.edges.len()
            invariant
                i <= self.edges.len(),
                self.wf(),
                edge.wf(),
                views == self.edges@.map_values(|e: Edge| e@),
                forall|k: int| 0 <= k < i ==> views[k] != edge@,
            decreases self.edges.len() - i,
        {
            if self.edges[i].equals(edge) {
                assert(views[i as int] == edge@);
                assert(views.contains(edge@));
                return true;
            }
            i += 1;
        }
        false
    }

    /// Adds `edge` to the set. Returns whether it was new.
    pub fn insert(&mut self, edge: Edge) -> (r: bool)
        requires
            old(self).wf(),
            edge.wf(),
        ensures
            final(self).wf(),
            final(self)@ == old(self)@.insert(edge@),
            r == !old(self)@.contains(edge@),
    {
        if self.contains(&edge) {
            assert(self@ =~= self@.insert(edge@));
            return false;
        }
        proof {
            let views = self.edges@.map_values(|e: Edge| e@);
            views.lemma_push_to_set_commute(edge@);
            assert(self.edges@.push(edge).map_values(|e: Edge| e@) =~= views.push(edge@));
        }
        self.edges.push(edge);
        true
    }
}

} // verus!
