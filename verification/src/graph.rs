//! The edge store: the registered edges and the two indices over them.

use crate::cheapest::is_cheapest;
use crate::edge::{edge_views, Cost, Data, Edge, EdgeSet, EdgeView, Key};
use crate::model::{
    ends_by_itself, ends_with, lemma_search_result, search_result, seeded, with_roots, Query,
};
use crate::plan::is_plan;
use crate::search::{found_views, Searcher};
use crate::variations::Variations;
use std::collections::HashMap;
use vstd::prelude::*;

verus! {

/// The end from which a search walks the graph.
#[derive(Clone, Copy, PartialEq, Eq, Structural)]
pub enum Direction {
    /// From the key one has, along the edges.
    Forward,
    /// From the key one wants, against the edges.
    Backward,
}

impl Direction {
    /// The other direction.
    pub open spec fn opposite(self) -> Direction {
        match self {
            Direction::Forward => Direction::Backward,
            Direction::Backward => Direction::Forward,
        }
    }

    /// The other direction.
    pub fn flip(self) -> (r: Direction)
        ensures
            r == self.opposite(),
    {
        match self {
            Direction::Forward => Direction::Backward,
            Direction::Backward => Direction::Forward,
        }
    }
}

/// The key at which a walk in direction `dir` enters the edge.
pub open spec fn entry_key(dir: Direction, e: EdgeView) -> Key {
    match dir {
        Direction::Forward => e.key_in,
        Direction::Backward => e.key_out,
    }
}

/// The key at which a walk in direction `dir` leaves the edge.
pub open spec fn exit_key(dir: Direction, e: EdgeView) -> Key {
    entry_key(dir.opposite(), e)
}

/// The positions, in ascending order, of the edges that a walk in direction
/// `dir` enters at `key`.
pub open spec fn positions(edges: Seq<EdgeView>, dir: Direction, key: Key) -> Seq<usize>
    decreases edges.len(),
{
    if edges.len() == 0 {
        Seq::empty()
    } else {
        let rest = positions(edges.drop_last(), dir, key);
        if entry_key(dir, edges.last()) == key {
            rest.push((edges.len() - 1) as usize)
        } else {
            rest
        }
    }
}

/// `positions` lists exactly the positions of the edges entered at `key`,
/// each once.
pub proof fn lemma_positions(edges: Seq<EdgeView>, dir: Direction, key: Key)
    requires
        edges.len() <= usize::MAX,
    ensures
        forall|j: int|
            0 <= j < positions(edges, dir, key).len() ==> {
                &&& (#[trigger] positions(edges, dir, key)[j]) < edges.len()
                &&& entry_key(dir, edges[positions(edges, dir, key)[j] as int]) == key
            },
        forall|i: int|
            0 <= i < edges.len() && entry_key(dir, #[trigger] edges[i]) == key ==> positions(
                edges,
                dir,
                key,
            ).contains(i as usize),
        forall|j: int, k: int|
            0 <= j < k < positions(edges, dir, key).len() ==> positions(edges, dir, key)[j]
                < positions(edges, dir, key)[k],
    decreases edges.len(),
{
    if edges.len() > 0 {
        let front = edges.drop_last();
        lemma_positions(front, dir, key);
        let rest = positions(front, dir, key);
        let all = positions(edges, dir, key);
        assert forall|i: int|
            0 <= i < edges.len() && entry_key(dir, #[trigger] edges[i]) == key implies all.contains(
            i as usize,
        ) by {
            if i < front.len() {
                assert(front[i] == edges[i]);
                let j = choose|j: int| 0 <= j < rest.len() && rest[j] == i as usize;
                assert(all[j] == i as usize);
            } else {
                assert(all[all.len() - 1] == i as usize);
            }
        }
        assert forall|j: int| 0 <= j < all.len() implies (#[trigger] all[j]) < edges.len()
            && entry_key(dir, edges[all[j] as int]) == key by {
            if j < rest.len() {
                assert(all[j] == rest[j]);
                assert(front[rest[j] as int] == edges[rest[j] as int]);
            }
        }
    }
}

/// The registered edges, indexed by the key they lead from and by the key
/// they lead to.
pub struct Graph {
    edges: Vec<Edge>,
    edges_in: HashMap<Key, Vec<usize>>,
    edges_out: HashMap<Key, Vec<usize>>,
}

impl View for Graph {
    type V = Seq<EdgeView>;

    closed spec fn view(&self) -> Seq<EdgeView> {
        self.edges@.map_values(|e: Edge| e@)
    }
}

/// What `index` holds under `key`: nothing where it has no entry.
pub open spec fn entries(index: Map<Key, Vec<usize>>, key: Key) -> Seq<usize> {
    if index.contains_key(key) {
        index[key]@
    } else {
        Seq::empty()
    }
}

impl Graph {
    /// What the index for direction `dir` holds under `key`: positions into
    /// the sequence of edges.
    pub closed spec fn index(&self, dir: Direction, key: Key) -> Seq<usize> {
        match dir {
            Direction::Forward => entries(self.edges_in@, key),
            Direction::Backward => entries(self.edges_out@, key),
        }
    }

    /// The representation invariant: every edge is well formed, no edge is
    /// held twice, and each index lists under each key exactly the edges that
    /// are entered there.
    pub closed spec fn wf(&self) -> bool {
        &&& forall|i: int| 0 <= i < self.edges.len() ==> (#[trigger] self.edges[i]).wf()
        &&& forall|i: int, j: int|
            0 <= i < j < self.edges.len() ==> (#[trigger] self.edges[i])@ != (
            #[trigger] self.edges[j])@
        &&& forall|key: Key| #[trigger]
            entries(self.edges_in@, key) == positions(self@, Direction::Forward, key)
        &&& forall|key: Key| #[trigger]
            entries(self.edges_out@, key) == positions(self@, Direction::Backward, key)
    }

    /// Both indices agree with the edges: each edge is listed under its own
    /// two keys, and what an index lists under a key is an edge entered
    /// there.
    pub proof fn lemma_index_consistency(&self)
        requires
            self.wf(),
        ensures
            self@.len() <= usize::MAX,
            forall|i: int|
                0 <= i < self@.len() ==> self.index(
                    Direction::Forward,
                    (#[trigger] self@[i]).key_in,
                ).contains(i as usize),
            forall|i: int|
                0 <= i < self@.len() ==> self.index(
                    Direction::Backward,
                    (#[trigger] self@[i]).key_out,
                ).contains(i as usize),
            forall|dir: Direction, key: Key, j: int|
                0 <= j < self.index(dir, key).len() ==> {
                    &&& (#[trigger] self.index(dir, key)[j]) < self@.len()
                    &&& entry_key(dir, self@[self.index(dir, key)[j] as int]) == key
                },
            forall|dir: Direction, key: Key| #[trigger] self.index(dir, key) == positions(self@, dir, key),
            forall|i: int, j: int| 0 <= i < j < self@.len() ==> self@[i] != self@[j],
    {
        assert(self@.len() == self.edges.len());
        assert forall|dir: Direction, key: Key| #[trigger]
            self.index(dir, key) == positions(self@, dir, key) by {
            match dir {
                Direction::Forward => {
                    assert(entries(self.edges_in@, key) == positions(
                        self@,
                        Direction::Forward,
                        key,
                    ));
                },
                Direction::Backward => {
                    assert(entries(self.edges_out@, key) == positions(
                        self@,
                        Direction::Backward,
                        key,
                    ));
                },
            }
        }
        assert forall|i: int| 0 <= i < self@.len() implies self.index(
            Direction::Forward,
            (#[trigger] self@[i]).key_in,
        ).contains(i as usize) by {
            lemma_positions(self@, Direction::Forward, self@[i].key_in);
        }
        assert forall|i: int| 0 <= i < self@.len() implies self.index(
            Direction::Backward,
            (#[trigger] self@[i]).key_out,
        ).contains(i as usize) by {
            lemma_positions(self@, Direction::Backward, self@[i].key_out);
        }
        assert forall|dir: Direction, key: Key, j: int|
            0 <= j < self.index(dir, key).len() implies (#[trigger] self.index(dir, key)[j])
            < self@.len() && entry_key(dir, self@[self.index(dir, key)[j] as int]) == key by {
            lemma_positions(self@, dir, key);
        }
        assert forall|i: int, j: int| 0 <= i < j < self@.len() implies self@[i] != self@[j] by {
            assert(self.edges[i]@ != self.edges[j]@);
        }
    }

    /// The edges of a well-formed graph can be counted, and so can what each
    /// of them costs, requires and provides.
    pub proof fn lemma_countable(&self)
        requires
            self.wf(),
        ensures
            self@.len() <= usize::MAX,
            forall|i: int|
                0 <= i < self@.len() ==> {
                    &&& 0 <= (#[trigger] self@[i]).cost <= i32::MAX
                    &&& self@[i].variations_in.finite()
                    &&& self@[i].variations_out.finite()
                    &&& self@[i].variations_in.len() <= usize::MAX
                    &&& self@[i].variations_out.len() <= usize::MAX
                },
    {
        assert(self@.len() == self.edges.len());
        assert forall|i: int| 0 <= i < self@.len() implies {
            &&& 0 <= (#[trigger] self@[i]).cost <= i32::MAX
            &&& self@[i].variations_in.finite()
            &&& self@[i].variations_out.finite()
            &&& self@[i].variations_in.len() <= usize::MAX
            &&& self@[i].variations_out.len() <= usize::MAX
        } by {
            assert(self.edges[i].wf());
            self.edges[i].lemma_wf();
        }
    }

    /// A graph without edges.
    pub fn new() -> (r: Graph)
        ensures
            r.wf(),
            r@ == Seq::<EdgeView>::empty(),
    {
        let r = Graph { edges: Vec::new(), edges_in: HashMap::new(), edges_out: HashMap::new() };
        assert(r@ =~= Seq::<EdgeView>::empty());
        r
    }

    /// The number of edges.
    pub fn len(&self) -> (r: usize)
        ensures
            r == self@.len(),
    {
        self.edges.len()
    }

    /// The edge at position `id`.
    pub fn edge(&self, id: usize) -> (r: &Edge)
        requires
            self.wf(),
            id < self@.len(),
        ensures
            r@ == self@[id as int],
            r.wf(),
    {
        &self.edges[id]
    }

    /// The positions of the edges that a walk in direction `dir` enters at
    /// `key`, or nothing where there is none.
    pub fn edges_at(&self, dir: Direction, key: Key) -> (r: Option<&Vec<usize>>)
        requires
            self.wf(),
        ensures
            match r {
                Some(list) => list@ == positions(self@, dir, key),
                None => positions(self@, dir, key) == Seq::<usize>::empty(),
            },
    {
        proof {
            self.lemma_index_consistency();
            assert(self.index(dir, key) == positions(self@, dir, key));
        }
        match dir {
            Direction::Forward => self.edges_in.get(&key),
            Direction::Backward => self.edges_out.get(&key),
        }
    }

    /// The position of the edge equal to `edge`, if the graph holds one.
    pub fn position_of(&self, edge: &Edge) -> (r: Option<usize>)
        requires
            self.wf(),
            edge.wf(),
        ensures
            match r {
                Some(id) => id < self@.len() && self@[id as int] == edge@,
                None => !self@.contains(edge@),
            },
    {
        let key = edge.key_in();
        proof {
            assert(self@.len() == self.edges.len());
            lemma_positions(self@, Direction::Forward, key);
        }
        match self.edges_at(Direction::Forward, key) {
            None => {
                assert forall|i: int| 0 <= i < self@.len() implies self@[i] != edge@ by {
                    if self@[i] == edge@ {
                        assert(positions(self@, Direction::Forward, key).contains(i as usize));
                    }
                }
                None
            },
            Some(list) => {
                let mut k: usize = 0;
                while k < list.len()
                    invariant
                        k <= list.len(),
                        self.wf(),
                        edge.wf(),
                        list@ == positions(self@, Direction::Forward, key),
                        forall|j: int|
                            0 <= j < list.len() ==> (#[trigger] list@[j]) < self@.len(),
                        forall|j: int| 0 <= j < k ==> self@[list@[j] as int] != edge@,
                    decreases list.len() - k,
                {
                    let id = list[k];
                    if self.edges[id].equals(edge) {
                        return Some(id);
                    }
                    k += 1;
                }
                assert forall|i: int| 0 <= i < self@.len() implies self@[i] != edge@ by {
                    if self@[i] == edge@ {
                        assert(list@.contains(i as usize));
                        let j = choose|j: int| 0 <= j < list.len() && list@[j] == i as usize;
                        assert(self@[list@[j] as int] != edge@);
                    }
                }
                None
            },
        }
    }

    /// Lists `id` under `key` in `index`, after what is listed there.
    fn index_add(index: &mut HashMap<Key, Vec<usize>>, key: Key, id: usize)
        ensures
            entries(final(index)@, key) == entries(old(index)@, key).push(id),
            forall|other: Key|
                other != key ==> #[trigger] entries(final(index)@, other) == entries(
                    old(index)@,
                    other,
                ),
    {
        let mut list = match index.remove(&key) {
            Some(list) => list,
            None => Vec::new(),
        };
        list.push(id);
        index.insert(key, list);
    }

    /// Registers an edge. An edge that is already registered, with the same
    /// six fields, is not registered again.
    pub fn add_edge(
        &mut self,
        cost: Cost,
        key_in: Key,
        variations_in: Variations,
        key_out: Key,
        variations_out: Variations,
        data: Data,
    )
        requires
            old(self).wf(),
            cost >= 0,
            variations_in.wf(),
            variations_out.wf(),
        ensures
            final(self).wf(),
            ({
                let edge = EdgeView {
                    cost: cost as int,
                    key_in,
                    key_out,
                    data,
                    variations_in: variations_in@,
                    variations_out: variations_out@,
                };
                final(self)@ == if old(self)@.contains(edge) {
                    old(self)@
                } else {
                    old(self)@.push(edge)
                }
            }),
    {
        let edge = Edge::new(cost, key_in, variations_in, key_out, variations_out, data);
        if self.position_of(&edge).is_some() {
            return ;
        }
        let id = self.edges.len();
        let ghost before = self@;
        let ghost ev = edge@;
        self.edges.push(edge);
        Self::index_add(&mut self.edges_in, key_in, id);
        Self::index_add(&mut self.edges_out, key_out, id);
        proof {
            assert(self@ =~= before.push(ev));
            assert(self@.drop_last() =~= before);
            assert forall|key: Key| #[trigger]
                entries(self.edges_in@, key) == positions(self@, Direction::Forward, key) by {
                assert(entries(old(self).edges_in@, key) == positions(
                    before,
                    Direction::Forward,
                    key,
                ));
            }
            assert forall|key: Key| #[trigger]
                entries(self.edges_out@, key) == positions(self@, Direction::Backward, key) by {
                assert(entries(old(self).edges_out@, key) == positions(
                    before,
                    Direction::Backward,
                    key,
                ));
            }
            assert forall|i: int, j: int| 0 <= i < j < self.edges.len() implies (
            #[trigger] self.edges[i])@ != (#[trigger] self.edges[j])@ by {
                if j == id {
                    assert(before[i] == self.edges[i]@);
                    assert(before.contains(before[i]));
                } else {
                    assert(self.edges[i] == old(self).edges[i]);
                    assert(self.edges[j] == old(self).edges[j]);
                }
            }
        }
    }

    /// Searches for a chain of edges from `key_in` with `variations_in` to
    /// `key_out` with `variations_out` that uses no edge of `skip_edges`.
    /// The search starts with the first states of both directions and takes
    /// steps until one finds a chain or both queues are empty. A chain is
    /// found exactly when there is a plan, and is a plan. Where it is found
    /// by one state that completes it by itself, it costs no more than any
    /// chain that works out when all of it is walked forward.
    pub fn search<'a>(
        &'a self,
        key_in: Key,
        variations_in: &'a Variations,
        key_out: Key,
        variations_out: &'a Variations,
        skip_edges: &'a EdgeSet,
    ) -> (r: Option<Vec<&'a Edge>>)
        requires
            self.wf(),
            variations_in.wf(),
            variations_out.wf(),
            skip_edges.wf(),
        ensures
            ({
                let q = Query {
                    edges: self@,
                    key_in,
                    variations_in: variations_in@,
                    key_out,
                    variations_out: variations_out@,
                    excluded: skip_edges@,
                };
                &&& found_views(r) == search_result(q)
                &&& exists|n: nat| ends_with(q, seeded(q), n, found_views(r))
                &&& r matches Some(c) ==> is_plan(q, edge_views(c@))
                &&& r is Some <==> exists|c: Seq<EdgeView>| is_plan(q, c)
                &&& r matches Some(c) ==> (ends_by_itself(q, seeded(q)) ==> is_cheapest(
                    q,
                    edge_views(c@),
                ))
            }),
            r matches Some(c) ==> forall|i: int| 0 <= i < c.len() ==> (#[trigger] c[i]).wf(),
    {
        let mut searcher = Searcher::new(
            key_in,
            variations_in,
            key_out,
            variations_out,
            self,
            skip_edges,
        );
        let ghost q = searcher.query();
        let ghost start = searcher@;
        let r = searcher.search();
        proof {
            let n = choose|n: nat| ends_with(q, with_roots(q, start), n, found_views(r));
            assert(ends_with(q, seeded(q), n, found_views(r)));
            lemma_search_result(q, n, found_views(r));
        }
        r
    }
}

} // verus!
