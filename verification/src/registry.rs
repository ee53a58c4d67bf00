//! The registry: the graph of conversions, and the revealers of each key.

use crate::edge::{Cost, Data, EdgeView, Key};
use crate::graph::Graph;
use crate::variations::Variations;
use std::collections::HashMap;
use vstd::prelude::*;

verus! {

/// Why a conversion could not be registered.
#[derive(Clone, Copy, PartialEq, Eq, Structural, Debug)]
pub enum RegistryError {
    /// The cost is negative.
    NegativeCost,
}

/// The registered conversions, and for each key the revealers registered
/// for it. A revealer is named by a handle; it inspects a value and yields
/// variations that the value has.
pub struct Registry {
    graph: Graph,
    revealers: HashMap<Key, Vec<u64>>,
}

/// What a registry holds.
pub ghost struct RegistryView {
    /// The edges, in the order in which they were registered.
    pub edges: Seq<EdgeView>,
    /// For each key with revealers, their handles in the order in which
    /// they were registered.
    pub revealers: Map<Key, Seq<u64>>,
}

impl RegistryView {
    /// The revealers of `key`, in the order in which they were registered.
    pub open spec fn revealers_of(self, key: Key) -> Seq<u64> {
        if self.revealers.contains_key(key) {
            self.revealers[key]
        } else {
            Seq::empty()
        }
    }
}

impl View for Registry {
    type V = RegistryView;

    closed spec fn view(&self) -> RegistryView {
        RegistryView {
            edges: self.graph@,
            revealers: Map::new(
                |key: Key| self.revealers@.contains_key(key),
                |key: Key| self.revealers@[key]@,
            ),
        }
    }
}

impl Registry {
    /// The representation invariant: the graph is well formed.
    pub closed spec fn wf(&self) -> bool {
        self.graph.wf()
    }

    /// A registry without conversions and revealers.
    pub fn new() -> (r: Registry)
        ensures
            r.wf(),
            r@ == (RegistryView { edges: Seq::empty(), revealers: Map::empty() }),
    {
        let r = Registry { graph: Graph::new(), revealers: HashMap::new() };
        assert(r@.revealers =~= Map::empty());
        r
    }

    /// The graph of the registered conversions.
    pub fn graph(&self) -> (r: &Graph)
        ensures
            r@ == self@.edges,
            self.wf() ==> r.wf(),
    {
        &self.graph
    }

    /// Registers a conversion from `key_in` to `key_out` whose callable is
    /// named by `payload`. A negative cost is refused. A conversion that is
    /// already registered, with the same six values, is not registered again.
    pub fn add_conversion(
        &mut self,
        cost: Cost,
        key_in: Key,
        variations_in: Variations,
        key_out: Key,
        variations_out: Variations,
        payload: Data,
    ) -> (r: Result<(), RegistryError>)
        requires
            old(self).wf(),
            variations_in.wf(),
            variations_out.wf(),
        ensures
            final(self).wf(),
            final(self)@.revealers == old(self)@.revealers,
            cost < 0 <==> r == Err::<(), RegistryError>(RegistryError::NegativeCost),
            cost >= 0 <==> r is Ok,
            ({
                let edge = EdgeView {
                    cost: cost as int,
                    key_in,
                    key_out,
                    data: payload,
                    variations_in: variations_in@,
                    variations_out: variations_out@,
                };
                final(self)@.edges == if cost < 0 || old(self)@.edges.contains(edge) {
                    old(self)@.edges
                } else {
                    old(self)@.edges.push(edge)
                }
            }),
    {
        if cost < 0 {
            return Err(RegistryError::NegativeCost);
        }
        self.graph.add_edge(cost, key_in, variations_in, key_out, variations_out, payload);
        Ok(())
    }

    /// Registers `revealer` for `key_in`, after the revealers that are
    /// registered for it.
    pub fn add_revealer(&mut self, key_in: Key, revealer: u64)
        requires
            old(self).wf(),
        ensures
            final(self).wf(),
            final(self)@.edges == old(self)@.edges,
            final(self)@.revealers == old(self)@.revealers.insert(
                key_in,
                old(self)@.revealers_of(key_in).push(revealer),
            ),
    {
        let ghost before = self@;
        let mut list = match self.revealers.remove(&key_in) {
            Some(list) => list,
            None => Vec::new(),
        };
        list.push(revealer);
        self.revealers.insert(key_in, list);
        assert(self@.revealers =~= before.revealers.insert(
            key_in,
            before.revealers_of(key_in).push(revealer),
        ));
    }

    /// The revealers of `key`, in the order in which they were registered.
    pub fn revealers(&self, key: Key) -> (r: Vec<u64>)
        ensures
            r@ == self@.revealers_of(key),
    {
        match self.revealers.get(&key) {
            Some(list) => {
                let r = list.clone();
                assert(r@ =~= list@);
                r
            },
            None => Vec::new(),
        }
    }

    /// Forgets every conversion and every revealer.
    pub fn clear(&mut self)
        ensures
            final(self).wf(),
            final(self)@ == (RegistryView { edges: Seq::empty(), revealers: Map::empty() }),
    {
        self.graph = Graph::new();
        self.revealers.clear();
        assert(self@.revealers =~= Map::empty());
    }
}

} // verus!
