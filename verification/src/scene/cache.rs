//! A cache of world transforms, stamped with the generation they were made in.
//!
//! Every invalidation starts a new generation, so one invalidation makes
//! every stamp stale at once.

use vstd::prelude::*;
use std::collections::HashMap;
use super::NodeId;

verus! {

broadcast use vstd::std_specs::hash::group_hash_axioms;

/// Cached world transforms by slot number, with the generation of each.
#[derive(Debug)]
pub struct TransformCache {
    transforms: HashMap<u32, glam::Mat4>,
    generation: u64,
    node_generations: HashMap<u32, u64>,
}

impl TransformCache {
    /// The cached transforms.
    pub closed spec fn cached(&self) -> Map<u32, glam::Mat4> {
        self.transforms@
    }

    /// The generation in which each cached transform was stored.
    pub closed spec fn stamps(&self) -> Map<u32, u64> {
        self.node_generations@
    }

    /// The current generation.
    pub closed spec fn current(&self) -> u64 {
        self.generation
    }

    /// No stamp is newer than the current generation.
    pub closed spec fn wf(&self) -> bool {
        forall|k: u32| #[trigger] self.node_generations@.contains_key(k) ==> self.node_generations@[k] <= self.generation
    }

    /// Whether the node in slot `id` has a stamp of the current generation.
    pub open spec fn valid(&self, id: NodeId) -> bool {
        self.stamps().contains_key(id.0) && self.stamps()[id.0] == self.current()
    }

    /// An empty cache at generation 0.
    pub fn new() -> (c: Self)
        ensures
            c.wf(),
            c.cached() == Map::<u32, glam::Mat4>::empty(),
            c.stamps() == Map::<u32, u64>::empty(),
            c.current() == 0,
    {
        TransformCache { transforms: HashMap::new(), generation: 0, node_generations: HashMap::new() }
    }

    /// The cached transform of the node in slot `id`, if any.
    pub fn get(&self, id: NodeId) -> (r: Option<&glam::Mat4>)
        ensures
            match r {
                Some(m) => self.cached().contains_key(id.0) && *m == self.cached()[id.0],
                None => !self.cached().contains_key(id.0),
            },
    {
        self.transforms.get(&id.0)
    }

    /// Stores `transform` for the node in slot `id`, stamped with the current
    /// generation.
    pub fn update(&mut self, id: NodeId, transform: glam::Mat4)
        requires
            old(self).wf(),
        ensures
            final(self).wf(),
            final(self).cached() == old(self).cached().insert(id.0, transform),
            final(self).stamps() == old(self).stamps().insert(id.0, old(self).current()),
            final(self).current() == old(self).current(),
            final(self).valid(id),
    {
        self.transforms.insert(id.0, transform);
        self.node_generations.insert(id.0, self.generation);
    }

    /// Drops the node in slot `id` and starts a new generation, which leaves
    /// every stored stamp stale.
    pub fn invalidate(&mut self, id: NodeId)
        requires
            old(self).wf(),
            old(self).current() < u64::MAX,
        ensures
            final(self).wf(),
            final(self).cached() == old(self).cached().remove(id.0),
            final(self).stamps() == old(self).stamps().remove(id.0),
            final(self).current() == old(self).current() + 1,
            forall|x: NodeId| !final(self).valid(x),
    {
        self.generation = self.generation + 1;
        self.node_generations.remove(&id.0);
        self.transforms.remove(&id.0);
    }

    /// Whether the node in slot `id` has a stamp of the current generation.
    pub fn is_valid(&self, id: NodeId) -> (b: bool)
        ensures
            b == self.valid(id),
    {
        match self.node_generations.get(&id.0) {
            Some(g) => *g == self.generation,
            None => false,
        }
    }

    /// Drops every cached transform and starts a new generation.
    pub fn clear(&mut self)
        requires
            old(self).current() < u64::MAX,
        ensures
            final(self).wf(),
            final(self).cached() == Map::<u32, glam::Mat4>::empty(),
            final(self).stamps() == Map::<u32, u64>::empty(),
            final(self).current() == old(self).current() + 1,
    {
        self.transforms.clear();
        self.node_generations.clear();
        self.generation = self.generation + 1;
    }
}

impl Default for TransformCache {
    fn default() -> (c: Self)
        ensures
            c.wf(),
            c.cached() == Map::<u32, glam::Mat4>::empty(),
            c.stamps() == Map::<u32, u64>::empty(),
            c.current() == 0,
    {
        TransformCache::new()
    }
}

} // verus!
