//! Connected-component labels: what the labelling oracle returns, and the
//! cache that asks for it once and keeps the answer.
//!
//! The labelling itself is not done here. The cache decides: whoever asks
//! first is told to run the oracle, whoever asks while it runs is told to
//! wait, and once the oracle has answered, with labels or with a failure,
//! every later request is told that the answer is there.

use crate::error::Error;
use vstd::prelude::*;

verus! {

/// The answer of the labelling oracle: for each node the id of its
/// component, and for each component the number of its nodes.
#[derive(Debug, PartialEq, Eq)]
pub struct CCLabels {
    pub labels: Vec<u32>,
    pub num_nodes: Vec<u32>,
}

/// What is known of a value that is computed once on demand.
#[derive(Debug, PartialEq, Eq)]
pub enum Cached<T> {
    /// Not computed yet.
    Pending,
    /// Computed.
    Ready(T),
    /// The computation failed; it is not tried again.
    Failed(Error),
}

/// `top` is the greatest entry of `sizes`.
pub open spec fn is_largest(sizes: Seq<u32>, top: u32) -> bool {
    &&& sizes.contains(top)
    &&& forall|i: int| 0 <= i < sizes.len() ==> sizes[i] <= top
}

impl CCLabels {
    /// The labels are those of a graph of `n` nodes: one per node, each the
    /// id of a component that has a size.
    pub open spec fn fits(&self, n: nat) -> bool {
        &&& self.labels@.len() == n
        &&& forall|u: int|
            0 <= u < self.labels@.len() ==> (#[trigger] self.labels@[u]) < self.num_nodes@.len()
    }

    /// Whether the labels are those of a graph of `n` nodes.
    pub fn is_fit(&self, n: u32) -> (fit: bool)
        ensures
            fit == self.fits(n as nat),
    {
        if self.labels.len() != n as usize {
            return false;
        }
        let mut u: usize = 0;
        while u < self.labels.len()
            invariant
                u <= self.labels@.len(),
                forall|k: int| 0 <= k < u ==> (#[trigger] self.labels@[k]) < self.num_nodes@.len(),
            decreases self.labels@.len() - u,
        {
            if self.labels[u] as usize >= self.num_nodes.len() {
                return false;
            }
            u += 1;
        }
        true
    }

    /// The number of components.
    pub fn num_components(&self) -> (count: usize)
        ensures
            count == self.num_nodes@.len(),
    {
        self.num_nodes.len()
    }

    /// The number of nodes of the largest component, if there is a
    /// component.
    pub fn largest_component(&self) -> (largest: Option<u32>)
        ensures
            match largest {
                Some(top) => is_largest(self.num_nodes@, top),
                None => self.num_nodes@.len() == 0,
            },
    {
        if self.num_nodes.len() == 0 {
            return None;
        }
        let mut top: u32 = self.num_nodes[0];
        let mut i: usize = 1;
        while i < self.num_nodes.len()
            invariant
                1 <= i <= self.num_nodes@.len(),
                self.num_nodes@.contains(top),
                forall|k: int| 0 <= k < i ==> self.num_nodes@[k] <= top,
            decreases self.num_nodes@.len() - i,
        {
            if self.num_nodes[i] > top {
                top = self.num_nodes[i];
            }
            i += 1;
        }
        Some(top)
    }
}

/// Where the cache stands.
#[derive(Debug, PartialEq, Eq)]
pub enum CacheState {
    /// Nobody has asked yet.
    Uninitialized,
    /// The oracle is running for the first who asked.
    Computing,
    /// The oracle has answered.
    Computed(CCLabels),
    /// The oracle has failed.
    Failed(Error),
}

/// What a caller who asked for the labels has to do next.
#[derive(Debug, Clone, Copy, PartialEq, Eq, Structural)]
pub enum CacheAction {
    /// Run the oracle and hand its answer to the cache.
    Compute,
    /// Wait until the oracle has answered another caller.
    Wait,
    /// Read the answer.
    Read,
}

/// The cache as a value: its state and how often the oracle was asked for.
pub struct CacheModel {
    pub state: CacheState,
    pub oracle_calls: nat,
}

impl CacheModel {
    /// The cache before anybody asked.
    pub open spec fn fresh() -> CacheModel {
        CacheModel { state: CacheState::Uninitialized, oracle_calls: 0 }
    }

    /// The oracle has answered, with labels or with a failure.
    pub open spec fn settled(self) -> bool {
        self.state is Computed || self.state is Failed
    }

    /// The oracle was asked for once, unless nobody has asked yet.
    pub open spec fn consistent(self) -> bool {
        self.oracle_calls == if self.state is Uninitialized {
            0nat
        } else {
            1nat
        }
    }

    /// What a caller who asks now is told to do.
    pub open spec fn action(self) -> CacheAction {
        match self.state {
            CacheState::Uninitialized => CacheAction::Compute,
            CacheState::Computing => CacheAction::Wait,
            _ => CacheAction::Read,
        }
    }

    /// The cache after a caller has asked.
    pub open spec fn requested(self) -> CacheModel {
        if self.state is Uninitialized {
            CacheModel { state: CacheState::Computing, oracle_calls: self.oracle_calls + 1 }
        } else {
            self
        }
    }

    /// The cache after the oracle's answer was handed to it. An answer that
    /// nobody is waiting for changes nothing.
    pub open spec fn completed(self, outcome: Result<CCLabels, Error>) -> CacheModel {
        if self.state is Computing {
            CacheModel {
                state: match outcome {
                    Ok(labels) => CacheState::Computed(labels),
                    Err(e) => CacheState::Failed(e),
                },
                oracle_calls: self.oracle_calls,
            }
        } else {
            self
        }
    }

    /// What a reader finds.
    pub open spec fn read(self) -> Cached<CCLabels> {
        match self.state {
            CacheState::Computed(labels) => Cached::Ready(labels),
            CacheState::Failed(e) => Cached::Failed(e),
            _ => Cached::Pending,
        }
    }
}

/// The cache of component labels of one graph.
pub struct ComponentLabelCache {
    state: CacheState,
    oracle_calls: u64,
}

impl View for ComponentLabelCache {
    type V = CacheModel;

    closed spec fn view(&self) -> CacheModel {
        CacheModel { state: self.state, oracle_calls: self.oracle_calls as nat }
    }
}

impl ComponentLabelCache {
    /// The count of oracle calls goes with the state.
    #[verifier::type_invariant]
    spec fn counted(self) -> bool {
        self@.consistent()
    }

    /// A cache that nobody has asked yet.
    pub fn new() -> (cache: ComponentLabelCache)
        ensures
            cache@ == CacheModel::fresh(),
    {
        ComponentLabelCache { state: CacheState::Uninitialized, oracle_calls: 0 }
    }

    /// A caller asks for the labels and is told what to do. The first caller
    /// is told to run the oracle; this is counted.
    pub fn request(&mut self) -> (action: CacheAction)
        ensures
            action == old(self)@.action(),
            final(self)@ == old(self)@.requested(),
            final(self)@.consistent(),
        no_unwind
    {
        proof {
            use_type_invariant(&*self);
        }
        match &self.state {
            CacheState::Uninitialized => {
                *self = ComponentLabelCache { state: CacheState::Computing, oracle_calls: 1 };
                CacheAction::Compute
            },
            CacheState::Computing => CacheAction::Wait,
            _ => CacheAction::Read,
        }
    }

    /// The caller who ran the oracle hands in its answer.
    pub fn complete(&mut self, outcome: Result<CCLabels, Error>)
        ensures
            final(self)@ == old(self)@.completed(outcome),
            final(self)@.consistent(),
        no_unwind
    {
        proof {
            use_type_invariant(&*self);
        }
        match &self.state {
            CacheState::Computing => {
                let state = match outcome {
                    Ok(labels) => CacheState::Computed(labels),
                    Err(e) => CacheState::Failed(e),
                };
                *self = ComponentLabelCache { state, oracle_calls: 1 };
            },
            _ => {},
        }
    }

    /// How often a caller was told to run the oracle.
    pub fn oracle_calls(&self) -> (calls: u64)
        ensures
            calls == self@.oracle_calls,
            self@.consistent(),
    {
        proof {
            use_type_invariant(self);
        }
        self.oracle_calls
    }

    /// The answer of the oracle, as far as it is there.
    pub fn get(&self) -> (found: Cached<&CCLabels>)
        ensures
            match found {
                Cached::Ready(labels) => self@.read() == Cached::Ready(*labels),
                Cached::Failed(e) => self@.read() == Cached::<CCLabels>::Failed(e),
                Cached::Pending => self@.read() is Pending,
            },
    {
        match &self.state {
            CacheState::Computed(labels) => Cached::Ready(labels),
            CacheState::Failed(e) => Cached::Failed(*e),
            _ => Cached::Pending,
        }
    }
}

/// Whatever is asked of the cache or handed to it, the oracle is asked for
/// at most once.
pub proof fn lemma_oracle_asked_once(cache: CacheModel, outcome: Result<CCLabels, Error>)
    requires
        cache.consistent(),
    ensures
        cache.requested().consistent(),
        cache.completed(outcome).consistent(),
        cache.requested().oracle_calls <= 1,
        cache.completed(outcome).oracle_calls <= 1,
        cache.requested().action() != CacheAction::Compute,
{
}

/// Once the oracle has answered, nothing changes the cache any more: every
/// reader finds the same answer, and no caller is told to run the oracle.
pub proof fn lemma_settled_stays(cache: CacheModel, outcome: Result<CCLabels, Error>)
    requires
        cache.settled(),
    ensures
        cache.requested() == cache,
        cache.completed(outcome) == cache,
        cache.action() == CacheAction::Read,
        cache.requested().read() == cache.read(),
        cache.completed(outcome).read() == cache.read(),
{
}

/// Two reads in a row, from a cache that nobody has asked yet: the first
/// caller runs the oracle and hands in `first`; the second caller is told to
/// read, a further answer `second` is not taken, both find what came of
/// `first`, and the oracle was asked for once.
pub proof fn lemma_get_twice(first: Result<CCLabels, Error>, second: Result<CCLabels, Error>)
    ensures
        ({
            let fresh = CacheModel::fresh();
            let once = fresh.requested().completed(first);
            let twice = once.requested().completed(second);
            &&& fresh.action() == CacheAction::Compute
            &&& once.action() == CacheAction::Read
            &&& once.settled()
            &&& twice == once
            &&& twice.read() == once.read()
            &&& once.read() == match first {
                Ok(labels) => Cached::Ready(labels),
                Err(e) => Cached::Failed(e),
            }
            &&& twice.oracle_calls == 1
        }),
{
}

} // verus!
