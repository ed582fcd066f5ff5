//! The search for the shape of a circuit that verifies proofs of its own shape.

use vstd::prelude::*;

verus! {

/// Layers that are tried before the search gives up.
pub const MAX_LAYERS: usize = 8;

#[derive(Clone, Copy, Debug, PartialEq, Eq, Structural)]
pub enum CyclicPhase {
    /// The layer without recursion gives the first candidate.
    Seed,
    /// Layers were built on this many candidates, none of which was a fixed
    /// point.
    Layers { built: usize },
    /// The last layer has the shape that it was built on.
    Found,
    NoFixedPoint,
    Failed,
}

/// What the builder is to do next.
#[derive(Clone, Copy, Debug, PartialEq, Eq, Structural)]
pub enum CyclicAction {
    BuildSeed,
    /// Build the layer that verifies proofs of the candidate's shape.
    BuildLayer,
    Stop,
}

/// What the builder did.
#[derive(Clone, Copy, Debug, PartialEq, Eq, Structural)]
pub enum CyclicEvent {
    /// The seed's shape is the candidate.
    Seeded,
    /// A layer was built; `same` says whether it has the candidate's shape.
    /// If not, its shape is the next candidate.
    Layered { same: bool },
    Error,
}

/// The phase that an event leads to. What was not asked for fails.
pub open spec fn cyclic_next(phase: CyclicPhase, event: CyclicEvent) -> CyclicPhase {
    match (phase, event) {
        (CyclicPhase::Seed, CyclicEvent::Seeded) => CyclicPhase::Layers { built: 0 },
        (CyclicPhase::Layers { built }, CyclicEvent::Layered { same }) => if same {
            CyclicPhase::Found
        } else if built + 1 >= MAX_LAYERS {
            CyclicPhase::NoFixedPoint
        } else {
            CyclicPhase::Layers { built: (built + 1) as usize }
        },
        (CyclicPhase::Found, _) => phase,
        (CyclicPhase::NoFixedPoint, _) => phase,
        _ => CyclicPhase::Failed,
    }
}

/// A search for the fixed point.
#[derive(Clone, Copy, Debug)]
pub struct CyclicSearch {
    pub phase: CyclicPhase,
}

impl CyclicSearch {
    pub open spec fn wf(self) -> bool {
        self.phase matches CyclicPhase::Layers { built } ==> built < MAX_LAYERS
    }

    /// What the builder is to do next.
    pub fn action(&self) -> (action: CyclicAction)
        ensures
            action == (match self.phase {
                CyclicPhase::Seed => CyclicAction::BuildSeed,
                CyclicPhase::Layers { .. } => CyclicAction::BuildLayer,
                _ => CyclicAction::Stop,
            }),
    {
        match self.phase {
            CyclicPhase::Seed => CyclicAction::BuildSeed,
            CyclicPhase::Layers { .. } => CyclicAction::BuildLayer,
            _ => CyclicAction::Stop,
        }
    }

    /// Takes in what the builder did.
    pub fn advance(&mut self, event: CyclicEvent)
        requires
            old(self).wf(),
        ensures
            final(self).wf(),
            final(self).phase == cyclic_next(old(self).phase, event),
    {
        self.phase = match (self.phase, event) {
            (CyclicPhase::Seed, CyclicEvent::Seeded) => CyclicPhase::Layers { built: 0 },
            (CyclicPhase::Layers { built }, CyclicEvent::Layered { same }) => if same {
                CyclicPhase::Found
            } else if built + 1 >= MAX_LAYERS {
                CyclicPhase::NoFixedPoint
            } else {
                CyclicPhase::Layers { built: built + 1 }
            },
            (CyclicPhase::Found, _) => CyclicPhase::Found,
            (CyclicPhase::NoFixedPoint, _) => CyclicPhase::NoFixedPoint,
            _ => CyclicPhase::Failed,
        };
    }
}

/// Starts the search.
pub fn build_cyclic_circuit() -> (search: CyclicSearch)
    ensures
        search.wf(),
        search.phase == CyclicPhase::Seed,
{
    CyclicSearch { phase: CyclicPhase::Seed }
}

/// The phase after a row of layers was built on top of the seed.
pub open spec fn cyclic_after(same: Seq<bool>) -> CyclicPhase
    decreases same.len(),
{
    if same.len() == 0 {
        CyclicPhase::Layers { built: 0 }
    } else {
        cyclic_next(cyclic_after(same.drop_last()), CyclicEvent::Layered { same: same.last() })
    }
}

/// The search finds a fixed point exactly if one of the first layers has the
/// shape of its candidate, and gives up exactly if all of them were built and
/// none has.
pub proof fn lemma_search_is_exhaustive(same: Seq<bool>)
    requires
        same.len() <= MAX_LAYERS,
    ensures
        cyclic_after(same) is Found <==> same.contains(true),
        cyclic_after(same) is NoFixedPoint <==> !same.contains(true) && same.len() == MAX_LAYERS,
        !same.contains(true) && same.len() < MAX_LAYERS ==> cyclic_after(same) == (
        CyclicPhase::Layers { built: same.len() as usize }),
    decreases same.len(),
{
    if same.len() > 0 {
        let shorter = same.drop_last();
        lemma_search_is_exhaustive(shorter);
        if same.contains(true) {
            let i = choose|i: int| 0 <= i < same.len() && same[i];
            if i < shorter.len() {
                assert(shorter[i]);
            }
        }
        if shorter.contains(true) {
            let i = choose|i: int| 0 <= i < shorter.len() && shorter[i];
            assert(same[i]);
        }
        if same.last() {
            assert(same[same.len() - 1]);
        }
    }
}

/// An error or what was not asked for ends a search that is under way, and one that
/// has come to an end stays as it is.
pub proof fn lemma_only_answers_go_on(phase: CyclicPhase, event: CyclicEvent)
    ensures
        phase is Found || phase is NoFixedPoint || phase is Failed ==> cyclic_next(phase, event)
            == phase,
        phase is Seed && !(event is Seeded) ==> cyclic_next(phase, event) is Failed,
        phase is Layers && !(event is Layered) ==> cyclic_next(phase, event) is Failed,
{
}

} // verus!
