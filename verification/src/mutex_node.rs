use vstd::prelude::*;

use crate::geom::Pos;

verus! {

/// An integer token counter, analogous to a mutex or semaphore count.
/// Admission consumes tokens; settlement produces them. The count is
/// unsigned, so it can never drop below zero; the admission algorithm's
/// readiness check guards every decrement.
#[derive(Clone, Copy, PartialEq, Eq, Structural, Debug)]
pub struct MutexNode {
    /// Position for layout; no effect on the simulation.
    pub pos: Pos,
    /// Current token count.
    pub value: u32,
}

impl MutexNode {
    /// The node invariant: the position is within the codec's coordinate
    /// range. The token count itself needs no constraint: `u32` already
    /// rules out negative values.
    pub open spec fn wf(self) -> bool {
        self.pos.wf()
    }

    pub fn new(pos: Pos) -> (n: MutexNode)
        ensures
            n.pos == pos,
            n.value == 0,
            pos.wf() ==> n.wf(),
    {
        MutexNode { pos, value: 0 }
    }
}

} // verus!
