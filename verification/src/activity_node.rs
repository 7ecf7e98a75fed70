use vstd::prelude::*;

use crate::geom::Pos;

verus! {

/// A task with a fixed execution duration. While `remaining_duration` is
/// zero the activity is idle and may be admitted; once admitted it runs for
/// `duration` ticks.
pub struct ActivityNode {
    /// Position for layout; no effect on the simulation.
    pub pos: Pos,
    /// Display name of the task.
    pub task_name: String,
    /// Display name of the activity.
    pub activity_name: String,
    /// Scheduling weight; only orders contention among simultaneously ready
    /// activities.
    pub priority: u32,
    /// Number of ticks a single execution takes.
    pub duration: u32,
    /// Ticks left of the current execution; `0` means idle.
    pub remaining_duration: u32,
}

impl ActivityNode {
    /// The node invariant: the remaining duration never exceeds the full
    /// duration, and the position is within the codec's coordinate range.
    pub open spec fn wf(self) -> bool {
        &&& self.remaining_duration <= self.duration
        &&& self.pos.wf()
    }

    pub fn new(pos: Pos) -> (n: ActivityNode)
        ensures
            n.pos == pos,
            n.task_name@ == Seq::<char>::empty(),
            n.activity_name@ == Seq::<char>::empty(),
            n.priority == 0,
            n.duration == 0,
            n.remaining_duration == 0,
            pos.wf() ==> n.wf(),
    {
        ActivityNode {
            pos,
            task_name: String::new(),
            activity_name: String::new(),
            priority: 0,
            duration: 0,
            remaining_duration: 0,
        }
    }
}

} // verus!
