use vstd::prelude::*;

use crate::activity_node::ActivityNode;
use crate::mutex_node::MutexNode;

verus! {

/// The direction of an edge between an activity and a mutex. There is at
/// most one connection record per (activity, mutex) pair; adding the
/// opposite direction upgrades the record to `TwoWay`.
#[derive(Clone, Copy, PartialEq, Eq, Structural, Debug)]
pub enum Direction {
    MutexToActivity,
    ActivityToMutex,
    TwoWay,
}

/// States of the automaton that animates the mutex-to-activity half of an
/// edge. The automaton observes the simulation and never influences it.
#[derive(Clone, Copy, PartialEq, Eq, Structural, Debug)]
pub enum MutexToActivityState {
    Uncharged,
    Charging,
    Charged,
    Forwarding,
    Uncharging,
}

/// States of the automaton that animates the activity-to-mutex half of an
/// edge.
#[derive(Clone, Copy, PartialEq, Eq, Structural, Debug)]
pub enum ActivityToMutexState {
    Uncharged,
    Charging,
    Forwarding,
}

/// Colour selector handed to the rendering collaborator.
#[derive(Clone, Copy, PartialEq, Eq, Structural, Debug)]
pub enum Color {
    Default,
    Active,
}

/// One transition of the mutex-to-activity automaton. `just_started` is
/// whether the connected activity began running this very tick, that is
/// whether its remaining duration equals its full duration.
pub open spec fn step_mutex_to_activity(
    state: MutexToActivityState,
    mutex_value: u32,
    just_started: bool,
) -> MutexToActivityState {
    let was_charging = state is Charging || state is Charged;
    if mutex_value == 0 {
        if was_charging && just_started {
            MutexToActivityState::Forwarding
        } else if was_charging {
            MutexToActivityState::Uncharging
        } else {
            MutexToActivityState::Uncharged
        }
    } else {
        if was_charging {
            MutexToActivityState::Charged
        } else {
            MutexToActivityState::Charging
        }
    }
}

/// One transition of the activity-to-mutex automaton, driven by the
/// connected activity's remaining duration.
pub open spec fn step_activity_to_mutex(
    state: ActivityToMutexState,
    remaining_duration: u32,
) -> ActivityToMutexState {
    if remaining_duration == 1 {
        ActivityToMutexState::Charging
    } else {
        match state {
            ActivityToMutexState::Uncharged => ActivityToMutexState::Uncharged,
            ActivityToMutexState::Charging => ActivityToMutexState::Forwarding,
            ActivityToMutexState::Forwarding => ActivityToMutexState::Uncharged,
        }
    }
}

/// A directed or bidirectional edge between one activity and one mutex,
/// together with the two animation automata, one per direction.
#[derive(Clone, Copy, PartialEq, Eq, Structural, Debug)]
pub struct Connection {
    pub direction: Direction,
    pub activity_to_mutex_state: ActivityToMutexState,
    pub mutex_to_activity_state: MutexToActivityState,
}

impl Connection {
    /// A fresh connection record: the given direction, both automata at
    /// rest.
    pub open spec fn spec_new(direction: Direction) -> Connection {
        Connection {
            direction,
            activity_to_mutex_state: ActivityToMutexState::Uncharged,
            mutex_to_activity_state: MutexToActivityState::Uncharged,
        }
    }

    pub fn new(direction: Direction) -> (c: Connection)
        ensures
            c.direction == direction,
            c.activity_to_mutex_state == ActivityToMutexState::Uncharged,
            c.mutex_to_activity_state == MutexToActivityState::Uncharged,
    {
        Connection {
            direction,
            activity_to_mutex_state: ActivityToMutexState::Uncharged,
            mutex_to_activity_state: MutexToActivityState::Uncharged,
        }
    }

    pub fn get_direction(&self) -> (d: Direction)
        ensures
            d == self.direction,
    {
        self.direction
    }

    pub fn set_direction(&mut self, direction: Direction)
        ensures
            final(self).direction == direction,
            final(self).activity_to_mutex_state == old(self).activity_to_mutex_state,
            final(self).mutex_to_activity_state == old(self).mutex_to_activity_state,
    {
        self.direction = direction;
    }

    /// Advance the mutex-to-activity automaton once, unconditionally.
    pub fn tick_mutex_to_activity(&mut self, activity_node: &ActivityNode, mutex_node: &MutexNode)
        ensures
            final(self).direction == old(self).direction,
            final(self).activity_to_mutex_state == old(self).activity_to_mutex_state,
            final(self).mutex_to_activity_state == step_mutex_to_activity(
                old(self).mutex_to_activity_state,
                mutex_node.value,
                activity_node.duration == activity_node.remaining_duration,
            ),
    {
        let just_started = activity_node.duration == activity_node.remaining_duration;
        let was_charging = match self.mutex_to_activity_state {
            MutexToActivityState::Charging => true,
            MutexToActivityState::Charged => true,
            _ => false,
        };
        self.mutex_to_activity_state = if mutex_node.value == 0 {
            if was_charging && just_started {
                MutexToActivityState::Forwarding
            } else if was_charging {
                MutexToActivityState::Uncharging
            } else {
                MutexToActivityState::Uncharged
            }
        } else {
            if was_charging {
                MutexToActivityState::Charged
            } else {
                MutexToActivityState::Charging
            }
        };
    }

    /// Advance the activity-to-mutex automaton once, unconditionally.
    pub fn tick_activity_to_mutex(&mut self, activity_node: &ActivityNode)
        ensures
            final(self).direction == old(self).direction,
            final(self).mutex_to_activity_state == old(self).mutex_to_activity_state,
            final(self).activity_to_mutex_state == step_activity_to_mutex(
                old(self).activity_to_mutex_state,
                activity_node.remaining_duration,
            ),
    {
        self.activity_to_mutex_state = if activity_node.remaining_duration == 1 {
            ActivityToMutexState::Charging
        } else {
            match self.activity_to_mutex_state {
                ActivityToMutexState::Uncharged => ActivityToMutexState::Uncharged,
                ActivityToMutexState::Charging => ActivityToMutexState::Forwarding,
                ActivityToMutexState::Forwarding => ActivityToMutexState::Uncharged,
            }
        };
    }

    /// What `tick` leaves in a connection: each automaton advances exactly
    /// when its direction is part of the edge.
    pub open spec fn spec_tick(
        self,
        activity_node: ActivityNode,
        mutex_node: MutexNode,
    ) -> Connection {
        Connection {
            direction: self.direction,
            mutex_to_activity_state: if self.direction != Direction::ActivityToMutex {
                step_mutex_to_activity(
                    self.mutex_to_activity_state,
                    mutex_node.value,
                    activity_node.duration == activity_node.remaining_duration,
                )
            } else {
                self.mutex_to_activity_state
            },
            activity_to_mutex_state: if self.direction != Direction::MutexToActivity {
                step_activity_to_mutex(
                    self.activity_to_mutex_state,
                    activity_node.remaining_duration,
                )
            } else {
                self.activity_to_mutex_state
            },
        }
    }

    /// Advance both automata as far as the edge's direction carries them.
    pub fn tick(&mut self, activity_node: &ActivityNode, mutex_node: &MutexNode)
        ensures
            *final(self) == old(self).spec_tick(*activity_node, *mutex_node),
    {
        let run_mutex_to_activity = match self.direction {
            Direction::ActivityToMutex => false,
            _ => true,
        };
        let run_activity_to_mutex = match self.direction {
            Direction::MutexToActivity => false,
            _ => true,
        };
        if run_mutex_to_activity {
            self.tick_mutex_to_activity(activity_node, mutex_node);
        }
        if run_activity_to_mutex {
            self.tick_activity_to_mutex(activity_node);
        }
    }
}

} // verus!
