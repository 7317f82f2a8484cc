//! What happened during a transition, and the transition itself.

use vstd::prelude::*;
use crate::coords::Coord;
use crate::obj::Obj;
use crate::world::{LogicalWorld, WorldView};

verus! {

/// One thing that happened while a world turned into another; it describes what
/// to animate and never needs replaying, since the resulting world is authoritative.
#[derive(Clone, Copy, PartialEq, Eq, Debug, Structural)]
pub enum LogicalEvent {
    Move { from: Coord, to: Coord },
    FailToMove { from: Coord, to: Coord },
    Hit { at: Coord, damages: i32 },
    Killed { obj: Obj, at: Coord, damages: i32 },
    Mined { obj: Obj, at: Coord },
    DoorOpenedWithKey { key_obj: Obj, door_obj: Obj, from: Coord, to: Coord },
    Healed { obj: Obj, at: Coord },
    RedoGained { obj: Obj, at: Coord },
    Exit { obj: Obj, from: Coord, to: Coord },
    MoveInto { obj: Obj, from: Coord, to: Coord },
    Stomped { obj: Obj, at: Coord },
}

/// A world that results from some action, with the ordered events leading to it.
#[derive(Clone)]
pub struct LogicalTransition {
    pub logical_events: Vec<LogicalEvent>,
    pub resulting_lw: LogicalWorld,
}

/// What a transition is: the resulting world and the events, in order.
pub struct TransitionView {
    pub world: WorldView,
    pub events: Seq<LogicalEvent>,
}

impl LogicalTransition {
    pub open spec fn view_of(&self) -> TransitionView {
        TransitionView { world: self.resulting_lw@, events: self.logical_events@ }
    }

    /// A transition in which nothing happens.
    pub fn from(lw: LogicalWorld) -> (r: LogicalTransition)
        ensures
            r.resulting_lw == lw,
            r.logical_events@ == Seq::<LogicalEvent>::empty(),
    {
        LogicalTransition { resulting_lw: lw, logical_events: Vec::new() }
    }
}

} // verus!
