//! A player's committed plan for one turn.
use vstd::prelude::*;

use super::arena::NodeId;
use super::unit::TrainKind;

verus! {

/// One instruction within a turn.
#[derive(Clone, Copy, Debug, PartialEq, Eq, Structural)]
pub enum Command {
    /// Spawn a train of `kind` at lane `lane` (clamped to available lanes).
    /// Costs steam; skipped if unaffordable when processed.
    Deploy { kind: TrainKind, lane: usize },
    /// Set this faction's routing choice at a junction (persists across turns).
    SetSwitch { node: NodeId, choice: u8 },
}

/// Everything one player commits for a turn, applied in order.
#[derive(Clone, Debug, Default, PartialEq, Eq)]
pub struct Orders {
    pub commands: Vec<Command>,
}

impl Orders {
    pub fn new() -> (r: Self)
        ensures
            r.commands@ == Seq::<Command>::empty(),
    {
        Orders { commands: Vec::new() }
    }

    /// Builder helper: deploy a train in a lane.
    pub fn deploy(self, kind: TrainKind, lane: usize) -> (r: Self)
        ensures
            r.commands@ == self.commands@.push(Command::Deploy { kind, lane }),
    {
        let mut o = self;
        o.commands.push(Command::Deploy { kind, lane });
        o
    }

    /// Builder helper: set a switch.
    pub fn switch(self, node: NodeId, choice: u8) -> (r: Self)
        ensures
            r.commands@ == self.commands@.push(Command::SetSwitch { node, choice }),
    {
        let mut o = self;
        o.commands.push(Command::SetSwitch { node, choice });
        o
    }
}

} // verus!
