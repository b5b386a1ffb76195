//! Intents that a player declares for a turn, and their expansion into beacons.

use vstd::prelude::*;
use crate::graph::{CellKind, EngineError, Game};
use crate::text::{push_i32, push_usize, text_of};

verus! {

/// Move `strength` from `source` toward `destination`.
#[derive(Clone, Copy, Debug, PartialEq, Eq, Structural)]
pub struct ActionLine {
    pub source: usize,
    pub destination: usize,
    pub strength: i32,
}

/// A weighted waypoint that attracts units.
#[derive(Clone, Copy, Debug, PartialEq, Eq, Structural)]
pub struct ActionBeacon {
    pub location: usize,
    pub strength: i32,
}

/// Free text shown beside a player.
#[derive(Clone, Debug, PartialEq, Eq)]
pub struct ActionMessage {
    pub message: String,
}

/// What a player declares for a turn.
#[derive(Clone, Debug, PartialEq, Eq)]
pub enum Action {
    Wait,
    Line(ActionLine),
    Beacon(ActionBeacon),
    ActionMessage(ActionMessage),
}

impl Game {
    /// One beacon on every cell of the first-found shortest path from the
    /// line's source to its destination, each with the line's strength.
    pub open spec fn line_expansion(&self, line: ActionLine) -> Seq<ActionBeacon> {
        let path = self.first_path(line.source, line.destination);
        Seq::new(
            path.len(),
            |i: int| ActionBeacon { location: path[i], strength: line.strength },
        )
    }

    /// One beacon on every cell of the shortest route that `line` names, or
    /// `Unreachable` where its ends are not connected.
    pub fn line_beacons(&self, line: ActionLine) -> (r: Result<Vec<ActionBeacon>, EngineError>)
        requires
            self.wf(),
        ensures
            r.is_ok() <==> self.reachable(line.source, line.destination),
            match r {
                Ok(beacons) => beacons@ == self.line_expansion(line),
                Err(e) => e == EngineError::Unreachable,
            },
    {
        let path = match self.shortest_path(line.source, line.destination) {
            Ok(path) => path,
            Err(e) => {
                return Err(e);
            },
        };
        let mut beacons: Vec<ActionBeacon> = Vec::new();
        let mut i: usize = 0;
        while i < path.len()
            invariant
                i <= path@.len(),
                beacons@.len() == i,
                forall|k: int|
                    0 <= k < i ==> (#[trigger] beacons@[k]).location == path@[k] && beacons@[k].strength
                        == line.strength,
            decreases path@.len() - i,
        {
            beacons.push(ActionBeacon { location: path[i], strength: line.strength });
            i += 1;
        }
        assert(beacons@ =~= self.line_expansion(line));
        Ok(beacons)
    }

    /// One beacon on every cell of the shortest route that `line` names.
    pub fn beacons_of_line(&self, line: ActionLine) -> (beacons: Vec<ActionBeacon>)
        requires
            self.wf(),
            self.reachable(line.source, line.destination),
        ensures
            beacons@ == self.line_expansion(line),
    {
        match self.line_beacons(line) {
            Ok(beacons) => beacons,
            Err(_) => Vec::new(),
        }
    }
}


/// The line by which an action is declared: `WAIT`, `LINE` with source,
/// destination and strength, `BEACON` with location and strength, or
/// `MESSAGE` with its text.
pub open spec fn action_text(a: Action) -> Seq<u8> {
    match a {
        Action::Wait => seq![87u8, 65u8, 73u8, 84u8],
        Action::Line(l) => seq![76u8, 73u8, 78u8, 69u8, 32u8] + text_of(l.source as int) + seq![
            32u8,
        ] + text_of(l.destination as int) + seq![32u8] + text_of(l.strength as int),
        Action::Beacon(b) => seq![66u8, 69u8, 65u8, 67u8, 79u8, 78u8, 32u8] + text_of(
            b.location as int,
        ) + seq![32u8] + text_of(b.strength as int),
        Action::ActionMessage(m) => seq![77u8, 69u8, 83u8, 83u8, 65u8, 71u8, 69u8, 32u8]
            + vstd::utf8::encode_utf8(m.message@),
    }
}

impl Action {
    /// Writes the action as the line that declares it.
    pub fn to_line(&self) -> (out: Vec<u8>)
        ensures
            out@ == action_text(*self),
    {
        match self {
            Action::Wait => {
                let out: Vec<u8> = vec![87u8, 65u8, 73u8, 84u8];
                assert(out@ =~= action_text(*self));
                out
            },
            Action::Line(l) => {
                let mut out: Vec<u8> = vec![76u8, 73u8, 78u8, 69u8, 32u8];
                assert(out@ =~= seq![76u8, 73u8, 78u8, 69u8, 32u8]);
                push_usize(l.source, &mut out);
                out.push(32);
                push_usize(l.destination, &mut out);
                out.push(32);
                push_i32(l.strength, &mut out);
                assert(out@ =~= action_text(*self));
                out
            },
            Action::Beacon(b) => {
                let mut out: Vec<u8> = vec![66u8, 69u8, 65u8, 67u8, 79u8, 78u8, 32u8];
                assert(out@ =~= seq![66u8, 69u8, 65u8, 67u8, 79u8, 78u8, 32u8]);
                push_usize(b.location, &mut out);
                out.push(32);
                push_i32(b.strength, &mut out);
                assert(out@ =~= action_text(*self));
                out
            },
            Action::ActionMessage(m) => {
                let mut out: Vec<u8> = vec![77u8, 69u8, 83u8, 83u8, 65u8, 71u8, 69u8, 32u8];
                assert(out@ =~= seq![77u8, 69u8, 83u8, 83u8, 65u8, 71u8, 69u8, 32u8]);
                out.extend_from_slice(m.message.as_str().as_bytes());
                assert(out@ =~= action_text(*self));
                out
            },
        }
    }
}


impl Game {
    /// Some cell with eggs is fewer than five edges away from `base`.
    pub open spec fn eggs_nearby(&self, base: usize) -> bool {
        exists|v: usize|
            self.reachable(base, v) && #[trigger] self.is_target(v, CellKind::Eggs)
                && self.spec_distance(base, v) < 5
    }

    /// The intent of a turn: a line of strength 100 from the first allied
    /// base to the closest eggs where they are fewer than five edges away,
    /// else to the closest crystals, else nothing.
    pub fn plan_turn(&self) -> (action: Action)
        requires
            self.wf(),
            self.allied_bases@.len() > 0,
            self.allied_bases@[0] < self.size(),
        ensures
            match action {
                Action::Line(l) => {
                    &&& l.source == self.allied_bases@[0]
                    &&& l.strength == 100
                    &&& if self.eggs_nearby(l.source) {
                        self.is_closest(l.source, CellKind::Eggs, l.destination)
                    } else {
                        self.is_closest(l.source, CellKind::Crystals, l.destination)
                    }
                },
                Action::Wait => !self.eggs_nearby(self.allied_bases@[0]) && !self.has_target(
                    self.allied_bases@[0],
                    CellKind::Crystals,
                ),
                _ => false,
            },
    {
        let base = self.allied_bases[0];
        match self.closest_cell(base, CellKind::Eggs) {
            Some((distance, index)) => {
                if distance < 5 {
                    return Action::Line(
                        ActionLine { source: base, destination: index, strength: 100 },
                    );
                }
            },
            None => {},
        }
        match self.closest_cell(base, CellKind::Crystals) {
            Some((_, index)) => Action::Line(
                ActionLine { source: base, destination: index, strength: 100 },
            ),
            None => Action::Wait,
        }
    }
}

} // verus!
