//! One tick of movement: every assigned group of units advances one edge
//! along a shortest route toward its beacon.

use vstd::prelude::*;
use crate::actions::ActionBeacon;
use crate::allocator::{sources, MoveAssignment};
use crate::graph::{Cell, EngineError, Game};

verus! {

/// The allied units of every cell.
pub open spec fn allied_units(cells: Seq<Cell>) -> Seq<int> {
    Seq::new(cells.len(), |i: int| cells[i].allied_ants as int)
}

/// The counts of a scratch copy as integers.
pub open spec fn counts(units: Seq<i32>) -> Seq<int> {
    Seq::new(units.len(), |i: int| units[i] as int)
}

/// The two boards differ at most in their allied units.
pub open spec fn same_board(a: &Game, b: &Game) -> bool {
    &&& a.cells@.len() == b.cells@.len()
    &&& a.allied_bases@ == b.allied_bases@
    &&& a.ennemy_bases@ == b.ennemy_bases@
    &&& forall|i: int|
        #![trigger a.cells@[i]]
        #![trigger b.cells@[i]]
        0 <= i < a.cells@.len() ==> {
            &&& a.cells@[i].kind == b.cells@[i].kind
            &&& a.cells@[i].resources == b.cells@[i].resources
            &&& a.cells@[i].neighbors@ == b.cells@[i].neighbors@
            &&& a.cells@[i].ennemy_ants == b.cells@[i].ennemy_ants
        }
}

/// The effect of one move on the unit counts. With no hop the units are
/// where they should be. Otherwise the amount leaves the source and arrives
/// at the hop; a count that would fall below zero is `NegativeUnitCount`, one
/// above the range of 32 bits is `Overflow`.
pub open spec fn relocate_one(units: Seq<int>, m: MoveAssignment, hop: Option<usize>) -> Result<
    Seq<int>,
    EngineError,
> {
    match hop {
        None => Ok(units),
        Some(h) => {
            let left = units[m.source as int] - m.amount;
            let after = units.update(m.source as int, left);
            let arrived = after[h as int] + m.amount;
            if left < 0 || arrived < 0 {
                Err(EngineError::NegativeUnitCount)
            } else if left > i32::MAX || arrived > i32::MAX {
                Err(EngineError::Overflow)
            } else {
                Ok(after.update(h as int, arrived))
            }
        },
    }
}

/// The unit counts after the first `k` moves, or the failure of the first
/// move that cannot be made.
pub open spec fn relocate(
    units: Seq<int>,
    moves: Seq<MoveAssignment>,
    hops: Seq<Option<usize>>,
    k: nat,
) -> Result<Seq<int>, EngineError>
    decreases k,
{
    if k == 0 {
        Ok(units)
    } else {
        match relocate(units, moves, hops, (k - 1) as nat) {
            Ok(u) => relocate_one(u, moves[k - 1], hops[k - 1]),
            Err(e) => Err(e),
        }
    }
}

/// A move that cannot be made fails all that follow.
pub proof fn lemma_relocate_failure_stays(
    units: Seq<int>,
    moves: Seq<MoveAssignment>,
    hops: Seq<Option<usize>>,
    k: nat,
    n: nat,
)
    requires
        k <= n,
        relocate(units, moves, hops, k).is_err(),
    ensures
        relocate(units, moves, hops, n) == relocate(units, moves, hops, k),
    decreases n - k,
{
    if k < n {
        lemma_relocate_failure_stays(units, moves, hops, k, (n - 1) as nat);
    }
}

/// A board that differs from a well-formed one in its allied units only is well-formed.
pub proof fn lemma_same_board_wf(a: &Game, b: &Game)
    requires
        same_board(a, b),
        a.wf(),
    ensures
        b.wf(),
{
    assert forall|u: int, k: int| 0 <= u < b.size() && 0 <= k < b.adj(u).len() implies (
    #[trigger] b.adj(u)[k]) < b.size() by {
        assert(a.cells@[u].neighbors@ == b.cells@[u].neighbors@);
        assert(a.adj(u)[k] < a.size());
    }
}

impl Game {
    /// The second cell of the first-found shortest path of the move, or
    /// nothing where the move starts on its beacon.
    pub open spec fn first_hop(&self, m: MoveAssignment) -> Option<usize> {
        let path = self.first_path(m.source, m.destination);
        if path.len() > 1 {
            Some(path[1])
        } else {
            None
        }
    }

    /// The first hop of each move.
    pub open spec fn first_hops_of(&self, moves: Seq<MoveAssignment>) -> Seq<Option<usize>> {
        Seq::new(moves.len(), |i: int| self.first_hop(moves[i]))
    }

    /// Every move has a route from its source to its destination.
    pub open spec fn moves_routable(&self, moves: Seq<MoveAssignment>) -> bool {
        forall|i: int|
            0 <= i < moves.len() ==> self.reachable(
                (#[trigger] moves[i]).source,
                moves[i].destination,
            )
    }

    /// For each move the cell next to its source on a shortest route toward
    /// its destination; `Unreachable` where some move has no route.
    pub fn first_hops(&self, moves: &Vec<MoveAssignment>) -> (r: Result<
        Vec<Option<usize>>,
        EngineError,
    >)
        requires
            self.wf(),
        ensures
            r.is_ok() <==> self.moves_routable(moves@),
            match r {
                Ok(hops) => {
                    &&& hops@ == self.first_hops_of(moves@)
                    &&& forall|i: int|
                        0 <= i < hops@.len() ==> match #[trigger] hops@[i] {
                            Some(h) => h < self.size(),
                            None => true,
                        }
                    &&& forall|i: int| 0 <= i < moves@.len() ==> (#[trigger] moves@[i]).source < self.size()
                },
                Err(e) => e == EngineError::Unreachable,
            },
    {
        let mut hops: Vec<Option<usize>> = Vec::new();
        let mut i: usize = 0;
        while i < moves.len()
            invariant
                self.wf(),
                i <= moves@.len(),
                hops@.len() == i,
                forall|k: int|
                    0 <= k < i ==> self.reachable((#[trigger] moves@[k]).source, moves@[k].destination),
                forall|k: int| 0 <= k < i ==> hops@[k] == self.first_hop(#[trigger] moves@[k]),
                forall|k: int| 0 <= k < i ==> (#[trigger] moves@[k]).source < self.size(),
                forall|k: int|
                    0 <= k < i ==> match #[trigger] hops@[k] {
                        Some(h) => h < self.size(),
                        None => true,
                    },
            decreases moves@.len() - i,
        {
            let m = moves[i];
            let path = match self.shortest_path(m.source, m.destination) {
                Ok(path) => path,
                Err(e) => {
                    return Err(e);
                },
            };
            let hop = if path.len() > 1 {
                Some(path[1])
            } else {
                None
            };
            proof {
                crate::pathfinder::lemma_walk_in_range(self, path@);
                if path@.len() > 1 {
                    assert(self.hop(path@, 0));
                }
            }
            hops.push(hop);
            i += 1;
        }
        assert(hops@ =~= self.first_hops_of(moves@));
        Ok(hops)
    }

    /// Makes the moves in their order: each takes its amount from its source
    /// and adds it to its hop. Nothing is changed unless every move can be
    /// made.
    pub fn apply_moves(&mut self, moves: &Vec<MoveAssignment>, hops: &Vec<Option<usize>>) -> (r:
        Result<(), EngineError>)
        requires
            hops@.len() == moves@.len(),
            forall|i: int| 0 <= i < moves@.len() ==> (#[trigger] moves@[i]).source < old(self).size(),
            forall|i: int|
                0 <= i < hops@.len() ==> match #[trigger] hops@[i] {
                    Some(h) => h < old(self).size(),
                    None => true,
                },
        ensures
            same_board(old(self), final(self)),
            match relocate(allied_units(old(self).cells@), moves@, hops@, moves@.len()) {
                Ok(units) => r.is_ok() && allied_units(final(self).cells@) == units,
                Err(e) => r == Err::<(), EngineError>(e) && allied_units(final(self).cells@)
                    == allied_units(old(self).cells@),
            },
    {
        let n = self.cells.len();
        let ghost before = allied_units(self.cells@);
        let mut scratch: Vec<i32> = Vec::new();
        let mut i: usize = 0;
        while i < n
            invariant
                n == self.size(),
                i <= n,
                scratch@.len() == i,
                forall|k: int| 0 <= k < i ==> (#[trigger] scratch@[k]) == self.cells@[k].allied_ants,
            decreases n - i,
        {
            scratch.push(self.cells[i].allied_ants);
            i += 1;
        }
        assert(counts(scratch@) =~= before);
        let mut k: usize = 0;
        while k < moves.len()
            invariant
                n == self.size(),
                before == allied_units(self.cells@),
                hops@.len() == moves@.len(),
                k <= moves@.len(),
                scratch@.len() == n,
                forall|i: int| 0 <= i < moves@.len() ==> (#[trigger] moves@[i]).source < n,
                forall|i: int|
                    0 <= i < hops@.len() ==> match #[trigger] hops@[i] {
                        Some(h) => h < n,
                        None => true,
                    },
                relocate(before, moves@, hops@, k as nat) == Ok::<Seq<int>, EngineError>(
                    counts(scratch@),
                ),
            decreases moves@.len() - k,
        {
            let m = moves[k];
            let ghost held = counts(scratch@);
            match hops[k] {
                None => {},
                Some(h) => {
                    let left: i64 = scratch[m.source] as i64 - m.amount as i64;
                    let base: i64 = if h == m.source {
                        left
                    } else {
                        scratch[h] as i64
                    };
                    let arrived: i64 = base + m.amount as i64;
                    if left < 0 || arrived < 0 {
                        proof {
                            lemma_relocate_failure_stays(
                                before,
                                moves@,
                                hops@,
                                (k + 1) as nat,
                                moves@.len(),
                            );
                        }
                        return Err(EngineError::NegativeUnitCount);
                    }
                    if left > 0x7fff_ffff || arrived > 0x7fff_ffff {
                        proof {
                            lemma_relocate_failure_stays(
                                before,
                                moves@,
                                hops@,
                                (k + 1) as nat,
                                moves@.len(),
                            );
                        }
                        return Err(EngineError::Overflow);
                    }
                    scratch[m.source] = left as i32;
                    scratch[h] = arrived as i32;
                    assert(counts(scratch@) =~= held.update(m.source as int, left as int).update(
                        h as int,
                        arrived as int,
                    ));
                },
            }
            k += 1;
        }
        let ghost start = *self;
        let mut i: usize = 0;
        while i < n
            invariant
                n == self.size(),
                i <= n,
                scratch@.len() == n,
                same_board(&start, self),
                forall|j: int| 0 <= j < i ==> (#[trigger] self.cells@[j]).allied_ants == scratch@[j],
            decreases n - i,
        {
            self.cells[i].allied_ants = scratch[i];
            i += 1;
        }
        assert(allied_units(self.cells@) =~= counts(scratch@));
        Ok(())
    }
}


/// Moves never leave a negative count behind.
pub proof fn lemma_relocate_keeps_counts(
    units: Seq<int>,
    moves: Seq<MoveAssignment>,
    hops: Seq<Option<usize>>,
    k: nat,
)
    requires
        k <= moves.len(),
        hops.len() == moves.len(),
        forall|i: int| 0 <= i < units.len() ==> 0 <= #[trigger] units[i],
        forall|i: int| 0 <= i < moves.len() ==> (#[trigger] moves[i]).source < units.len(),
        forall|i: int|
            0 <= i < hops.len() ==> match #[trigger] hops[i] {
                Some(h) => h < units.len(),
                None => true,
            },
    ensures
        match relocate(units, moves, hops, k) {
            Ok(after) => after.len() == units.len() && forall|i: int|
                0 <= i < after.len() ==> 0 <= #[trigger] after[i],
            Err(_) => true,
        },
    decreases k,
{
    if k > 0 {
        lemma_relocate_keeps_counts(units, moves, hops, (k - 1) as nat);
        assert(moves[k - 1].source < units.len());
        assert(match hops[k - 1] {
            Some(h) => h < units.len(),
            None => true,
        });
    }
}

impl Game {
    /// The allied units after a turn with the allied `beacons`, or the
    /// failure of the allocation or of the first move that cannot be made.
    pub open spec fn turn(&self, beacons: Seq<ActionBeacon>) -> Result<Seq<int>, EngineError> {
        match self.allocation(beacons) {
            Err(e) => Err(e),
            Ok(moves) => relocate(
                allied_units(self.cells@),
                moves,
                self.first_hops_of(moves),
                moves.len(),
            ),
        }
    }

    /// Plays one turn: allocates the allied units to the allied beacons and
    /// advances every allocated group one edge toward its beacon. The board
    /// that comes back differs from this one in its allied units only.
    pub fn step(self, allied_beacons: Vec<ActionBeacon>, _ennemy_beacons: Vec<ActionBeacon>) -> (r:
        Result<Game, EngineError>)
        requires
            self.wf(),
            self.counts_ok(),
        ensures
            match self.turn(allied_beacons@) {
                Ok(units) => r matches Ok(g) && same_board(&self, &g) && allied_units(g.cells@)
                    == units,
                Err(e) => r matches Err(x) && x == e,
            },
            match r {
                Ok(g) => g.wf() && g.counts_ok(),
                Err(_) => true,
            },
    {
        let ghost beacons = allied_beacons@;
        let mut game = self;
        let moves = match game.assign_moves(allied_beacons) {
            Ok(moves) => moves,
            Err(e) => {
                return Err(e);
            },
        };
        proof {
            assert(self.allocation(beacons) == Ok::<Seq<MoveAssignment>, EngineError>(moves@));
            let src = sources(self.cells@);
            assert forall|i: int| 0 <= i < moves@.len() implies self.reachable(
                (#[trigger] moves@[i]).source,
                moves@[i].destination,
            ) by {
                let m = moves@[i];
                let a = choose|a: int| 0 <= a < src.len() && src[a] == m.source;
                let b = choose|b: int|
                    0 <= b < beacons.len() && (#[trigger] beacons[b]).location == m.destination;
                assert(self.reachable(src[a], beacons[b].location));
            }
        }
        let hops = match game.first_hops(&moves) {
            Ok(hops) => hops,
            Err(e) => {
                return Err(e);
            },
        };
        proof {
            lemma_relocate_keeps_counts(allied_units(self.cells@), moves@, hops@, moves@.len());
        }
        match game.apply_moves(&moves, &hops) {
            Ok(()) => {
                proof {
                    lemma_same_board_wf(&self, &game);
                    assert forall|u: int| 0 <= u < game.size() implies (#[trigger] game.cells@[u]).counts_ok() by {
                        assert(self.cells@[u].counts_ok());
                        assert(allied_units(game.cells@)[u] >= 0);
                    }
                }
                Ok(game)
            },
            Err(e) => Err(e),
        }
    }
}

} // verus!
