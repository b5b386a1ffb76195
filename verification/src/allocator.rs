//! Rationing of units between beacons: nearest pairs first.

use vstd::prelude::*;
use vstd::arithmetic::div_mod::lemma_fundamental_div_mod;
use vstd::arithmetic::div_mod::lemma_fundamental_div_mod_converse;
use crate::actions::ActionBeacon;
use crate::graph::{Cell, EngineError, Game};
use crate::pathfinder::lemma_tree_distance;
use vstd::seq_lib::{to_multiset_contains, to_multiset_len};

verus! {

/// An order to move `amount` units from the cell `source` toward the cell
/// `destination`, on which a beacon stands.
#[derive(Clone, Copy, Debug, PartialEq, Eq, Structural)]
pub struct MoveAssignment {
    pub source: usize,
    pub destination: usize,
    pub amount: i32,
}

/// `x` is the value of some `i32`.
pub open spec fn fits_i32(x: int) -> bool {
    i32::MIN <= x <= i32::MAX
}

/// The allied units on the first `k` cells.
pub open spec fn units_upto(cells: Seq<Cell>, k: nat) -> int
    decreases k,
{
    if k == 0 {
        0
    } else {
        units_upto(cells, (k - 1) as nat) + cells[k - 1].allied_ants
    }
}

/// All allied units on the board.
pub open spec fn total_units(cells: Seq<Cell>) -> int {
    units_upto(cells, cells.len())
}

/// The strengths of the first `k` beacons, added up.
pub open spec fn strength_upto(beacons: Seq<ActionBeacon>, k: nat) -> int
    decreases k,
{
    if k == 0 {
        0
    } else {
        strength_upto(beacons, (k - 1) as nat) + beacons[k - 1].strength
    }
}

/// The strengths of all beacons, added up.
pub open spec fn total_strength(beacons: Seq<ActionBeacon>) -> int {
    strength_upto(beacons, beacons.len())
}

/// `strength * total_strength / total_units`, rounded down.
pub open spec fn scaled_floor(strength: int, total_strength: int, total_units: int) -> int {
    (strength * total_strength) / total_units
}

/// `strength * total_strength / total_units`, rounded up.
pub open spec fn scaled_ceil(strength: int, total_strength: int, total_units: int) -> int {
    -((-(strength * total_strength)) / total_units)
}

/// The units that a beacon asks for: its scaled strength rounded down, and at least one.
pub open spec fn baseline_demand(strength: int, total_strength: int, total_units: int) -> int {
    let low = scaled_floor(strength, total_strength, total_units);
    if low >= 1 {
        low
    } else {
        1
    }
}

/// The slack of a beacon: its scaled strength rounded up, less its unscaled strength.
pub open spec fn wiggle_room(strength: int, total_strength: int, total_units: int) -> int {
    scaled_ceil(strength, total_strength, total_units) - strength
}

/// Both the demand and the slack of a beacon fit in 32 bits.
pub open spec fn sink_fits(strength: int, total_strength: int, total_units: int) -> bool {
    fits_i32(baseline_demand(strength, total_strength, total_units)) && fits_i32(
        wiggle_room(strength, total_strength, total_units),
    )
}

/// Largest magnitude of a sum of strengths or units that the allocator handles.
pub open spec fn total_bound() -> int {
    0x8000_0000_0000_0000_0000_0000
}

/// The product of a strength and a sum of strengths fits in 128 bits.
proof fn lemma_product_bound(a: int, b: int)
    requires
        -0x8000_0000 <= a <= 0x8000_0000,
        -total_bound() <= b <= total_bound(),
    ensures
        -0x4000_0000_0000_0000_0000_0000_0000_0000 <= a * b
            <= 0x4000_0000_0000_0000_0000_0000_0000_0000,
{
    assert(-0x4000_0000_0000_0000_0000_0000_0000_0000 <= a * b
        <= 0x4000_0000_0000_0000_0000_0000_0000_0000) by (nonlinear_arith)
        requires
            -0x8000_0000 <= a <= 0x8000_0000,
            -0x8000_0000_0000_0000_0000_0000 <= b <= 0x8000_0000_0000_0000_0000_0000,
    ;
}

/// Rounding a quotient with a positive divisor down and up, from the
/// quotient and remainder of the magnitudes.
proof fn lemma_rounding(num: int, den: int, q: int, r: int)
    requires
        den > 0,
        0 <= r < den,
        (if num >= 0 {
            num
        } else {
            -num
        }) == q * den + r,
    ensures
        num >= 0 ==> num / den == q && -((-num) / den) == (if r == 0 {
            q
        } else {
            q + 1
        }),
        num < 0 ==> -((-num) / den) == -q && num / den == (if r == 0 {
            -q
        } else {
            -q - 1
        }),
{
    if num >= 0 {
        lemma_fundamental_div_mod_converse(num, den, q, r);
        if r == 0 {
            assert(-num == (-q) * den + 0) by (nonlinear_arith)
                requires
                    num == q * den + r,
                    r == 0,
            ;
            lemma_fundamental_div_mod_converse(-num, den, -q, 0);
        } else {
            assert(-num == (-q - 1) * den + (den - r)) by (nonlinear_arith)
                requires
                    num == q * den + r,
            ;
            lemma_fundamental_div_mod_converse(-num, den, -q - 1, den - r);
        }
    } else {
        lemma_fundamental_div_mod_converse(-num, den, q, r);
        if r == 0 {
            assert(num == (-q) * den + 0) by (nonlinear_arith)
                requires
                    -num == q * den + r,
                    r == 0,
            ;
            lemma_fundamental_div_mod_converse(num, den, -q, 0);
        } else {
            assert(num == (-q - 1) * den + (den - r)) by (nonlinear_arith)
                requires
                    -num == q * den + r,
            ;
            lemma_fundamental_div_mod_converse(num, den, -q - 1, den - r);
        }
    }
}

/// The demand and the slack of one beacon, given the sum of all strengths and
/// the sum of all units; `None` where one of the two does not fit in 32 bits.
pub fn scale_beacon(strength: i32, total_strength: i128, total_units: i128) -> (r: Option<
    (i32, i32),
>)
    requires
        total_units > 0,
        -total_bound() <= total_strength <= total_bound(),
    ensures
        r.is_some() <==> sink_fits(strength as int, total_strength as int, total_units as int),
        match r {
            Some((demand, wiggle)) => {
                &&& demand == baseline_demand(
                    strength as int,
                    total_strength as int,
                    total_units as int,
                )
                &&& wiggle == wiggle_room(strength as int, total_strength as int, total_units as int)
            },
            None => true,
        },
{
    proof {
        lemma_product_bound(strength as int, total_strength as int);
    }
    let num: i128 = (strength as i128) * total_strength;
    let magnitude: i128 = if num >= 0 {
        num
    } else {
        -num
    };
    let q: i128 = magnitude / total_units;
    let r: i128 = magnitude % total_units;
    proof {
        lemma_fundamental_div_mod(magnitude as int, total_units as int);
        assert(magnitude == q * total_units + r) by (nonlinear_arith)
            requires
                magnitude == total_units * q + r,
        ;
        lemma_rounding(num as int, total_units as int, q as int, r as int);
    }
    let low: i128 = if num >= 0 || r == 0 {
        if num >= 0 {
            q
        } else {
            -q
        }
    } else {
        -q - 1
    };
    let high: i128 = if num < 0 || r == 0 {
        if num >= 0 {
            q
        } else {
            -q
        }
    } else {
        q + 1
    };
    assert(low == scaled_floor(strength as int, total_strength as int, total_units as int));
    assert(high == scaled_ceil(strength as int, total_strength as int, total_units as int));
    let demand: i128 = if low >= 1 {
        low
    } else {
        1
    };
    let wiggle: i128 = high - (strength as i128);
    if demand > 0x7fff_ffff || wiggle > 0x7fff_ffff || wiggle < -0x8000_0000 {
        return None;
    }
    Some((demand as i32, wiggle as i32))
}


/// The cells among the first `k` that hold allied units, in index order.
pub open spec fn sources_upto(cells: Seq<Cell>, k: nat) -> Seq<usize>
    decreases k,
{
    if k == 0 {
        Seq::empty()
    } else {
        let rest = sources_upto(cells, (k - 1) as nat);
        if cells[k - 1].allied_ants != 0 {
            rest.push((k - 1) as usize)
        } else {
            rest
        }
    }
}

/// The cells that hold allied units, in index order.
pub open spec fn sources(cells: Seq<Cell>) -> Seq<usize> {
    sources_upto(cells, cells.len())
}

/// Every source is a cell that holds allied units.
pub proof fn lemma_sources_hold_units(cells: Seq<Cell>, k: nat)
    requires
        k <= cells.len() <= usize::MAX,
    ensures
        sources_upto(cells, k).len() <= k,
        forall|a: int|
            0 <= a < sources_upto(cells, k).len() ==> (#[trigger] sources_upto(cells, k)[a]) < k
                && cells[sources_upto(cells, k)[a] as int].allied_ants != 0,
    decreases k,
{
    if k > 0 {
        lemma_sources_hold_units(cells, (k - 1) as nat);
    }
}

/// The running account of an allocation: units left at each source, demand
/// left at each sink, and the moves recorded so far. `ok` is false once a
/// remainder has left the range of 32 bits.
pub struct Ledger {
    pub units: Seq<i32>,
    pub demand: Seq<i32>,
    pub moves: Seq<MoveAssignment>,
    pub ok: bool,
}

/// The units that each source holds.
pub open spec fn source_units(cells: Seq<Cell>) -> Seq<i32> {
    let src = sources(cells);
    Seq::new(src.len(), |a: int| cells[src[a] as int].allied_ants)
}

/// The units that each beacon asks for.
pub open spec fn beacon_demands(cells: Seq<Cell>, beacons: Seq<ActionBeacon>) -> Seq<i32> {
    let ts = total_strength(beacons);
    let tu = total_units(cells);
    Seq::new(beacons.len(), |b: int| baseline_demand(beacons[b].strength as int, ts, tu) as i32)
}

/// The account before any pair is settled.
pub open spec fn opening(cells: Seq<Cell>, beacons: Seq<ActionBeacon>) -> Ledger {
    Ledger {
        units: source_units(cells),
        demand: beacon_demands(cells, beacons),
        moves: Seq::empty(),
        ok: true,
    }
}

/// Settles source `a` against sink `b` in the primary pass. The amount is the
/// larger of what the sink still asks for and what the source still holds; a
/// pair whose amount is zero is passed over. Source and sink are both charged
/// the whole amount, so either may go below zero.
pub open spec fn settle(l: Ledger, a: int, b: int, from: usize, to: usize) -> Ledger {
    let amount = if l.demand[b] >= l.units[a] {
        l.demand[b]
    } else {
        l.units[a]
    };
    if !l.ok || amount == 0 {
        l
    } else if fits_i32(l.units[a] - amount) && fits_i32(l.demand[b] - amount) {
        Ledger {
            units: l.units.update(a, (l.units[a] - amount) as i32),
            demand: l.demand.update(b, (l.demand[b] - amount) as i32),
            moves: l.moves.push(MoveAssignment { source: from, destination: to, amount }),
            ok: true,
        }
    } else {
        Ledger { ok: false, ..l }
    }
}

/// A settlement that records a move leaves the source with nothing, and
/// overdraws it exactly where the sink asked for more than the source held.
pub proof fn law_settlement_exhausts_source(l: Ledger, a: int, b: int, from: usize, to: usize)
    requires
        0 <= a < l.units.len(),
        0 <= b < l.demand.len(),
        l.ok,
        settle(l, a, b, from, to).ok,
        settle(l, a, b, from, to).moves.len() > l.moves.len(),
    ensures
        ({
            let after = settle(l, a, b, from, to);
            &&& after.moves == l.moves.push(after.moves.last())
            &&& after.moves.last().amount != 0
            &&& after.moves.last().amount >= l.units[a]
            &&& after.units[a] == l.units[a] - after.moves.last().amount
            &&& after.units[a] <= 0
            &&& after.units[a] < 0 <==> l.demand[b] > l.units[a]
        }),
{
}

/// The account after the first `k` pairs of `order` are settled.
pub open spec fn primary_pass(
    order: Seq<(usize, usize, usize)>,
    k: nat,
    src: Seq<usize>,
    beacons: Seq<ActionBeacon>,
    start: Ledger,
) -> Ledger
    decreases k,
{
    if k == 0 {
        start
    } else {
        let pair = order[k - 1];
        settle(
            primary_pass(order, (k - 1) as nat, src, beacons, start),
            pair.1 as int,
            pair.2 as int,
            src[pair.1 as int],
            beacons[pair.2 as int].location,
        )
    }
}

/// Every pair names a source and a sink.
pub open spec fn pairs_in_range(order: Seq<(usize, usize, usize)>, sources: nat, sinks: nat) -> bool {
    forall|i: int| 0 <= i < order.len() ==> (#[trigger] order[i]).1 < sources && order[i].2 < sinks
}

/// Ascending order of triples: by the first entry, then the second, then the third.
pub open spec fn lex_le(x: (usize, usize, usize), y: (usize, usize, usize)) -> bool {
    x.0 < y.0 || (x.0 == y.0 && (x.1 < y.1 || (x.1 == y.1 && x.2 <= y.2)))
}

/// What holds of the account throughout the primary pass: its shape stays,
/// no recorded amount is zero, every move leaves from a source toward a
/// beacon, and a source that has been paired once holds no units any more.
pub proof fn lemma_primary_pass(
    order: Seq<(usize, usize, usize)>,
    k: nat,
    src: Seq<usize>,
    beacons: Seq<ActionBeacon>,
    start: Ledger,
)
    requires
        k <= order.len(),
        pairs_in_range(order, src.len(), beacons.len()),
        start.units.len() == src.len(),
        start.demand.len() == beacons.len(),
        start.moves.len() == 0,
        start.ok,
    ensures
        ({
            let end = primary_pass(order, k, src, beacons, start);
            &&& end.units.len() == src.len()
            &&& end.demand.len() == beacons.len()
            &&& forall|i: int|
                0 <= i < end.moves.len() ==> {
                    let m = #[trigger] end.moves[i];
                    &&& m.amount != 0
                    &&& exists|a: int| 0 <= a < src.len() && src[a] == m.source
                    &&& exists|b: int|
                        0 <= b < beacons.len() && (#[trigger] beacons[b]).location == m.destination
                }
            &&& end.ok ==> forall|i: int|
                0 <= i < k ==> end.units[(#[trigger] order[i]).1 as int] <= 0
        }),
    decreases k,
{
    if k > 0 {
        lemma_primary_pass(order, (k - 1) as nat, src, beacons, start);
        let before = primary_pass(order, (k - 1) as nat, src, beacons, start);
        let end = primary_pass(order, k, src, beacons, start);
        let pair = order[k - 1];
        assert(pair.1 < src.len() && pair.2 < beacons.len());
        assert forall|i: int| 0 <= i < end.moves.len() implies ({
            let m = #[trigger] end.moves[i];
            &&& m.amount != 0
            &&& exists|a: int| 0 <= a < src.len() && src[a] == m.source
            &&& exists|b: int|
                0 <= b < beacons.len() && (#[trigger] beacons[b]).location == m.destination
        }) by {
            if i < before.moves.len() {
                assert(end.moves[i] == before.moves[i]);
            } else {
                assert(src[pair.1 as int] == end.moves[i].source);
                assert(beacons[pair.2 as int].location == end.moves[i].destination);
            }
        }
        if end.ok {
            assert(before.ok);
            assert forall|i: int| 0 <= i < k implies end.units[(#[trigger] order[i]).1 as int]
                <= 0 by {
                if i < k - 1 {
                    assert(before.units[order[i].1 as int] <= 0);
                }
            }
        }
    }
}

/// Once a remainder has left the range of 32 bits, the account stays failed.
pub proof fn lemma_failure_stays(
    order: Seq<(usize, usize, usize)>,
    k: nat,
    n: nat,
    src: Seq<usize>,
    beacons: Seq<ActionBeacon>,
    start: Ledger,
)
    requires
        k <= n,
        !primary_pass(order, k, src, beacons, start).ok,
    ensures
        !primary_pass(order, n, src, beacons, start).ok,
    decreases n - k,
{
    if k < n {
        lemma_failure_stays(order, k, (n - 1) as nat, src, beacons, start);
    }
}

/// Sorts the triples with `sort` of std's slices, which orders tuples entry
/// by entry: afterwards `v` holds the same triples as before, each as often
/// as before, in ascending order.
#[verifier::external_body]
fn sort_pairs(v: &mut Vec<(usize, usize, usize)>)
    ensures
        final(v)@.to_multiset() == old(v)@.to_multiset(),
        forall|i: int, j: int|
            0 <= i < j < final(v)@.len() ==> lex_le(#[trigger] final(v)@[i], #[trigger] final(v)@[j]),
{
    v.sort();
}

/// Walks the pairs in their order and records a move for each pair whose
/// amount is not zero; then drops the pairs of exhausted sources and walks
/// the rest again with each sink's slack added to its demand, until no pair
/// is left. `None` where a remainder leaves the range of 32 bits.
///
/// The amount of a move is the larger of demand and units, so the first
/// settlement of a source leaves it without units: the first walk is the
/// only one that finds any pair.
pub fn ration(
    pairs: Vec<(usize, usize, usize)>,
    src: &Vec<usize>,
    beacons: &Vec<ActionBeacon>,
    units: Vec<i32>,
    demand: Vec<i32>,
    wiggles: Vec<i32>,
) -> (r: Option<Vec<MoveAssignment>>)
    requires
        pairs_in_range(pairs@, src@.len(), beacons@.len()),
        units@.len() == src@.len(),
        demand@.len() == beacons@.len(),
        wiggles@.len() == beacons@.len(),
    ensures
        ({
            let start = Ledger { units: units@, demand: demand@, moves: Seq::empty(), ok: true };
            let end = primary_pass(pairs@, pairs@.len(), src@, beacons@, start);
            &&& r.is_some() <==> end.ok
            &&& match r {
                Some(moves) => moves@ == end.moves,
                None => true,
            }
        }),
{
    let ghost order = pairs@;
    let ghost start = Ledger { units: units@, demand: demand@, moves: Seq::empty(), ok: true };
    let mut queue = pairs;
    let mut stock = units;
    let mut asks = demand;
    let mut slacks = wiggles;
    let mut moves: Vec<MoveAssignment> = Vec::new();
    let mut stragglers = false;
    while queue.len() > 0
        invariant
            order == pairs@,
            start == (Ledger { units: units@, demand: demand@, moves: Seq::empty(), ok: true }),
            pairs_in_range(order, src@.len(), beacons@.len()),
            start.units.len() == src@.len(),
            start.demand.len() == beacons@.len(),
            start.moves.len() == 0,
            start.ok,
            stock@.len() == src@.len(),
            asks@.len() == beacons@.len(),
            slacks@.len() == beacons@.len(),
            !stragglers ==> queue@ == order && stock@ == start.units && asks@ == start.demand
                && moves@ == start.moves,
            stragglers ==> queue@.len() == 0 && primary_pass(
                order,
                order.len(),
                src@,
                beacons@,
                start,
            ) == (Ledger { units: stock@, demand: asks@, moves: moves@, ok: true }),
        decreases queue@.len(),
    {
        let mut i: usize = 0;
        while i < queue.len()
            invariant
                order == pairs@,
                start == (Ledger { units: units@, demand: demand@, moves: Seq::empty(), ok: true }),
                !stragglers,
                queue@ == order,
                i <= order.len(),
                pairs_in_range(order, src@.len(), beacons@.len()),
                stock@.len() == src@.len(),
                asks@.len() == beacons@.len(),
                slacks@.len() == beacons@.len(),
                primary_pass(order, i as nat, src@, beacons@, start) == (Ledger {
                    units: stock@,
                    demand: asks@,
                    moves: moves@,
                    ok: true,
                }),
            decreases order.len() - i,
        {
            let pair = queue[i];
            let a = pair.1;
            let b = pair.2;
            assert(order[i as int].1 < src@.len() && order[i as int].2 < beacons@.len());
            let wiggle: i64 = if stragglers {
                slacks[b] as i64
            } else {
                0
            };
            let have: i64 = stock[a] as i64;
            let want: i64 = asks[b] as i64 + wiggle;
            let amount: i64 = if want >= have {
                want
            } else {
                have
            };
            if amount != 0 {
                let left: i64 = have - amount;
                let open: i64 = asks[b] as i64 - (amount - wiggle);
                let slack: i64 = slacks[b] as i64 - wiggle;
                if left < -0x8000_0000 || left > 0x7fff_ffff || open < -0x8000_0000 || open
                    > 0x7fff_ffff {
                    proof {
                        assert(!primary_pass(order, (i + 1) as nat, src@, beacons@, start).ok);
                        lemma_failure_stays(order, (i + 1) as nat, order.len(), src@, beacons@, start);
                    }
                    return None;
                }
                moves.push(
                    MoveAssignment {
                        source: src[a],
                        destination: beacons[b].location,
                        amount: amount as i32,
                    },
                );
                stock[a] = left as i32;
                asks[b] = open as i32;
                slacks[b] = slack as i32;
            }
            i += 1;
        }
        proof {
            lemma_primary_pass(order, order.len(), src@, beacons@, start);
        }
        let mut kept: Vec<(usize, usize, usize)> = Vec::new();
        let mut k: usize = 0;
        while k < queue.len()
            invariant
                queue@ == order,
                k <= order.len(),
                kept@.len() == 0,
                stock@.len() == src@.len(),
                pairs_in_range(order, src@.len(), beacons@.len()),
                forall|x: int| 0 <= x < order.len() ==> stock@[(#[trigger] order[x]).1 as int] <= 0,
            decreases order.len() - k,
        {
            let pair = queue[k];
            assert(order[k as int].1 < src@.len());
            if stock[pair.1] > 0 {
                kept.push(pair);
            }
            k += 1;
        }
        queue = kept;
        stragglers = true;
    }
    Some(moves)
}


/// Some pair of `order` joins source `a` and sink `b`.
pub open spec fn covers(order: Seq<(usize, usize, usize)>, a: int, b: int) -> bool {
    exists|i: int| 0 <= i < order.len() && (#[trigger] order[i]).1 == a && order[i].2 == b
}

/// The outcome of an allocation with its moves taken as a sequence.
pub open spec fn outcome(r: Result<Vec<MoveAssignment>, EngineError>) -> Result<
    Seq<MoveAssignment>,
    EngineError,
> {
    match r {
        Ok(moves) => Ok(moves@),
        Err(e) => Err(e),
    }
}

/// Every beacon's demand and slack fit in 32 bits.
pub open spec fn sinks_fit(beacons: Seq<ActionBeacon>, ts: int, tu: int) -> bool {
    forall|b: int|
        0 <= b < beacons.len() ==> sink_fits((#[trigger] beacons[b]).strength as int, ts, tu)
}

impl Game {
    /// Every beacon can be reached from every source.
    pub open spec fn all_reachable(&self, src: Seq<usize>, beacons: Seq<ActionBeacon>) -> bool {
        forall|a: int, b: int|
            0 <= a < src.len() && 0 <= b < beacons.len() ==> self.reachable(
                #[trigger] src[a],
                (#[trigger] beacons[b]).location,
            )
    }

    /// Every pair carries the distance from its source to its sink.
    pub open spec fn pairs_measured(
        &self,
        src: Seq<usize>,
        beacons: Seq<ActionBeacon>,
        order: Seq<(usize, usize, usize)>,
    ) -> bool {
        forall|i: int|
            0 <= i < order.len() ==> (#[trigger] order[i]).0 == self.spec_distance(
                src[order[i].1 as int],
                beacons[order[i].2 as int].location,
            )
    }

    /// `order` lists every pair of a source and a sink once, as
    /// (distance, source, sink), nearest first; pairs at the same distance
    /// stand by source and then by sink.
    pub open spec fn is_pairing(
        &self,
        src: Seq<usize>,
        beacons: Seq<ActionBeacon>,
        order: Seq<(usize, usize, usize)>,
    ) -> bool {
        &&& order.len() == src.len() * beacons.len()
        &&& order.no_duplicates()
        &&& pairs_in_range(order, src.len(), beacons.len())
        &&& self.pairs_measured(src, beacons, order)
        &&& forall|a: int, b: int|
            0 <= a < src.len() && 0 <= b < beacons.len() ==> #[trigger] covers(order, a, b)
        &&& forall|i: int, j: int|
            0 <= i < j < order.len() ==> lex_le(#[trigger] order[i], #[trigger] order[j])
    }

    /// The pairs of a source and a sink in the order in which they are settled.
    pub open spec fn pairing(&self, src: Seq<usize>, beacons: Seq<ActionBeacon>) -> Seq<
        (usize, usize, usize),
    > {
        choose|order: Seq<(usize, usize, usize)>| self.is_pairing(src, beacons, order)
    }

    /// What the allocator owes for `beacons` on this board.
    pub open spec fn allocation(&self, beacons: Seq<ActionBeacon>) -> Result<
        Seq<MoveAssignment>,
        EngineError,
    > {
        let tu = total_units(self.cells@);
        let ts = total_strength(beacons);
        let src = sources(self.cells@);
        if tu == 0 {
            Err(EngineError::ZeroTotalUnits)
        } else if !sinks_fit(beacons, ts, tu) {
            Err(EngineError::Overflow)
        } else if !self.all_reachable(src, beacons) {
            Err(EngineError::Unreachable)
        } else {
            let order = self.pairing(src, beacons);
            let end = primary_pass(order, order.len(), src, beacons, opening(self.cells@, beacons));
            if end.ok {
                Ok(end.moves)
            } else {
                Err(EngineError::Overflow)
            }
        }
    }

    /// Every move has an amount other than zero, leaves from a cell that
    /// holds allied units, and heads for the cell of a beacon.
    pub open spec fn moves_grounded(
        &self,
        beacons: Seq<ActionBeacon>,
        moves: Seq<MoveAssignment>,
    ) -> bool {
        forall|i: int|
            0 <= i < moves.len() ==> {
                let m = #[trigger] moves[i];
                &&& m.amount != 0
                &&& m.source < self.size()
                &&& self.cells@[m.source as int].allied_ants != 0
                &&& sources(self.cells@).contains(m.source)
                &&& exists|b: int|
                    0 <= b < beacons.len() && (#[trigger] beacons[b]).location == m.destination
            }
    }

    /// Converts the beacons and the allied units on the board into moves.
    ///
    /// Every cell with allied units is a source; every beacon is a sink that
    /// asks for its strength scaled by the ratio of all strengths to all
    /// units, rounded down, and for one unit at least. Pairs of a source and
    /// a sink are settled nearest first.
    ///
    /// Fails with `ZeroTotalUnits` where the board holds no allied unit, with
    /// `Overflow` where a demand, a slack or a remainder leaves the range of
    /// 32 bits, and with `Unreachable` where some beacon cannot be reached
    /// from some source.
    pub fn assign_moves(&self, beacons: Vec<ActionBeacon>) -> (r: Result<
        Vec<MoveAssignment>,
        EngineError,
    >)
        requires
            self.wf(),
            self.counts_ok(),
        ensures
            outcome(r) == self.allocation(beacons@),
            match r {
                Ok(moves) => self.moves_grounded(beacons@, moves@),
                Err(_) => true,
            },
    {
        let cells = self.cells.len();
        let (src, units, tu) = self.gather_sources();
        let ts = sum_strength(&beacons);
        if tu == 0 {
            return Err(EngineError::ZeroTotalUnits);
        }
        let (demand, wiggles) = match gather_sinks(&beacons, ts, tu) {
            Some(sinks) => sinks,
            None => {
                return Err(EngineError::Overflow);
            },
        };
        let pairs = match self.pair_up(&src, &beacons) {
            Some(pairs) => pairs,
            None => {
                return Err(EngineError::Unreachable);
            },
        };
        let ghost order = pairs@;
        let ghost start = opening(self.cells@, beacons@);
        proof {
            law_pairing_unique(self, src@, beacons@, order, self.pairing(src@, beacons@));
            assert(demand@ =~= beacon_demands(self.cells@, beacons@));
            assert(start == (Ledger { units: units@, demand: demand@, moves: Seq::empty(), ok: true }));
            lemma_primary_pass(order, order.len(), src@, beacons@, start);
            lemma_sources_hold_units(self.cells@, cells as nat);
        }
        match ration(pairs, &src, &beacons, units, demand, wiggles) {
            Some(moves) => {
                proof {
                    assert forall|i: int| 0 <= i < moves@.len() implies ({
                        let m = #[trigger] moves@[i];
                        &&& m.amount != 0
                        &&& m.source < self.size()
                        &&& self.cells@[m.source as int].allied_ants != 0
                        &&& sources(self.cells@).contains(m.source)
                        &&& exists|b: int|
                            0 <= b < beacons@.len() && (#[trigger] beacons@[b]).location
                                == m.destination
                    }) by {
                        let m = moves@[i];
                        let a = choose|a: int| 0 <= a < src@.len() && src@[a] == m.source;
                        assert(src@[a] < self.size());
                    }
                }
                Ok(moves)
            },
            None => Err(EngineError::Overflow),
        }
    }

    /// The cells that hold allied units, with their counts and the sum of all counts.
    fn gather_sources(&self) -> (r: (Vec<usize>, Vec<i32>, i128))
        requires
            self.counts_ok(),
        ensures
            r.0@ == sources(self.cells@),
            r.1@ == source_units(self.cells@),
            r.2 == total_units(self.cells@),
            r.2 >= 0,
            forall|a: int| 0 <= a < r.0@.len() ==> (#[trigger] r.0@[a]) < self.size(),
    {
        let mut src: Vec<usize> = Vec::new();
        let mut units: Vec<i32> = Vec::new();
        let mut total: i128 = 0;
        let mut i: usize = 0;
        while i < self.cells.len()
            invariant
                self.counts_ok(),
                i <= self.size(),
                src@ == sources_upto(self.cells@, i as nat),
                units@.len() == src@.len(),
                forall|a: int|
                    0 <= a < src@.len() ==> (#[trigger] src@[a]) < i && units@[a]
                        == self.cells@[src@[a] as int].allied_ants,
                total == units_upto(self.cells@, i as nat),
                0 <= total <= i * 0x7fff_ffff,
            decreases self.size() - i,
        {
            let ants = self.cells[i].allied_ants;
            assert(self.cells@[i as int].counts_ok());
            if ants != 0 {
                src.push(i);
                units.push(ants);
            }
            total = total + ants as i128;
            i += 1;
        }
        assert(units@ =~= source_units(self.cells@));
        (src, units, total)
    }

    /// Lists every pair of a source and a beacon with the distance between
    /// them, nearest first; `None` where some beacon cannot be reached from
    /// some source.
    fn pair_up(&self, src: &Vec<usize>, beacons: &Vec<ActionBeacon>) -> (r: Option<
        Vec<(usize, usize, usize)>,
    >)
        requires
            self.wf(),
            forall|a: int| 0 <= a < src@.len() ==> (#[trigger] src@[a]) < self.size(),
        ensures
            r.is_some() <==> self.all_reachable(src@, beacons@),
            match r {
                Some(order) => self.is_pairing(src@, beacons@, order@),
                None => true,
            },
    {
        let n = self.cells.len();
        let sinks = beacons.len();
        let mut pairs: Vec<(usize, usize, usize)> = Vec::new();
        let mut a: usize = 0;
        while a < src.len()
            invariant
                self.wf(),
                n == self.size(),
                sinks == beacons@.len(),
                a <= src@.len(),
                forall|a: int| 0 <= a < src@.len() ==> (#[trigger] src@[a]) < self.size(),
                pairs@.len() == a * sinks,
                pairs@.no_duplicates(),
                pairs_in_range(pairs@, a as nat, sinks as nat),
                self.pairs_measured(src@, beacons@, pairs@),
                forall|x: int, y: int|
                    0 <= x < a && 0 <= y < sinks ==> self.reachable(
                        #[trigger] src@[x],
                        (#[trigger] beacons@[y]).location,
                    ),
                forall|x: int, y: int| 0 <= x < a && 0 <= y < sinks ==> #[trigger] covers(pairs@, x, y),
            decreases src@.len() - a,
        {
            let from = src[a];
            let tree = self.search(from);
            let mut b: usize = 0;
            while b < sinks
                invariant
                    self.wf(),
                    n == self.size(),
                    sinks == beacons@.len(),
                    a < src@.len(),
                    b <= sinks,
                    from == src@[a as int],
                    from < n,
                    tree.complete(self, from),
                    pairs@.len() == a * sinks + b,
                    pairs@.no_duplicates(),
                    forall|x: int|
                        0 <= x < pairs@.len() ==> (#[trigger] pairs@[x]).1 < a || (pairs@[x].1 == a
                            && pairs@[x].2 < b),
                    pairs_in_range(pairs@, (a + 1) as nat, sinks as nat),
                    self.pairs_measured(src@, beacons@, pairs@),
                    forall|x: int, y: int|
                        0 <= x < a && 0 <= y < sinks ==> self.reachable(
                            #[trigger] src@[x],
                            (#[trigger] beacons@[y]).location,
                        ),
                    forall|y: int|
                        0 <= y < b ==> self.reachable(from, (#[trigger] beacons@[y]).location),
                    forall|x: int, y: int|
                        0 <= x < a && 0 <= y < sinks ==> #[trigger] covers(pairs@, x, y),
                    forall|y: int| 0 <= y < b ==> #[trigger] covers(pairs@, a as int, y),
                decreases sinks - b,
            {
                let to = beacons[b].location;
                proof {
                    lemma_tree_distance(self, from, &tree, to);
                }
                if to >= n || !tree.seen[to] {
                    assert(!self.reachable(src@[a as int], beacons@[b as int].location));
                    return None;
                }
                let ghost before = pairs@;
                pairs.push((tree.dist[to], a, b));
                proof {
                    assert forall|x: int, y: int|
                        0 <= x < a && 0 <= y < sinks implies #[trigger] covers(pairs@, x, y) by {
                        assert(covers(before, x, y));
                        let i = choose|i: int|
                            0 <= i < before.len() && (#[trigger] before[i]).1 == x && before[i].2
                                == y;
                        assert(pairs@[i] == before[i]);
                    }
                    assert forall|y: int| 0 <= y < b + 1 implies #[trigger] covers(
                        pairs@,
                        a as int,
                        y,
                    ) by {
                        if y < b {
                            assert(covers(before, a as int, y));
                            let i = choose|i: int|
                                0 <= i < before.len() && (#[trigger] before[i]).1 == a && before[i].2
                                    == y;
                            assert(pairs@[i] == before[i]);
                        } else {
                            assert(pairs@[before.len() as int].1 == a);
                        }
                    }
                    assert forall|i: int| 0 <= i < pairs@.len() implies (#[trigger] pairs@[i]).0
                        == self.spec_distance(
                        src@[pairs@[i].1 as int],
                        beacons@[pairs@[i].2 as int].location,
                    ) by {
                        if i < before.len() {
                            assert(pairs@[i] == before[i]);
                        }
                    }
                }
                b += 1;
            }
            assert((a + 1) * sinks == a * sinks + sinks) by (nonlinear_arith);
            a += 1;
        }
        let ghost before = pairs@;
        sort_pairs(&mut pairs);
        proof {
            let after = pairs@;
            to_multiset_len(before);
            to_multiset_len(after);
            before.lemma_multiset_has_no_duplicates();
            after.lemma_multiset_has_no_duplicates_conv();
            assert forall|i: int| 0 <= i < after.len() implies before.contains(
                #[trigger] after[i],
            ) by {
                assert(after.contains(after[i]));
                to_multiset_contains(after, after[i]);
                to_multiset_contains(before, after[i]);
            }
            assert forall|i: int| 0 <= i < after.len() implies (#[trigger] after[i]).1 < src@.len()
                && after[i].2 < beacons@.len() && after[i].0 == self.spec_distance(
                src@[after[i].1 as int],
                beacons@[after[i].2 as int].location,
            ) by {
                assert(before.contains(after[i]));
                let j = choose|j: int| 0 <= j < before.len() && before[j] == after[i];
                assert(before[j].1 < src@.len());
            }
            assert forall|x: int, y: int|
                0 <= x < src@.len() && 0 <= y < beacons@.len() implies #[trigger] covers(
                after,
                x,
                y,
            ) by {
                assert(covers(before, x, y));
                let j = choose|j: int|
                    0 <= j < before.len() && (#[trigger] before[j]).1 == x && before[j].2 == y;
                assert(before.contains(before[j]));
                to_multiset_contains(before, before[j]);
                to_multiset_contains(after, before[j]);
                let i = choose|i: int| 0 <= i < after.len() && after[i] == before[j];
                assert(after[i].1 == x && after[i].2 == y);
            }
        }
        Some(pairs)
    }
}

/// The sum of the strengths of all beacons.
fn sum_strength(beacons: &Vec<ActionBeacon>) -> (total: i128)
    ensures
        total == total_strength(beacons@),
        -total_bound() <= total <= total_bound(),
{
    let mut total: i128 = 0;
    let mut i: usize = 0;
    while i < beacons.len()
        invariant
            i <= beacons@.len(),
            total == strength_upto(beacons@, i as nat),
            -i * 0x8000_0000 <= total <= i * 0x8000_0000,
        decreases beacons@.len() - i,
    {
        total = total + beacons[i].strength as i128;
        i += 1;
    }
    total
}

/// The demand and the slack of every beacon; `None` where one of them does
/// not fit in 32 bits.
fn gather_sinks(beacons: &Vec<ActionBeacon>, ts: i128, tu: i128) -> (r: Option<(Vec<i32>, Vec<i32>)>)
    requires
        tu > 0,
        -total_bound() <= ts <= total_bound(),
    ensures
        r.is_some() <==> sinks_fit(beacons@, ts as int, tu as int),
        match r {
            Some((demand, wiggles)) => {
                &&& demand@.len() == beacons@.len()
                &&& wiggles@.len() == beacons@.len()
                &&& forall|b: int|
                    0 <= b < beacons@.len() ==> (#[trigger] demand@[b]) == baseline_demand(
                        beacons@[b].strength as int,
                        ts as int,
                        tu as int,
                    ) && wiggles@[b] == wiggle_room(beacons@[b].strength as int, ts as int, tu as int)
            },
            None => true,
        },
{
    let mut demand: Vec<i32> = Vec::new();
    let mut wiggles: Vec<i32> = Vec::new();
    let mut i: usize = 0;
    while i < beacons.len()
        invariant
            tu > 0,
            -total_bound() <= ts <= total_bound(),
            i <= beacons@.len(),
            demand@.len() == i,
            wiggles@.len() == i,
            forall|b: int|
                0 <= b < i ==> sink_fits((#[trigger] beacons@[b]).strength as int, ts as int, tu as int),
            forall|b: int|
                0 <= b < i ==> (#[trigger] demand@[b]) == baseline_demand(
                    beacons@[b].strength as int,
                    ts as int,
                    tu as int,
                ) && wiggles@[b] == wiggle_room(beacons@[b].strength as int, ts as int, tu as int),
        decreases beacons@.len() - i,
    {
        match scale_beacon(beacons[i].strength, ts, tu) {
            Some((d, w)) => {
                demand.push(d);
                wiggles.push(w);
            },
            None => {
                assert(!sink_fits(beacons@[i as int].strength as int, ts as int, tu as int));
                return None;
            },
        }
        i += 1;
    }
    Some((demand, wiggles))
}


/// Two lists in ascending order, without repetitions, that hold the same
/// triples are one list.
pub proof fn lemma_sorted_equal(x: Seq<(usize, usize, usize)>, y: Seq<(usize, usize, usize)>)
    requires
        forall|i: int, j: int| 0 <= i < j < x.len() ==> lex_le(#[trigger] x[i], #[trigger] x[j]),
        forall|i: int, j: int| 0 <= i < j < y.len() ==> lex_le(#[trigger] y[i], #[trigger] y[j]),
        x.no_duplicates(),
        y.no_duplicates(),
        forall|i: int| 0 <= i < x.len() ==> y.contains(#[trigger] x[i]),
        forall|j: int| 0 <= j < y.len() ==> x.contains(#[trigger] y[j]),
    ensures
        x == y,
    decreases x.len(),
{
    if x.len() == 0 {
        if y.len() > 0 {
            assert(x.contains(y[0]));
        }
        assert(x =~= y);
    } else if y.len() == 0 {
        assert(y.contains(x[0]));
    } else {
        assert(y.contains(x[0]));
        assert(x.contains(y[0]));
        let j = choose|j: int| 0 <= j < y.len() && y[j] == x[0];
        let i = choose|i: int| 0 <= i < x.len() && x[i] == y[0];
        if i > 0 {
            assert(lex_le(x[0], x[i]));
        }
        if j > 0 {
            assert(lex_le(y[0], y[j]));
        }
        assert(x[0] == y[0]);
        let xt = x.drop_first();
        let yt = y.drop_first();
        assert forall|a: int| 0 <= a < xt.len() implies yt.contains(#[trigger] xt[a]) by {
            assert(xt[a] == x[a + 1]);
            assert(y.contains(x[a + 1]));
            let b = choose|b: int| 0 <= b < y.len() && y[b] == x[a + 1];
            assert(b != 0);
            assert(yt[b - 1] == y[b]);
        }
        assert forall|b: int| 0 <= b < yt.len() implies xt.contains(#[trigger] yt[b]) by {
            assert(yt[b] == y[b + 1]);
            assert(x.contains(y[b + 1]));
            let a = choose|a: int| 0 <= a < x.len() && x[a] == y[b + 1];
            assert(a != 0);
            assert(xt[a - 1] == x[a]);
        }
        assert forall|a: int, b: int| 0 <= a < b < xt.len() implies lex_le(
            #[trigger] xt[a],
            #[trigger] xt[b],
        ) by {
            assert(lex_le(x[a + 1], x[b + 1]));
        }
        assert forall|a: int, b: int| 0 <= a < b < yt.len() implies lex_le(
            #[trigger] yt[a],
            #[trigger] yt[b],
        ) by {
            assert(lex_le(y[a + 1], y[b + 1]));
        }
        assert(xt.no_duplicates()) by {
            assert forall|a: int, b: int| 0 <= a < xt.len() && 0 <= b < xt.len() && a != b implies xt[a]
                != xt[b] by {
                assert(x[a + 1] != x[b + 1]);
            }
        }
        assert(yt.no_duplicates()) by {
            assert forall|a: int, b: int| 0 <= a < yt.len() && 0 <= b < yt.len() && a != b implies yt[a]
                != yt[b] by {
                assert(y[a + 1] != y[b + 1]);
            }
        }
        lemma_sorted_equal(xt, yt);
        assert(x =~= seq![x[0]] + xt);
        assert(y =~= seq![y[0]] + yt);
    }
}

/// The order in which the pairs of sources and sinks are settled is
/// determined by the board and the beacons.
pub proof fn law_pairing_unique(
    g: &Game,
    src: Seq<usize>,
    beacons: Seq<ActionBeacon>,
    x: Seq<(usize, usize, usize)>,
    y: Seq<(usize, usize, usize)>,
)
    requires
        g.is_pairing(src, beacons, x),
        g.is_pairing(src, beacons, y),
    ensures
        x == y,
{
    assert forall|i: int| 0 <= i < x.len() implies y.contains(#[trigger] x[i]) by {
        let e = x[i];
        assert(covers(y, e.1 as int, e.2 as int));
        let j = choose|j: int| 0 <= j < y.len() && (#[trigger] y[j]).1 == e.1 && y[j].2 == e.2;
        assert(y[j].0 == e.0);
        assert(y[j] == e);
    }
    assert forall|j: int| 0 <= j < y.len() implies x.contains(#[trigger] y[j]) by {
        let e = y[j];
        assert(covers(x, e.1 as int, e.2 as int));
        let i = choose|i: int| 0 <= i < x.len() && (#[trigger] x[i]).1 == e.1 && x[i].2 == e.2;
        assert(x[i].0 == e.0);
        assert(x[i] == e);
    }
    lemma_sorted_equal(x, y);
}

} // verus!
