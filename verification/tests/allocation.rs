use spring_challenge_2023::allocator::{ration, scale_beacon};
use spring_challenge_2023::{ActionBeacon, Cell, CellKind, EngineError, Game, MoveAssignment};

fn board_with_units(adjacency: Vec<Vec<usize>>, units: Vec<i32>) -> Game {
    let mut cells = Vec::new();
    for (neighbors, ants) in adjacency.into_iter().zip(units) {
        let mut cell = Cell::new(CellKind::Empty, 0, neighbors);
        cell.allied_ants = ants;
        cells.push(cell);
    }
    Game { cells, allied_bases: Vec::new(), ennemy_bases: Vec::new() }
}

fn chain(units: Vec<i32>) -> Game {
    board_with_units(vec![vec![1], vec![0, 2], vec![1]], units)
}

fn beacon(location: usize, strength: i32) -> ActionBeacon {
    ActionBeacon { location, strength }
}

fn order(source: usize, destination: usize, amount: i32) -> MoveAssignment {
    MoveAssignment { source, destination, amount }
}

#[test]
fn scaling_rounds_down_and_up() {
    // 3 * 10 / 4 = 7.5
    assert_eq!(scale_beacon(3, 10, 4), Some((7, 8 - 3)));
    // 1 * 1 / 5 = 0.2: at least one unit is asked for
    assert_eq!(scale_beacon(1, 1, 5), Some((1, 1 - 1)));
    // 10 * 10 / 5 = 20
    assert_eq!(scale_beacon(10, 10, 5), Some((20, 10)));
    assert_eq!(scale_beacon(1, 4, 4), Some((1, 0)));
    assert_eq!(scale_beacon(3, 4, 4), Some((3, 0)));
}

#[test]
fn scaling_of_negative_products() {
    // -3 * 10 / 4 = -7.5: floor -8, ceiling -7
    assert_eq!(scale_beacon(-3, 10, 4), Some((1, -7 + 3)));
    // -3 * -10 / 4 = 7.5
    assert_eq!(scale_beacon(-3, -10, 4), Some((7, 8 + 3)));
    // -4 * 2 / 4 = -2 exactly
    assert_eq!(scale_beacon(-4, 2, 4), Some((1, -2 + 4)));
    assert_eq!(scale_beacon(0, 5, 3), Some((1, 0)));
}

#[test]
fn scaling_reports_what_does_not_fit() {
    assert_eq!(scale_beacon(i32::MAX, 2, 1), None);
    assert_eq!(scale_beacon(i32::MAX, 1, 1), Some((i32::MAX, 0)));
    assert_eq!(scale_beacon(i32::MIN, 3, 1), None);
}

#[test]
fn allocation_without_units_fails() {
    let g = chain(vec![0, 0, 0]);
    assert_eq!(g.assign_moves(vec![beacon(2, 10)]), Err(EngineError::ZeroTotalUnits));
    assert_eq!(g.assign_moves(vec![]), Err(EngineError::ZeroTotalUnits));
}

#[test]
fn allocation_without_beacons_is_empty() {
    let g = chain(vec![5, 0, 0]);
    assert_eq!(g.assign_moves(vec![]), Ok(vec![]));
}

#[test]
fn allocation_to_unreachable_beacon_fails() {
    let g = board_with_units(vec![vec![1], vec![0], vec![]], vec![3, 0, 0]);
    assert_eq!(g.assign_moves(vec![beacon(2, 1)]), Err(EngineError::Unreachable));
    assert_eq!(g.assign_moves(vec![beacon(9, 1)]), Err(EngineError::Unreachable));
}

#[test]
fn allocation_reports_demand_out_of_range() {
    let g = chain(vec![1, 0, 0]);
    assert_eq!(
        g.assign_moves(vec![beacon(2, i32::MAX), beacon(1, i32::MAX)]),
        Err(EngineError::Overflow)
    );
}

#[test]
fn allocation_reports_remainder_out_of_range() {
    // strengths sum to 92681; the large beacons ask for 46340 * 92681 > i32::MAX
    let g = chain(vec![1, 0, 0]);
    let r = g.assign_moves(vec![beacon(1, 1), beacon(2, 46340), beacon(0, 46340)]);
    assert_eq!(r, Err(EngineError::Overflow));
    // -2 - i32::MAX is below the range
    let pairs = vec![(0, 0, 0), (0, 0, 1)];
    let src = vec![0];
    let beacons = vec![beacon(0, 1), beacon(0, 1)];
    let r = ration(pairs, &src, &beacons, vec![-2], vec![i32::MAX, i32::MAX], vec![0, 0]);
    assert_eq!(r, None);
}

#[test]
fn chain_beacon_with_small_demand_takes_all_units() {
    // strength 1 against 5 units asks for one unit; the amount is the larger
    // of demand and units
    let g = chain(vec![5, 0, 0]);
    assert_eq!(g.assign_moves(vec![beacon(2, 1)]), Ok(vec![order(0, 2, 5)]));
}

#[test]
fn chain_beacon_with_large_demand_overdraws() {
    // strength 10 against 5 units asks for 10 * 10 / 5 = 20 units
    let g = chain(vec![5, 0, 0]);
    let moves = g.assign_moves(vec![beacon(2, 10)]);
    assert_eq!(moves, Ok(vec![order(0, 2, 20)]));
}

#[test]
fn single_source_is_charged_for_each_beacon() {
    // demands are 1 and 3; the source holds 4, so the first pair takes all
    // four and the second still records the three it asks for
    let g = chain(vec![0, 4, 0]);
    let moves = g.assign_moves(vec![beacon(0, 1), beacon(2, 3)]).unwrap();
    assert_eq!(moves, vec![order(1, 0, 4), order(1, 2, 3)]);
}

#[test]
fn nearest_pairs_are_settled_first() {
    // the beacon listed first is two edges away, the second is next door
    let g = chain(vec![4, 0, 0]);
    let moves = g.assign_moves(vec![beacon(2, 1), beacon(1, 3)]).unwrap();
    assert_eq!(moves, vec![order(0, 1, 4), order(0, 2, 1)]);
}

#[test]
fn pairs_at_equal_distance_go_by_source_then_sink() {
    let g = chain(vec![2, 0, 2]);
    let moves = g.assign_moves(vec![beacon(1, 1), beacon(1, 1)]).unwrap();
    // total strength 2, total units 4: every beacon asks for one unit; the
    // last pair finds neither demand nor units and is passed over
    assert_eq!(moves, vec![order(0, 1, 2), order(0, 1, 1), order(2, 1, 2)]);
}

#[test]
fn no_move_has_amount_zero() {
    let g = chain(vec![3, 1, 2]);
    let moves = g.assign_moves(vec![beacon(0, 2), beacon(1, 5), beacon(2, 1)]).unwrap();
    assert!(!moves.is_empty());
    for m in &moves {
        assert_ne!(m.amount, 0);
    }
}

#[test]
fn every_move_leaves_from_a_cell_with_units() {
    let g = chain(vec![3, 0, 2]);
    let moves = g.assign_moves(vec![beacon(1, 5), beacon(2, 1)]).unwrap();
    for m in &moves {
        assert_ne!(g.cells[m.source].allied_ants, 0);
        assert!(m.source == 0 || m.source == 2);
        assert!(m.destination == 1 || m.destination == 2);
    }
}

#[test]
fn ration_passes_over_pairs_with_nothing_to_move() {
    let src = vec![4, 7];
    let beacons = vec![beacon(1, 0), beacon(2, 0)];
    let pairs = vec![(1, 0, 0), (1, 1, 1), (2, 0, 1), (2, 1, 0)];
    let moves = ration(pairs, &src, &beacons, vec![0, 3], vec![0, 2], vec![5, 5]).unwrap();
    // (4 -> 1): max(0, 0) = 0, passed over; (7 -> 2): max(2, 3) = 3;
    // (4 -> 2): max(-1, 0) = 0, passed over; (7 -> 1): max(0, 0) = 0
    assert_eq!(moves, vec![order(7, 2, 3)]);
}

#[test]
fn exhausted_source_and_sink_give_a_negative_amount() {
    // cells 0 and 2 hold units, beacons stand on 0 and 1
    let g = chain(vec![1, 0, 3]);
    let moves = g.assign_moves(vec![beacon(0, 19), beacon(1, 1)]).unwrap();
    // demands: 19 * 20 / 4 = 95 and 1 * 20 / 4 = 5
    // (0 -> 0) at distance 0: max(95, 1) = 95, source 0 left with -94
    // (0 -> 1) at distance 1: max(5, -94) = 5, source 0 left with -99
    // (2 -> 1) at distance 1: max(0, 3) = 3, sink 1 left with -3
    // (2 -> 0) at distance 2: max(0, 0) = 0, passed over
    assert_eq!(moves, vec![order(0, 0, 95), order(0, 1, 5), order(2, 1, 3)]);
    let src = vec![0, 2];
    let beacons = vec![beacon(1, 0)];
    let moves = ration(vec![(1, 0, 0), (1, 1, 0)], &src, &beacons, vec![5, -4], vec![7], vec![0]);
    // (0 -> 1): max(7, 5) = 7, sink left with 0; (2 -> 1): max(0, -4) = 0, passed over
    assert_eq!(moves, Some(vec![order(0, 1, 7)]));
    let moves = ration(vec![(1, 0, 0), (1, 1, 0)], &src, &beacons, vec![9, -4], vec![7], vec![0]);
    // (0 -> 1): max(7, 9) = 9, sink left with -2; (2 -> 1): max(-2, -4) = -2
    assert_eq!(moves, Some(vec![order(0, 1, 9), order(2, 1, -2)]));
}
