use spring_challenge_2023::{ActionBeacon, Cell, CellKind, EngineError, Game, MoveAssignment};

fn chain(units: Vec<i32>) -> Game {
    let adjacency: Vec<Vec<usize>> = vec![vec![1], vec![0, 2], vec![1]];
    let mut cells = Vec::new();
    for (neighbors, ants) in adjacency.into_iter().zip(units) {
        let mut cell = Cell::new(CellKind::Empty, 0, neighbors);
        cell.allied_ants = ants;
        cells.push(cell);
    }
    Game { cells, allied_bases: vec![0], ennemy_bases: vec![2] }
}

fn allied(g: &Game) -> Vec<i32> {
    g.cells.iter().map(|c| c.allied_ants).collect()
}

#[test]
fn units_advance_one_hop() {
    let g = chain(vec![5, 0, 0]);
    let g = g.step(vec![ActionBeacon { location: 2, strength: 1 }], vec![]).unwrap();
    assert_eq!(allied(&g), vec![0, 5, 0]);
    let g = g.step(vec![ActionBeacon { location: 2, strength: 1 }], vec![]).unwrap();
    assert_eq!(allied(&g), vec![0, 0, 5]);
    let g = g.step(vec![ActionBeacon { location: 2, strength: 1 }], vec![]).unwrap();
    assert_eq!(allied(&g), vec![0, 0, 5]);
    assert_eq!(g.allied_bases, vec![0]);
    assert_eq!(g.ennemy_bases, vec![2]);
}

#[test]
fn overdrawn_source_fails_the_turn() {
    let g = chain(vec![5, 0, 0]);
    let moves = g.assign_moves(vec![ActionBeacon { location: 2, strength: 10 }]).unwrap();
    assert_eq!(moves, vec![MoveAssignment { source: 0, destination: 2, amount: 20 }]);
    let r = g.step(vec![ActionBeacon { location: 2, strength: 10 }], vec![]);
    assert_eq!(r.err(), Some(EngineError::NegativeUnitCount));
}

#[test]
fn failed_moves_change_nothing() {
    let mut g = chain(vec![5, 1, 0]);
    let moves = vec![
        MoveAssignment { source: 1, destination: 2, amount: 1 },
        MoveAssignment { source: 0, destination: 2, amount: 6 },
    ];
    let hops = g.first_hops(&moves).unwrap();
    assert_eq!(hops, vec![Some(2), Some(1)]);
    assert_eq!(g.apply_moves(&moves, &hops), Err(EngineError::NegativeUnitCount));
    assert_eq!(allied(&g), vec![5, 1, 0]);
}

#[test]
fn moves_are_made_in_order() {
    let mut g = chain(vec![5, 0, 0]);
    let moves = vec![
        MoveAssignment { source: 0, destination: 2, amount: 5 },
        MoveAssignment { source: 1, destination: 2, amount: 5 },
        MoveAssignment { source: 2, destination: 2, amount: 3 },
    ];
    let hops = g.first_hops(&moves).unwrap();
    assert_eq!(hops, vec![Some(1), Some(2), None]);
    assert_eq!(g.apply_moves(&moves, &hops), Ok(()));
    assert_eq!(allied(&g), vec![0, 0, 5]);
}

#[test]
fn arrival_beyond_the_range_is_reported() {
    let mut g = chain(vec![5, i32::MAX, 0]);
    let moves = vec![MoveAssignment { source: 0, destination: 1, amount: 1 }];
    let hops = g.first_hops(&moves).unwrap();
    assert_eq!(g.apply_moves(&moves, &hops), Err(EngineError::Overflow));
    assert_eq!(allied(&g), vec![5, i32::MAX, 0]);
}

#[test]
fn negative_amount_cannot_empty_the_hop() {
    let mut g = chain(vec![5, 1, 0]);
    let moves = vec![MoveAssignment { source: 0, destination: 1, amount: -2 }];
    let hops = g.first_hops(&moves).unwrap();
    assert_eq!(g.apply_moves(&moves, &hops), Err(EngineError::NegativeUnitCount));
    assert_eq!(allied(&g), vec![5, 1, 0]);
}

#[test]
fn moves_without_a_route_are_reported() {
    let mut cells = Vec::new();
    cells.push(Cell::new(CellKind::Empty, 0, vec![]));
    cells.push(Cell::new(CellKind::Empty, 0, vec![]));
    let g = Game { cells, allied_bases: vec![], ennemy_bases: vec![] };
    let moves = vec![MoveAssignment { source: 0, destination: 1, amount: 1 }];
    assert_eq!(g.first_hops(&moves), Err(EngineError::Unreachable));
}

#[test]
fn turn_without_units_fails() {
    let g = chain(vec![0, 0, 0]);
    let r = g.step(vec![ActionBeacon { location: 2, strength: 1 }], vec![]);
    assert_eq!(r.err(), Some(EngineError::ZeroTotalUnits));
}

#[test]
fn two_beacons_one_source() {
    let g = chain(vec![0, 4, 0]);
    let beacons = vec![
        ActionBeacon { location: 0, strength: 1 },
        ActionBeacon { location: 2, strength: 3 },
    ];
    let moves = g.assign_moves(beacons.clone()).unwrap();
    assert_eq!(
        moves,
        vec![
            MoveAssignment { source: 1, destination: 0, amount: 4 },
            MoveAssignment { source: 1, destination: 2, amount: 3 },
        ]
    );
    let r = g.step(beacons, vec![]);
    assert_eq!(r.err(), Some(EngineError::NegativeUnitCount));
}
