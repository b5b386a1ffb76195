use spring_challenge_2023::{ActionBeacon, ActionLine, Cell, CellKind, EngineError, Game};

fn board(adjacency: Vec<Vec<usize>>) -> Game {
    let mut cells = Vec::new();
    for neighbors in adjacency {
        cells.push(Cell::new(CellKind::Empty, 0, neighbors));
    }
    Game { cells, allied_bases: Vec::new(), ennemy_bases: Vec::new() }
}

fn chain3() -> Game {
    board(vec![vec![1], vec![0, 2], vec![1]])
}

// 0 - 1 - 3
//  \- 2 -/      and 4 on its own
fn diamond() -> Game {
    board(vec![vec![1, 2], vec![0, 3], vec![0, 3], vec![1, 2], vec![]])
}

#[test]
fn path_along_a_chain() {
    let g = chain3();
    assert_eq!(g.path(0, 2), vec![0, 1, 2]);
    assert_eq!(g.path(2, 0), vec![2, 1, 0]);
    assert_eq!(g.shortest_path(0, 2), Ok(vec![0, 1, 2]));
}

#[test]
fn path_to_itself_is_one_cell() {
    let g = chain3();
    for x in 0..3 {
        assert_eq!(g.path(x, x), vec![x]);
        assert_eq!(g.distance(x, x), 0);
    }
}

#[test]
fn path_has_one_cell_more_than_distance() {
    let g = diamond();
    for s in 0..4 {
        for d in 0..4 {
            assert_eq!(g.path(s, d).len() - 1, g.distance(s, d));
        }
    }
}

#[test]
fn distance_is_symmetric_on_two_way_edges() {
    let g = diamond();
    for s in 0..4 {
        for d in 0..4 {
            assert_eq!(g.distance(s, d), g.distance(d, s));
        }
    }
    assert_eq!(g.distance(0, 3), 2);
    assert_eq!(g.distance(1, 2), 2);
    assert_eq!(g.distance(0, 1), 1);
}

#[test]
fn path_prefers_the_neighbor_listed_first() {
    let g = diamond();
    assert_eq!(g.path(0, 3), vec![0, 1, 3]);
    let h = board(vec![vec![2, 1], vec![0, 3], vec![0, 3], vec![1, 2]]);
    assert_eq!(h.path(0, 3), vec![0, 2, 3]);
}

#[test]
fn path_follows_one_way_edges() {
    let g = board(vec![vec![1], vec![2], vec![0]]);
    assert_eq!(g.path(0, 2), vec![0, 1, 2]);
    assert_eq!(g.path(2, 1), vec![2, 0, 1]);
    assert_eq!(g.distance(1, 0), 2);
    assert_eq!(g.distance(0, 1), 1);
}

#[test]
fn unreachable_cell_is_reported() {
    let g = diamond();
    assert_eq!(g.shortest_path(0, 4), Err(EngineError::Unreachable));
    assert_eq!(g.shortest_distance(0, 4), Err(EngineError::Unreachable));
    assert_eq!(g.shortest_distance(4, 4), Ok(0));
}

#[test]
fn index_outside_the_board_is_unreachable() {
    let g = chain3();
    assert_eq!(g.shortest_path(0, 3), Err(EngineError::Unreachable));
    assert_eq!(g.shortest_path(7, 0), Err(EngineError::Unreachable));
    assert_eq!(g.shortest_distance(9, 9), Err(EngineError::Unreachable));
}

#[test]
fn search_records_discovery_order() {
    let g = diamond();
    let t = g.search(0);
    assert_eq!(t.order, vec![0, 1, 2, 3]);
    assert_eq!(t.seen, vec![true, true, true, true, false]);
    assert_eq!(t.dist[3], 2);
    assert_eq!(t.prev[3], 1);
    assert_eq!(t.prev[1], 0);
    assert_eq!(t.rank[1], 1);
    assert_eq!(t.rank[2], 2);
    assert_eq!(t.rank[3], 3);
    assert_eq!(t.slot[2], 1);
    assert_eq!(t.slot[3], 1);
}

#[test]
fn closest_cell_finds_the_nearest_resource() {
    let mut g = board(vec![vec![1], vec![0, 2], vec![1, 3], vec![2]]);
    g.cells[1].kind = CellKind::Eggs;
    g.cells[1].resources = 4;
    g.cells[2].kind = CellKind::Crystals;
    g.cells[2].resources = 9;
    g.cells[3].kind = CellKind::Eggs;
    g.cells[3].resources = 1;
    assert_eq!(g.closest_cell(0, CellKind::Eggs), Some((1, 1)));
    assert_eq!(g.closest_cell(0, CellKind::Crystals), Some((2, 2)));
    assert_eq!(g.closest_cell(3, CellKind::Eggs), Some((0, 3)));
    assert_eq!(g.closest_cell(3, CellKind::Crystals), Some((1, 2)));
}

#[test]
fn closest_cell_passes_over_depleted_cells() {
    let mut g = board(vec![vec![1], vec![0, 2], vec![1]]);
    g.cells[1].kind = CellKind::Eggs;
    g.cells[1].resources = 0;
    g.cells[2].kind = CellKind::Eggs;
    g.cells[2].resources = 3;
    assert_eq!(g.closest_cell(0, CellKind::Eggs), Some((2, 2)));
    g.cells[2].resources = 0;
    assert_eq!(g.closest_cell(0, CellKind::Eggs), None);
}

#[test]
fn closest_cell_ignores_what_cannot_be_reached() {
    let mut g = diamond();
    g.cells[4].kind = CellKind::Crystals;
    g.cells[4].resources = 5;
    assert_eq!(g.closest_cell(0, CellKind::Crystals), None);
    assert_eq!(g.closest_cell(4, CellKind::Crystals), Some((0, 4)));
}

#[test]
fn line_becomes_one_beacon_per_cell() {
    let g = chain3();
    let line = ActionLine { source: 0, destination: 2, strength: 7 };
    let beacons = g.beacons_of_line(line);
    assert_eq!(
        beacons,
        vec![
            ActionBeacon { location: 0, strength: 7 },
            ActionBeacon { location: 1, strength: 7 },
            ActionBeacon { location: 2, strength: 7 },
        ]
    );
    let here = g.beacons_of_line(ActionLine { source: 1, destination: 1, strength: -2 });
    assert_eq!(here, vec![ActionBeacon { location: 1, strength: -2 }]);
}

#[test]
fn line_between_unconnected_cells_fails() {
    let g = diamond();
    let line = ActionLine { source: 0, destination: 4, strength: 1 };
    assert_eq!(g.line_beacons(line), Err(EngineError::Unreachable));
}

fn field() -> Game {
    // 0 - 1 - 2 - 3 - 4 - 5 - 6
    let mut g = board(vec![
        vec![1],
        vec![0, 2],
        vec![1, 3],
        vec![2, 4],
        vec![3, 5],
        vec![4, 6],
        vec![5],
    ]);
    g.allied_bases = vec![0];
    g.ennemy_bases = vec![6];
    g
}

#[test]
fn turn_heads_for_eggs_close_by() {
    let mut g = field();
    g.cells[4].kind = CellKind::Eggs;
    g.cells[4].resources = 3;
    g.cells[1].kind = CellKind::Crystals;
    g.cells[1].resources = 3;
    assert_eq!(
        g.plan_turn(),
        spring_challenge_2023::Action::Line(ActionLine { source: 0, destination: 4, strength: 100 })
    );
}

#[test]
fn turn_heads_for_crystals_when_eggs_are_far() {
    let mut g = field();
    g.cells[5].kind = CellKind::Eggs;
    g.cells[5].resources = 3;
    g.cells[6].kind = CellKind::Crystals;
    g.cells[6].resources = 3;
    assert_eq!(
        g.plan_turn(),
        spring_challenge_2023::Action::Line(ActionLine { source: 0, destination: 6, strength: 100 })
    );
}

#[test]
fn turn_waits_when_nothing_is_left() {
    let mut g = field();
    g.cells[5].kind = CellKind::Eggs;
    g.cells[5].resources = 3;
    g.cells[2].kind = CellKind::Crystals;
    g.cells[2].resources = 0;
    assert_eq!(g.plan_turn(), spring_challenge_2023::Action::Wait);
}

#[test]
fn closest_cell_takes_the_first_discovered_of_equals() {
    let mut g = diamond();
    g.cells[1].kind = CellKind::Eggs;
    g.cells[1].resources = 1;
    g.cells[2].kind = CellKind::Eggs;
    g.cells[2].resources = 1;
    assert_eq!(g.closest_cell(0, CellKind::Eggs), Some((1, 1)));
    assert_eq!(g.closest_cell(3, CellKind::Eggs), Some((1, 1)));
    let mut h = board(vec![vec![2, 1], vec![0, 3], vec![0, 3], vec![1, 2]]);
    h.cells[1].kind = CellKind::Eggs;
    h.cells[1].resources = 1;
    h.cells[2].kind = CellKind::Eggs;
    h.cells[2].resources = 1;
    assert_eq!(h.closest_cell(0, CellKind::Eggs), Some((1, 2)));
}

#[test]
fn repeated_neighbors_do_not_change_the_path() {
    let g = board(vec![vec![1, 1, 2], vec![3, 0, 3], vec![3], vec![]]);
    assert_eq!(g.path(0, 3), vec![0, 1, 3]);
    let t = g.search(0);
    assert_eq!(t.order, vec![0, 1, 2, 3]);
    assert_eq!(t.slot[1], 0);
    assert_eq!(t.slot[2], 2);
    assert_eq!(t.slot[3], 0);
}
