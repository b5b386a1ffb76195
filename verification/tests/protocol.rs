use spring_challenge_2023::protocol::{parse_i32, parse_usize};
use spring_challenge_2023::text::{push_i32, push_usize, split_fields, trim};
use spring_challenge_2023::{
    Action, ActionBeacon, ActionLine, ActionMessage, Cell, CellKind, EngineError, Game,
    ParsingError,
};

fn bytes(s: &str) -> Vec<u8> {
    s.as_bytes().to_vec()
}

fn lines(text: &[&str]) -> Vec<Vec<u8>> {
    text.iter().map(|l| bytes(l)).collect()
}

fn not_an_integer(s: &str) -> ParsingError {
    ParsingError::NotAnInteger(bytes(s))
}

#[test]
fn signed_integers_are_read() {
    assert_eq!(parse_i32(b"42"), Ok(42));
    assert_eq!(parse_i32(b" -7\n"), Ok(-7));
    assert_eq!(parse_i32(b"+5"), Ok(5));
    assert_eq!(parse_i32(b"007"), Ok(7));
    assert_eq!(parse_i32(b"-0"), Ok(0));
    assert_eq!(parse_i32(b"\t12\r\n"), Ok(12));
    assert_eq!(parse_i32(b"2147483647"), Ok(i32::MAX));
    assert_eq!(parse_i32(b"-2147483648"), Ok(i32::MIN));
}

#[test]
fn what_is_no_signed_integer_is_refused() {
    assert_eq!(parse_i32(b""), Err(not_an_integer("")));
    assert_eq!(parse_i32(b"   "), Err(not_an_integer("   ")));
    assert_eq!(parse_i32(b"abc"), Err(not_an_integer("abc")));
    assert_eq!(parse_i32(b"-"), Err(not_an_integer("-")));
    assert_eq!(parse_i32(b"+"), Err(not_an_integer("+")));
    assert_eq!(parse_i32(b"1 2"), Err(not_an_integer("1 2")));
    assert_eq!(parse_i32(b"12a"), Err(not_an_integer("12a")));
    assert_eq!(parse_i32(b"--1"), Err(not_an_integer("--1")));
    assert_eq!(parse_i32(b"2147483648"), Err(not_an_integer("2147483648")));
    assert_eq!(parse_i32(b"-2147483649"), Err(not_an_integer("-2147483649")));
    assert_eq!(parse_i32(b" 99999999999999999999999 "), Err(not_an_integer(" 99999999999999999999999 ")));
}

#[test]
fn indices_are_read() {
    assert_eq!(parse_usize(b"12"), Ok(12));
    assert_eq!(parse_usize(b"+3\n"), Ok(3));
    assert_eq!(parse_usize(b"0"), Ok(0));
    assert_eq!(parse_usize(b"18446744073709551615"), Ok(usize::MAX));
    assert_eq!(parse_usize(b"-1"), Err(not_an_integer("-1")));
    assert_eq!(parse_usize(b"-0"), Err(not_an_integer("-0")));
    assert_eq!(parse_usize(b""), Err(not_an_integer("")));
    assert_eq!(parse_usize(b"18446744073709551616"), Err(not_an_integer("18446744073709551616")));
}

#[test]
fn white_space_is_trimmed_at_both_ends() {
    assert_eq!(trim(b"  ab c \n"), (2, 6));
    assert_eq!(trim(b"abc"), (0, 3));
    assert_eq!(trim(b" \t "), (3, 3));
    assert_eq!(trim(b""), (0, 0));
}

#[test]
fn lines_are_cut_at_every_blank() {
    assert_eq!(split_fields(b"1 22 333"), vec![bytes("1"), bytes("22"), bytes("333")]);
    assert_eq!(split_fields(b""), vec![bytes("")]);
    assert_eq!(split_fields(b"a  b "), vec![bytes("a"), bytes(""), bytes("b"), bytes("")]);
}

#[test]
fn numbers_are_written_in_decimal() {
    let mut out = Vec::new();
    push_i32(0, &mut out);
    out.push(b' ');
    push_i32(-120, &mut out);
    out.push(b' ');
    push_i32(i32::MIN, &mut out);
    out.push(b' ');
    push_i32(i32::MAX, &mut out);
    out.push(b' ');
    push_usize(1005, &mut out);
    assert_eq!(out, bytes("0 -120 -2147483648 2147483647 1005"));
}

#[test]
fn cell_line_is_read() {
    let cell = Cell::from_line(b"1 10 1 -1 2 -1 -1 -1").unwrap();
    assert_eq!(cell.kind, CellKind::Eggs);
    assert_eq!(cell.resources, 10);
    assert_eq!(cell.neighbors, vec![1, 2]);
    assert_eq!(cell.allied_ants, 0);
    assert_eq!(cell.ennemy_ants, 0);
    let cell = Cell::from_line(b"2 0 5 4 3 2 1 0\n").unwrap();
    assert_eq!(cell.kind, CellKind::Crystals);
    assert_eq!(cell.neighbors, vec![5, 4, 3, 2, 1, 0]);
    let cell = Cell::from_line(b"0 -3 -1 -1 -1 -1 -1 -1").unwrap();
    assert_eq!(cell.kind, CellKind::Empty);
    assert_eq!(cell.resources, -3);
    assert!(cell.neighbors.is_empty());
}

#[test]
fn cell_line_with_wrong_number_of_fields_is_refused() {
    let r = Cell::from_line(b"0 1 2");
    assert_eq!(r.err(), Some(ParsingError::WrongNumberOfElements(bytes("0 1 2"), 3, 8)));
    let r = Cell::from_line(b"0 1 2 3 4 5 6 7 8");
    assert_eq!(
        r.err(),
        Some(ParsingError::WrongNumberOfElements(bytes("0 1 2 3 4 5 6 7 8"), 9, 8))
    );
}

#[test]
fn cell_line_with_bad_field_is_refused() {
    let r = Cell::from_line(b"0 x 2");
    assert_eq!(r.err(), Some(not_an_integer("x")));
    let r = Cell::from_line(b"0 1  2 3 4 5 6 7");
    assert_eq!(r.err(), Some(not_an_integer("")));
    let r = Cell::from_line(b"");
    assert_eq!(r.err(), Some(not_an_integer("")));
}

#[test]
fn cell_line_with_unknown_kind_is_refused() {
    let r = Cell::from_line(b"5 0 -1 -1 -1 -1 -1 -1");
    assert_eq!(r.err(), Some(ParsingError::InvalidCellKind(5)));
    let r = Cell::from_line(b"-1 0 -1 -1 -1 -1 -1 -1");
    assert_eq!(r.err(), Some(ParsingError::InvalidCellKind(-1)));
    assert_eq!(CellKind::from_code(3), Err(ParsingError::InvalidCellKind(3)));
    assert_eq!(CellKind::from_code(2), Ok(CellKind::Crystals));
    assert_eq!(CellKind::Eggs.code(), 1);
}

#[test]
fn cell_is_written_with_six_slots() {
    let cell = Cell::new(CellKind::Eggs, 10, vec![1, 2]);
    assert_eq!(cell.to_line(), bytes("1 10 1 2 -1 -1 -1 -1"));
    let cell = Cell::new(CellKind::Empty, 0, vec![]);
    assert_eq!(cell.to_line(), bytes("0 0 -1 -1 -1 -1 -1 -1"));
    let cell = Cell::new(CellKind::Crystals, 7, vec![9, 8, 7, 6, 5, 4, 3]);
    assert_eq!(cell.to_line(), bytes("2 7 9 8 7 6 5 4"));
}

fn sample() -> Vec<Vec<u8>> {
    lines(&[
        "3\n",
        "0 0 1 -1 -1 -1 -1 -1\n",
        "1 12 0 -1 -1 2 -1 -1\n",
        "2 40 -1 -1 1 -1 -1 -1\n",
        "1\n",
        "0\n",
        "2\n",
    ])
}

#[test]
fn board_is_read() {
    let g = Game::parse(&sample()).unwrap();
    assert_eq!(g.cells.len(), 3);
    assert_eq!(g.cells[1].kind, CellKind::Eggs);
    assert_eq!(g.cells[1].resources, 12);
    assert_eq!(g.cells[1].neighbors, vec![0, 2]);
    assert_eq!(g.cells[2].kind, CellKind::Crystals);
    assert_eq!(g.allied_bases, vec![0]);
    assert_eq!(g.ennemy_bases, vec![2]);
    assert!(g.has_valid_edges() && g.has_valid_bases() && g.has_valid_counts());
}

#[test]
fn board_that_ends_early_is_refused() {
    let mut text = sample();
    text.truncate(3);
    assert_eq!(Game::parse(&text).err(), Some(not_an_integer("")));
    text.truncate(0);
    assert_eq!(Game::parse(&text).err(), Some(not_an_integer("")));
    let mut text = sample();
    text.truncate(6);
    assert_eq!(Game::parse(&text).err(), Some(not_an_integer("")));
}

#[test]
fn board_with_wrong_number_of_bases_is_refused() {
    let mut text = sample();
    text[6] = bytes("2 1");
    assert_eq!(
        Game::parse(&text).err(),
        Some(ParsingError::WrongNumberOfElements(bytes("2 1"), 2, 1))
    );
    assert_eq!(Game::parse_bases(b"4 5 6", 3), Ok(vec![4, 5, 6]));
    assert_eq!(Game::parse_bases(b"4 -5 6", 3), Err(not_an_integer("-5")));
    assert_eq!(
        Game::parse_bases(b"", 0),
        Err(not_an_integer(""))
    );
}

#[test]
fn board_is_written() {
    let g = Game::parse(&sample()).unwrap();
    assert_eq!(
        g.write(),
        lines(&[
            "3",
            "0 0 1 -1 -1 -1 -1 -1",
            "1 12 0 2 -1 -1 -1 -1",
            "2 40 1 -1 -1 -1 -1 -1",
            "1",
            "0",
            "2",
        ])
    );
    assert_eq!(Game::write_bases(&vec![3, 14]), bytes("3 14"));
    assert_eq!(Game::write_bases(&vec![]), bytes(""));
}

#[test]
fn written_board_reads_back() {
    let mut g = Game::parse(&sample()).unwrap();
    g.cells[0].allied_ants = 9;
    g.cells[1].resources = -4;
    let back = Game::parse(&g.write()).unwrap();
    assert_eq!(back.cells.len(), g.cells.len());
    for (a, b) in g.cells.iter().zip(back.cells.iter()) {
        assert_eq!(a.kind, b.kind);
        assert_eq!(a.resources, b.resources);
        assert_eq!(a.neighbors, b.neighbors);
        assert_eq!(b.allied_ants, 0);
        assert_eq!(b.ennemy_ants, 0);
    }
    assert_eq!(back.allied_bases, g.allied_bases);
    assert_eq!(back.ennemy_bases, g.ennemy_bases);
    assert_eq!(back.write(), g.write());
}

#[test]
fn board_without_bases_does_not_read_back() {
    let g = Game { cells: vec![Cell::new(CellKind::Empty, 0, vec![])], allied_bases: vec![], ennemy_bases: vec![] };
    assert_eq!(Game::parse(&g.write()).err(), Some(not_an_integer("")));
}

#[test]
fn update_sets_resources_and_units() {
    let g = Game::parse(&sample()).unwrap();
    let g = g.read_update(&lines(&["0 5 1\n", "11 0 0\n", "39 2 7 extra\n"])).unwrap();
    assert_eq!((g.cells[0].resources, g.cells[0].allied_ants, g.cells[0].ennemy_ants), (0, 5, 1));
    assert_eq!((g.cells[1].resources, g.cells[1].allied_ants, g.cells[1].ennemy_ants), (11, 0, 0));
    assert_eq!((g.cells[2].resources, g.cells[2].allied_ants, g.cells[2].ennemy_ants), (39, 2, 7));
    assert_eq!(g.cells[1].neighbors, vec![0, 2]);
    assert_eq!(g.cells[1].kind, CellKind::Eggs);
    assert_eq!(g.allied_bases, vec![0]);
    assert_eq!(g.units(2), (2, 7));
    assert_eq!(g.resources(2), 39);
    assert_eq!(g.kind(2), CellKind::Crystals);
    assert_eq!(g.neighbors(1), &vec![0, 2]);
}

#[test]
fn update_with_bad_lines_is_refused() {
    let g = Game::parse(&sample()).unwrap();
    let r = g.clone().read_update(&lines(&["0 5 1", "11 0"]));
    assert_eq!(r.err(), Some(ParsingError::WrongNumberOfElements(bytes("11 0"), 2, 3)));
    let r = g.clone().read_update(&lines(&["0 5 1", "11"]));
    assert_eq!(r.err(), Some(ParsingError::WrongNumberOfElements(bytes("11"), 1, 3)));
    let r = g.clone().read_update(&lines(&["0 5 1", "x"]));
    assert_eq!(r.err(), Some(not_an_integer("x")));
    let r = g.clone().read_update(&lines(&["0 5 1", "1 y 2"]));
    assert_eq!(r.err(), Some(not_an_integer("y")));
    let r = g.clone().read_update(&lines(&["0 5 1", "1 2 z"]));
    assert_eq!(r.err(), Some(not_an_integer("z")));
    let r = g.clone().read_update(&lines(&["0 5 1"]));
    assert_eq!(r.err(), Some(not_an_integer("")));
}

#[test]
fn update_is_written_without_line_breaks() {
    let g = Game::parse(&sample()).unwrap();
    let g = g.read_update(&lines(&["0 5 1", "11 0 0", "39 2 7"])).unwrap();
    assert_eq!(g.write_update(), bytes("0 5 111 0 039 2 7"));
}

#[test]
fn actions_are_written() {
    assert_eq!(Action::Wait.to_line(), bytes("WAIT"));
    let line = Action::Line(ActionLine { source: 0, destination: 3, strength: 100 });
    assert_eq!(line.to_line(), bytes("LINE 0 3 100"));
    let beacon = Action::Beacon(ActionBeacon { location: 2, strength: -5 });
    assert_eq!(beacon.to_line(), bytes("BEACON 2 -5"));
    let message = Action::ActionMessage(ActionMessage { message: String::from("hé") });
    assert_eq!(message.to_line(), bytes("MESSAGE hé"));
}

#[test]
fn malformed_boards_are_refused() {
    let cell = |neighbors: Vec<usize>| Cell::new(CellKind::Empty, 0, neighbors);
    let ok = Game::new(vec![cell(vec![1]), cell(vec![0])], vec![0], vec![1]);
    assert!(ok.is_ok());
    let r = Game::new(vec![cell(vec![2]), cell(vec![0])], vec![0], vec![1]);
    assert_eq!(r.err(), Some(EngineError::MalformedGraph));
    let r = Game::new(vec![cell(vec![1]), cell(vec![0])], vec![0], vec![2]);
    assert_eq!(r.err(), Some(EngineError::MalformedGraph));
    let r = Game::new(vec![cell(vec![1]), cell(vec![0])], vec![0, 1], vec![1]);
    assert_eq!(r.err(), Some(EngineError::MalformedGraph));
    let mut bad = cell(vec![]);
    bad.allied_ants = -1;
    let r = Game::new(vec![bad], vec![], vec![]);
    assert_eq!(r.err(), Some(EngineError::MalformedGraph));
}
