//! The line format of boards and of their per-turn updates, on bytes.
//!
//! A board is one line with the number of cells, one line per cell, one line
//! with the number of bases of each side, and one line of base indices per
//! side. A cell line holds eight integers: the kind, the resources, and six
//! neighbor slots, where a negative slot is no edge.

use vstd::prelude::*;
use vstd::slice::slice_to_vec;
use crate::graph::{cell_models, BoardModel, Cell, CellKind, CellModel, Game};
use crate::text::{
    fields, i32_of, joined, lemma_fields_nonempty, push_i32, push_usize, scan_digits,
    split_fields, text_of, trim, usize_of, views,
};

verus! {

/// Why a line was not accepted.
#[derive(Clone, Debug, PartialEq, Eq)]
pub enum ParsingError {
    /// The line, the number of fields it has, the number it should have.
    WrongNumberOfElements(Vec<u8>, usize, usize),
    /// The field that is no integer of the wanted type.
    NotAnInteger(Vec<u8>),
    /// The code that names no kind of cell.
    InvalidCellKind(i32),
}

/// A parsing error as plain values.
pub enum Fault {
    WrongNumberOfElements(Seq<u8>, nat, nat),
    NotAnInteger(Seq<u8>),
    InvalidCellKind(i32),
}

impl View for ParsingError {
    type V = Fault;

    open spec fn view(&self) -> Fault {
        match self {
            ParsingError::WrongNumberOfElements(line, got, want) => Fault::WrongNumberOfElements(
                line@,
                *got as nat,
                *want as nat,
            ),
            ParsingError::NotAnInteger(field) => Fault::NotAnInteger(field@),
            ParsingError::InvalidCellKind(code) => Fault::InvalidCellKind(*code),
        }
    }
}

/// The integers of the first `k` fields, or the first field that is none.
pub open spec fn nums_upto(f: Seq<Seq<u8>>, k: nat) -> Result<Seq<i32>, Fault>
    decreases k,
{
    if k == 0 {
        Ok(Seq::empty())
    } else {
        match nums_upto(f, (k - 1) as nat) {
            Err(e) => Err(e),
            Ok(v) => match i32_of(f[k - 1]) {
                Some(x) => Ok(v.push(x)),
                None => Err(Fault::NotAnInteger(f[k - 1])),
            },
        }
    }
}

/// The indices of the first `k` fields, or the first field that is none.
pub open spec fn indices_upto(f: Seq<Seq<u8>>, k: nat) -> Result<Seq<usize>, Fault>
    decreases k,
{
    if k == 0 {
        Ok(Seq::empty())
    } else {
        match indices_upto(f, (k - 1) as nat) {
            Err(e) => Err(e),
            Ok(v) => match usize_of(f[k - 1]) {
                Some(x) => Ok(v.push(x)),
                None => Err(Fault::NotAnInteger(f[k - 1])),
            },
        }
    }
}

/// The neighbors among the slots of a cell line before position `k`: the
/// slots from the third on that are not negative.
pub open spec fn links_upto(v: Seq<i32>, k: nat) -> Seq<usize>
    decreases k,
{
    if k <= 2 {
        Seq::empty()
    } else {
        let rest = links_upto(v, (k - 1) as nat);
        if v[k - 1] >= 0 {
            rest.push(v[k - 1] as usize)
        } else {
            rest
        }
    }
}

/// The cell that a line describes.
pub open spec fn cell_of(line: Seq<u8>) -> Result<CellModel, Fault> {
    let f = fields(line);
    match nums_upto(f, f.len()) {
        Err(e) => Err(e),
        Ok(v) => if v.len() != 8 {
            Err(Fault::WrongNumberOfElements(line, v.len(), 8))
        } else {
            match CellKind::of_code(v[0] as int) {
                None => Err(Fault::InvalidCellKind(v[0])),
                Some(kind) => Ok(
                    CellModel {
                        kind,
                        resources: v[1],
                        neighbors: links_upto(v, 8),
                        allied_ants: 0,
                        ennemy_ants: 0,
                    },
                ),
            }
        },
    }
}

/// The base indices that a line lists, of which there must be `count`.
pub open spec fn bases_of(line: Seq<u8>, count: usize) -> Result<Seq<usize>, Fault> {
    let f = fields(line);
    match indices_upto(f, f.len()) {
        Err(e) => Err(e),
        Ok(v) => if v.len() != count {
            Err(Fault::WrongNumberOfElements(line, v.len(), count as nat))
        } else {
            Ok(v)
        },
    }
}

/// Line `i`, or an empty line where the input has ended.
pub open spec fn line_at(lines: Seq<Seq<u8>>, i: int) -> Seq<u8> {
    if 0 <= i < lines.len() {
        lines[i]
    } else {
        Seq::empty()
    }
}

/// The cells that the lines after the first describe, up to the `k`-th.
pub open spec fn cells_upto(lines: Seq<Seq<u8>>, k: nat) -> Result<Seq<CellModel>, Fault>
    decreases k,
{
    if k == 0 {
        Ok(Seq::empty())
    } else {
        match cells_upto(lines, (k - 1) as nat) {
            Err(e) => Err(e),
            Ok(cells) => match cell_of(line_at(lines, k as int)) {
                Ok(c) => Ok(cells.push(c)),
                Err(e) => Err(e),
            },
        }
    }
}

/// The board that the lines describe.
pub open spec fn board_of(lines: Seq<Seq<u8>>) -> Result<BoardModel, Fault> {
    match usize_of(line_at(lines, 0)) {
        None => Err(Fault::NotAnInteger(line_at(lines, 0))),
        Some(n) => match cells_upto(lines, n as nat) {
            Err(e) => Err(e),
            Ok(cells) => match usize_of(line_at(lines, n + 1)) {
                None => Err(Fault::NotAnInteger(line_at(lines, n + 1))),
                Some(count) => match bases_of(line_at(lines, n + 2), count) {
                    Err(e) => Err(e),
                    Ok(allied) => match bases_of(line_at(lines, n + 3), count) {
                        Err(e) => Err(e),
                        Ok(ennemy) => Ok(
                            BoardModel { cells, allied_bases: allied, ennemy_bases: ennemy },
                        ),
                    },
                },
            },
        },
    }
}

/// What a line of an update sets: resources, allied units, enemy units.
pub open spec fn update_of(line: Seq<u8>) -> Result<(i32, i32, i32), Fault> {
    let f = fields(line);
    match i32_of(f[0]) {
        None => Err(Fault::NotAnInteger(f[0])),
        Some(resources) => if f.len() < 2 {
            Err(Fault::WrongNumberOfElements(line, f.len(), 3))
        } else {
            match i32_of(f[1]) {
                None => Err(Fault::NotAnInteger(f[1])),
                Some(allied) => if f.len() < 3 {
                    Err(Fault::WrongNumberOfElements(line, f.len(), 3))
                } else {
                    match i32_of(f[2]) {
                        None => Err(Fault::NotAnInteger(f[2])),
                        Some(ennemy) => Ok((resources, allied, ennemy)),
                    }
                },
            }
        },
    }
}

/// The cells after the first `k` of them took their line of the update.
pub open spec fn updated_upto(cells: Seq<CellModel>, lines: Seq<Seq<u8>>, k: nat) -> Result<
    Seq<CellModel>,
    Fault,
>
    decreases k,
{
    if k == 0 {
        Ok(cells)
    } else {
        match updated_upto(cells, lines, (k - 1) as nat) {
            Err(e) => Err(e),
            Ok(done) => match update_of(line_at(lines, k - 1)) {
                Err(e) => Err(e),
                Ok(u) => Ok(
                    done.update(
                        k - 1,
                        CellModel {
                            resources: u.0,
                            allied_ants: u.1,
                            ennemy_ants: u.2,
                            ..done[k - 1]
                        },
                    ),
                ),
            },
        }
    }
}

/// The result of parsing a board, as plain values.
pub open spec fn parsed(r: Result<Game, ParsingError>) -> Result<BoardModel, Fault> {
    match r {
        Ok(g) => Ok(g@),
        Err(e) => Err(e@),
    }
}

/// The signed 32-bit integer that `s` holds in decimal between white space.
pub fn parse_i32(s: &[u8]) -> (r: Result<i32, ParsingError>)
    ensures
        match r {
            Ok(v) => i32_of(s@) == Some(v),
            Err(e) => i32_of(s@).is_none() && e@ == Fault::NotAnInteger(s@),
        },
{
    let (a, b) = trim(s);
    let ghost t = s@.subrange(a as int, b as int);
    if a < b {
        let c = s[a];
        assert(t[0] == c);
        if c == 45 || c == 43 {
            assert(t.skip(1) =~= s@.subrange(a + 1, b as int));
            let limit: u128 = if c == 45 {
                0x8000_0000
            } else {
                0x7fff_ffff
            };
            match scan_digits(s, a + 1, b, limit) {
                Some(v) => {
                    if c == 45 {
                        return Ok((-(v as i64)) as i32);
                    } else {
                        return Ok(v as i32);
                    }
                },
                None => {},
            }
        } else {
            match scan_digits(s, a, b, 0x7fff_ffff) {
                Some(v) => {
                    return Ok(v as i32);
                },
                None => {},
            }
        }
    }
    Err(ParsingError::NotAnInteger(slice_to_vec(s)))
}

/// The index that `s` holds in decimal between white space.
pub fn parse_usize(s: &[u8]) -> (r: Result<usize, ParsingError>)
    ensures
        match r {
            Ok(v) => usize_of(s@) == Some(v),
            Err(e) => usize_of(s@).is_none() && e@ == Fault::NotAnInteger(s@),
        },
{
    let (a, b) = trim(s);
    let ghost t = s@.subrange(a as int, b as int);
    if a < b {
        let c = s[a];
        assert(t[0] == c);
        if c == 43 {
            assert(t.skip(1) =~= s@.subrange(a + 1, b as int));
            match scan_digits(s, a + 1, b, usize::MAX as u128) {
                Some(v) => {
                    return Ok(v as usize);
                },
                None => {},
            }
        } else if c != 45 {
            match scan_digits(s, a, b, usize::MAX as u128) {
                Some(v) => {
                    return Ok(v as usize);
                },
                None => {},
            }
        }
    }
    Err(ParsingError::NotAnInteger(slice_to_vec(s)))
}

impl CellKind {
    /// The kind that `value` is the code of, or `InvalidCellKind`.
    pub fn from_code(value: i32) -> (r: Result<CellKind, ParsingError>)
        ensures
            match r {
                Ok(kind) => CellKind::of_code(value as int) == Some(kind),
                Err(e) => CellKind::of_code(value as int).is_none() && e@ == Fault::InvalidCellKind(
                    value,
                ),
            },
    {
        if value == 0 {
            Ok(CellKind::Empty)
        } else if value == 1 {
            Ok(CellKind::Eggs)
        } else if value == 2 {
            Ok(CellKind::Crystals)
        } else {
            Err(ParsingError::InvalidCellKind(value))
        }
    }
}

/// Once a field is no integer, the fields after it are not looked at.
pub proof fn lemma_nums_failure_stays(f: Seq<Seq<u8>>, k: nat, n: nat)
    requires
        k <= n,
        nums_upto(f, k).is_err(),
    ensures
        nums_upto(f, n) == nums_upto(f, k),
    decreases n - k,
{
    if k < n {
        lemma_nums_failure_stays(f, k, (n - 1) as nat);
    }
}

/// Once a field is no index, the fields after it are not looked at.
pub proof fn lemma_indices_failure_stays(f: Seq<Seq<u8>>, k: nat, n: nat)
    requires
        k <= n,
        indices_upto(f, k).is_err(),
    ensures
        indices_upto(f, n) == indices_upto(f, k),
    decreases n - k,
{
    if k < n {
        lemma_indices_failure_stays(f, k, (n - 1) as nat);
    }
}

/// Once a cell line is refused, the lines after it are not looked at.
pub proof fn lemma_cells_failure_stays(lines: Seq<Seq<u8>>, k: nat, n: nat)
    requires
        k <= n,
        cells_upto(lines, k).is_err(),
    ensures
        cells_upto(lines, n) == cells_upto(lines, k),
    decreases n - k,
{
    if k < n {
        lemma_cells_failure_stays(lines, k, (n - 1) as nat);
    }
}

/// Once a line of an update is refused, the lines after it are not looked at.
pub proof fn lemma_update_failure_stays(
    cells: Seq<CellModel>,
    lines: Seq<Seq<u8>>,
    k: nat,
    n: nat,
)
    requires
        k <= n,
        updated_upto(cells, lines, k).is_err(),
    ensures
        updated_upto(cells, lines, n) == updated_upto(cells, lines, k),
    decreases n - k,
{
    if k < n {
        lemma_update_failure_stays(cells, lines, k, (n - 1) as nat);
    }
}

/// Reads every field as a signed integer.
fn parse_numbers(tokens: &Vec<Vec<u8>>) -> (r: Result<Vec<i32>, ParsingError>)
    ensures
        match r {
            Ok(v) => nums_upto(views(tokens@), tokens@.len()) == Ok::<Seq<i32>, Fault>(v@),
            Err(e) => nums_upto(views(tokens@), tokens@.len()) == Err::<Seq<i32>, Fault>(e@),
        },
{
    let mut out: Vec<i32> = Vec::new();
    let mut i: usize = 0;
    while i < tokens.len()
        invariant
            i <= tokens@.len(),
            nums_upto(views(tokens@), i as nat) == Ok::<Seq<i32>, Fault>(out@),
        decreases tokens@.len() - i,
    {
        match parse_i32(tokens[i].as_slice()) {
            Ok(x) => {
                out.push(x);
            },
            Err(e) => {
                proof {
                    assert(nums_upto(views(tokens@), (i + 1) as nat) == Err::<Seq<i32>, Fault>(e@));
                    lemma_nums_failure_stays(views(tokens@), (i + 1) as nat, tokens@.len());
                }
                return Err(e);
            },
        }
        i += 1;
    }
    Ok(out)
}

/// Reads every field as an index.
fn parse_indices(tokens: &Vec<Vec<u8>>) -> (r: Result<Vec<usize>, ParsingError>)
    ensures
        match r {
            Ok(v) => indices_upto(views(tokens@), tokens@.len()) == Ok::<Seq<usize>, Fault>(v@),
            Err(e) => indices_upto(views(tokens@), tokens@.len()) == Err::<Seq<usize>, Fault>(e@),
        },
{
    let mut out: Vec<usize> = Vec::new();
    let mut i: usize = 0;
    while i < tokens.len()
        invariant
            i <= tokens@.len(),
            indices_upto(views(tokens@), i as nat) == Ok::<Seq<usize>, Fault>(out@),
        decreases tokens@.len() - i,
    {
        match parse_usize(tokens[i].as_slice()) {
            Ok(x) => {
                out.push(x);
            },
            Err(e) => {
                proof {
                    assert(indices_upto(views(tokens@), (i + 1) as nat) == Err::<
                        Seq<usize>,
                        Fault,
                    >(e@));
                    lemma_indices_failure_stays(views(tokens@), (i + 1) as nat, tokens@.len());
                }
                return Err(e);
            },
        }
        i += 1;
    }
    Ok(out)
}

impl Cell {
    /// Reads a cell from its line: eight integers with one blank between
    /// each two. The cell holds no units.
    pub fn from_line(line: &[u8]) -> (r: Result<Cell, ParsingError>)
        ensures
            match r {
                Ok(cell) => cell_of(line@) == Ok::<CellModel, Fault>(cell@),
                Err(e) => cell_of(line@) == Err::<CellModel, Fault>(e@),
            },
    {
        let tokens = split_fields(line);
        let inputs = match parse_numbers(&tokens) {
            Ok(inputs) => inputs,
            Err(e) => {
                return Err(e);
            },
        };
        if inputs.len() != 8 {
            return Err(ParsingError::WrongNumberOfElements(slice_to_vec(line), inputs.len(), 8));
        }
        let kind = match CellKind::from_code(inputs[0]) {
            Ok(kind) => kind,
            Err(e) => {
                return Err(e);
            },
        };
        let mut neighbors: Vec<usize> = Vec::new();
        let mut k: usize = 2;
        while k < 8
            invariant
                2 <= k <= 8,
                inputs@.len() == 8,
                neighbors@ == links_upto(inputs@, k as nat),
            decreases 8 - k,
        {
            let v = inputs[k];
            if v >= 0 {
                neighbors.push(v as usize);
            }
            k += 1;
        }
        Ok(Cell { kind, resources: inputs[1], neighbors, allied_ants: 0, ennemy_ants: 0 })
    }
}


/// The text of neighbor slot `k` of a cell: the neighbor, or `-1` for no edge.
pub open spec fn slot_text(c: CellModel, k: int) -> Seq<u8> {
    if k < c.neighbors.len() {
        text_of(c.neighbors[k] as int)
    } else {
        text_of(-1)
    }
}

/// The eight fields of a cell line.
pub open spec fn cell_tokens(c: CellModel) -> Seq<Seq<u8>> {
    seq![
        text_of(c.kind.spec_code()),
        text_of(c.resources as int),
        slot_text(c, 0),
        slot_text(c, 1),
        slot_text(c, 2),
        slot_text(c, 3),
        slot_text(c, 4),
        slot_text(c, 5),
    ]
}

/// The line of a cell.
pub open spec fn cell_line(c: CellModel) -> Seq<u8> {
    joined(cell_tokens(c))
}

/// The fields of a line of bases.
pub open spec fn base_tokens(bases: Seq<usize>) -> Seq<Seq<u8>> {
    Seq::new(bases.len(), |i: int| text_of(bases[i] as int))
}

/// The line of the bases of one side.
pub open spec fn bases_line(bases: Seq<usize>) -> Seq<u8> {
    joined(base_tokens(bases))
}

/// The lines of a board.
pub open spec fn board_lines(m: BoardModel) -> Seq<Seq<u8>> {
    seq![text_of(m.cells.len() as int)] + Seq::new(m.cells.len(), |i: int| cell_line(m.cells[i]))
        + seq![
        text_of(m.allied_bases.len() as int),
        bases_line(m.allied_bases),
        bases_line(m.ennemy_bases),
    ]
}

/// The text of an update of the first `k` cells: for each cell its
/// resources, allied units and enemy units with a blank between each two,
/// and nothing between one cell and the next.
pub open spec fn update_text_upto(cells: Seq<CellModel>, k: nat) -> Seq<u8>
    decreases k,
{
    if k == 0 {
        Seq::empty()
    } else {
        update_text_upto(cells, (k - 1) as nat) + text_of(cells[k - 1].resources as int) + seq![
            32u8,
        ] + text_of(cells[k - 1].allied_ants as int) + seq![32u8] + text_of(
            cells[k - 1].ennemy_ants as int,
        )
    }
}

/// Joining one more token puts a blank and the token behind the line.
pub proof fn lemma_joined_push(tokens: Seq<Seq<u8>>, t: Seq<u8>)
    requires
        tokens.len() >= 1,
    ensures
        joined(tokens.push(t)) == joined(tokens).push(32u8) + t,
{
    assert(tokens.push(t).drop_last() =~= tokens);
}

impl Cell {
    /// Writes a cell as its line; of more than six neighbors the first six are written.
    pub fn to_line(&self) -> (out: Vec<u8>)
        ensures
            out@ == cell_line(self@),
    {
        let mut out: Vec<u8> = Vec::new();
        push_i32(self.kind.code(), &mut out);
        out.push(32);
        push_i32(self.resources, &mut out);
        let ghost mut tokens = seq![text_of(self.kind.spec_code()), text_of(self.resources as int)];
        proof {
            let head = seq![text_of(self.kind.spec_code())];
            lemma_joined_push(head, text_of(self.resources as int));
            assert(head.push(text_of(self.resources as int)) =~= tokens);
            assert(out@ =~= joined(tokens));
            assert(tokens =~= cell_tokens(self@).take(2));
        }
        let mut k: usize = 0;
        while k < 6
            invariant
                k <= 6,
                tokens == cell_tokens(self@).take(2 + k),
                out@ == joined(tokens),
            decreases 6 - k,
        {
            out.push(32);
            if k < self.neighbors.len() {
                push_usize(self.neighbors[k], &mut out);
            } else {
                push_i32(-1, &mut out);
            }
            proof {
                lemma_joined_push(tokens, slot_text(self@, k as int));
                assert(out@ =~= joined(tokens.push(slot_text(self@, k as int))));
                assert(tokens.push(slot_text(self@, k as int)) =~= cell_tokens(self@).take(3 + k));
                tokens = tokens.push(slot_text(self@, k as int));
            }
            k += 1;
        }
        assert(cell_tokens(self@).take(8) =~= cell_tokens(self@));
        out
    }
}

/// Line `i` of the input, or `empty` where the input has ended.
fn line_or<'a>(lines: &'a Vec<Vec<u8>>, i: u128, empty: &'a Vec<u8>) -> (line: &'a Vec<u8>)
    requires
        empty@.len() == 0,
    ensures
        line@ == line_at(views(lines@), i as int),
{
    if i < lines.len() as u128 {
        &lines[i as usize]
    } else {
        assert(empty@ =~= Seq::empty());
        empty
    }
}

impl Game {
    /// Reads the base indices of one side from their line, which must hold `count` of them.
    pub fn parse_bases(line: &[u8], count: usize) -> (r: Result<Vec<usize>, ParsingError>)
        ensures
            match r {
                Ok(v) => bases_of(line@, count) == Ok::<Seq<usize>, Fault>(v@),
                Err(e) => bases_of(line@, count) == Err::<Seq<usize>, Fault>(e@),
            },
    {
        let tokens = split_fields(line);
        let ret = match parse_indices(&tokens) {
            Ok(ret) => ret,
            Err(e) => {
                return Err(e);
            },
        };
        if ret.len() != count {
            return Err(ParsingError::WrongNumberOfElements(slice_to_vec(line), ret.len(), count));
        }
        Ok(ret)
    }

    /// Reads a board from its lines. Lines that are missing at the end count as empty.
    pub fn parse(lines: &Vec<Vec<u8>>) -> (r: Result<Game, ParsingError>)
        ensures
            parsed(r) == board_of(views(lines@)),
    {
        let empty: Vec<u8> = Vec::new();
        let number_of_cells = match parse_usize(line_or(lines, 0, &empty).as_slice()) {
            Ok(n) => n,
            Err(e) => {
                return Err(e);
            },
        };
        let mut cells: Vec<Cell> = Vec::new();
        let mut i: usize = 0;
        assert(cell_models(cells@) =~= Seq::empty());
        while i < number_of_cells
            invariant
                empty@.len() == 0,
                i <= number_of_cells,
                usize_of(line_at(views(lines@), 0)) == Some(number_of_cells),
                cells_upto(views(lines@), i as nat) == Ok::<Seq<CellModel>, Fault>(
                    cell_models(cells@),
                ),
            decreases number_of_cells - i,
        {
            let ghost before = cell_models(cells@);
            match Cell::from_line(line_or(lines, i as u128 + 1, &empty).as_slice()) {
                Ok(cell) => {
                    cells.push(cell);
                    assert(cell_models(cells@) =~= before.push(cell@));
                },
                Err(e) => {
                    proof {
                        lemma_cells_failure_stays(
                            views(lines@),
                            (i + 1) as nat,
                            number_of_cells as nat,
                        );
                    }
                    return Err(e);
                },
            }
            i += 1;
        }
        let n = number_of_cells as u128;
        let number_of_bases = match parse_usize(line_or(lines, n + 1, &empty).as_slice()) {
            Ok(count) => count,
            Err(e) => {
                return Err(e);
            },
        };
        let allied_bases = match Game::parse_bases(
            line_or(lines, n + 2, &empty).as_slice(),
            number_of_bases,
        ) {
            Ok(bases) => bases,
            Err(e) => {
                return Err(e);
            },
        };
        let ennemy_bases = match Game::parse_bases(
            line_or(lines, n + 3, &empty).as_slice(),
            number_of_bases,
        ) {
            Ok(bases) => bases,
            Err(e) => {
                return Err(e);
            },
        };
        Ok(Game { cells, allied_bases, ennemy_bases })
    }

    /// Writes the base indices of one side as a line.
    pub fn write_bases(bases: &Vec<usize>) -> (out: Vec<u8>)
        ensures
            out@ == bases_line(bases@),
    {
        let mut out: Vec<u8> = Vec::new();
        let mut i: usize = 0;
        let ghost tokens = base_tokens(bases@);
        assert(tokens.take(0) =~= Seq::empty());
        while i < bases.len()
            invariant
                i <= bases@.len(),
                tokens == base_tokens(bases@),
                out@ == joined(tokens.take(i as int)),
            decreases bases@.len() - i,
        {
            if i > 0 {
                out.push(32);
            }
            push_usize(bases[i], &mut out);
            proof {
                assert(tokens.take(i + 1) =~= tokens.take(i as int).push(tokens[i as int]));
                if i > 0 {
                    lemma_joined_push(tokens.take(i as int), tokens[i as int]);
                } else {
                    assert(out@ =~= tokens[0]);
                }
            }
            i += 1;
        }
        assert(tokens.take(bases@.len() as int) =~= tokens);
        out
    }

    /// Writes the board as its lines.
    pub fn write(&self) -> (lines: Vec<Vec<u8>>)
        ensures
            views(lines@) == board_lines(self@),
    {
        let mut lines: Vec<Vec<u8>> = Vec::new();
        let mut first: Vec<u8> = Vec::new();
        push_usize(self.cells.len(), &mut first);
        assert(first@ =~= text_of(self.cells@.len() as int));
        lines.push(first);
        let ghost head = seq![text_of(self.cells@.len() as int)];
        assert(views(lines@) =~= head);
        let mut i: usize = 0;
        while i < self.cells.len()
            invariant
                i <= self.cells@.len(),
                lines@.len() == i + 1,
                lines@[0]@ == text_of(self.cells@.len() as int),
                forall|j: int| 0 <= j < i ==> (#[trigger] lines@[j + 1])@ == cell_line(self.cells@[j]@),
            decreases self.cells@.len() - i,
        {
            let line = self.cells[i].to_line();
            lines.push(line);
            i += 1;
        }
        let mut count: Vec<u8> = Vec::new();
        push_usize(self.allied_bases.len(), &mut count);
        assert(count@ =~= text_of(self.allied_bases@.len() as int));
        lines.push(count);
        lines.push(Game::write_bases(&self.allied_bases));
        lines.push(Game::write_bases(&self.ennemy_bases));
        proof {
            let n = self.cells@.len() as int;
            let want = board_lines(self@);
            assert(want.len() == n + 4);
            assert forall|j: int| 0 <= j < n + 4 implies views(lines@)[j] == want[j] by {
                if 1 <= j <= n {
                    assert(lines@[(j - 1) + 1]@ == cell_line(self.cells@[j - 1]@));
                }
            }
            assert(views(lines@) =~= want);
        }
        lines
    }

    /// Takes the resources and the units of every cell from the lines of an
    /// update, one line per cell: three integers with one blank between each
    /// two; fields after the third are not looked at.
    pub fn read_update(self, lines: &Vec<Vec<u8>>) -> (r: Result<Game, ParsingError>)
        ensures
            match r {
                Ok(g) => {
                    &&& updated_upto(self@.cells, views(lines@), self@.cells.len()) == Ok::<
                        Seq<CellModel>,
                        Fault,
                    >(g@.cells)
                    &&& g@.allied_bases == self@.allied_bases
                    &&& g@.ennemy_bases == self@.ennemy_bases
                },
                Err(e) => updated_upto(self@.cells, views(lines@), self@.cells.len()) == Err::<
                    Seq<CellModel>,
                    Fault,
                >(e@),
            },
    {
        let empty: Vec<u8> = Vec::new();
        let mut game = self;
        let n = game.cells.len();
        let mut i: usize = 0;
        assert(cell_models(game.cells@) =~= self@.cells);
        while i < n
            invariant
                empty@.len() == 0,
                n == self@.cells.len(),
                i <= n,
                game.cells@.len() == n,
                game.allied_bases@ == self.allied_bases@,
                game.ennemy_bases@ == self.ennemy_bases@,
                updated_upto(self@.cells, views(lines@), i as nat) == Ok::<Seq<CellModel>, Fault>(
                    cell_models(game.cells@),
                ),
            decreases n - i,
        {
            let line = line_or(lines, i as u128, &empty);
            let inputs = split_fields(line.as_slice());
            proof {
                lemma_fields_nonempty(line@);
            }
            assert(views(inputs@)[0] == inputs@[0]@);
            let resources = match parse_i32(inputs[0].as_slice()) {
                Ok(v) => v,
                Err(e) => {
                    proof {
                        lemma_update_failure_stays(
                            self@.cells,
                            views(lines@),
                            (i + 1) as nat,
                            n as nat,
                        );
                    }
                    return Err(e);
                },
            };
            if inputs.len() < 2 {
                proof {
                    lemma_update_failure_stays(self@.cells, views(lines@), (i + 1) as nat, n as nat);
                }
                return Err(
                    ParsingError::WrongNumberOfElements(slice_to_vec(line.as_slice()), inputs.len(), 3),
                );
            }
            assert(views(inputs@)[1] == inputs@[1]@);
            let allied = match parse_i32(inputs[1].as_slice()) {
                Ok(v) => v,
                Err(e) => {
                    proof {
                        lemma_update_failure_stays(
                            self@.cells,
                            views(lines@),
                            (i + 1) as nat,
                            n as nat,
                        );
                    }
                    return Err(e);
                },
            };
            if inputs.len() < 3 {
                proof {
                    lemma_update_failure_stays(self@.cells, views(lines@), (i + 1) as nat, n as nat);
                }
                return Err(
                    ParsingError::WrongNumberOfElements(slice_to_vec(line.as_slice()), inputs.len(), 3),
                );
            }
            assert(views(inputs@)[2] == inputs@[2]@);
            let ennemy = match parse_i32(inputs[2].as_slice()) {
                Ok(v) => v,
                Err(e) => {
                    proof {
                        lemma_update_failure_stays(
                            self@.cells,
                            views(lines@),
                            (i + 1) as nat,
                            n as nat,
                        );
                    }
                    return Err(e);
                },
            };
            let ghost before = cell_models(game.cells@);
            game.cells[i].resources = resources;
            game.cells[i].allied_ants = allied;
            game.cells[i].ennemy_ants = ennemy;
            assert(cell_models(game.cells@) =~= before.update(
                i as int,
                CellModel {
                    resources,
                    allied_ants: allied,
                    ennemy_ants: ennemy,
                    ..before[i as int]
                },
            ));
            i += 1;
        }
        Ok(game)
    }

    /// Writes the resources and the units of every cell as the text of an update.
    pub fn write_update(&self) -> (out: Vec<u8>)
        ensures
            out@ == update_text_upto(self@.cells, self@.cells.len()),
    {
        let mut out: Vec<u8> = Vec::new();
        let mut i: usize = 0;
        while i < self.cells.len()
            invariant
                i <= self.cells@.len(),
                out@ == update_text_upto(self@.cells, i as nat),
            decreases self.cells@.len() - i,
        {
            push_i32(self.cells[i].resources, &mut out);
            out.push(32);
            push_i32(self.cells[i].allied_ants, &mut out);
            out.push(32);
            push_i32(self.cells[i].ennemy_ants, &mut out);
            assert(out@ =~= update_text_upto(self@.cells, (i + 1) as nat));
            i += 1;
        }
        out
    }
}

} // verus!
