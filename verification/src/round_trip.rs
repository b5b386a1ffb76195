//! Reading back what was written: the lines of a board describe that board.

use vstd::prelude::*;
use crate::graph::{BoardModel, CellKind, CellModel};
use crate::protocol::{
    base_tokens, bases_line, bases_of, board_lines, board_of, cell_line, cell_of, cell_tokens,
    cells_upto, indices_upto, line_at, links_upto, nums_upto, Fault,
};
use crate::text::{
    all_digits, digits_of, fields, i32_of, is_digit, joined, lemma_digits_round_trip, no_blank,
    number, text_of, trimmed, usize_of, value_of,
};

verus! {

/// The decimal text of an integer has no blank and no white space at its
/// ends, starts with a minus sign exactly where the integer is negative, and
/// denotes the integer.
pub proof fn lemma_text_round_trip(x: int)
    ensures
        text_of(x).len() >= 1,
        no_blank(text_of(x)),
        trimmed(text_of(x)) == text_of(x),
        number(text_of(x)) == Some(x),
        (text_of(x)[0] == 45) == (x < 0),
{
    let t = text_of(x);
    if x < 0 {
        let d = digits_of((-x) as nat);
        lemma_digits_round_trip((-x) as nat);
        assert(t.skip(1) =~= d);
        assert(t[0] == 45);
        assert(t.last() == d.last());
        assert(is_digit(d[d.len() - 1]));
        assert forall|i: int| 0 <= i < t.len() implies (#[trigger] t[i]) != 32 by {
            if i > 0 {
                assert(t[i] == d[i - 1]);
                assert(is_digit(d[i - 1]));
            }
        }
    } else {
        lemma_digits_round_trip(x as nat);
        assert(is_digit(t[0]));
        assert(is_digit(t[t.len() - 1]));
        assert forall|i: int| 0 <= i < t.len() implies (#[trigger] t[i]) != 32 by {
            assert(is_digit(t[i]));
        }
    }
}

/// Text without a blank, put behind a line, lengthens the last field of the line.
pub proof fn lemma_fields_append(s: Seq<u8>, t: Seq<u8>)
    requires
        no_blank(t),
    ensures
        fields(s + t).len() == fields(s).len(),
        fields(s).len() >= 1,
        fields(s + t) == fields(s).update(fields(s).len() - 1, fields(s).last() + t),
    decreases t.len(),
{
    crate::text::lemma_fields_nonempty(s);
    let f = fields(s);
    if t.len() == 0 {
        assert(s + t =~= s);
        assert(f.last() + t =~= f.last());
        assert(f.update(f.len() - 1, f.last()) =~= f);
    } else {
        let u = t.drop_last();
        assert forall|i: int| 0 <= i < u.len() implies (#[trigger] u[i]) != 32 by {
            assert(u[i] == t[i]);
        }
        lemma_fields_append(s, u);
        assert((s + t).drop_last() =~= s + u);
        assert((s + t).last() == t.last());
        assert(t[t.len() - 1] != 32);
        let g = fields(s + u);
        assert(g.last().push(t.last()) =~= f.last() + t);
        assert(g.update(g.len() - 1, g.last().push(t.last())) =~= f.update(
            f.len() - 1,
            f.last() + t,
        ));
    }
}

/// The fields of tokens joined by blanks are the tokens, where there is at
/// least one token and none holds a blank.
pub proof fn lemma_fields_of_joined(tokens: Seq<Seq<u8>>)
    requires
        tokens.len() >= 1,
        forall|i: int| 0 <= i < tokens.len() ==> no_blank(#[trigger] tokens[i]),
    ensures
        fields(joined(tokens)) == tokens,
    decreases tokens.len(),
{
    let last = tokens.last();
    assert(no_blank(tokens[tokens.len() - 1]));
    if tokens.len() == 1 {
        let e = Seq::<u8>::empty();
        lemma_fields_append(e, last);
        assert(e + last =~= last);
        assert(fields(e) =~= seq![e]);
        assert(fields(e).update(0, fields(e).last() + last) =~= tokens);
    } else {
        let rest = tokens.drop_last();
        assert forall|i: int| 0 <= i < rest.len() implies no_blank(#[trigger] rest[i]) by {
            assert(rest[i] == tokens[i]);
        }
        lemma_fields_of_joined(rest);
        let s = joined(rest).push(32u8);
        assert(s.drop_last() =~= joined(rest));
        assert(fields(s) == rest.push(Seq::<u8>::empty()));
        lemma_fields_append(s, last);
        assert(Seq::<u8>::empty() + last =~= last);
        assert(fields(s).update(fields(s).len() - 1, fields(s).last() + last) =~= tokens);
    }
}

/// Fields that are the texts of 32-bit integers are read as those integers.
pub proof fn lemma_nums_of_texts(f: Seq<Seq<u8>>, vals: Seq<i32>, k: nat)
    requires
        k <= f.len(),
        f.len() == vals.len(),
        forall|i: int| 0 <= i < f.len() ==> #[trigger] f[i] == text_of(vals[i] as int),
    ensures
        nums_upto(f, k) == Ok::<Seq<i32>, Fault>(vals.take(k as int)),
    decreases k,
{
    if k == 0 {
        assert(vals.take(0) =~= Seq::empty());
    } else {
        lemma_nums_of_texts(f, vals, (k - 1) as nat);
        lemma_text_round_trip(vals[k - 1] as int);
        assert(f[k - 1] == text_of(vals[k - 1] as int));
        assert(i32_of(f[k - 1]) == Some(vals[k - 1]));
        assert(vals.take(k - 1).push(vals[k - 1]) =~= vals.take(k as int));
    }
}

/// Fields that are the texts of indices are read as those indices.
pub proof fn lemma_indices_of_texts(f: Seq<Seq<u8>>, vals: Seq<usize>, k: nat)
    requires
        k <= f.len(),
        f.len() == vals.len(),
        forall|i: int| 0 <= i < f.len() ==> #[trigger] f[i] == text_of(vals[i] as int),
    ensures
        indices_upto(f, k) == Ok::<Seq<usize>, Fault>(vals.take(k as int)),
    decreases k,
{
    if k == 0 {
        assert(vals.take(0) =~= Seq::empty());
    } else {
        lemma_indices_of_texts(f, vals, (k - 1) as nat);
        lemma_text_round_trip(vals[k - 1] as int);
        assert(f[k - 1] == text_of(vals[k - 1] as int));
        assert(usize_of(f[k - 1]) == Some(vals[k - 1]));
        assert(vals.take(k - 1).push(vals[k - 1]) =~= vals.take(k as int));
    }
}

/// A cell as it is read back: the same kind, resources and neighbors, and no units.
pub open spec fn without_units(c: CellModel) -> CellModel {
    CellModel { allied_ants: 0, ennemy_ants: 0, ..c }
}

/// A board as it is read back: every cell without its units.
pub open spec fn board_without_units(m: BoardModel) -> BoardModel {
    BoardModel { cells: Seq::new(m.cells.len(), |i: int| without_units(m.cells[i])), ..m }
}

/// A cell whose line can hold all its neighbors: at most six, each within 32 bits.
pub open spec fn cell_fits_line(c: CellModel) -> bool {
    &&& c.neighbors.len() <= 6
    &&& forall|k: int| 0 <= k < c.neighbors.len() ==> (#[trigger] c.neighbors[k]) <= i32::MAX
}

/// The eight integers of a cell line.
pub open spec fn cell_values(c: CellModel) -> Seq<i32> {
    Seq::new(
        8,
        |i: int|
            if i == 0 {
                c.kind.spec_code() as i32
            } else if i == 1 {
                c.resources
            } else if i - 2 < c.neighbors.len() {
                c.neighbors[i - 2] as i32
            } else {
                -1i32
            },
    )
}

/// The slots of a cell line before position `k` that are no `-1` are the
/// first neighbors of the cell.
proof fn lemma_links_of_values(c: CellModel, k: nat)
    requires
        cell_fits_line(c),
        2 <= k <= 8,
    ensures
        links_upto(cell_values(c), k) == c.neighbors.take(
            if k - 2 < c.neighbors.len() {
                k - 2
            } else {
                c.neighbors.len() as int
            },
        ),
    decreases k,
{
    let v = cell_values(c);
    if k == 2 {
        assert(c.neighbors.take(0) =~= Seq::empty());
    } else {
        lemma_links_of_values(c, (k - 1) as nat);
        let j = k - 3;
        if j < c.neighbors.len() {
            assert(c.neighbors[j] <= i32::MAX);
            assert(v[k - 1] == c.neighbors[j] as i32);
            assert(c.neighbors.take(j).push(c.neighbors[j]) =~= c.neighbors.take(j + 1));
        }
    }
}

/// The line of a cell is read back as that cell without its units.
pub proof fn lemma_cell_round_trip(c: CellModel)
    requires
        cell_fits_line(c),
    ensures
        cell_of(cell_line(c)) == Ok::<CellModel, Fault>(without_units(c)),
{
    let tokens = cell_tokens(c);
    let vals = cell_values(c);
    assert forall|i: int| 0 <= i < 8 implies #[trigger] tokens[i] == text_of(vals[i] as int) by {
        if i >= 2 && i - 2 < c.neighbors.len() {
            assert(c.neighbors[i - 2] <= i32::MAX);
        }
    }
    assert forall|i: int| 0 <= i < tokens.len() implies no_blank(#[trigger] tokens[i]) by {
        lemma_text_round_trip(vals[i] as int);
    }
    lemma_fields_of_joined(tokens);
    lemma_nums_of_texts(tokens, vals, 8);
    assert(vals.take(8) =~= vals);
    lemma_links_of_values(c, 8);
    assert(c.neighbors.take(c.neighbors.len() as int) =~= c.neighbors);
    assert(CellKind::of_code(vals[0] as int) == Some(c.kind));
}

/// The line of the bases of one side is read back as those bases, where
/// there is at least one.
pub proof fn lemma_bases_round_trip(bases: Seq<usize>)
    requires
        1 <= bases.len() <= usize::MAX,
    ensures
        bases_of(bases_line(bases), bases.len() as usize) == Ok::<Seq<usize>, Fault>(bases),
{
    let tokens = base_tokens(bases);
    assert forall|i: int| 0 <= i < tokens.len() implies no_blank(#[trigger] tokens[i]) by {
        lemma_text_round_trip(bases[i] as int);
    }
    lemma_fields_of_joined(tokens);
    lemma_indices_of_texts(tokens, bases, tokens.len());
    assert(bases.take(bases.len() as int) =~= bases);
}

/// The first `k` cell lines of a board are read back as its first `k` cells
/// without their units.
proof fn lemma_cells_round_trip(m: BoardModel, k: nat)
    requires
        k <= m.cells.len(),
        forall|i: int| 0 <= i < m.cells.len() ==> cell_fits_line(#[trigger] m.cells[i]),
    ensures
        cells_upto(board_lines(m), k) == Ok::<Seq<CellModel>, Fault>(
            board_without_units(m).cells.take(k as int),
        ),
    decreases k,
{
    let want = board_without_units(m).cells;
    if k == 0 {
        assert(want.take(0) =~= Seq::empty());
    } else {
        lemma_cells_round_trip(m, (k - 1) as nat);
        assert(line_at(board_lines(m), k as int) == cell_line(m.cells[k - 1]));
        assert(cell_fits_line(m.cells[k - 1]));
        lemma_cell_round_trip(m.cells[k - 1]);
        assert(want.take(k - 1).push(without_units(m.cells[k - 1])) =~= want.take(k as int));
    }
}

/// Reading the lines of a board gives back the board: the same kind,
/// resources and neighbors for every cell, and the same bases. This holds
/// where every cell has at most six neighbors, each within 32 bits, and the
/// two sides have the same number of bases, at least one. The units of the
/// cells are no part of the lines: the board that is read holds none.
pub proof fn law_board_round_trip(m: BoardModel)
    requires
        m.cells.len() <= usize::MAX,
        forall|i: int| 0 <= i < m.cells.len() ==> cell_fits_line(#[trigger] m.cells[i]),
        1 <= m.allied_bases.len() <= usize::MAX,
        m.ennemy_bases.len() == m.allied_bases.len(),
    ensures
        board_of(board_lines(m)) == Ok::<BoardModel, Fault>(board_without_units(m)),
{
    let lines = board_lines(m);
    let n = m.cells.len();
    lemma_text_round_trip(n as int);
    assert(line_at(lines, 0) == text_of(n as int));
    assert(usize_of(line_at(lines, 0)) == Some(n as usize));
    lemma_cells_round_trip(m, n);
    assert(board_without_units(m).cells.take(n as int) =~= board_without_units(m).cells);
    lemma_text_round_trip(m.allied_bases.len() as int);
    assert(line_at(lines, n as int + 1) == text_of(m.allied_bases.len() as int));
    assert(usize_of(line_at(lines, n as int + 1)) == Some(m.allied_bases.len() as usize));
    assert(line_at(lines, n as int + 2) == bases_line(m.allied_bases));
    assert(line_at(lines, n as int + 3) == bases_line(m.ennemy_bases));
    lemma_bases_round_trip(m.allied_bases);
    lemma_bases_round_trip(m.ennemy_bases);
}

} // verus!
