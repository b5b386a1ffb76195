//! The cell arena: cells, their kinds, and the invariants of a game snapshot.

use vstd::prelude::*;

verus! {

/// What a cell holds.
#[derive(Clone, Copy, Debug, PartialEq, Eq, Structural)]
pub enum CellKind {
    Empty,
    Eggs,
    Crystals,
}

/// Failures of the routing and allocation engine.
#[derive(Clone, Copy, Debug, PartialEq, Eq, Structural)]
pub enum EngineError {
    /// The destination cannot be reached from the source.
    Unreachable,
    /// The allocator was asked to distribute units while the side has none.
    ZeroTotalUnits,
    /// A move would take more units out of a cell than it holds.
    NegativeUnitCount,
    /// A neighbor or base index is out of bounds, or a count is negative.
    MalformedGraph,
    /// A demand, a remainder or an amount does not fit in 32 bits.
    Overflow,
}

impl CellKind {
    /// The integer code of a kind.
    pub open spec fn spec_code(self) -> int {
        match self {
            CellKind::Empty => 0,
            CellKind::Eggs => 1,
            CellKind::Crystals => 2,
        }
    }

    pub fn code(self) -> (c: i32)
        ensures
            c == self.spec_code(),
    {
        match self {
            CellKind::Empty => 0,
            CellKind::Eggs => 1,
            CellKind::Crystals => 2,
        }
    }

    /// The kind with the given code, if there is one.
    pub open spec fn of_code(code: int) -> Option<CellKind> {
        if code == 0 {
            Some(CellKind::Empty)
        } else if code == 1 {
            Some(CellKind::Eggs)
        } else if code == 2 {
            Some(CellKind::Crystals)
        } else {
            None
        }
    }
}

/// A node of the graph.
#[derive(Clone, Debug)]
pub struct Cell {
    pub kind: CellKind,
    pub resources: i32,
    /// Indices of adjacent cells; their order decides ties between paths.
    pub neighbors: Vec<usize>,
    pub allied_ants: i32,
    pub ennemy_ants: i32,
}

/// A snapshot of the whole board.
#[derive(Clone, Debug)]
pub struct Game {
    pub cells: Vec<Cell>,
    pub allied_bases: Vec<usize>,
    pub ennemy_bases: Vec<usize>,
}

/// What a cell holds, as plain values.
pub struct CellModel {
    pub kind: CellKind,
    pub resources: i32,
    pub neighbors: Seq<usize>,
    pub allied_ants: i32,
    pub ennemy_ants: i32,
}

/// What a board holds, as plain values.
pub struct BoardModel {
    pub cells: Seq<CellModel>,
    pub allied_bases: Seq<usize>,
    pub ennemy_bases: Seq<usize>,
}

impl View for Cell {
    type V = CellModel;

    open spec fn view(&self) -> CellModel {
        CellModel {
            kind: self.kind,
            resources: self.resources,
            neighbors: self.neighbors@,
            allied_ants: self.allied_ants,
            ennemy_ants: self.ennemy_ants,
        }
    }
}

/// The models of a sequence of cells.
pub open spec fn cell_models(cells: Seq<Cell>) -> Seq<CellModel> {
    Seq::new(cells.len(), |i: int| cells[i]@)
}

impl View for Game {
    type V = BoardModel;

    open spec fn view(&self) -> BoardModel {
        BoardModel {
            cells: cell_models(self.cells@),
            allied_bases: self.allied_bases@,
            ennemy_bases: self.ennemy_bases@,
        }
    }
}

impl Cell {
    /// A cell without units.
    pub fn new(kind: CellKind, resources: i32, neighbors: Vec<usize>) -> (cell: Cell)
        ensures
            cell.kind == kind,
            cell.resources == resources,
            cell.neighbors == neighbors,
            cell.allied_ants == 0,
            cell.ennemy_ants == 0,
    {
        Cell { kind, resources, neighbors, allied_ants: 0, ennemy_ants: 0 }
    }

    /// Resources and unit counts are non-negative.
    pub open spec fn counts_ok(&self) -> bool {
        self.resources >= 0 && self.allied_ants >= 0 && self.ennemy_ants >= 0
    }
}

impl Game {
    /// Number of cells.
    pub open spec fn size(&self) -> nat {
        self.cells@.len()
    }

    /// The neighbor list of cell `u`.
    pub open spec fn adj(&self, u: int) -> Seq<usize> {
        self.cells@[u].neighbors@
    }

    /// Every neighbor index names a cell of this game.
    pub open spec fn wf(&self) -> bool {
        forall|u: int, k: int|
            0 <= u < self.size() && 0 <= k < self.adj(u).len() ==> (#[trigger] self.adj(u)[k])
                < self.size()
    }

    /// Every base index names a cell of this game, and no cell is a base of both sides.
    pub open spec fn bases_ok(&self) -> bool {
        &&& forall|i: int|
            0 <= i < self.allied_bases@.len() ==> (#[trigger] self.allied_bases@[i]) < self.size()
        &&& forall|i: int|
            0 <= i < self.ennemy_bases@.len() ==> (#[trigger] self.ennemy_bases@[i]) < self.size()
        &&& forall|i: int, j: int|
            0 <= i < self.allied_bases@.len() && 0 <= j < self.ennemy_bases@.len() ==> (
            #[trigger] self.allied_bases@[i]) != (#[trigger] self.ennemy_bases@[j])
    }

    /// No cell holds a negative count.
    pub open spec fn counts_ok(&self) -> bool {
        forall|u: int| 0 <= u < self.size() ==> (#[trigger] self.cells@[u]).counts_ok()
    }
}


/// Whether every index of `list` is below `bound`.
fn all_below(list: &Vec<usize>, bound: usize) -> (ok: bool)
    ensures
        ok == forall|i: int| 0 <= i < list@.len() ==> (#[trigger] list@[i]) < bound,
{
    let mut i: usize = 0;
    while i < list.len()
        invariant
            i <= list@.len(),
            forall|k: int| 0 <= k < i ==> (#[trigger] list@[k]) < bound,
        decreases list@.len() - i,
    {
        if list[i] >= bound {
            return false;
        }
        i += 1;
    }
    true
}

/// Whether the two lists have no index in common.
fn disjoint(a: &Vec<usize>, b: &Vec<usize>) -> (ok: bool)
    ensures
        ok == forall|i: int, j: int|
            0 <= i < a@.len() && 0 <= j < b@.len() ==> (#[trigger] a@[i]) != (#[trigger] b@[j]),
{
    let mut i: usize = 0;
    while i < a.len()
        invariant
            i <= a@.len(),
            forall|x: int, y: int|
                0 <= x < i && 0 <= y < b@.len() ==> (#[trigger] a@[x]) != (#[trigger] b@[y]),
        decreases a@.len() - i,
    {
        let mut j: usize = 0;
        while j < b.len()
            invariant
                i < a@.len(),
                j <= b@.len(),
                forall|y: int| 0 <= y < j ==> a@[i as int] != (#[trigger] b@[y]),
            decreases b@.len() - j,
        {
            if a[i] == b[j] {
                return false;
            }
            j += 1;
        }
        i += 1;
    }
    true
}

impl Game {
    /// Whether every neighbor index of the board names a cell.
    pub fn has_valid_edges(&self) -> (ok: bool)
        ensures
            ok == self.wf(),
    {
        let n = self.cells.len();
        let mut u: usize = 0;
        while u < n
            invariant
                n == self.size(),
                u <= n,
                forall|x: int, k: int|
                    0 <= x < u && 0 <= k < self.adj(x).len() ==> (#[trigger] self.adj(x)[k]) < n,
            decreases n - u,
        {
            if !all_below(&self.cells[u].neighbors, n) {
                let ghost k = choose|k: int|
                    0 <= k < self.adj(u as int).len() && !((#[trigger] self.adj(u as int)[k]) < n);
                assert(!(self.adj(u as int)[k] < self.size()));
                return false;
            }
            u += 1;
        }
        true
    }

    /// Whether no cell holds a negative count.
    pub fn has_valid_counts(&self) -> (ok: bool)
        ensures
            ok == self.counts_ok(),
    {
        let mut u: usize = 0;
        while u < self.cells.len()
            invariant
                u <= self.size(),
                forall|x: int| 0 <= x < u ==> (#[trigger] self.cells@[x]).counts_ok(),
            decreases self.size() - u,
        {
            let cell = &self.cells[u];
            if cell.resources < 0 || cell.allied_ants < 0 || cell.ennemy_ants < 0 {
                assert(!self.cells@[u as int].counts_ok());
                return false;
            }
            u += 1;
        }
        true
    }

    /// Whether the bases are cells of the board and belong to one side each.
    pub fn has_valid_bases(&self) -> (ok: bool)
        ensures
            ok == self.bases_ok(),
    {
        let n = self.cells.len();
        all_below(&self.allied_bases, n) && all_below(&self.ennemy_bases, n) && disjoint(
            &self.allied_bases,
            &self.ennemy_bases,
        )
    }

    /// A board of the given cells and bases, or `MalformedGraph` where a
    /// neighbor or a base is no cell of it, a base belongs to both sides, or
    /// a count is negative.
    pub fn new(cells: Vec<Cell>, allied_bases: Vec<usize>, ennemy_bases: Vec<usize>) -> (r: Result<
        Game,
        EngineError,
    >)
        ensures
            match r {
                Ok(g) => {
                    &&& g.cells == cells
                    &&& g.allied_bases == allied_bases
                    &&& g.ennemy_bases == ennemy_bases
                    &&& g.wf()
                    &&& g.bases_ok()
                    &&& g.counts_ok()
                },
                Err(e) => {
                    let g = Game { cells, allied_bases, ennemy_bases };
                    e == EngineError::MalformedGraph && !(g.wf() && g.bases_ok() && g.counts_ok())
                },
            },
    {
        let g = Game { cells, allied_bases, ennemy_bases };
        if g.has_valid_edges() && g.has_valid_bases() && g.has_valid_counts() {
            Ok(g)
        } else {
            Err(EngineError::MalformedGraph)
        }
    }

    /// The kind of cell `index`.
    pub fn kind(&self, index: usize) -> (kind: CellKind)
        requires
            index < self.size(),
        ensures
            kind == self.cells@[index as int].kind,
    {
        self.cells[index].kind
    }

    /// The resources left on cell `index`.
    pub fn resources(&self, index: usize) -> (resources: i32)
        requires
            index < self.size(),
        ensures
            resources == self.cells@[index as int].resources,
    {
        self.cells[index].resources
    }

    /// The units on cell `index`: those of the allied side, then those of the other.
    pub fn units(&self, index: usize) -> (units: (i32, i32))
        requires
            index < self.size(),
        ensures
            units.0 == self.cells@[index as int].allied_ants,
            units.1 == self.cells@[index as int].ennemy_ants,
    {
        (self.cells[index].allied_ants, self.cells[index].ennemy_ants)
    }

    /// The neighbors of cell `index`, in their stored order.
    pub fn neighbors(&self, index: usize) -> (neighbors: &Vec<usize>)
        requires
            index < self.size(),
        ensures
            neighbors@ == self.adj(index as int),
    {
        &self.cells[index].neighbors
    }
}

} // verus!
