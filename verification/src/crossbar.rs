//! The crossbar: cells, references between cells, and the placement grid.
use vstd::prelude::*;
use crate::limits::{MAX_COL, MAX_ROW};
use crate::parser::is_blank;

verus! {

/// The grid coordinate of a crossbar cell: row `idx`, column `jdx`.
#[derive(Debug, Clone, Copy, PartialEq, Eq, Structural)]
pub struct CellId {
    pub idx: usize,
    pub jdx: usize,
}

/// A crossbar cell.
///
/// A cell names its operand cells by coordinate. Cells are written once and
/// never moved, so a coordinate taken at placement time keeps naming the same
/// cell.
#[derive(Debug, Clone, Copy)]
pub struct MemristiveGate {
    /// Number of operands: 0 for a primary input or a copy, 1 for NOT, 2 for NOR.
    pub fanin: usize,
    /// The operand cells, in operand order.
    pub inputs: [Option<CellId>; 2],
    /// The wire id this cell evaluates; -1 when absent.
    pub value: i32,
    /// Row of the cell; -1 when it is not placed.
    pub idx: i32,
    /// Column of the cell; -1 when it is not placed.
    pub jdx: i32,
    pub state: i32,
    pub asap_level: i32,
    pub list_time: i32,
    /// Whether this cell replicates another cell's value on its own row.
    pub is_copy: bool,
}

impl MemristiveGate {
    /// Whether the cell holds nothing.
    pub open spec fn is_blank(&self) -> bool {
        &&& self.fanin == 0
        &&& self.inputs[0] is None
        &&& self.inputs[1] is None
        &&& self.value == -1
        &&& self.idx == -1
        &&& self.jdx == -1
        &&& self.state == -1
        &&& self.asap_level == -1
        &&& self.list_time == -1
        &&& !self.is_copy
    }

    /// Whether the cell sits at row `r`, column `c`.
    pub open spec fn at(&self, r: int, c: int) -> bool {
        self.idx == r && self.jdx == c
    }
}

impl Default for MemristiveGate {
    /// The cell that holds nothing.
    fn default() -> (r: Self)
        ensures
            r.is_blank(),
    {
        MemristiveGate {
            fanin: 0,
            inputs: [None, None],
            value: -1,
            idx: -1,
            jdx: -1,
            state: -1,
            asap_level: -1,
            list_time: -1,
            is_copy: false,
        }
    }
}

/// Whether `id` names a cell of the grid `rows`.
pub open spec fn in_grid(rows: Seq<Seq<MemristiveGate>>, id: CellId) -> bool {
    id.idx < rows.len() && id.jdx < rows[id.idx as int].len()
}

/// Whether every cell of the grid records the coordinate at which it is held.
pub open spec fn cells_in_place(rows: Seq<Seq<MemristiveGate>>) -> bool {
    forall|r: int, c: int|
        0 <= r < rows.len() && 0 <= c < rows[r].len() ==> (#[trigger] rows[r][c]).at(r, c)
}

/// Whether every operand reference of every cell names a cell of the grid.
pub open spec fn refs_in_grid(rows: Seq<Seq<MemristiveGate>>) -> bool {
    forall|r: int, c: int, s: int|
        0 <= r < rows.len() && 0 <= c < rows[r].len() && 0 <= s < 2 ==> match (
        #[trigger] rows[r][c].inputs[s]) {
            Some(id) => in_grid(rows, id),
            None => true,
        }
}

/// Row locality: both operands of every NOR cell sit on the NOR cell's row.
pub open spec fn row_local(rows: Seq<Seq<MemristiveGate>>) -> bool {
    forall|r: int, c: int|
        0 <= r < rows.len() && 0 <= c < rows[r].len() && (#[trigger] rows[r][c]).fanin == 2 ==> {
            &&& rows[r][c].inputs[0] matches Some(a) && a.idx == r
            &&& rows[r][c].inputs[1] matches Some(b) && b.idx == r
        }
}

/// Whether every copy cell that names a source names a cell that is not
/// itself a copy.
pub open spec fn copies_grounded(rows: Seq<Seq<MemristiveGate>>) -> bool {
    forall|r: int, c: int|
        0 <= r < rows.len() && 0 <= c < rows[r].len() && (#[trigger] rows[r][c]).is_copy
            ==> match rows[r][c].inputs[0] {
            Some(id) => in_grid(rows, id) && !rows[id.idx as int][id.jdx as int].is_copy,
            None => true,
        }
}

/// Whether `mark` is the high-water mark of the row: one more than the
/// largest column that a cell of the row records.
pub open spec fn is_high_water(row: Seq<MemristiveGate>, mark: int) -> bool {
    &&& forall|c: int| 0 <= c < row.len() ==> (#[trigger] row[c]).jdx < mark
    &&& exists|c: int| 0 <= c < row.len() && (#[trigger] row[c]).jdx == mark - 1
}

/// Whether the length of every row is its high-water mark: the row is
/// filled from column 0 to the last column in use.
pub open spec fn rows_filled_to_high_water(rows: Seq<Seq<MemristiveGate>>) -> bool {
    forall|r: int| 0 <= r < rows.len() ==> is_high_water(#[trigger] rows[r], rows[r].len() as int)
}

/// A placement of cells on the crossbar.
///
/// Row `r` of `crossbar` holds the cells placed on crossbar row `r`, in column
/// order and without gaps: its length is the first free column of that row.
#[derive(Debug)]
pub struct CrossbarMapping {
    pub crossbar: Vec<Vec<MemristiveGate>>,
    /// Highest row in use.
    pub max_idx: i32,
    /// Highest column in use.
    pub max_jdx: i32,
}

/// A mapping as plain values: its rows of cells and its recorded extent.
pub struct MappingView {
    pub rows: Seq<Seq<MemristiveGate>>,
    pub max_idx: int,
    pub max_jdx: int,
}

impl View for CrossbarMapping {
    type V = MappingView;

    open spec fn view(&self) -> MappingView {
        MappingView { rows: self.rows(), max_idx: self.max_idx as int, max_jdx: self.max_jdx as int }
    }
}

impl CrossbarMapping {
    /// The rows as sequences of cells.
    pub open spec fn rows(&self) -> Seq<Seq<MemristiveGate>> {
        Seq::new(self.crossbar@.len(), |r: int| self.crossbar@[r]@)
    }

    /// The first free column of row `r`.
    pub open spec fn av_row(&self, r: int) -> int {
        self.crossbar@[r]@.len() as int
    }

    /// A mapping is well formed when its cells record their own coordinates,
    /// operand references stay inside the grid, copies name cells that are
    /// not copies, and the grid and its recorded extent are within limits.
    pub open spec fn wf(&self) -> bool {
        &&& cells_in_place(self.rows())
        &&& refs_in_grid(self.rows())
        &&& copies_grounded(self.rows())
        &&& self.crossbar@.len() <= MAX_ROW
        &&& forall|r: int| 0 <= r < self.crossbar@.len() ==> (#[trigger] self.crossbar@[r])@.len() <= MAX_COL
        &&& -1 <= self.max_idx < MAX_ROW
        &&& -1 <= self.max_jdx < MAX_COL
    }

    /// An empty crossbar.
    pub fn new() -> (m: Self)
        ensures
            m.crossbar@.len() == 0,
            m.max_idx == 0,
            m.max_jdx == 0,
            m.wf(),
    {
        CrossbarMapping { crossbar: Vec::new(), max_idx: 0, max_jdx: 0 }
    }
}

/// Whether the cell at row `r`, column `c` is as a well-formed mapping has
/// it: it records its own coordinate, its operand references name cells of
/// the grid, and where it is a copy, it copies a cell that is not one.
pub open spec fn cell_ok(rows: Seq<Seq<MemristiveGate>>, r: int, c: int) -> bool {
    let cell = rows[r][c];
    &&& cell.at(r, c)
    &&& cell.inputs[0] matches Some(id) ==> in_grid(rows, id)
    &&& cell.inputs[1] matches Some(id) ==> in_grid(rows, id)
    &&& cell.is_copy ==> (cell.inputs[0] matches Some(id) ==> !rows[id.idx as int][id.jdx as int].is_copy)
}

/// A grid is in order exactly when each of its cells is.
pub proof fn lemma_cell_ok(rows: Seq<Seq<MemristiveGate>>)
    ensures
        (cells_in_place(rows) && refs_in_grid(rows) && copies_grounded(rows)) <==> (forall|r: int, c: int|
            0 <= r < rows.len() && 0 <= c < rows[r].len() ==> #[trigger] cell_ok(rows, r, c)),
{
    if cells_in_place(rows) && refs_in_grid(rows) && copies_grounded(rows) {
        assert forall|r: int, c: int| 0 <= r < rows.len() && 0 <= c < rows[r].len() implies #[trigger] cell_ok(
            rows,
            r,
            c,
        ) by {
            assert(rows[r][c].at(r, c));
            assert(match rows[r][c].inputs[0] {
                Some(id) => in_grid(rows, id),
                None => true,
            });
            assert(match rows[r][c].inputs[1] {
                Some(id) => in_grid(rows, id),
                None => true,
            });
        }
    }
    if forall|r: int, c: int| 0 <= r < rows.len() && 0 <= c < rows[r].len() ==> #[trigger] cell_ok(rows, r, c) {
        assert forall|r: int, c: int| 0 <= r < rows.len() && 0 <= c < rows[r].len() implies (
        #[trigger] rows[r][c]).at(r, c) by {
            assert(cell_ok(rows, r, c));
        }
        assert forall|r: int, c: int, s: int|
            0 <= r < rows.len() && 0 <= c < rows[r].len() && 0 <= s < 2 implies match (
        #[trigger] rows[r][c].inputs[s]) {
            Some(id) => in_grid(rows, id),
            None => true,
        } by {
            assert(cell_ok(rows, r, c));
        }
        assert forall|r: int, c: int|
            0 <= r < rows.len() && 0 <= c < rows[r].len() && (#[trigger] rows[r][c]).is_copy implies match rows[r][c].inputs[0] {
            Some(id) => in_grid(rows, id) && !rows[id.idx as int][id.jdx as int].is_copy,
            None => true,
        } by {
            assert(cell_ok(rows, r, c));
        }
    }
}

impl CrossbarMapping {
    /// Whether `id` names a cell of the grid.
    pub fn holds(&self, id: CellId) -> (r: bool)
        ensures
            r == in_grid(self.rows(), id),
    {
        id.idx < self.crossbar.len() && id.jdx < self.crossbar[id.idx].len()
    }

    /// Runtime form of `cell_ok`.
    fn cell_is_ok(&self, r: usize, c: usize) -> (ok: bool)
        requires
            r < self.crossbar@.len(),
            c < self.crossbar@[r as int]@.len(),
            self.crossbar@.len() <= MAX_ROW,
            self.crossbar@[r as int]@.len() <= MAX_COL,
        ensures
            ok == cell_ok(self.rows(), r as int, c as int),
    {
        let cell = &self.crossbar[r][c];
        assert(self.rows()[r as int][c as int] == *cell);
        if cell.idx != r as i32 || cell.jdx != c as i32 {
            return false;
        }
        match cell.inputs[0] {
            Some(id) => {
                if !self.holds(id) {
                    return false;
                }
                if cell.is_copy && self.crossbar[id.idx][id.jdx].is_copy {
                    return false;
                }
            },
            None => {},
        }
        match cell.inputs[1] {
            Some(id) => {
                if !self.holds(id) {
                    return false;
                }
            },
            None => {},
        }
        true
    }

    /// Runtime form of `wf`.
    pub fn is_well_formed(&self) -> (ok: bool)
        ensures
            ok == self.wf(),
    {
        let rows = self.crossbar.len();
        if rows > MAX_ROW || self.max_idx < -1 || self.max_idx >= MAX_ROW as i32 || self.max_jdx < -1
            || self.max_jdx >= MAX_COL as i32 {
            return false;
        }
        for r in 0..rows
            invariant
                rows == self.crossbar@.len(),
                rows <= MAX_ROW,
                forall|i: int| 0 <= i < r ==> (#[trigger] self.crossbar@[i])@.len() <= MAX_COL,
        {
            if self.crossbar[r].len() > MAX_COL {
                return false;
            }
        }
        proof {
            lemma_cell_ok(self.rows());
        }
        for r in 0..rows
            invariant
                rows == self.crossbar@.len(),
                rows <= MAX_ROW,
                forall|i: int| 0 <= i < rows ==> (#[trigger] self.crossbar@[i])@.len() <= MAX_COL,
                forall|i: int, c: int|
                    0 <= i < r && 0 <= c < self.rows()[i].len() ==> #[trigger] cell_ok(self.rows(), i, c),
                (cells_in_place(self.rows()) && refs_in_grid(self.rows()) && copies_grounded(self.rows())) <==> (
                forall|i: int, c: int|
                    0 <= i < self.rows().len() && 0 <= c < self.rows()[i].len() ==> #[trigger] cell_ok(
                        self.rows(),
                        i,
                        c,
                    )),
        {
            let width = self.crossbar[r].len();
            assert(self.rows()[r as int].len() == width);
            for c in 0..width
                invariant
                    r < rows,
                    rows == self.crossbar@.len(),
                    rows <= MAX_ROW,
                    width == self.crossbar@[r as int]@.len(),
                    width == self.rows()[r as int].len(),
                    width <= MAX_COL,
                    forall|j: int| 0 <= j < c ==> #[trigger] cell_ok(self.rows(), r as int, j),
                    (cells_in_place(self.rows()) && refs_in_grid(self.rows()) && copies_grounded(self.rows())) <==> (
                    forall|i: int, c: int|
                        0 <= i < self.rows().len() && 0 <= c < self.rows()[i].len() ==> #[trigger] cell_ok(
                            self.rows(),
                            i,
                            c,
                        )),
            {
                if !self.cell_is_ok(r, c) {
                    assert(!cell_ok(self.rows(), r as int, c as int));
                    return false;
                }
            }
        }
        true
    }
}

} // verus!
