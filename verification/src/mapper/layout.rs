//! The compact mapping as a sequence of layouts: the grid before any gate is
//! placed, and the step that places the next gate; with the proof that every
//! layout is in order.
use vstd::prelude::*;
use crate::circuit::Node;
use crate::crossbar::{
    CellId, cells_in_place, copies_grounded, in_grid, MemristiveGate, refs_in_grid, row_local,
};
use crate::limits::{MAX_GATES, MAX_ROW};
use crate::mapper::{copy_cell, gate_cell, input_cell, inverse_map, is_cell_of, lemma_inverse_map_range};
use crate::scheduler::levels::{first_driver, is_leveling, lemma_driver_from, ready_level, wire_level};

verus! {

/// The state of the compact mapping while gates are being placed: the grid,
/// and for each gate placed so far the cell it was given.
pub struct Layout {
    pub rows: Seq<Seq<MemristiveGate>>,
    pub spots: Seq<Option<CellId>>,
}

/// The compact mapping before any gate is placed: primary input `r` alone on
/// row `r`, in column 0.
pub open spec fn compact_start(k: int) -> Layout {
    Layout { rows: Seq::new(k as nat, |r: int| seq![input_cell(r, 0, r)]), spots: Seq::empty() }
}

/// The cell given to whichever gate drives wire `w`, if that gate is placed.
pub open spec fn spot_of(net: Seq<Node>, spots: Seq<Option<CellId>>, w: int) -> Option<CellId> {
    if inverse_map(net).contains_key(w) && 0 <= inverse_map(net)[w] < spots.len() {
        spots[inverse_map(net)[w]]
    } else {
        None
    }
}

/// The cell that an operand reference to wire `w` names: the cell of primary
/// input `w`, or the cell of whichever gate drives `w`; none where neither is
/// on the grid.
pub open spec fn compact_source(net: Seq<Node>, k: int, spots: Seq<Option<CellId>>, w: int) -> Option<
    CellId,
> {
    if w >= MAX_GATES {
        if w - MAX_GATES < k {
            Some(CellId { idx: (w - MAX_GATES) as usize, jdx: 0 })
        } else {
            None
        }
    } else {
        spot_of(net, spots, w)
    }
}

/// The cell by which wire `w` decides a placement: its source cell, or the
/// cell at row 0, column 0 for a wire that has none.
pub open spec fn compact_anchor(net: Seq<Node>, k: int, spots: Seq<Option<CellId>>, w: int) -> CellId {
    match compact_source(net, k, spots, w) {
        Some(id) => id,
        None => CellId { idx: 0, jdx: 0 },
    }
}

/// The grid with `cell` appended to row `r`.
pub open spec fn with_cell(rows: Seq<Seq<MemristiveGate>>, r: int, cell: MemristiveGate) -> Seq<
    Seq<MemristiveGate>,
> {
    rows.update(r, rows[r].push(cell))
}

/// Places gate `i` on the layout `lay`.
///
/// A NOT goes to the first free column of its operand's row. A NOR whose
/// operands sit on one row goes to the first free column of that row. A NOR
/// whose operands sit on different rows goes to the second operand's row:
/// a copy of the first operand takes the first free column there and the NOR
/// the column after it, reading the copy and the second operand. The copy
/// carries the wire of the first operand, whatever its id, and names the
/// cell it copies, the source cell of that wire, where the wire has one.
pub open spec fn compact_step(net: Seq<Node>, asap: Seq<int>, k: int, lay: Layout, i: int) -> Layout {
    let g = net[i];
    let pa = compact_anchor(net, k, lay.spots, g.a);
    let pb = compact_anchor(net, k, lay.spots, g.b);
    if g.fanin == 1 {
        let r = pa.idx as int;
        let c = lay.rows[r].len() as int;
        let cell = gate_cell(1, compact_source(net, k, lay.spots, g.a), None, g.out, r, c, asap[i]);
        Layout {
            rows: with_cell(lay.rows, r, cell),
            spots: lay.spots.push(Some(CellId { idx: r as usize, jdx: c as usize })),
        }
    } else if pa.idx == pb.idx {
        let r = pa.idx as int;
        let c = lay.rows[r].len() as int;
        let cell = gate_cell(2, Some(pa), Some(pb), g.out, r, c, asap[i]);
        Layout {
            rows: with_cell(lay.rows, r, cell),
            spots: lay.spots.push(Some(CellId { idx: r as usize, jdx: c as usize })),
        }
    } else {
        let r = pb.idx as int;
        let c = lay.rows[r].len() as int;
        let copy = copy_cell(compact_source(net, k, lay.spots, g.a), g.a, r, c);
        let cell = gate_cell(
            2,
            Some(CellId { idx: r as usize, jdx: c as usize }),
            Some(pb),
            g.out,
            r,
            c + 1,
            asap[i],
        );
        Layout {
            rows: with_cell(with_cell(lay.rows, r, copy), r, cell),
            spots: lay.spots.push(Some(CellId { idx: r as usize, jdx: (c + 1) as usize })),
        }
    }
}

/// The compact mapping of `k` primary inputs after the first `i` gates of the
/// table are placed, in table order.
pub open spec fn compact_layout(net: Seq<Node>, asap: Seq<int>, k: int, i: int) -> Layout
    decreases i,
{
    if i <= 0 {
        compact_start(k)
    } else {
        compact_step(net, asap, k, compact_layout(net, asap, k, i - 1), i - 1)
    }
}

/// Whether `spot` names a cell of the grid that is not a copy.
pub open spec fn spot_ok(rows: Seq<Seq<MemristiveGate>>, spot: Option<CellId>) -> bool {
    match spot {
        Some(id) => in_grid(rows, id) && !rows[id.idx as int][id.jdx as int].is_copy,
        None => false,
    }
}

/// What every layout of the compact mapping satisfies.
pub open spec fn layout_ok(k: int, lay: Layout) -> bool {
    &&& 1 <= k <= MAX_ROW
    &&& lay.rows.len() == k
    &&& lay.spots.len() <= MAX_GATES
    &&& forall|r: int|
        0 <= r < k ==> 1 <= (#[trigger] lay.rows[r]).len() <= 1 + 2 * lay.spots.len()
            && lay.rows[r][0] == input_cell(r, 0, r)
    &&& forall|j: int| 0 <= j < lay.spots.len() ==> spot_ok(lay.rows, #[trigger] lay.spots[j])
    &&& cells_in_place(lay.rows)
    &&& refs_in_grid(lay.rows)
    &&& row_local(lay.rows)
    &&& copies_grounded(lay.rows)
}

/// In a layout that is in order, an operand is anchored at a cell of the
/// grid that is no copy, and its source, where it has one, is on the grid.
pub(crate) proof fn lemma_anchor_ok(net: Seq<Node>, k: int, lay: Layout, w: int)
    requires
        layout_ok(k, lay),
    ensures
        in_grid(lay.rows, compact_anchor(net, k, lay.spots, w)),
        !lay.rows[compact_anchor(net, k, lay.spots, w).idx as int][compact_anchor(
            net,
            k,
            lay.spots,
            w,
        ).jdx as int].is_copy,
        compact_source(net, k, lay.spots, w) matches Some(id) ==> in_grid(lay.rows, id),
{
    let id = compact_anchor(net, k, lay.spots, w);
    assert(lay.rows[0].len() >= 1);
    if w >= MAX_GATES {
        if w - MAX_GATES < k {
            assert(lay.rows[w - MAX_GATES].len() >= 1);
        }
    } else {
        if inverse_map(net).contains_key(w) && 0 <= inverse_map(net)[w] < lay.spots.len() {
            let j = inverse_map(net)[w];
            assert(spot_ok(lay.rows, lay.spots[j]));
        }
    }
}

/// Appending a cell that fits keeps a grid in order.
proof fn lemma_with_cell_ok(rows: Seq<Seq<MemristiveGate>>, r: int, cell: MemristiveGate)
    requires
        0 <= r < rows.len(),
        cells_in_place(rows),
        refs_in_grid(rows),
        row_local(rows),
        copies_grounded(rows),
        cell.at(r, rows[r].len() as int),
        forall|s: int| 0 <= s < 2 ==> match #[trigger] cell.inputs[s] {
            Some(id) => in_grid(rows, id),
            None => true,
        },
        cell.fanin == 2 ==> {
            &&& cell.inputs[0] matches Some(a) && a.idx == r
            &&& cell.inputs[1] matches Some(b) && b.idx == r
        },
        cell.is_copy ==> match cell.inputs[0] {
            Some(id) => !rows[id.idx as int][id.jdx as int].is_copy,
            None => true,
        },
    ensures
        cells_in_place(with_cell(rows, r, cell)),
        refs_in_grid(with_cell(rows, r, cell)),
        row_local(with_cell(rows, r, cell)),
        copies_grounded(with_cell(rows, r, cell)),
        forall|id: CellId| in_grid(rows, id) ==> in_grid(with_cell(rows, r, cell), id)
            && with_cell(rows, r, cell)[id.idx as int][id.jdx as int] == rows[id.idx as int][id.jdx as int],
{
    let next = with_cell(rows, r, cell);
    assert forall|id: CellId| in_grid(rows, id) implies in_grid(next, id) && next[id.idx as int][id.jdx as int]
        == rows[id.idx as int][id.jdx as int] by {}
    assert forall|rr: int, c: int| 0 <= rr < next.len() && 0 <= c < next[rr].len() implies (
    #[trigger] next[rr][c]).at(rr, c) by {
        if rr == r && c == rows[r].len() {
        } else {
            assert(next[rr][c] == rows[rr][c]);
        }
    }
    assert forall|rr: int, c: int, s: int|
        0 <= rr < next.len() && 0 <= c < next[rr].len() && 0 <= s < 2 implies match (
    #[trigger] next[rr][c].inputs[s]) {
        Some(id) => in_grid(next, id),
        None => true,
    } by {
        if rr == r && c == rows[r].len() {
            assert(next[rr][c] == cell);
        } else {
            assert(next[rr][c] == rows[rr][c]);
            assert(match rows[rr][c].inputs[s] {
                Some(id) => in_grid(rows, id),
                None => true,
            });
        }
    }
    assert forall|rr: int, c: int|
        0 <= rr < next.len() && 0 <= c < next[rr].len() && (#[trigger] next[rr][c]).fanin == 2 implies {
        &&& next[rr][c].inputs[0] matches Some(a) && a.idx == rr
        &&& next[rr][c].inputs[1] matches Some(b) && b.idx == rr
    } by {
        if rr == r && c == rows[r].len() {
        } else {
            assert(next[rr][c] == rows[rr][c]);
        }
    }
    assert forall|rr: int, c: int|
        0 <= rr < next.len() && 0 <= c < next[rr].len() && (#[trigger] next[rr][c]).is_copy implies match next[rr][c].inputs[0] {
        Some(id) => in_grid(next, id) && !next[id.idx as int][id.jdx as int].is_copy,
        None => true,
    } by {
        if rr == r && c == rows[r].len() {
            assert(next[rr][c] == cell);
            assert(match cell.inputs[0] {
                Some(id) => in_grid(rows, id),
                None => true,
            });
        } else {
            assert(next[rr][c] == rows[rr][c]);
        }
    }
}

/// Placing a gate keeps the layout in order.
pub proof fn lemma_step_ok(net: Seq<Node>, asap: Seq<int>, k: int, lay: Layout, i: int)
    requires
        layout_ok(k, lay),
        0 <= i < net.len(),
        lay.spots.len() == i,
        i < MAX_GATES,
        1 <= net[i].fanin <= 2,
    ensures
        layout_ok(k, compact_step(net, asap, k, lay, i)),
        compact_step(net, asap, k, lay, i).spots.len() == i + 1,
{
    let g = net[i];
    let next = compact_step(net, asap, k, lay, i);
    let pa = compact_anchor(net, k, lay.spots, g.a);
    let pb = compact_anchor(net, k, lay.spots, g.b);
    lemma_anchor_ok(net, k, lay, g.a);
    lemma_anchor_ok(net, k, lay, g.b);
    if g.fanin == 1 || pa.idx == pb.idx {
        let r = pa.idx as int;
        let c = lay.rows[r].len() as int;
        let cell = if g.fanin == 1 {
            gate_cell(1, compact_source(net, k, lay.spots, g.a), None, g.out, r, c, asap[i])
        } else {
            gate_cell(2, Some(pa), Some(pb), g.out, r, c, asap[i])
        };
        assert(lay.rows[r].len() <= 1 + 2 * lay.spots.len());
        lemma_with_cell_ok(lay.rows, r, cell);
        assert(next.rows == with_cell(lay.rows, r, cell));
        assert forall|j: int| 0 <= j < next.spots.len() implies spot_ok(
            next.rows,
            #[trigger] next.spots[j],
        ) by {
            if j < i {
                assert(next.spots[j] == lay.spots[j]);
                assert(spot_ok(lay.rows, lay.spots[j]));
            }
        }
        assert forall|rr: int| 0 <= rr < k implies 1 <= (#[trigger] next.rows[rr]).len() <= 1 + 2
            * next.spots.len() && next.rows[rr][0] == input_cell(rr, 0, rr) by {
            assert(1 <= lay.rows[rr].len() <= 1 + 2 * lay.spots.len());
        }
    } else {
        let r = pb.idx as int;
        let c = lay.rows[r].len() as int;
        let copy = copy_cell(compact_source(net, k, lay.spots, g.a), g.a, r, c);
        let cell = gate_cell(
            2,
            Some(CellId { idx: r as usize, jdx: c as usize }),
            Some(pb),
            g.out,
            r,
            c + 1,
            asap[i],
        );
        assert(lay.rows[r].len() <= 1 + 2 * lay.spots.len());
        lemma_with_cell_ok(lay.rows, r, copy);
        let mid = with_cell(lay.rows, r, copy);
        assert(in_grid(mid, CellId { idx: r as usize, jdx: c as usize }));
        assert(in_grid(mid, pb));
        lemma_with_cell_ok(mid, r, cell);
        assert(next.rows == with_cell(mid, r, cell));
        assert forall|j: int| 0 <= j < next.spots.len() implies spot_ok(
            next.rows,
            #[trigger] next.spots[j],
        ) by {
            if j < i {
                assert(next.spots[j] == lay.spots[j]);
                assert(spot_ok(lay.rows, lay.spots[j]));
                let id = lay.spots[j]->0;
                assert(in_grid(mid, id));
            }
        }
        assert forall|rr: int| 0 <= rr < k implies 1 <= (#[trigger] next.rows[rr]).len() <= 1 + 2
            * next.spots.len() && next.rows[rr][0] == input_cell(rr, 0, rr) by {
            assert(1 <= lay.rows[rr].len() <= 1 + 2 * lay.spots.len());
        }
    }
}

/// Whether every gate placed so far has been given its own cell.
pub open spec fn spots_hold_gates(net: Seq<Node>, lay: Layout) -> bool {
    forall|j: int|
        0 <= j < lay.spots.len() ==> is_cell_of(lay.rows, #[trigger] lay.spots[j], net[j].fanin, net[j].out)
}

/// Placing a gate gives it its own cell and leaves the others theirs.
pub proof fn lemma_step_places(net: Seq<Node>, asap: Seq<int>, k: int, lay: Layout, i: int)
    requires
        layout_ok(k, lay),
        spots_hold_gates(net, lay),
        0 <= i < net.len(),
        lay.spots.len() == i,
        i < MAX_GATES,
        1 <= net[i].fanin <= 2,
        i32::MIN <= net[i].out <= i32::MAX,
    ensures
        spots_hold_gates(net, compact_step(net, asap, k, lay, i)),
{
    let g = net[i];
    let next = compact_step(net, asap, k, lay, i);
    let pa = compact_anchor(net, k, lay.spots, g.a);
    let pb = compact_anchor(net, k, lay.spots, g.b);
    lemma_anchor_ok(net, k, lay, g.a);
    lemma_anchor_ok(net, k, lay, g.b);
    lemma_step_ok(net, asap, k, lay, i);
    assert forall|j: int| 0 <= j < next.spots.len() implies is_cell_of(
        next.rows,
        #[trigger] next.spots[j],
        net[j].fanin,
        net[j].out,
    ) by {
        if j < i {
            assert(next.spots[j] == lay.spots[j]);
            assert(is_cell_of(lay.rows, lay.spots[j], net[j].fanin, net[j].out));
            let id = lay.spots[j]->0;
            assert(next.rows[id.idx as int][id.jdx as int] == lay.rows[id.idx as int][id.jdx as int]);
        } else {
            assert(spot_ok(next.rows, next.spots[j]));
        }
    }
}

/// Every layout of the compact mapping is in order, however many gates are
/// placed: both operands of every NOR cell sit on the NOR's row, every row
/// is filled without gaps from column 0, and every reference names a cell.
pub proof fn lemma_compact_layout_ok(net: Seq<Node>, asap: Seq<int>, k: int, i: int)
    requires
        1 <= k <= MAX_ROW,
        0 <= i <= net.len() <= MAX_GATES,
        forall|j: int| 0 <= j < net.len() ==> 1 <= (#[trigger] net[j]).fanin <= 2 && i32::MIN <= net[j].out <= i32::MAX,
    ensures
        layout_ok(k, compact_layout(net, asap, k, i)),
        compact_layout(net, asap, k, i).spots.len() == i,
        row_local(compact_layout(net, asap, k, i).rows),
        cells_in_place(compact_layout(net, asap, k, i).rows),
        spots_hold_gates(net, compact_layout(net, asap, k, i)),
    decreases i,
{
    if i > 0 {
        lemma_compact_layout_ok(net, asap, k, i - 1);
        lemma_step_ok(net, asap, k, compact_layout(net, asap, k, i - 1), i - 1);
        lemma_step_places(net, asap, k, compact_layout(net, asap, k, i - 1), i - 1);
    } else {
        assert(layout_ok(k, compact_start(k)));
    }
}

/// The length of the longest of the first `r` rows.
pub open spec fn widest_row(rows: Seq<Seq<MemristiveGate>>, r: int) -> int
    decreases r,
{
    if r <= 0 {
        0
    } else if rows[r - 1].len() >= widest_row(rows, r - 1) {
        rows[r - 1].len() as int
    } else {
        widest_row(rows, r - 1)
    }
}

/// The longest row is as long as a row that no row exceeds.
pub(crate) proof fn lemma_widest_row(rows: Seq<Seq<MemristiveGate>>, r: int, w: int)
    requires
        0 <= r <= rows.len(),
        forall|i: int| 0 <= i < r ==> (#[trigger] rows[i]).len() <= w,
    ensures
        0 <= widest_row(rows, r) <= w || r == 0,
        (exists|i: int| 0 <= i < r && (#[trigger] rows[i]).len() == w) ==> widest_row(rows, r) == w,
        r == 0 ==> widest_row(rows, r) == 0,
    decreases r,
{
    if r > 0 {
        lemma_widest_row(rows, r - 1, w);
        assert(rows[r - 1].len() <= w);
        if exists|i: int| 0 <= i < r && (#[trigger] rows[i]).len() == w {
            let i = choose|i: int| 0 <= i < r && (#[trigger] rows[i]).len() == w;
            if i < r - 1 {
                assert(0 <= i < r - 1 && rows[i].len() == w);
            }
        }
    }
}

/// Whether the gates drive wires of their own: no two gates drive the same
/// wire, and no gate drives the wire of one of the `k` primary inputs.
pub open spec fn wires_distinct(net: Seq<Node>, k: int) -> bool {
    &&& forall|i: int, j: int| 0 <= i < j < net.len() ==> (#[trigger] net[i]).out != (#[trigger] net[j]).out
    &&& forall|i: int| 0 <= i < net.len() ==> !(MAX_GATES <= (#[trigger] net[i]).out < MAX_GATES + k)
}

/// Whether the cells at `a` and at `b`, if they are two cells and neither is
/// a copy, hold different wires.
pub open spec fn hold_different_wires(rows: Seq<Seq<MemristiveGate>>, a: CellId, b: CellId) -> bool {
    in_grid(rows, a) && in_grid(rows, b) && a != b && !rows[a.idx as int][a.jdx as int].is_copy
        && !rows[b.idx as int][b.jdx as int].is_copy ==> rows[a.idx as int][a.jdx as int].value
        != rows[b.idx as int][b.jdx as int].value
}

/// Whether every cell that is no copy is the cell of a primary input, in
/// column 0, or the cell given to one of the gates placed so far.
pub open spec fn cells_owned(lay: Layout) -> bool {
    forall|id: CellId|
        #![trigger in_grid(lay.rows, id)]
        in_grid(lay.rows, id) && !lay.rows[id.idx as int][id.jdx as int].is_copy && id.jdx != 0 ==> exists|j: int|
            0 <= j < lay.spots.len() && #[trigger] lay.spots[j] == Some(id)
}

/// Placing a gate keeps every cell that is no copy owned.
proof fn lemma_step_owns(net: Seq<Node>, asap: Seq<int>, k: int, lay: Layout, i: int)
    requires
        layout_ok(k, lay),
        cells_owned(lay),
        0 <= i < net.len(),
        lay.spots.len() == i,
        i < MAX_GATES,
        1 <= net[i].fanin <= 2,
    ensures
        cells_owned(compact_step(net, asap, k, lay, i)),
{
    let g = net[i];
    let next = compact_step(net, asap, k, lay, i);
    let pa = compact_anchor(net, k, lay.spots, g.a);
    let pb = compact_anchor(net, k, lay.spots, g.b);
    lemma_anchor_ok(net, k, lay, g.a);
    lemma_anchor_ok(net, k, lay, g.b);
    lemma_step_ok(net, asap, k, lay, i);
    let r = if g.fanin == 1 || pa.idx == pb.idx {
        pa.idx as int
    } else {
        pb.idx as int
    };
    let c = lay.rows[r].len() as int;
    assert(lay.rows[r].len() <= 1 + 2 * lay.spots.len());
    assert forall|id: CellId|
        #![trigger in_grid(next.rows, id)]
        in_grid(next.rows, id) && !next.rows[id.idx as int][id.jdx as int].is_copy && id.jdx != 0 implies exists|
        j: int,
    | 0 <= j < next.spots.len() && #[trigger] next.spots[j] == Some(id) by {
        if in_grid(lay.rows, id) {
            assert(next.rows[id.idx as int][id.jdx as int] == lay.rows[id.idx as int][id.jdx as int]);
            let j = choose|j: int| 0 <= j < lay.spots.len() && #[trigger] lay.spots[j] == Some(id);
            assert(next.spots[j] == Some(id));
        } else {
            // a new cell that is no copy is the cell of that newly placed gate
            assert(id.idx == r);
            assert(next.spots[i] == Some(id));
        }
    }
}

/// In every layout of the compact mapping, each cell that is no copy is the
/// cell of a primary input or of one gate.
pub proof fn lemma_compact_cells_owned(net: Seq<Node>, asap: Seq<int>, k: int, i: int)
    requires
        1 <= k <= MAX_ROW,
        0 <= i <= net.len() <= MAX_GATES,
        forall|j: int| 0 <= j < net.len() ==> 1 <= (#[trigger] net[j]).fanin <= 2 && i32::MIN <= net[j].out <= i32::MAX,
    ensures
        cells_owned(compact_layout(net, asap, k, i)),
    decreases i,
{
    lemma_compact_layout_ok(net, asap, k, i);
    if i > 0 {
        lemma_compact_cells_owned(net, asap, k, i - 1);
        lemma_compact_layout_ok(net, asap, k, i - 1);
        lemma_step_owns(net, asap, k, compact_layout(net, asap, k, i - 1), i - 1);
    } else {
        let lay = compact_start(k);
        assert forall|id: CellId|
            #![trigger in_grid(lay.rows, id)]
            in_grid(lay.rows, id) && !lay.rows[id.idx as int][id.jdx as int].is_copy && id.jdx != 0 implies exists|
            j: int,
        | 0 <= j < lay.spots.len() && #[trigger] lay.spots[j] == Some(id) by {
            assert(lay.rows[id.idx as int].len() == 1);
        }
    }
}

/// No two cells share a wire, copies apart: where the gates drive wires of
/// their own, two cells of the compact mapping that are not copies hold
/// different wires.
pub proof fn lemma_compact_wires_distinct(net: Seq<Node>, asap: Seq<int>, k: int, i: int, a: CellId, b: CellId)
    requires
        1 <= k <= MAX_ROW,
        0 <= i <= net.len() <= MAX_GATES,
        forall|j: int| 0 <= j < net.len() ==> 1 <= (#[trigger] net[j]).fanin <= 2 && i32::MIN <= net[j].out <= i32::MAX,
        wires_distinct(net, k),
    ensures
        hold_different_wires(compact_layout(net, asap, k, i).rows, a, b),
{
    let lay = compact_layout(net, asap, k, i);
    lemma_compact_layout_ok(net, asap, k, i);
    lemma_compact_cells_owned(net, asap, k, i);
    let rows = lay.rows;
    if in_grid(rows, a) && in_grid(rows, b) && a != b && !rows[a.idx as int][a.jdx as int].is_copy
        && !rows[b.idx as int][b.jdx as int].is_copy {
        let ca = rows[a.idx as int][a.jdx as int];
        let cb = rows[b.idx as int][b.jdx as int];
        if a.jdx == 0 {
            assert(rows[a.idx as int][0] == input_cell(a.idx as int, 0, a.idx as int));
        } else {
            let j = choose|j: int| 0 <= j < lay.spots.len() && #[trigger] lay.spots[j] == Some(a);
            assert(is_cell_of(rows, lay.spots[j], net[j].fanin, net[j].out));
        }
        if b.jdx == 0 {
            assert(rows[b.idx as int][0] == input_cell(b.idx as int, 0, b.idx as int));
        } else {
            let j = choose|j: int| 0 <= j < lay.spots.len() && #[trigger] lay.spots[j] == Some(b);
            assert(is_cell_of(rows, lay.spots[j], net[j].fanin, net[j].out));
        }
        if a.jdx != 0 && b.jdx != 0 {
            let ja = choose|j: int| 0 <= j < lay.spots.len() && #[trigger] lay.spots[j] == Some(a);
            let jb = choose|j: int| 0 <= j < lay.spots.len() && #[trigger] lay.spots[j] == Some(b);
            assert(ja != jb);
            if ja < jb {
                assert(net[ja].out != net[jb].out);
            } else {
                assert(net[jb].out != net[ja].out);
            }
        }
    }
}

/// Whether the table lists every gate after the gates that drive its
/// operands: a gate reads no wire that a gate at or after its own place
/// drives. A table sorted by a schedule of its netlist is so ordered.
pub open spec fn producers_first(net: Seq<Node>) -> bool {
    forall|i: int| 0 <= i < net.len() ==> driven_before(net, i, (#[trigger] net[i]).a) && driven_before(net, i, net[i].b)
}

/// Whether wire `w`, where a gate drives it, is driven by a gate before
/// place `i`.
pub open spec fn driven_before(net: Seq<Node>, i: int, w: int) -> bool {
    w < MAX_GATES && inverse_map(net).contains_key(w) ==> inverse_map(net)[w] < i
}

/// Whether wire `w` has a cell of its own to be read from: it is one of the
/// `k` primary inputs, or a gate drives it.
pub open spec fn has_producer(net: Seq<Node>, k: int, w: int) -> bool {
    (MAX_GATES <= w < MAX_GATES + k) || (w < MAX_GATES && inverse_map(net).contains_key(w))
}

/// Whether the cell reads wire `w` on operand `s`: it names a cell there,
/// and that cell holds `w`.
pub open spec fn reads_wire(rows: Seq<Seq<MemristiveGate>>, cell: MemristiveGate, s: int, w: int) -> bool {
    match cell.inputs[s] {
        Some(id) => in_grid(rows, id) && rows[id.idx as int][id.jdx as int].value == w,
        None => false,
    }
}

/// Whether the cell at `spot` reads the operands of gate `g` from cells that
/// hold them, as far as the operands have cells of their own.
pub open spec fn is_linked(net: Seq<Node>, k: int, rows: Seq<Seq<MemristiveGate>>, spot: Option<CellId>, g: Node) -> bool {
    match spot {
        Some(id) => {
            &&& in_grid(rows, id)
            &&& has_producer(net, k, g.a) ==> reads_wire(rows, rows[id.idx as int][id.jdx as int], 0, g.a)
            &&& g.fanin == 2 && has_producer(net, k, g.b) ==> reads_wire(
                rows,
                rows[id.idx as int][id.jdx as int],
                1,
                g.b,
            )
        },
        None => false,
    }
}

/// Whether every gate placed so far reads its operands from cells that
/// hold them.
pub open spec fn gates_linked(net: Seq<Node>, k: int, lay: Layout) -> bool {
    forall|j: int| 0 <= j < lay.spots.len() ==> is_linked(net, k, lay.rows, #[trigger] lay.spots[j], net[j])
}

/// Whether the wires of the netlist are wire ids.
pub open spec fn wires_in_range(net: Seq<Node>) -> bool {
    forall|j: int|
        0 <= j < net.len() ==> i32::MIN <= (#[trigger] net[j]).out <= i32::MAX && i32::MIN <= net[j].a <= i32::MAX
            && i32::MIN <= net[j].b <= i32::MAX
}

/// In a layout of a table that lists producers first, an operand that has
/// a cell of its own is read from that cell.
proof fn lemma_source_holds(net: Seq<Node>, k: int, lay: Layout, i: int, w: int)
    requires
        layout_ok(k, lay),
        spots_hold_gates(net, lay),
        lay.spots.len() == i,
        0 <= i <= net.len(),
        driven_before(net, i, w),
        has_producer(net, k, w),
        i32::MIN <= w <= i32::MAX,
    ensures
        compact_source(net, k, lay.spots, w) matches Some(id) && in_grid(lay.rows, id) && lay.rows[id.idx as int][id.jdx as int].value
            == w,
{
    lemma_inverse_map_range(net, w);
    if w >= MAX_GATES {
        let n = w - MAX_GATES;
        assert(lay.rows[n].len() >= 1);
        assert(lay.rows[n][0] == input_cell(n, 0, n));
    } else {
        let j = inverse_map(net)[w];
        assert(is_cell_of(lay.rows, lay.spots[j], net[j].fanin, net[j].out));
    }
}

/// Placing a gate of a table that lists producers first links it to the
/// cells that hold its operands, and leaves the other gates linked.
pub proof fn lemma_step_links(net: Seq<Node>, asap: Seq<int>, k: int, lay: Layout, i: int)
    requires
        layout_ok(k, lay),
        spots_hold_gates(net, lay),
        gates_linked(net, k, lay),
        0 <= i < net.len(),
        lay.spots.len() == i,
        i < MAX_GATES,
        1 <= net[i].fanin <= 2,
        wires_in_range(net),
        producers_first(net),
    ensures
        gates_linked(net, k, compact_step(net, asap, k, lay, i)),
{
    let g = net[i];
    let next = compact_step(net, asap, k, lay, i);
    let pa = compact_anchor(net, k, lay.spots, g.a);
    let pb = compact_anchor(net, k, lay.spots, g.b);
    lemma_anchor_ok(net, k, lay, g.a);
    lemma_anchor_ok(net, k, lay, g.b);
    lemma_step_ok(net, asap, k, lay, i);
    assert(driven_before(net, i, g.a) && driven_before(net, i, g.b));
    if has_producer(net, k, g.a) {
        lemma_source_holds(net, k, lay, i, g.a);
    }
    if has_producer(net, k, g.b) {
        lemma_source_holds(net, k, lay, i, g.b);
    }
    let r = if g.fanin == 1 || pa.idx == pb.idx {
        pa.idx as int
    } else {
        pb.idx as int
    };
    assert(lay.rows[r].len() <= 1 + 2 * lay.spots.len());
    // a cell that was on the grid is on it still, and holds what it held
    assert forall|id: CellId| in_grid(lay.rows, id) implies in_grid(next.rows, id) && #[trigger] next.rows[id.idx as int][id.jdx as int]
        == lay.rows[id.idx as int][id.jdx as int] by {}
    assert forall|j: int| 0 <= j < next.spots.len() implies is_linked(
        net,
        k,
        next.rows,
        #[trigger] next.spots[j],
        net[j],
    ) by {
        if j < i {
            assert(next.spots[j] == lay.spots[j]);
            assert(is_linked(net, k, lay.rows, lay.spots[j], net[j]));
            let id = lay.spots[j]->0;
            let cell = lay.rows[id.idx as int][id.jdx as int];
            assert(next.rows[id.idx as int][id.jdx as int] == cell);
            if has_producer(net, k, net[j].a) {
                assert(reads_wire(lay.rows, cell, 0, net[j].a));
                let src = cell.inputs[0]->0;
                assert(next.rows[src.idx as int][src.jdx as int] == lay.rows[src.idx as int][src.jdx as int]);
            }
            if net[j].fanin == 2 && has_producer(net, k, net[j].b) {
                assert(reads_wire(lay.rows, cell, 1, net[j].b));
                let src = cell.inputs[1]->0;
                assert(next.rows[src.idx as int][src.jdx as int] == lay.rows[src.idx as int][src.jdx as int]);
            }
        } else {
            let id = next.spots[i]->0;
            assert(spot_ok(next.rows, next.spots[i]));
            let cell = next.rows[id.idx as int][id.jdx as int];
            if has_producer(net, k, g.a) {
                let src = cell.inputs[0]->0;
                if in_grid(lay.rows, src) {
                    assert(next.rows[src.idx as int][src.jdx as int] == lay.rows[src.idx as int][src.jdx as int]);
                }
            }
            if g.fanin == 2 && has_producer(net, k, g.b) {
                let src = cell.inputs[1]->0;
                assert(in_grid(lay.rows, src));
                assert(next.rows[src.idx as int][src.jdx as int] == lay.rows[src.idx as int][src.jdx as int]);
            }
        }
    }
}

/// In every layout of a table that lists producers first, each gate reads
/// its operands from the cells that hold them: the cell of the primary
/// input, the cell of the driving gate, or for the first operand of a NOR
/// whose operands sit on different rows, the copy that carries its wire.
pub proof fn lemma_compact_layout_linked(net: Seq<Node>, asap: Seq<int>, k: int, i: int)
    requires
        1 <= k <= MAX_ROW,
        0 <= i <= net.len() <= MAX_GATES,
        forall|j: int| 0 <= j < net.len() ==> 1 <= (#[trigger] net[j]).fanin <= 2,
        wires_in_range(net),
        producers_first(net),
    ensures
        gates_linked(net, k, compact_layout(net, asap, k, i)),
    decreases i,
{
    if i > 0 {
        lemma_compact_layout_linked(net, asap, k, i - 1);
        lemma_compact_layout_ok(net, asap, k, i - 1);
        lemma_step_links(net, asap, k, compact_layout(net, asap, k, i - 1), i - 1);
    }
}

/// A table sorted by a level schedule of its netlist lists producers first,
/// where no two gates drive the same wire.
pub proof fn lemma_sorted_schedule_lists_producers_first(net: Seq<Node>, lv: Seq<int>)
    requires
        is_leveling(net, lv),
        forall|i: int, j: int| 0 <= i < j < net.len() ==> #[trigger] lv[i] <= #[trigger] lv[j],
        forall|i: int, j: int| 0 <= i < j < net.len() ==> (#[trigger] net[i]).out != (#[trigger] net[j]).out,
    ensures
        producers_first(net),
{
    assert forall|i: int| 0 <= i < net.len() implies driven_before(net, i, (#[trigger] net[i]).a) && driven_before(
        net,
        i,
        net[i].b,
    ) by {
        lemma_reads_later(net, lv, i, net[i].a);
        lemma_reads_later(net, lv, i, net[i].b);
    }
}

/// In a sorted level schedule, a gate that reads a driven wire stands after
/// its driving gate.
proof fn lemma_reads_later(net: Seq<Node>, lv: Seq<int>, i: int, w: int)
    requires
        is_leveling(net, lv),
        forall|i: int, j: int| 0 <= i < j < net.len() ==> #[trigger] lv[i] <= #[trigger] lv[j],
        forall|i: int, j: int| 0 <= i < j < net.len() ==> (#[trigger] net[i]).out != (#[trigger] net[j]).out,
        0 <= i < net.len(),
        net[i].reads(w),
    ensures
        driven_before(net, i, w),
{
    if inverse_map(net).contains_key(w) {
        lemma_inverse_map_range(net, w);
        let j = inverse_map(net)[w];
        lemma_driver_from(net, w, 0);
        let f = first_driver(net, w);
        // the wire has one driver, so the first gate that drives it is that one
        if f < j {
            assert(net[f].out != net[j].out);
        }
        assert(f == j);
        assert(lv[i] == ready_level(net, lv, i));
        assert(wire_level(net, lv, w) == lv[j]);
        assert(lv[i] >= 1 + lv[j]);
        if j > i {
            assert(lv[i] <= lv[j]);
        }
    }
}

} // verus!
