//! The compact mapping: every primary input on a row of its own, every gate
//! on the row of an operand.
use vstd::prelude::*;
use std::collections::HashMap;
use crate::circuit::{
    Circuit, CircuitView, gate_views, gates_wf, lemma_nodes_of_views, netlist, Node, nodes, TableGate,
};
use crate::crossbar::{
    CellId, CrossbarMapping, is_high_water, MappingView, MemristiveGate, row_local, rows_filled_to_high_water,
};
use crate::error::SynthesisError;
use crate::limits::{MAX_COL, MAX_GATES, MAX_ROW};
use crate::mapper::{
    asap_levels, build_inverse_map, clear_placement, driver_of, gates_placed, input_cell, inverse_map,
    is_cell_of, lemma_inverse_map_range, lemma_sort_keeps_wf, lemma_unplaced_keeps, lemma_views_of_unplaced,
    make_copy_cell, make_gate_cell, make_input_cell, mapper_sorted, models, unplaced, view_asap, with_spots,
};
use crate::mapper::layout::{
    compact_layout, compact_source, compact_start, compact_step, gates_linked, layout_ok, lemma_anchor_ok,
    lemma_compact_layout_linked, lemma_step_ok, lemma_step_places, lemma_widest_row, producers_first, spot_of,
    spots_hold_gates, widest_row, with_cell,
};
use crate::sorting::{is_stable_sort, lemma_sort_of_views, sort_gates, SortKey};

verus! {

/// What the compact mapper makes of a circuit: the gates in the stable
/// order of their list times, and the mapping that places them in that order
/// on the rows of the primary inputs. A circuit without primary inputs gets
/// the empty mapping. `ResourceExhausted` where there are more than `MAX_ROW`
/// primary inputs or a row grows beyond `MAX_COL` cells.
pub open spec fn compact_view(v: CircuitView) -> Result<(CircuitView, MappingView), SynthesisError> {
    let sorted = mapper_sorted(v, SortKey::ListTime);
    let k = v.num_inputs;
    if k == 0 {
        Ok((CircuitView { gates: sorted, ..v }, MappingView { rows: Seq::empty(), max_idx: 0, max_jdx: 0 }))
    } else if k > MAX_ROW {
        Err(SynthesisError::ResourceExhausted)
    } else {
        let lay = compact_layout(nodes(sorted), view_asap(sorted), k, sorted.len() as int);
        let width = widest_row(lay.rows, k);
        if width > MAX_COL {
            Err(SynthesisError::ResourceExhausted)
        } else {
            Ok(
                (
                    CircuitView { gates: with_spots(sorted, lay.spots), ..v },
                    MappingView { rows: lay.rows, max_idx: k - 1, max_jdx: width - 1 },
                ),
            )
        }
    }
}

/// The cell given to whichever gate drives wire `w`, read from the table of gates.
fn spot_lookup(
    circuit: &Circuit,
    inv: &HashMap<i32, usize>,
    w: i32,
    Ghost(net): Ghost<Seq<Node>>,
    Ghost(spots): Ghost<Seq<Option<CellId>>>,
) -> (r: Option<CellId>)
    requires
        models(inv@, inverse_map(net)),
        net.len() == circuit.gates@.len(),
        spots.len() <= net.len(),
        forall|j: int| 0 <= j < spots.len() ==> (#[trigger] circuit.gates@[j]).gate_map == spots[j],
        forall|j: int| spots.len() <= j < net.len() ==> (#[trigger] circuit.gates@[j]).gate_map is None,
    ensures
        r == spot_of(net, spots, w as int),
{
    proof {
        lemma_inverse_map_range(net, w as int);
    }
    match driver_of(inv, w) {
        Some(p) => circuit.gates[p].gate_map,
        None => None,
    }
}

/// The cell that an operand reference to wire `w` names.
fn source_lookup(
    circuit: &Circuit,
    inv: &HashMap<i32, usize>,
    k: usize,
    w: i32,
    Ghost(net): Ghost<Seq<Node>>,
    Ghost(spots): Ghost<Seq<Option<CellId>>>,
) -> (r: Option<CellId>)
    requires
        models(inv@, inverse_map(net)),
        net.len() == circuit.gates@.len(),
        spots.len() <= net.len(),
        forall|j: int| 0 <= j < spots.len() ==> (#[trigger] circuit.gates@[j]).gate_map == spots[j],
        forall|j: int| spots.len() <= j < net.len() ==> (#[trigger] circuit.gates@[j]).gate_map is None,
    ensures
        r == compact_source(net, k as int, spots, w as int),
{
    if w >= MAX_GATES as i32 {
        let n = (w - MAX_GATES as i32) as usize;
        if n < k {
            Some(CellId { idx: n, jdx: 0 })
        } else {
            None
        }
    } else {
        spot_lookup(circuit, inv, w, Ghost(net), Ghost(spots))
    }
}

/// Appends `cell` to row `r` of the grid.
fn put_cell(mapping: &mut CrossbarMapping, r: usize, cell: MemristiveGate)
    requires
        r < old(mapping).crossbar@.len(),
    ensures
        final(mapping).rows() == with_cell(old(mapping).rows(), r as int, cell),
        final(mapping).max_idx == old(mapping).max_idx,
        final(mapping).max_jdx == old(mapping).max_jdx,
{
    mapping.crossbar[r].push(cell);
    proof {
        assert(mapping.rows() =~= with_cell(old(mapping).rows(), r as int, cell));
    }
}

/// Places the circuit on the crossbar row by row.
///
/// The table of gates is first sorted by list time (gates of one time keep their
/// order) and its placement back-references are cleared. Primary input `r`
/// takes column 0 of row `r`; the gates are then placed in table order as
/// `compact_step` says, and every gate is linked to its cell. In the result
/// both operands of every NOR cell sit on the NOR's own row, and every row is
/// filled without gaps up to its first free column.
///
/// The table is expected to list every gate after the gates that drive its
/// operands, as a table sorted by its schedule does where every wire has one
/// driver; list times that follow the schedule give that order, and so does
/// the order that the naive mapper leaves where the list times are all
/// alike. Each gate then reads its operands from the cells that hold them. A gate that comes before the
/// driver of an operand, or reads a wire that nothing drives, is not
/// refused: it is placed as if that operand sat at row 0, column 0.
///
/// A circuit without primary inputs has no row to place a gate on: its
/// mapping is empty and its gates stay unplaced. More than `MAX_ROW` primary
/// inputs, or a row that would grow past `MAX_COL` cells, is refused with
/// `ResourceExhausted`, and the gates are left unplaced.
pub fn create_compact_mapping(circuit: &mut Circuit) -> (res: Result<CrossbarMapping, SynthesisError>)
    requires
        old(circuit).wf(),
    ensures
        final(circuit).wf(),
        final(circuit).same_frame(old(circuit)),
        is_stable_sort(
            unplaced(old(circuit).gates@),
            unplaced(final(circuit).gates@),
            SortKey::ListTime,
        ),
        res is Err <==> {
            let k = old(circuit).num_inputs as int;
            let gates = final(circuit).gates@;
            let lay = compact_layout(netlist(gates), asap_levels(gates), k, gates.len() as int);
            k > MAX_ROW || (k > 0 && exists|r: int| 0 <= r < k && (#[trigger] lay.rows[r]).len() > MAX_COL)
        },
        match compact_view(old(circuit)@) {
            Ok((v, m)) => res matches Ok(mapping) && final(circuit)@ == v && mapping@ == m,
            Err(e) => {
                &&& res matches Err(x) && x == e
                &&& final(circuit)@ == CircuitView {
                    gates: mapper_sorted(old(circuit)@, SortKey::ListTime),
                    ..old(circuit)@
                }
            },
        },
        match res {
            Ok(m) => {
                let k = old(circuit).num_inputs as int;
                let gates = final(circuit).gates@;
                let lay = compact_layout(netlist(gates), asap_levels(gates), k, gates.len() as int);
                &&& m.wf()
                &&& row_local(m.rows())
                &&& rows_filled_to_high_water(m.rows())
                &&& forall|r: int| 0 <= r < m.crossbar@.len() ==> is_high_water(m.rows()[r], #[trigger] m.av_row(r))
                &&& if k == 0 {
                    &&& m.crossbar@.len() == 0
                    &&& m.max_idx == 0
                    &&& m.max_jdx == 0
                    &&& gates == unplaced(gates)
                } else {
                    &&& gates_placed(m.rows(), gates)
                    &&& producers_first(netlist(gates)) ==> gates_linked(netlist(gates), k, lay)
                    &&& forall|r: int| 0 <= r < k ==> (#[trigger] m.rows()[r])[0] == input_cell(r, 0, r)
                    &&& m.rows() == lay.rows
                    &&& forall|i: int| 0 <= i < gates.len() ==> (#[trigger] gates[i]).gate_map == lay.spots[i]
                    &&& m.max_idx == k - 1
                    &&& forall|r: int| 0 <= r < k ==> (#[trigger] lay.rows[r]).len() <= m.max_jdx + 1
                    &&& exists|r: int| 0 <= r < k && (#[trigger] lay.rows[r]).len() == m.max_jdx + 1
                }
            },
            Err(e) => {
                &&& e == SynthesisError::ResourceExhausted
                &&& final(circuit).gates@ == unplaced(final(circuit).gates@)
            },
        },
{
    clear_placement(circuit);
    let ghost cleared = circuit.gates@;
    sort_gates(&mut circuit.gates, SortKey::ListTime);
    let ghost sorted = circuit.gates@;
    let ghost net = netlist(sorted);
    let ghost asap = asap_levels(sorted);
    proof {
        lemma_views_of_unplaced(old(circuit).gates@);
        lemma_sort_of_views(cleared, sorted, SortKey::ListTime);
        lemma_nodes_of_views(sorted);
        assert(view_asap(gate_views(sorted)) =~= asap);
        lemma_unplaced_keeps(old(circuit).gates@);
        lemma_sort_keeps_wf(cleared, sorted, SortKey::ListTime);
        crate::sorting::lemma_stable_sort_same_gates(cleared, sorted, SortKey::ListTime);
        assert forall|i: int| 0 <= i < sorted.len() implies (#[trigger] sorted[i]).gate_map is None by {
            let j = choose|j: int| 0 <= j < cleared.len() && cleared[j] == sorted[i];
        }
        assert(unplaced(sorted) =~= sorted);
    }
    let k = circuit.num_inputs;
    let n = circuit.gates.len();
    if k == 0 {
        let mapping = CrossbarMapping::new();
        proof {
            assert(mapping.rows() =~= Seq::<Seq<MemristiveGate>>::empty());
        }
        return Ok(mapping);
    }
    if k > MAX_ROW {
        return Err(SynthesisError::ResourceExhausted);
    }
    let inv = build_inverse_map(&circuit.gates);
    let mut mapping = CrossbarMapping { crossbar: Vec::new(), max_idx: (k - 1) as i32, max_jdx: 0 };
    for r in 0..k
        invariant
            1 <= k <= MAX_ROW,
            mapping.crossbar@.len() == r,
            mapping.max_idx == k - 1,
            mapping.max_jdx == 0,
            mapping.rows() == compact_start(k as int).rows.take(r as int),
    {
        let mut row: Vec<MemristiveGate> = Vec::new();
        row.push(make_input_cell(r, 0, r));
        mapping.crossbar.push(row);
        proof {
            assert(mapping.rows() =~= compact_start(k as int).rows.take(r + 1));
        }
    }
    let ghost mut lay = compact_start(k as int);
    let ghost mut widest: int = 0;
    let mut max_jdx: usize = 0;
    proof {
        assert(lay.rows.take(k as int) =~= lay.rows);
        assert(layout_ok(k as int, lay));
    }
    for i in 0..n
        invariant
            1 <= k <= MAX_ROW,
            n == sorted.len(),
            n <= MAX_GATES,
            gates_wf(sorted),
            circuit.gates@.len() == n,
            net == netlist(sorted),
            asap == asap_levels(sorted),
            models(inv@, inverse_map(net)),
            circuit.same_frame(old(circuit)),
            circuit.num_inputs == k,
            forall|j: int| 0 <= j < n ==> (#[trigger] sorted[j]).gate_map is None,
            lay == compact_layout(net, asap, k as int, i as int),
            layout_ok(k as int, lay),
            spots_hold_gates(net, lay),
            lay.spots.len() == i,
            mapping.rows() == lay.rows,
            mapping.max_idx == k - 1,
            forall|j: int| 0 <= j < i ==> circuit.gates@[j] == (TableGate {
                gate_map: lay.spots[j],
                ..sorted[j]
            }),
            forall|j: int| i <= j < n ==> circuit.gates@[j] == sorted[j],
            0 <= widest < k,
            lay.rows[widest].len() == max_jdx + 1,
            forall|r: int| 0 <= r < k ==> (#[trigger] lay.rows[r]).len() <= max_jdx + 1,
    {
        assert(sorted[i as int].wf());
        let ghost g = net[i as int];
        let fanin = circuit.gates[i].fanin;
        let out = circuit.gates[i].out;
        let level = circuit.gates[i].asap_level;
        let a = circuit.gates[i].inputs[0];
        let src_a = source_lookup(circuit, &inv, k, a, Ghost(net), Ghost(lay.spots));
        let pa = match src_a {
            Some(id) => id,
            None => CellId { idx: 0, jdx: 0 },
        };
        proof {
            lemma_anchor_ok(net, k as int, lay, g.a);
            lemma_anchor_ok(net, k as int, lay, g.b);
            lemma_step_ok(net, asap, k as int, lay, i as int);
            lemma_step_places(net, asap, k as int, lay, i as int);
            lemma_inverse_map_range(net, g.a);
            assert forall|r: int| 0 <= r < k implies (#[trigger] lay.rows[r]).len() <= 1 + 2 * i by {}
        }
        let spot = if fanin == 1 {
            let r = pa.idx;
            let c = mapping.crossbar[r].len();
            put_cell(&mut mapping, r, make_gate_cell(1, src_a, None, out, r, c, level));
            CellId { idx: r, jdx: c }
        } else {
            let b = circuit.gates[i].inputs[1];
            let src_b = source_lookup(circuit, &inv, k, b, Ghost(net), Ghost(lay.spots));
            let pb = match src_b {
                Some(id) => id,
                None => CellId { idx: 0, jdx: 0 },
            };
            if pa.idx == pb.idx {
                let r = pa.idx;
                let c = mapping.crossbar[r].len();
                put_cell(&mut mapping, r, make_gate_cell(2, Some(pa), Some(pb), out, r, c, level));
                CellId { idx: r, jdx: c }
            } else {
                let r = pb.idx;
                let c = mapping.crossbar[r].len();
                put_cell(&mut mapping, r, make_copy_cell(src_a, a, r, c));
                put_cell(
                    &mut mapping,
                    r,
                    make_gate_cell(2, Some(CellId { idx: r, jdx: c }), Some(pb), out, r, c + 1, level),
                );
                CellId { idx: r, jdx: c + 1 }
            }
        };
        circuit.gates[i].gate_map = Some(spot);
        if spot.jdx > max_jdx {
            max_jdx = spot.jdx;
            proof {
                widest = spot.idx as int;
            }
        }
        proof {
            let next = compact_step(net, asap, k as int, lay, i as int);
            assert(mapping.rows() == next.rows);
            assert(next.spots[i as int] == Some(spot));
            assert forall|j: int| 0 <= j < i + 1 implies circuit.gates@[j] == (TableGate {
                gate_map: next.spots[j],
                ..sorted[j]
            }) by {
                if j < i {
                    assert(next.spots[j] == lay.spots[j]);
                }
            }
            assert forall|r: int| 0 <= r < k implies (#[trigger] next.rows[r]).len() <= max_jdx + 1 by {
                assert(lay.rows[r].len() <= 1 + 2 * i);
            }
            lay = next;
        }
    }
    proof {
        let gates = circuit.gates@;
        assert(netlist(gates) =~= net);
        assert(asap_levels(gates) =~= asap);
        assert(unplaced(gates) =~= sorted);
        assert forall|i: int| 0 <= i < gates.len() implies (#[trigger] gates[i]).wf() by {
            assert(sorted[i].wf());
        }
        assert(gate_views(gates) =~= with_spots(gate_views(sorted), lay.spots));
        if producers_first(net) {
            assert forall|j: int| 0 <= j < net.len() implies 1 <= (#[trigger] net[j]).fanin <= 2 by {
                assert(sorted[j].wf());
            }
            lemma_compact_layout_linked(net, asap, k as int, n as int);
        }
        lemma_widest_row(lay.rows, k as int, max_jdx + 1);
        assert(lay.rows[widest].len() == max_jdx + 1);
    }
    if max_jdx >= MAX_COL {
        // the mapping is not handed out: no gate stays linked to it
        clear_placement(circuit);
        proof {
            assert(circuit.gates@ =~= sorted);
            lemma_unplaced_keeps(sorted);
        }
        return Err(SynthesisError::ResourceExhausted);
    }
    mapping.max_jdx = max_jdx as i32;
    proof {
        assert forall|i: int| 0 <= i < circuit.gates@.len() implies is_cell_of(
            mapping.rows(),
            (#[trigger] circuit.gates@[i]).gate_map,
            circuit.gates@[i].fanin as int,
            circuit.gates@[i].out as int,
        ) by {
            assert(is_cell_of(lay.rows, lay.spots[i], net[i].fanin, net[i].out));
        }
        assert forall|r: int| 0 <= r < mapping.crossbar@.len() implies (#[trigger] mapping.crossbar@[r])@.len()
            <= MAX_COL by {
            assert(mapping.rows()[r] == mapping.crossbar@[r]@);
            assert(lay.rows[r].len() <= max_jdx + 1);
        }
        assert forall|r: int| 0 <= r < lay.rows.len() implies is_high_water(
            #[trigger] lay.rows[r],
            lay.rows[r].len() as int,
        ) by {
            let last = lay.rows[r].len() - 1;
            assert(lay.rows[r][last].at(r, last));
            assert forall|c: int| 0 <= c < lay.rows[r].len() implies (#[trigger] lay.rows[r][c]).jdx < lay.rows[r].len() by {
                assert(lay.rows[r][c].at(r, c));
            }
        }
    }
    Ok(mapping)
}

} // verus!
