//! The naive mapping: the primary inputs and the gates side by side on one row.
use vstd::prelude::*;
use std::collections::HashMap;
use crate::circuit::{
    Circuit, CircuitView, gate_views, gates_wf, lemma_nodes_of_views, netlist, Node, nodes, TableGate,
};
use crate::crossbar::{
    CellId, cells_in_place, copies_grounded, CrossbarMapping, in_grid, MappingView, MemristiveGate,
    refs_in_grid,
};
use crate::error::SynthesisError;
use crate::limits::{MAX_COL, MAX_GATES};
use crate::mapper::{
    asap_levels, build_inverse_map, clear_placement, driver_of, gate_cell, gates_placed, input_cell,
    inverse_map, is_cell_of, lemma_inverse_map_range, lemma_sort_keeps_wf, lemma_unplaced_keeps,
    lemma_views_of_unplaced, make_gate_cell, make_input_cell, mapper_sorted, models, unplaced, view_asap,
    with_spots,
};
use crate::mapper::layout::{
    driven_before, has_producer, hold_different_wires, is_linked, producers_first, reads_wire, wires_distinct,
    wires_in_range,
};
use crate::sorting::{is_stable_sort, lemma_sort_of_views, sort_gates, SortKey};

verus! {

/// In the naive mapping, the cell that gate `i` reads operand wire `w` from:
/// a primary input's cell, or the cell of whichever gate drives `w`, whatever
/// the id of `w`, if that gate is placed by the time gate `i` is; none for a
/// wire that nothing places.
pub open spec fn naive_source(net: Seq<Node>, k: int, i: int, w: int) -> Option<CellId> {
    if w >= MAX_GATES {
        if w - MAX_GATES < k {
            Some(CellId { idx: 0, jdx: (w - MAX_GATES) as usize })
        } else {
            None
        }
    } else if inverse_map(net).contains_key(w) && inverse_map(net)[w] <= i {
        Some(CellId { idx: 0, jdx: (k + inverse_map(net)[w]) as usize })
    } else {
        None
    }
}

/// Column `j` of the naive mapping's only row: the `k` primary inputs first,
/// then the gates in table order.
pub open spec fn naive_cell(net: Seq<Node>, asap: Seq<int>, k: int, j: int) -> MemristiveGate {
    if j < k {
        input_cell(0, j, j)
    } else {
        let i = j - k;
        let g = net[i];
        gate_cell(
            g.fanin,
            naive_source(net, k, i, g.a),
            if g.fanin > 1 {
                naive_source(net, k, i, g.b)
            } else {
                None
            },
            g.out,
            0,
            j,
            asap[i],
        )
    }
}

/// The naive mapping's only row.
pub open spec fn naive_row(net: Seq<Node>, asap: Seq<int>, k: int) -> Seq<MemristiveGate> {
    Seq::new((k + net.len()) as nat, |j: int| naive_cell(net, asap, k, j))
}

/// What the naive mapper makes of a circuit: the gates in the stable order
/// of their ASAP levels, and the mapping of one row that holds the primary
/// inputs and then the gates in that order; `ResourceExhausted` where they
/// need more than `MAX_COL` columns.
pub open spec fn naive_view(v: CircuitView) -> Result<(CircuitView, MappingView), SynthesisError> {
    let sorted = mapper_sorted(v, SortKey::AsapLevel);
    if v.num_inputs + v.gates.len() > MAX_COL {
        Err(SynthesisError::ResourceExhausted)
    } else {
        Ok(
            (
                CircuitView {
                    gates: with_spots(
                        sorted,
                        Seq::new(sorted.len(), |i: int| Some(CellId { idx: 0, jdx: (v.num_inputs + i) as usize })),
                    ),
                    ..v
                },
                MappingView {
                    rows: seq![naive_row(nodes(sorted), view_asap(sorted), v.num_inputs)],
                    max_idx: 0,
                    max_jdx: v.num_inputs + v.gates.len() - 1,
                },
            ),
        )
    }
}

/// In the naive mapping, the cell from which gate `i` reads wire `w`.
fn naive_lookup(
    inv: &HashMap<i32, usize>,
    k: usize,
    i: usize,
    w: i32,
    Ghost(net): Ghost<Seq<Node>>,
) -> (r: Option<CellId>)
    requires
        models(inv@, inverse_map(net)),
        k + net.len() <= MAX_COL,
    ensures
        r == naive_source(net, k as int, i as int, w as int),
{
    proof {
        lemma_inverse_map_range(net, w as int);
    }
    if w >= MAX_GATES as i32 {
        let n = (w - MAX_GATES as i32) as usize;
        if n < k {
            Some(CellId { idx: 0, jdx: n })
        } else {
            None
        }
    } else {
        match driver_of(inv, w) {
            Some(p) => if p <= i {
                Some(CellId { idx: 0, jdx: k + p })
            } else {
                None
            },
            None => None,
        }
    }
}

/// Places the circuit on a single crossbar row.
///
/// The table of gates is first sorted by ASAP level (gates of one level keep
/// their order) and its placement back-references are cleared. Row 0 then
/// holds the primary inputs in columns `0..num_inputs` and the gates, in
/// table order, in the columns after them; every gate is linked to its cell.
/// A gate reads an operand from the cell of the primary input or of its
/// driving gate, where that gate is placed by then: in a table that lists
/// every gate after the gates that drive its operands, as a table sorted by
/// its ASAP schedule does where every wire has one driver, each operand that
/// has a cell is read from it.
/// A circuit whose inputs and gates together need more than `MAX_COL`
/// columns is refused with `ResourceExhausted`, its gates sorted and
/// unplaced.
pub fn create_naive_mapping(circuit: &mut Circuit) -> (res: Result<CrossbarMapping, SynthesisError>)
    requires
        old(circuit).wf(),
    ensures
        final(circuit).wf(),
        final(circuit).same_frame(old(circuit)),
        is_stable_sort(
            unplaced(old(circuit).gates@),
            unplaced(final(circuit).gates@),
            SortKey::AsapLevel,
        ),
        res is Ok <==> old(circuit).num_inputs + old(circuit).gates@.len() <= MAX_COL,
        match naive_view(old(circuit)@) {
            Ok((v, m)) => res matches Ok(mapping) && final(circuit)@ == v && mapping@ == m,
            Err(e) => {
                &&& res matches Err(x) && x == e
                &&& final(circuit)@ == CircuitView {
                    gates: mapper_sorted(old(circuit)@, SortKey::AsapLevel),
                    ..old(circuit)@
                }
            },
        },
        match res {
            Ok(m) => {
                let k = old(circuit).num_inputs as int;
                let gates = final(circuit).gates@;
                &&& m.rows() == seq![naive_row(netlist(gates), asap_levels(gates), k)]
                &&& m.max_idx == 0
                &&& m.max_jdx == k + gates.len() - 1
                &&& forall|i: int|
                    0 <= i < gates.len() ==> (#[trigger] gates[i]).gate_map == Some(
                        CellId { idx: 0, jdx: (k + i) as usize },
                    )
                &&& gates_placed(m.rows(), gates)
                &&& producers_first(netlist(gates)) ==> forall|i: int|
                    0 <= i < gates.len() ==> is_linked(
                        netlist(gates),
                        k,
                        m.rows(),
                        (#[trigger] gates[i]).gate_map,
                        netlist(gates)[i],
                    )
                &&& m.wf()
            },
            Err(e) => {
                &&& e == SynthesisError::ResourceExhausted
                &&& final(circuit).gates@ == unplaced(final(circuit).gates@)
            },
        },
{
    clear_placement(circuit);
    let ghost cleared = circuit.gates@;
    sort_gates(&mut circuit.gates, SortKey::AsapLevel);
    let ghost sorted = circuit.gates@;
    let ghost net = netlist(sorted);
    let ghost asap = asap_levels(sorted);
    proof {
        lemma_views_of_unplaced(old(circuit).gates@);
        lemma_sort_of_views(cleared, sorted, SortKey::AsapLevel);
        lemma_nodes_of_views(sorted);
        assert(view_asap(gate_views(sorted)) =~= asap);
        lemma_unplaced_keeps(old(circuit).gates@);
        lemma_sort_keeps_wf(cleared, sorted, SortKey::AsapLevel);
        crate::sorting::lemma_stable_sort_same_gates(cleared, sorted, SortKey::AsapLevel);
        assert forall|i: int| 0 <= i < sorted.len() implies (#[trigger] sorted[i]).gate_map is None by {
            let j = choose|j: int| 0 <= j < cleared.len() && cleared[j] == sorted[i];
        }
        assert(unplaced(sorted) =~= sorted);
    }
    let k = circuit.num_inputs;
    let n = circuit.gates.len();
    if k + n > MAX_COL {
        return Err(SynthesisError::ResourceExhausted);
    }
    let inv = build_inverse_map(&circuit.gates);
    let mut row: Vec<MemristiveGate> = Vec::new();
    for j in 0..k
        invariant
            k + n <= MAX_COL,
            row@ == naive_row(net, asap, k as int).take(j as int),
    {
        row.push(make_input_cell(0, j, j));
        proof {
            assert(row@ =~= naive_row(net, asap, k as int).take(j + 1));
        }
    }
    for i in 0..n
        invariant
            k + n <= MAX_COL,
            n == sorted.len(),
            gates_wf(sorted),
            circuit.gates@.len() == n,
            net == netlist(sorted),
            asap == asap_levels(sorted),
            models(inv@, inverse_map(net)),
            circuit.same_frame(old(circuit)),
            circuit.num_inputs == k,
            row@ == naive_row(net, asap, k as int).take(k + i),
            forall|j: int| 0 <= j < i ==> circuit.gates@[j] == (TableGate {
                gate_map: Some(CellId { idx: 0, jdx: (k + j) as usize }),
                ..sorted[j]
            }),
            forall|j: int| i <= j < n ==> circuit.gates@[j] == sorted[j],
    {
        assert(sorted[i as int].wf());
        let fanin = circuit.gates[i].fanin;
        let a = circuit.gates[i].inputs[0];
        let in0 = naive_lookup(&inv, k, i, a, Ghost(net));
        let in1 = if fanin > 1 {
            let b = circuit.gates[i].inputs[1];
            naive_lookup(&inv, k, i, b, Ghost(net))
        } else {
            None
        };
        let cell = make_gate_cell(fanin, in0, in1, circuit.gates[i].out, 0, k + i, circuit.gates[i].asap_level);
        row.push(cell);
        circuit.gates[i].gate_map = Some(CellId { idx: 0, jdx: k + i });
        proof {
            assert(cell == naive_cell(net, asap, k as int, k + i));
            assert(row@ =~= naive_row(net, asap, k as int).take(k + i + 1));
        }
    }
    let mut crossbar: Vec<Vec<MemristiveGate>> = Vec::new();
    crossbar.push(row);
    let m = CrossbarMapping { crossbar, max_idx: 0, max_jdx: (k + n) as i32 - 1 };
    proof {
        let gates = circuit.gates@;
        let full = naive_row(net, asap, k as int);
        assert(full.take(k + n) =~= full);
        assert(netlist(gates) =~= net);
        assert(asap_levels(gates) =~= asap);
        assert(unplaced(gates) =~= sorted);
        assert(gate_views(gates) =~= with_spots(
            gate_views(sorted),
            Seq::new(sorted.len(), |i: int| Some(CellId { idx: 0, jdx: (k + i) as usize })),
        ));
        assert(m.rows() =~= seq![full]);
        assert forall|i: int| 0 <= i < gates.len() implies (#[trigger] gates[i]).wf() by {
            assert(sorted[i].wf());
        }
        assert forall|w: int| inverse_map(net).contains_key(w) implies 0 <= inverse_map(net)[w]
            < net.len() by {
            lemma_inverse_map_range(net, w);
        }
        assert(cells_in_place(m.rows()));
        assert(refs_in_grid(m.rows()));
        assert(copies_grounded(m.rows()));
        if producers_first(net) {
            assert forall|i: int| 0 <= i < gates.len() implies is_linked(
                net,
                k as int,
                m.rows(),
                (#[trigger] gates[i]).gate_map,
                net[i],
            ) by {
                assert(sorted[i].wf());
                lemma_naive_linked(net, asap, k as int, i);
            }
        }
        assert forall|i: int| 0 <= i < gates.len() implies is_cell_of(
            m.rows(),
            (#[trigger] gates[i]).gate_map,
            gates[i].fanin as int,
            gates[i].out as int,
        ) by {
            assert(sorted[i].wf());
            assert(m.rows()[0][k + i] == naive_cell(net, asap, k as int, k + i));
        }
    }
    Ok(m)
}

/// No two cells share a wire: where the gates drive wires of their own, two
/// cells of the naive mapping hold different wires.
pub proof fn lemma_naive_wires_distinct(net: Seq<Node>, asap: Seq<int>, k: int, a: CellId, b: CellId)
    requires
        0 <= k <= MAX_COL,
        forall|j: int| 0 <= j < net.len() ==> i32::MIN <= (#[trigger] net[j]).out <= i32::MAX,
        wires_distinct(net, k),
    ensures
        hold_different_wires(seq![naive_row(net, asap, k)], a, b),
{
    let rows = seq![naive_row(net, asap, k)];
    if in_grid(rows, a) && in_grid(rows, b) && a != b {
        let ja = a.jdx as int;
        let jb = b.jdx as int;
        assert(rows[0][ja] == naive_cell(net, asap, k, ja));
        assert(rows[0][jb] == naive_cell(net, asap, k, jb));
        if ja >= k && jb >= k {
            if ja < jb {
                assert(net[ja - k].out != net[jb - k].out);
            } else {
                assert(net[jb - k].out != net[ja - k].out);
            }
        }
    }
}

/// In the naive mapping of a table that lists producers first, each gate
/// reads its operands from the cells that hold them: the cell of the primary
/// input or the cell of the driving gate.
pub proof fn lemma_naive_linked(net: Seq<Node>, asap: Seq<int>, k: int, i: int)
    requires
        0 <= k,
        k + net.len() <= MAX_COL,
        0 <= i < net.len(),
        1 <= net[i].fanin <= 2,
        wires_in_range(net),
        producers_first(net),
    ensures
        is_linked(
            net,
            k,
            seq![naive_row(net, asap, k)],
            Some(CellId { idx: 0, jdx: (k + i) as usize }),
            net[i],
        ),
{
    let rows = seq![naive_row(net, asap, k)];
    let g = net[i];
    let cell = rows[0][k + i];
    assert(cell == naive_cell(net, asap, k, k + i));
    assert(driven_before(net, i, g.a) && driven_before(net, i, g.b));
    lemma_inverse_map_range(net, g.a);
    lemma_inverse_map_range(net, g.b);
    if has_producer(net, k, g.a) {
        let src = naive_source(net, k, i, g.a)->0;
        assert(rows[0][src.jdx as int] == naive_cell(net, asap, k, src.jdx as int));
        assert(reads_wire(rows, cell, 0, g.a));
    }
    if g.fanin == 2 && has_producer(net, k, g.b) {
        let src = naive_source(net, k, i, g.b)->0;
        assert(rows[0][src.jdx as int] == naive_cell(net, asap, k, src.jdx as int));
        assert(reads_wire(rows, cell, 1, g.b));
    }
}

} // verus!
