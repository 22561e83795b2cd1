//! Placement of a scheduled table of gates on the crossbar: the naive variant
//! puts everything on row 0, the compact variant gives every primary input a
//! row and places each gate on the row of an operand.
pub mod compact;
pub mod layout;
pub mod naive;

pub use crate::mapper::compact::create_compact_mapping;
pub use crate::mapper::naive::create_naive_mapping;

use vstd::prelude::*;
use std::collections::HashMap;
use crate::circuit::{Circuit, CircuitView, gate_views, gates_wf, GateView, netlist, Node, TableGate};
use crate::crossbar::{CellId, in_grid, MemristiveGate};
use crate::limits::{MAX_COL, MAX_GATES, MAX_ROW};
use crate::sorting::{is_stable_sort, sorted_views, SortKey};

verus! {

/// The ASAP levels of a table of gates, gate by gate.
pub open spec fn asap_levels(gates: Seq<TableGate>) -> Seq<int> {
    Seq::new(gates.len(), |i: int| gates[i].asap_level as int)
}

/// The table of gates with every placement back-reference cleared.
pub open spec fn unplaced(gates: Seq<TableGate>) -> Seq<TableGate> {
    Seq::new(gates.len(), |i: int| TableGate { gate_map: None, ..gates[i] })
}

/// The inverse map from a driven wire to the index of whichever gate drives
/// it; where several gates drive one wire, the last of them.
pub open spec fn inverse_map(net: Seq<Node>) -> Map<int, int>
    decreases net.len(),
{
    if net.len() == 0 {
        Map::empty()
    } else {
        inverse_map(net.drop_last()).insert(net.last().out, net.len() - 1)
    }
}

/// Whether the hash map `m` holds exactly the entries of `inv`.
pub open spec fn models(m: Map<i32, usize>, inv: Map<int, int>) -> bool {
    forall|w: i32| #![trigger m.contains_key(w)] #![trigger inv.contains_key(w as int)]
        m.contains_key(w) == inv.contains_key(w as int) && (m.contains_key(w) ==> m[w] == inv[w as int])
}

/// The cell of primary input `n`, held at row `r`, column `c`.
pub open spec fn input_cell(r: int, c: int, n: int) -> MemristiveGate {
    MemristiveGate {
        fanin: 0,
        inputs: [None, None],
        value: (MAX_GATES + n) as i32,
        idx: r as i32,
        jdx: c as i32,
        state: -1i32,
        asap_level: -1i32,
        list_time: -1i32,
        is_copy: false,
    }
}

/// The cell of a gate with `fanin` operands that drives wire `value`.
pub open spec fn gate_cell(
    fanin: int,
    in0: Option<CellId>,
    in1: Option<CellId>,
    value: int,
    r: int,
    c: int,
    asap: int,
) -> MemristiveGate {
    MemristiveGate {
        fanin: fanin as usize,
        inputs: [in0, in1],
        value: value as i32,
        idx: r as i32,
        jdx: c as i32,
        state: -1i32,
        asap_level: asap as i32,
        list_time: -1i32,
        is_copy: false,
    }
}

/// The cell that replicates the cell `src`, which holds wire `value`.
pub open spec fn copy_cell(src: Option<CellId>, value: int, r: int, c: int) -> MemristiveGate {
    MemristiveGate {
        fanin: 0,
        inputs: [src, None],
        value: value as i32,
        idx: r as i32,
        jdx: c as i32,
        state: -1i32,
        asap_level: -1i32,
        list_time: -1i32,
        is_copy: true,
    }
}

/// The inverse map sends a wire to the index of a gate of the table, and
/// that gate drives the wire.
pub(crate) proof fn lemma_inverse_map_range(net: Seq<Node>, w: int)
    ensures
        inverse_map(net).contains_key(w) ==> 0 <= inverse_map(net)[w] < net.len() && net[inverse_map(net)[w]].out
            == w,
    decreases net.len(),
{
    if net.len() > 0 {
        lemma_inverse_map_range(net.drop_last(), w);
        if inverse_map(net.drop_last()).contains_key(w) && net.last().out != w {
            assert(net.drop_last()[inverse_map(net.drop_last())[w]] == net[inverse_map(net.drop_last())[w]]);
        }
    }
}

/// Makes the cell of primary input `n`.
pub(crate) fn make_input_cell(r: usize, c: usize, n: usize) -> (cell: MemristiveGate)
    requires
        r <= MAX_ROW,
        c <= MAX_COL,
        n <= MAX_COL,
    ensures
        cell == input_cell(r as int, c as int, n as int),
{
    MemristiveGate {
        fanin: 0,
        inputs: [None, None],
        value: (MAX_GATES + n) as i32,
        idx: r as i32,
        jdx: c as i32,
        state: -1,
        asap_level: -1,
        list_time: -1,
        is_copy: false,
    }
}

/// Makes the cell of a gate.
pub(crate) fn make_gate_cell(
    fanin: usize,
    in0: Option<CellId>,
    in1: Option<CellId>,
    value: i32,
    r: usize,
    c: usize,
    asap: i32,
) -> (cell: MemristiveGate)
    requires
        r <= MAX_ROW,
        c <= 3 * MAX_GATES,
    ensures
        cell == gate_cell(fanin as int, in0, in1, value as int, r as int, c as int, asap as int),
{
    MemristiveGate {
        fanin,
        inputs: [in0, in1],
        value,
        idx: r as i32,
        jdx: c as i32,
        state: -1,
        asap_level: asap,
        list_time: -1,
        is_copy: false,
    }
}

/// Makes the cell that replicates the cell `src`.
pub(crate) fn make_copy_cell(src: Option<CellId>, value: i32, r: usize, c: usize) -> (cell: MemristiveGate)
    requires
        r <= MAX_ROW,
        c <= 3 * MAX_GATES,
    ensures
        cell == copy_cell(src, value as int, r as int, c as int),
{
    MemristiveGate {
        fanin: 0,
        inputs: [src, None],
        value,
        idx: r as i32,
        jdx: c as i32,
        state: -1,
        asap_level: -1,
        list_time: -1,
        is_copy: true,
    }
}

/// Builds the inverse map of the table of gates.
pub(crate) fn build_inverse_map(gates: &Vec<TableGate>) -> (m: HashMap<i32, usize>)
    ensures
        models(m@, inverse_map(netlist(gates@))),
{
    let mut m: HashMap<i32, usize> = HashMap::new();
    let n = gates.len();
    let ghost net = netlist(gates@);
    for i in 0..n
        invariant
            n == gates@.len(),
            net == netlist(gates@),
            models(m@, inverse_map(net.take(i as int))),
    {
        proof {
            assert(net.take(i + 1).drop_last() =~= net.take(i as int));
        }
        m.insert(gates[i].out, i);
    }
    proof {
        assert(net.take(n as int) =~= net);
    }
    m
}

/// Looks wire `w` up in the inverse map.
pub(crate) fn driver_of(inv: &HashMap<i32, usize>, w: i32) -> (r: Option<usize>)
    ensures
        r == (if inv@.contains_key(w) {
            Some(inv@[w])
        } else {
            None
        }),
{
    match inv.get(&w) {
        Some(p) => Some(*p),
        None => None,
    }
}

/// Clears the placement back-reference of every gate.
pub(crate) fn clear_placement(circuit: &mut Circuit)
    ensures
        final(circuit).gates@ == unplaced(old(circuit).gates@),
        final(circuit).same_frame(old(circuit)),
{
    let n = circuit.gates.len();
    for i in 0..n
        invariant
            n == circuit.gates@.len(),
            n == old(circuit).gates@.len(),
            circuit.same_frame(old(circuit)),
            forall|j: int| 0 <= j < i ==> circuit.gates@[j] == unplaced(old(circuit).gates@)[j],
            forall|j: int| i <= j < n ==> circuit.gates@[j] == old(circuit).gates@[j],
    {
        circuit.gates[i].gate_map = None;
    }
    proof {
        assert(circuit.gates@ =~= unplaced(old(circuit).gates@));
    }
}

/// The ASAP levels of gates given as numbers, gate by gate.
pub open spec fn view_asap(gates: Seq<GateView>) -> Seq<int> {
    Seq::new(gates.len(), |i: int| gates[i].asap_level)
}

/// Gates given as numbers with every placement back-reference cleared.
pub open spec fn unplaced_views(gates: Seq<GateView>) -> Seq<GateView> {
    Seq::new(gates.len(), |i: int| GateView { gate_map: None, ..gates[i] })
}

/// Gates given as numbers, each linked to the cell that `spots` gives it.
pub open spec fn with_spots(gates: Seq<GateView>, spots: Seq<Option<CellId>>) -> Seq<GateView> {
    Seq::new(gates.len(), |i: int| GateView { gate_map: spots[i], ..gates[i] })
}

/// The gates of a circuit as a mapper orders them before it places them:
/// unplaced, in the stable order of their keys.
pub open spec fn mapper_sorted(v: CircuitView, key: SortKey) -> Seq<GateView> {
    sorted_views(unplaced_views(v.gates), key)
}

/// Clearing the placement of the gates clears it in the gates as numbers.
pub(crate) proof fn lemma_views_of_unplaced(gates: Seq<TableGate>)
    ensures
        gate_views(unplaced(gates)) == unplaced_views(gate_views(gates)),
{
    assert(gate_views(unplaced(gates)) =~= unplaced_views(gate_views(gates)));
}

/// Resetting the placement does not touch what sorting, wiring and
/// well-formedness look at.
pub(crate) proof fn lemma_unplaced_keeps(gates: Seq<TableGate>)
    ensures
        netlist(unplaced(gates)) == netlist(gates),
        asap_levels(unplaced(gates)) == asap_levels(gates),
        gates_wf(gates) ==> gates_wf(unplaced(gates)),
        unplaced(unplaced(gates)) == unplaced(gates),
{
    assert(netlist(unplaced(gates)) =~= netlist(gates));
    assert(asap_levels(unplaced(gates)) =~= asap_levels(gates));
    assert(unplaced(unplaced(gates)) =~= unplaced(gates));
    assert forall|i: int| 0 <= i < gates.len() && gates_wf(gates) implies (#[trigger] unplaced(
        gates,
    )[i]).wf() by {
        assert(gates[i].wf());
    }
}

/// Sorting keeps every gate well formed.
pub(crate) proof fn lemma_sort_keeps_wf(input: Seq<TableGate>, output: Seq<TableGate>, key: SortKey)
    requires
        is_stable_sort(input, output, key),
        gates_wf(input),
    ensures
        gates_wf(output),
{
    crate::sorting::lemma_stable_sort_same_gates(input, output, key);
    assert forall|i: int| 0 <= i < output.len() implies (#[trigger] output[i]).wf() by {
        assert(input.contains(output[i]));
        let j = choose|j: int| 0 <= j < input.len() && input[j] == output[i];
        assert(input[j].wf());
    }
}

/// Whether the cell at `spot` is the cell of a gate with `fanin` operands
/// that drives wire `out`: it holds that wire, has that many operands, and
/// is no copy.
pub open spec fn is_cell_of(rows: Seq<Seq<MemristiveGate>>, spot: Option<CellId>, fanin: int, out: int) -> bool {
    match spot {
        Some(id) => {
            &&& in_grid(rows, id)
            &&& rows[id.idx as int][id.jdx as int].value == out
            &&& rows[id.idx as int][id.jdx as int].fanin == fanin
            &&& !rows[id.idx as int][id.jdx as int].is_copy
        },
        None => false,
    }
}

/// Whether every gate that is linked to a cell is linked to its own cell.
pub open spec fn gates_placed(rows: Seq<Seq<MemristiveGate>>, gates: Seq<TableGate>) -> bool {
    forall|i: int|
        0 <= i < gates.len() ==> is_cell_of(rows, (#[trigger] gates[i]).gate_map, gates[i].fanin as int, gates[i].out as int)
}

} // verus!
