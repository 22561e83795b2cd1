use delphi::mapper::{create_compact_mapping, create_naive_mapping};
use delphi::parser::{find_primary_inputs, parse_netlist};
use delphi::scheduler::{compute_alap_schedule, compute_asap_schedule, compute_list_schedule};
use delphi::{CellId, Circuit, CrossbarMapping, MemristiveGate, SynthesisError, MAX_COL, MAX_GATES, MAX_ROW};

fn ready(text: &str) -> Circuit {
    let mut circuit = Circuit::new();
    parse_netlist(text.as_bytes(), &mut circuit).expect("the netlist parses");
    find_primary_inputs(&mut circuit).expect("the inputs are within limits");
    compute_asap_schedule(&mut circuit).expect("acyclic");
    compute_alap_schedule(&mut circuit).expect("acyclic");
    compute_list_schedule(&mut circuit).expect("acyclic");
    circuit
}

fn at(idx: usize, jdx: usize) -> Option<CellId> {
    Some(CellId { idx, jdx })
}

/// What a test looks at in a cell.
fn facts(cell: &MemristiveGate) -> (usize, i32, i32, i32, i32, bool, Option<CellId>, Option<CellId>) {
    (cell.fanin, cell.value, cell.idx, cell.jdx, cell.asap_level, cell.is_copy, cell.inputs[0], cell.inputs[1])
}

#[test]
fn empty_mapping() {
    let mapping = CrossbarMapping::new();
    assert!(mapping.crossbar.is_empty());
    assert_eq!((mapping.max_idx, mapping.max_jdx), (0, 0));
    assert!(mapping.is_well_formed());
    let blank = MemristiveGate::default();
    assert_eq!(facts(&blank), (0, -1, -1, -1, -1, false, None, None));
    assert_eq!((blank.state, blank.list_time), (-1, -1));
}

#[test]
fn naive_mapping_cells() {
    let mut circuit = ready("n1 = x0 + x1\nn2 = !n1\nn3 = n2 + x1\n");
    let mapping = create_naive_mapping(&mut circuit).unwrap();
    assert_eq!((mapping.max_idx, mapping.max_jdx), (0, 4));
    assert_eq!(mapping.crossbar.len(), 1);
    let row = &mapping.crossbar[0];
    assert_eq!(row.len(), 5);
    assert_eq!(facts(&row[0]), (0, 8000, 0, 0, -1, false, None, None));
    assert_eq!(facts(&row[1]), (0, 8001, 0, 1, -1, false, None, None));
    assert_eq!(facts(&row[2]), (2, 1, 0, 2, 1, false, at(0, 0), at(0, 1)));
    assert_eq!(facts(&row[3]), (1, 2, 0, 3, 2, false, at(0, 2), None));
    assert_eq!(facts(&row[4]), (2, 3, 0, 4, 3, false, at(0, 3), at(0, 1)));
    let spots: Vec<Option<CellId>> = circuit.gates.iter().map(|g| g.gate_map).collect();
    assert_eq!(spots, vec![at(0, 2), at(0, 3), at(0, 4)]);
    assert!(mapping.is_well_formed());
}

#[test]
fn naive_mapping_sorts_by_asap_level() {
    let mut circuit = ready("n3 = !n2\nn2 = !n1\nn1 = !x0\n");
    let mapping = create_naive_mapping(&mut circuit).unwrap();
    let order: Vec<i32> = circuit.gates.iter().map(|g| g.out).collect();
    assert_eq!(order, vec![1, 2, 3]);
    let values: Vec<i32> = mapping.crossbar[0].iter().map(|c| c.value).collect();
    assert_eq!(values, vec![8000, 1, 2, 3]);
    assert_eq!(mapping.crossbar[0][3].inputs[0], at(0, 2));
}

#[test]
fn naive_mapping_of_unplaced_operands() {
    // n9 is driven by no gate, x5 is beyond the inputs of the circuit
    let mut circuit = ready("n1 = n9 + x0\n");
    circuit.gates[0].inputs[1] = 8005;
    let mapping = create_naive_mapping(&mut circuit).unwrap();
    assert_eq!(facts(&mapping.crossbar[0][1]), (2, 1, 0, 1, 1, false, None, None));
}

#[test]
fn naive_mapping_without_inputs_and_gates() {
    let mut circuit = Circuit::new();
    let mapping = create_naive_mapping(&mut circuit).unwrap();
    assert_eq!(mapping.crossbar.len(), 1);
    assert!(mapping.crossbar[0].is_empty());
    assert_eq!((mapping.max_idx, mapping.max_jdx), (0, -1));
}

#[test]
fn naive_mapping_without_inputs() {
    let mut circuit = ready("n2 = !n1\nn3 = !n2\n");
    assert_eq!(circuit.num_inputs, 0);
    let mapping = create_naive_mapping(&mut circuit).unwrap();
    assert_eq!((mapping.max_idx, mapping.max_jdx), (0, 1));
    assert_eq!(facts(&mapping.crossbar[0][0]), (1, 2, 0, 0, 1, false, None, None));
    assert_eq!(facts(&mapping.crossbar[0][1]), (1, 3, 0, 1, 2, false, at(0, 0), None));
}

#[test]
fn naive_mapping_beyond_the_columns() {
    let mut text = String::new();
    for i in 1..MAX_COL {
        text.push_str(&format!("n{} = !x0\n", i));
    }
    let mut circuit = ready(&text);
    assert_eq!(circuit.num_inputs + circuit.num_gates, MAX_COL);
    let mapping = create_naive_mapping(&mut circuit).unwrap();
    assert_eq!(mapping.max_jdx, MAX_COL as i32 - 1);
    let mut circuit = ready(&(text + "n1000 = !x0\n"));
    assert_eq!(create_naive_mapping(&mut circuit).err(), Some(SynthesisError::ResourceExhausted));
    assert!(circuit.gates.iter().all(|g| g.gate_map.is_none()));
}

#[test]
fn compact_mapping_cells() {
    let mut circuit = ready("n1 = !x0\nn2 = !x1\nn3 = n1 + n2\nn4 = n3 + x1\nn5 = !n9\n");
    let mapping = create_compact_mapping(&mut circuit).unwrap();
    assert_eq!((mapping.max_idx, mapping.max_jdx), (1, 4));
    assert_eq!(mapping.crossbar.len(), 2);
    let values: Vec<Vec<i32>> = mapping.crossbar.iter().map(|r| r.iter().map(|c| c.value).collect()).collect();
    // gates come by list time, which nothing has set, so in table order:
    // sorted by mobility, n5 (mobility 2) is last
    assert_eq!(values, vec![vec![8000, 1, 5], vec![8001, 2, 1, 3, 4]]);
    let row0 = &mapping.crossbar[0];
    let row1 = &mapping.crossbar[1];
    assert_eq!(facts(&row0[0]), (0, 8000, 0, 0, -1, false, None, None));
    assert_eq!(facts(&row0[1]), (1, 1, 0, 1, 1, false, at(0, 0), None));
    // the operand of n5 is nowhere: n5 goes to row 0 and names no cell
    assert_eq!(facts(&row0[2]), (1, 5, 0, 2, 1, false, None, None));
    assert_eq!(facts(&row1[0]), (0, 8001, 1, 0, -1, false, None, None));
    assert_eq!(facts(&row1[1]), (1, 2, 1, 1, 1, false, at(1, 0), None));
    assert_eq!(facts(&row1[2]), (0, 1, 1, 2, -1, true, at(0, 1), None));
    assert_eq!(facts(&row1[3]), (2, 3, 1, 3, 2, false, at(1, 2), at(1, 1)));
    assert_eq!(facts(&row1[4]), (2, 4, 1, 4, 3, false, at(1, 3), at(1, 0)));
    let mut spots: Vec<(i32, Option<CellId>)> = circuit.gates.iter().map(|g| (g.out, g.gate_map)).collect();
    spots.sort_by_key(|s| s.0);
    assert_eq!(spots, vec![(1, at(0, 1)), (2, at(1, 1)), (3, at(1, 3)), (4, at(1, 4)), (5, at(0, 2))]);
    assert!(mapping.is_well_formed());
}

#[test]
fn compact_mapping_follows_list_time() {
    let mut circuit = ready("n1 = !x0\nn2 = !x0\n");
    circuit.gates[0].list_time = 2;
    circuit.gates[1].list_time = 1;
    let mapping = create_compact_mapping(&mut circuit).unwrap();
    let values: Vec<i32> = mapping.crossbar[0].iter().map(|c| c.value).collect();
    assert_eq!(values, vec![8000, 2, 1]);
}

#[test]
fn compact_copy_of_a_wire_that_nothing_drives() {
    // n9 has no cell: it is taken to sit at row 0, column 0; x1 sits on row 1
    let mut circuit = ready("n1 = n9 + x1\n");
    let mapping = create_compact_mapping(&mut circuit).unwrap();
    // the copy carries the wire, and names no cell, as the wire has none
    let copy = &mapping.crossbar[1][1];
    assert_eq!(facts(copy), (0, 9, 1, 1, -1, true, None, None));
    assert_eq!(facts(&mapping.crossbar[1][2]), (2, 1, 1, 2, 1, false, at(1, 1), at(1, 0)));
}

fn gate_by_hand(fanin: usize, a: i32, b: i32, out: i32, level: i32) -> delphi::TableGate {
    let mut g = delphi::TableGate::default();
    g.fanin = fanin;
    g.inputs[0] = a;
    g.inputs[1] = b;
    g.out = out;
    g.asap_level = level;
    g.list_time = level;
    g
}

fn table_with_a_fresh_wire() -> Circuit {
    let mut circuit = Circuit::new();
    circuit.gates.push(gate_by_hand(2, 8000, 8000, -2, 1));
    circuit.gates.push(gate_by_hand(1, 8001, -1, 2, 1));
    circuit.gates.push(gate_by_hand(2, -2, 2, 3, 2));
    circuit.num_gates = 3;
    circuit.num_inputs = 2;
    circuit.max_asap = 2;
    assert!(circuit.is_well_formed());
    circuit
}

#[test]
fn compact_copy_of_a_fresh_wire() {
    let mut circuit = table_with_a_fresh_wire();
    let mapping = create_compact_mapping(&mut circuit).unwrap();
    assert_eq!((mapping.max_idx, mapping.max_jdx), (1, 3));
    assert_eq!(mapping.crossbar[0].len(), 2);
    assert_eq!(mapping.crossbar[1].len(), 4);
    assert_eq!(facts(&mapping.crossbar[0][1]), (2, -2, 0, 1, 1, false, at(0, 0), at(0, 0)));
    assert_eq!(facts(&mapping.crossbar[1][1]), (1, 2, 1, 1, 1, false, at(1, 0), None));
    // the one copy carries the fresh wire and names the cell that holds it
    assert_eq!(facts(&mapping.crossbar[1][2]), (0, -2, 1, 2, -1, true, at(0, 1), None));
    assert_eq!(facts(&mapping.crossbar[1][3]), (2, 3, 1, 3, 2, false, at(1, 2), at(1, 1)));
    let copies: usize = mapping.crossbar.iter().map(|r| r.iter().filter(|c| c.is_copy).count()).sum();
    assert_eq!(copies, 1);
}

#[test]
fn naive_mapping_links_a_fresh_wire() {
    let mut circuit = table_with_a_fresh_wire();
    let mapping = create_naive_mapping(&mut circuit).unwrap();
    let row = &mapping.crossbar[0];
    assert_eq!(facts(&row[2]), (2, -2, 0, 2, 1, false, at(0, 0), at(0, 0)));
    assert_eq!(facts(&row[3]), (1, 2, 0, 3, 1, false, at(0, 1), None));
    assert_eq!(facts(&row[4]), (2, 3, 0, 4, 2, false, at(0, 2), at(0, 3)));
    // every operand is read from the cell that holds it
    for cell in &row[2..] {
        for s in 0..cell.fanin {
            let from = cell.inputs[s].unwrap();
            let wire = circuit.gates.iter().find(|g| g.out == cell.value).unwrap().inputs[s];
            assert_eq!(row[from.jdx].value, wire);
        }
    }
}

#[test]
fn compact_mapping_links_every_operand_of_an_ordered_table() {
    let mut circuit = ready("n1 = x0 + x1\nn2 = n1 + x2 + x0\nn3 = !n2\nn4 = n3 + n1\n");
    create_naive_mapping(&mut circuit).unwrap();
    let mapping = create_compact_mapping(&mut circuit).unwrap();
    for g in &circuit.gates {
        let spot = g.gate_map.unwrap();
        let cell = &mapping.crossbar[spot.idx][spot.jdx];
        for s in 0..g.fanin {
            let from = cell.inputs[s].unwrap();
            assert_eq!(mapping.crossbar[from.idx][from.jdx].value, g.inputs[s], "gate {}", g.out);
        }
    }
}

#[test]
fn a_mapping_that_fails_leaves_no_gate_placed() {
    let mut text = String::from("n1 = !x0\n");
    for i in 2..=MAX_COL {
        text.push_str(&format!("n{} = !n{}\n", i, i - 1));
    }
    let mut circuit = ready(&text);
    circuit.num_inputs = 1;
    assert_eq!(create_compact_mapping(&mut circuit).err(), Some(SynthesisError::ResourceExhausted));
    assert!(circuit.gates.iter().all(|g| g.gate_map.is_none()));
}

#[test]
fn compact_mapping_without_inputs_is_empty() {
    let mut circuit = ready("n2 = !n1\n");
    let mapping = create_compact_mapping(&mut circuit).unwrap();
    assert!(mapping.crossbar.is_empty());
    assert_eq!((mapping.max_idx, mapping.max_jdx), (0, 0));
    assert!(circuit.gates[0].gate_map.is_none());
}

#[test]
fn compact_mapping_beyond_the_rows() {
    let mut circuit = ready(&format!("n1 = !x{}\n", MAX_ROW - 1));
    assert_eq!(circuit.num_inputs, MAX_ROW);
    let mapping = create_compact_mapping(&mut circuit).unwrap();
    assert_eq!(mapping.max_idx, MAX_ROW as i32 - 1);
    assert_eq!(mapping.crossbar[MAX_ROW - 1].len(), 2);
    let mut circuit = ready(&format!("n1 = !x{}\n", MAX_ROW));
    assert_eq!(create_compact_mapping(&mut circuit).err(), Some(SynthesisError::ResourceExhausted));
}

#[test]
fn compact_mapping_beyond_the_columns() {
    // a chain of NOTs stays on the row of its input
    let mut text = String::from("n1 = !x0\n");
    for i in 2..MAX_COL {
        text.push_str(&format!("n{} = !n{}\n", i, i - 1));
    }
    let mut circuit = ready(&text);
    let mapping = create_compact_mapping(&mut circuit).unwrap();
    assert_eq!(mapping.crossbar[0].len(), MAX_COL);
    assert_eq!(mapping.max_jdx, MAX_COL as i32 - 1);
    let mut circuit = ready(&(text + "n1000 = !n999\n"));
    assert_eq!(create_compact_mapping(&mut circuit).err(), Some(SynthesisError::ResourceExhausted));
}

#[test]
fn the_mappers_reset_earlier_placements() {
    let mut circuit = ready("n1 = x0 + x1\n");
    create_naive_mapping(&mut circuit).unwrap();
    assert_eq!(circuit.gates[0].gate_map, at(0, 2));
    create_compact_mapping(&mut circuit).unwrap();
    assert_eq!(circuit.gates[0].gate_map, at(1, 2));
}

#[test]
fn a_mapping_with_a_stray_reference_is_not_well_formed() {
    let mut circuit = ready("n1 = x0 + x1\n");
    let mut mapping = create_naive_mapping(&mut circuit).unwrap();
    assert!(mapping.is_well_formed());
    assert!(mapping.holds(CellId { idx: 0, jdx: 2 }));
    assert!(!mapping.holds(CellId { idx: 0, jdx: 3 }));
    assert!(!mapping.holds(CellId { idx: 1, jdx: 0 }));
    mapping.crossbar[0][2].inputs[1] = at(0, 3);
    assert!(!mapping.is_well_formed());
    mapping.crossbar[0][2].inputs[1] = at(0, 1);
    mapping.crossbar[0][1].jdx = 5;
    assert!(!mapping.is_well_formed());
    mapping.crossbar[0][1].jdx = 1;
    mapping.max_jdx = MAX_COL as i32;
    assert!(!mapping.is_well_formed());
    mapping.max_jdx = 2;
    // a copy may not copy a copy
    mapping.crossbar[0][2].is_copy = true;
    assert!(mapping.is_well_formed());
    mapping.crossbar[0][0].is_copy = true;
    assert!(!mapping.is_well_formed());
    assert_eq!(MAX_GATES, 8000);
}
