use delphi::mapper::{create_compact_mapping, create_naive_mapping};
use delphi::parser::{find_primary_inputs, parse_netlist};
use delphi::scheduler::{compute_alap_schedule, compute_asap_schedule, compute_list_schedule};
use delphi::{Circuit, CrossbarMapping, ParseError, SynthesisError, MAX_GATES};

fn parsed(text: &str) -> Circuit {
    let mut circuit = Circuit::new();
    parse_netlist(text.as_bytes(), &mut circuit).expect("the netlist parses");
    find_primary_inputs(&mut circuit).expect("the inputs are within limits");
    circuit
}

fn scheduled(text: &str) -> Circuit {
    let mut circuit = parsed(text);
    compute_asap_schedule(&mut circuit).expect("acyclic");
    compute_alap_schedule(&mut circuit).expect("acyclic");
    compute_list_schedule(&mut circuit).expect("acyclic");
    circuit
}

fn copies_on(mapping: &CrossbarMapping) -> usize {
    mapping.crossbar.iter().map(|row| row.iter().filter(|cell| cell.is_copy).count()).sum()
}

#[test]
fn single_not_of_a_dangling_wire() {
    let circuit = parsed("n2 = !n1\n");
    assert_eq!(circuit.num_gates, 1);
    assert_eq!(circuit.gates.len(), 1);
    assert_eq!(circuit.gates[0].fanin, 1);
    assert_eq!(circuit.gates[0].inputs[0], 1);
    assert_eq!(circuit.gates[0].out, 2);
    // no primary input is read: the dangling wire n1 is not counted as one
    assert_eq!(circuit.num_inputs, 0);
    assert_eq!(circuit.primary_inputs.len(), 0);
}

#[test]
fn single_not_of_a_dangling_wire_is_scheduled_from_level_zero() {
    let circuit = scheduled("n2 = !n1\n");
    assert_eq!(circuit.gates[0].asap_level, 1);
    assert_eq!(circuit.gates[0].alap_level, 1);
    assert_eq!(circuit.gates[0].list_level, 1);
    assert_eq!(circuit.max_asap, 1);
}

#[test]
fn single_not_of_a_primary_input() {
    let circuit = parsed("n2 = !x0\n");
    assert_eq!(circuit.num_gates, 1);
    assert_eq!(circuit.num_inputs, 1);
    assert_eq!(circuit.primary_inputs, vec![MAX_GATES as i32]);
}

#[test]
fn single_nor() {
    let mut circuit = scheduled("n3 = x1 + x2\n");
    assert_eq!(circuit.num_gates, 1);
    assert_eq!(circuit.gates[0].fanin, 2);
    assert_eq!(circuit.gates[0].inputs[0], MAX_GATES as i32 + 1);
    assert_eq!(circuit.gates[0].inputs[1], MAX_GATES as i32 + 2);
    assert_eq!(circuit.gates[0].out, 3);
    assert_eq!(circuit.max_asap, 1);
    // inputs are numbered from 0: reading x1 and x2 makes three of them, x0 unread
    assert_eq!(circuit.num_inputs, 3);
    assert_eq!(circuit.primary_inputs, vec![0, MAX_GATES as i32 + 1, MAX_GATES as i32 + 2]);
    let mapping = create_naive_mapping(&mut circuit).expect("fits");
    assert_eq!(mapping.crossbar.len(), 1);
    assert_eq!(mapping.crossbar[0].len(), 4);
    assert_eq!(mapping.max_idx, 0);
    assert_eq!(mapping.max_jdx, 3);
}

#[test]
fn single_nor_of_the_first_two_inputs() {
    let mut circuit = scheduled("n3 = x0 + x1\n");
    assert_eq!(circuit.num_inputs, 2);
    assert_eq!(circuit.max_asap, 1);
    let mapping = create_naive_mapping(&mut circuit).expect("fits");
    assert_eq!(mapping.crossbar.len(), 1);
    assert_eq!(mapping.crossbar[0].len(), 3);
    assert_eq!(mapping.max_idx, 0);
    assert_eq!(mapping.max_jdx, 2);
}

#[test]
fn cascade_of_three() {
    let mut circuit = scheduled("n4 = x1+x2\nn5 = x3+x4\nn6 = n4+n5\n");
    assert_eq!(circuit.num_gates, 3);
    assert!(circuit.gates.iter().all(|g| g.fanin == 2));
    assert_eq!(circuit.max_asap, 2);
    assert_eq!(circuit.max_alap, 2);
    assert_eq!(circuit.max_list, 2);
    let mapping = create_compact_mapping(&mut circuit).expect("fits");
    // one row for each of x0..x4, of which x0 is unread
    assert_eq!(mapping.max_idx, 4);
    assert_eq!(mapping.crossbar.len(), 5);
}

#[test]
fn cascade_of_three_from_input_zero() {
    let mut circuit = scheduled("n4 = x0+x1\nn5 = x2+x3\nn6 = n4+n5\n");
    assert_eq!(circuit.max_asap, 2);
    let mapping = create_compact_mapping(&mut circuit).expect("fits");
    assert_eq!(mapping.max_idx, 3);
    // n4 sits on the row of x1, n5 on the row of x3, n6 beside n5
    let n6 = circuit.gates.iter().find(|g| g.out == 6).unwrap().gate_map.unwrap();
    assert_eq!(n6.idx, 3);
}

#[test]
fn three_input_decomposition() {
    let circuit = parsed("n2 = x1+x2+x3\n");
    assert_eq!(circuit.num_gates, 2);
    assert_eq!(circuit.gates[0].fanin, 2);
    assert_eq!(circuit.gates[0].out, -1);
    assert_eq!(circuit.gates[0].inputs[0], MAX_GATES as i32 + 2);
    assert_eq!(circuit.gates[0].inputs[1], MAX_GATES as i32 + 3);
    assert_eq!(circuit.gates[1].fanin, 2);
    assert_eq!(circuit.gates[1].out, 2);
    assert_eq!(circuit.gates[1].inputs[0], MAX_GATES as i32 + 1);
    assert_eq!(circuit.gates[1].inputs[1], -1);
    let synthetic: Vec<i32> = circuit.gates.iter().map(|g| g.out).filter(|&w| w < 0).collect();
    assert_eq!(synthetic, vec![-1]);
}

#[test]
fn four_input_decomposition() {
    let circuit = parsed("n2 = x1+x2+x3+x4\n");
    assert_eq!(circuit.num_gates, 3);
    assert!(circuit.gates.iter().all(|g| g.fanin == 2));
    assert_eq!(circuit.gates[0].out, -1);
    assert_eq!(circuit.gates[0].inputs[0], MAX_GATES as i32 + 1);
    assert_eq!(circuit.gates[0].inputs[1], MAX_GATES as i32 + 2);
    assert_eq!(circuit.gates[1].out, -2);
    assert_eq!(circuit.gates[1].inputs[0], MAX_GATES as i32 + 3);
    assert_eq!(circuit.gates[1].inputs[1], MAX_GATES as i32 + 4);
    assert_eq!(circuit.gates[2].out, 2);
    assert_eq!(circuit.gates[2].inputs[0], -1);
    assert_eq!(circuit.gates[2].inputs[1], -2);
    let synthetic: Vec<i32> = circuit.gates.iter().map(|g| g.out).filter(|&w| w < 0).collect();
    assert_eq!(synthetic, vec![-1, -2]);
}

#[test]
fn copy_insertion() {
    // x0 and x1 live on rows 0 and 1: their NOR needs x0 copied onto row 1
    let mut circuit = scheduled("n3 = x0 + x1\n");
    let mapping = create_compact_mapping(&mut circuit).expect("fits");
    assert_eq!(copies_on(&mapping), 1);
    assert_eq!(mapping.crossbar[0].len(), 1);
    assert_eq!(mapping.crossbar[1].len(), 3);
    let copy = &mapping.crossbar[1][1];
    let nor = &mapping.crossbar[1][2];
    assert!(copy.is_copy);
    assert_eq!(copy.value, MAX_GATES as i32);
    assert_eq!((copy.idx, copy.jdx), (1, 1));
    assert_eq!(copy.inputs[0].map(|id| (id.idx, id.jdx)), Some((0, 0)));
    assert!(!nor.is_copy);
    assert_eq!(nor.fanin, 2);
    assert_eq!(nor.value, 3);
    assert_eq!((nor.idx, nor.jdx), (1, 2));
    assert_eq!(nor.inputs[0].map(|id| (id.idx, id.jdx)), Some((1, 1)));
    assert_eq!(nor.inputs[1].map(|id| (id.idx, id.jdx)), Some((1, 0)));
    assert_eq!(circuit.gates[0].gate_map.map(|id| (id.idx, id.jdx)), Some((1, 2)));
    assert_eq!(mapping.max_idx, 1);
    assert_eq!(mapping.max_jdx, 2);
}

#[test]
fn no_copy_when_both_operands_share_a_row() {
    let mut circuit = scheduled("n2 = !x0\nn3 = x0 + n2\n");
    let mapping = create_compact_mapping(&mut circuit).expect("fits");
    assert_eq!(copies_on(&mapping), 0);
    assert_eq!(mapping.crossbar.len(), 1);
    assert_eq!(mapping.crossbar[0].len(), 3);
    assert_eq!(mapping.crossbar[0][2].inputs[0].map(|id| (id.idx, id.jdx)), Some((0, 0)));
    assert_eq!(mapping.crossbar[0][2].inputs[1].map(|id| (id.idx, id.jdx)), Some((0, 1)));
}

#[test]
fn arity_error_on_a_line_with_six_variables() {
    let mut circuit = Circuit::new();
    let r = parse_netlist(b"n9 = x1+x2+x3+x4+x5\n", &mut circuit);
    assert_eq!(r, Err(SynthesisError::Parse(ParseError::Arity)));
    assert_eq!(circuit.gates.len(), 0);
}

#[test]
fn arity_error_on_a_blank_line() {
    let mut circuit = Circuit::new();
    let r = parse_netlist(b"n3 = x1 + x2\n\nn4 = !n3\n", &mut circuit);
    assert_eq!(r, Err(SynthesisError::Parse(ParseError::Arity)));
}

#[test]
fn token_error_on_a_number_too_large() {
    let mut circuit = Circuit::new();
    let r = parse_netlist(b"n3 = x1 + n99999999999\n", &mut circuit);
    assert_eq!(r, Err(SynthesisError::Parse(ParseError::Token)));
    let r = parse_netlist(b"n3 = x2147475648 + n1\n", &mut circuit);
    assert_eq!(r, Err(SynthesisError::Parse(ParseError::Token)));
    let r = parse_netlist(b"n3 = x2147475647 + n2147483647\n", &mut circuit);
    assert_eq!(r, Ok(()));
    assert_eq!(circuit.gates[0].inputs[0], i32::MAX);
    assert_eq!(circuit.gates[0].inputs[1], i32::MAX);
}

#[test]
fn cycle_error() {
    let mut circuit = parsed("n1 = !n2\nn2 = !n1\n");
    assert_eq!(compute_asap_schedule(&mut circuit), Err(SynthesisError::Cycle));
    assert_eq!(compute_alap_schedule(&mut circuit), Err(SynthesisError::Cycle));
    assert_eq!(compute_list_schedule(&mut circuit), Err(SynthesisError::Cycle));
}

#[test]
fn resource_exhausted_by_a_primary_input_beyond_the_limit() {
    let mut circuit = Circuit::new();
    parse_netlist(b"n2 = !x1000\n", &mut circuit).unwrap();
    assert_eq!(find_primary_inputs(&mut circuit), Err(SynthesisError::ResourceExhausted));
    let mut circuit = Circuit::new();
    parse_netlist(b"n2 = !x999\n", &mut circuit).unwrap();
    assert_eq!(find_primary_inputs(&mut circuit), Ok(()));
    assert_eq!(circuit.num_inputs, 1000);
}

#[test]
fn error_messages() {
    assert_eq!(ParseError::Arity.message(), "unsupported number of variables on a line");
    assert_eq!(ParseError::Token.message(), "variable number out of range");
    assert_eq!(SynthesisError::Parse(ParseError::Token).message(), "variable number out of range");
    assert_eq!(SynthesisError::Cycle.message(), "combinational cycle in the netlist");
    assert_eq!(SynthesisError::ResourceExhausted.message(), "size limit exceeded");
}
