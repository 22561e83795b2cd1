use delphi::parser::{
    bench_name_from, extract_bench_name, extract_variables, find_gate_outputs, find_primary_inputs, parse_netlist,
    set_bench_name, strip_extension,
};
use delphi::{calculate_chunk_size, chunk_size_for, Circuit, ParseError, SynthesisError, TableGate, MAX_GATES};

/// The variables of a line as a regular expression finds them: the first
/// match left of `=`, every match right of it.
fn variables_by_pattern(line: &str) -> Vec<i32> {
    let pattern = regex::Regex::new(r"([nx])([0-9]+)").unwrap();
    let mut ids = Vec::new();
    let eq = match line.find('=') {
        Some(eq) => eq,
        None => return ids,
    };
    let id_of = |cap: &regex::Captures| {
        let n: i32 = cap[2].parse().unwrap();
        if &cap[1] == "x" {
            MAX_GATES as i32 + n
        } else {
            n
        }
    };
    if let Some(cap) = pattern.captures(&line[..eq]) {
        ids.push(id_of(&cap));
    }
    for cap in pattern.captures_iter(&line[eq + 1..]) {
        ids.push(id_of(&cap));
    }
    ids
}

#[test]
fn variables_in_textual_order() {
    assert_eq!(extract_variables(b"n7 = x3 + n2 + x1"), Ok(vec![7, 8003, 2, 8001]));
}

#[test]
fn only_the_first_variable_left_of_the_equals_sign_counts() {
    assert_eq!(extract_variables(b"n7 n8 x9 = n1"), Ok(vec![7, 1]));
}

#[test]
fn a_line_without_equals_sign_holds_no_variable() {
    assert_eq!(extract_variables(b"n7 x3 n2"), Ok(vec![]));
    assert_eq!(extract_variables(b""), Ok(vec![]));
}

#[test]
fn a_line_without_left_variable_holds_the_right_ones() {
    assert_eq!(extract_variables(b" = n1 + n2"), Ok(vec![1, 2]));
}

#[test]
fn letters_without_digits_are_no_variables() {
    assert_eq!(extract_variables(b"nx1 = xn2 n x nn3x"), Ok(vec![8001, 2, 3]));
}

#[test]
fn variables_need_no_separator() {
    assert_eq!(extract_variables(b"n1=n2n3x4"), Ok(vec![1, 2, 3, 8004]));
}

#[test]
fn a_second_equals_sign_is_ignored() {
    assert_eq!(extract_variables(b"n1 = n2 = n3"), Ok(vec![1, 2, 3]));
}

#[test]
fn leading_zeros_do_not_change_a_number() {
    assert_eq!(extract_variables(b"n0007 = x000"), Ok(vec![7, 8000]));
}

#[test]
fn the_largest_wire_ids_are_read() {
    assert_eq!(extract_variables(b"n2147483647 = x2147475647"), Ok(vec![i32::MAX, i32::MAX]));
}

#[test]
fn a_number_beyond_the_wire_ids_is_a_token_error() {
    assert_eq!(extract_variables(b"n2147483648 = n1"), Err(ParseError::Token));
    assert_eq!(extract_variables(b"n1 = x2147475648"), Err(ParseError::Token));
    assert_eq!(extract_variables(b"n1 = n1 + n123456789012345678901234567890"), Err(ParseError::Token));
}

#[test]
fn a_large_number_that_is_not_used_is_no_error() {
    // left of the equals sign only the first variable is read
    assert_eq!(extract_variables(b"n1 n99999999999 = n2"), Ok(vec![1, 2]));
}

#[test]
fn extraction_agrees_with_the_pattern() {
    let lines = [
        "n3 = x1 + x2",
        "n10005 = !(n4)",
        "  n12  =  ( x0 + n3 ) + x17 + n4",
        "x1 = n2",
        "n1n2 = n3 x4x5 garbage n x 12 n6",
        "n1 = n2, n3; x4.",
        "no variables = here",
        "=",
        "n5 =",
        "= x5",
        "n1 == n2",
        "xn1 = nx2",
        "n01 = x010 + n0",
    ];
    for line in lines {
        assert_eq!(extract_variables(line.as_bytes()), Ok(variables_by_pattern(line)), "line {:?}", line);
    }
}

#[test]
fn not_gate_fields() {
    let mut circuit = Circuit::new();
    assert_eq!(parse_netlist(b"n2 = !x5\n", &mut circuit), Ok(()));
    let g = &circuit.gates[0];
    assert_eq!(g.fanin, 1);
    assert_eq!(g.inputs, vec![8005, -1, -1, -1, -1]);
    assert_eq!(g.out, 2);
    assert_eq!((g.asap_level, g.alap_level, g.list_level, g.list_time), (-1, -1, -1, -1));
    assert_eq!((g.mobility, g.slack), (0, 0));
    assert!(g.output_gates.is_empty());
    assert!(!g.is_output);
    assert!(g.gate_map.is_none());
    assert_eq!(circuit.num_gates, 1);
    assert_eq!(circuit.num_outputs, 0);
    assert_eq!(circuit.num_inputs, 0);
}

#[test]
fn output_bias_is_stripped_and_flagged() {
    let mut circuit = Circuit::new();
    assert_eq!(parse_netlist(b"n10005 = n1 + n2\nn10000 = !n3\nn10001 = n1+n2+n3\n", &mut circuit), Ok(()));
    assert_eq!(circuit.gates[0].out, 5);
    assert!(circuit.gates[0].is_output);
    // the bias itself is not exceeded: the wire keeps its id
    assert_eq!(circuit.gates[1].out, 10000);
    assert!(!circuit.gates[1].is_output);
    // a decomposed line flags its last gate
    assert_eq!(circuit.gates[2].out, -1);
    assert!(!circuit.gates[2].is_output);
    assert_eq!(circuit.gates[3].out, 1);
    assert!(circuit.gates[3].is_output);
    assert_eq!(circuit.num_outputs, 2);
    assert_eq!(circuit.num_gates, 4);
}

#[test]
fn operands_keep_the_output_bias() {
    let mut circuit = Circuit::new();
    assert_eq!(parse_netlist(b"n1 = n10005 + x2000\n", &mut circuit), Ok(()));
    assert_eq!(circuit.gates[0].inputs[0], 10005);
    assert_eq!(circuit.gates[0].inputs[1], 10000);
}

#[test]
fn fresh_wires_count_on_across_lines() {
    let mut circuit = Circuit::new();
    assert_eq!(parse_netlist(b"n5 = x0+x1+x2\nn6 = x0+x1+x2+x3\nn7 = n5+n6+x4\n", &mut circuit), Ok(()));
    let outs: Vec<i32> = circuit.gates.iter().map(|g| g.out).collect();
    assert_eq!(outs, vec![-1, 5, -2, -3, 6, -4, 7]);
    assert_eq!(circuit.gates[6].inputs[0], 5);
    assert_eq!(circuit.gates[6].inputs[1], -4);
    assert_eq!(circuit.gates[5].inputs[0], 6);
    assert_eq!(circuit.gates[5].inputs[1], 8004);
}

#[test]
fn reading_stops_at_the_closing_line() {
    let mut circuit = Circuit::new();
    assert_eq!(parse_netlist(b"n2 = !x0\n  .end\nthis is not read\n", &mut circuit), Ok(()));
    assert_eq!(circuit.num_gates, 1);
    let mut circuit = Circuit::new();
    assert_eq!(parse_netlist(b".\nn2 = !x0\n", &mut circuit), Ok(()));
    assert_eq!(circuit.num_gates, 0);
}

#[test]
fn the_last_line_needs_no_line_feed() {
    let mut circuit = Circuit::new();
    assert_eq!(parse_netlist(b"n2 = !x0\nn3 = !n2", &mut circuit), Ok(()));
    assert_eq!(circuit.num_gates, 2);
    let mut circuit = Circuit::new();
    assert_eq!(parse_netlist(b"", &mut circuit), Ok(()));
    assert_eq!(circuit.num_gates, 0);
}

#[test]
fn carriage_returns_are_ignored() {
    let mut circuit = Circuit::new();
    assert_eq!(parse_netlist(b"n2 = !x0\r\nn3 = !n2\r\n.\r\n", &mut circuit), Ok(()));
    assert_eq!(circuit.num_gates, 2);
}

#[test]
fn a_line_with_one_variable_is_an_arity_error() {
    let mut circuit = Circuit::new();
    assert_eq!(parse_netlist(b"n2 = \n", &mut circuit), Err(SynthesisError::Parse(ParseError::Arity)));
    assert_eq!(parse_netlist(b"n2 n3\n", &mut circuit), Err(SynthesisError::Parse(ParseError::Arity)));
}

#[test]
fn a_failed_parse_leaves_the_circuit_as_it_was() {
    let mut circuit = Circuit::new();
    assert_eq!(parse_netlist(b"n2 = !x0\n", &mut circuit), Ok(()));
    circuit.gates[0].asap_level = 1;
    let r = parse_netlist(b"n3 = !n2\nn4 = n1+n2+n3+n4+n5+n6\n", &mut circuit);
    assert_eq!(r, Err(SynthesisError::Parse(ParseError::Arity)));
    assert_eq!(circuit.num_gates, 1);
    assert_eq!(circuit.gates.len(), 1);
    assert_eq!(circuit.gates[0].asap_level, 1);
}

#[test]
fn parsing_appends_and_resets_the_levels() {
    let mut circuit = Circuit::new();
    assert_eq!(parse_netlist(b"n2 = !x3\n", &mut circuit), Ok(()));
    assert_eq!(find_primary_inputs(&mut circuit), Ok(()));
    circuit.gates[0].asap_level = 1;
    circuit.gates[0].alap_level = 1;
    circuit.gates[0].list_level = 1;
    assert_eq!(parse_netlist(b"n3 = !n2\n", &mut circuit), Ok(()));
    assert_eq!(circuit.num_gates, 2);
    assert_eq!(circuit.num_inputs, 0);
    assert_eq!(circuit.gates[0].out, 2);
    assert_eq!((circuit.gates[0].asap_level, circuit.gates[0].alap_level, circuit.gates[0].list_level), (-1, -1, -1));
    assert_eq!(circuit.gates[1].out, 3);
}

#[test]
fn more_gates_than_the_limit_exhaust_the_table() {
    let mut text = String::new();
    for i in 0..MAX_GATES {
        text.push_str(&format!("n{} = !x0\n", i + 1));
    }
    let mut circuit = Circuit::new();
    assert_eq!(parse_netlist(text.as_bytes(), &mut circuit), Ok(()));
    assert_eq!(circuit.num_gates, MAX_GATES);
    let mut circuit = Circuit::new();
    text.push_str("n9 = !x0\n");
    assert_eq!(parse_netlist(text.as_bytes(), &mut circuit), Err(SynthesisError::ResourceExhausted));
    assert_eq!(circuit.num_gates, 0);
}

#[test]
fn the_error_of_the_first_bad_line_is_reported() {
    let mut circuit = Circuit::new();
    let r = parse_netlist(b"n2 = !x0\nn3 = n99999999999\njunk\n", &mut circuit);
    assert_eq!(r, Err(SynthesisError::Parse(ParseError::Token)));
    let r = parse_netlist(b"n2 = !x0\njunk\nn3 = n99999999999\n", &mut circuit);
    assert_eq!(r, Err(SynthesisError::Parse(ParseError::Arity)));
}

#[test]
fn primary_inputs_are_counted_up_to_the_largest_read() {
    let mut circuit = Circuit::new();
    parse_netlist(b"n1 = x4 + x1\nn2 = !x4\nn3 = n1 + n2\n", &mut circuit).unwrap();
    assert_eq!(find_primary_inputs(&mut circuit), Ok(()));
    assert_eq!(circuit.num_inputs, 5);
    assert_eq!(circuit.primary_inputs, vec![0, 8001, 0, 0, 8004]);
}

#[test]
fn the_second_operand_of_a_not_is_not_read() {
    let mut circuit = Circuit::new();
    let mut gate = TableGate::default();
    gate.fanin = 1;
    gate.inputs[0] = 8002;
    gate.inputs[1] = 8009;
    gate.out = 1;
    circuit.gates.push(gate);
    circuit.num_gates = 1;
    assert!(circuit.is_well_formed());
    assert_eq!(find_primary_inputs(&mut circuit), Ok(()));
    assert_eq!(circuit.num_inputs, 3);
}

#[test]
fn fan_out_lists() {
    let mut circuit = Circuit::new();
    parse_netlist(b"n1 = !x0\nn2 = n1 + n1\nn3 = n1 + n2\nn4 = !n3\n", &mut circuit).unwrap();
    find_gate_outputs(&mut circuit);
    let lists: Vec<Vec<i32>> = circuit.gates.iter().map(|g| g.output_gates.clone()).collect();
    assert_eq!(lists, vec![vec![2, 2, 3], vec![3], vec![4], vec![]]);
    // a second call appends again
    find_gate_outputs(&mut circuit);
    assert_eq!(circuit.gates[1].output_gates, vec![3, 3]);
}

#[test]
fn fan_out_skips_the_gate_itself_and_readers_that_drive_wire_zero() {
    let mut circuit = Circuit::new();
    parse_netlist(b"n1 = n1 + x0\nn0 = !n1\nn2 = !n1\n", &mut circuit).unwrap();
    find_gate_outputs(&mut circuit);
    assert_eq!(circuit.gates[0].output_gates, vec![2]);
}

#[test]
fn bench_names() {
    assert_eq!(strip_extension("adder.txt"), "adder");
    assert_eq!(strip_extension("adder.v2.txt"), "adder.v2");
    assert_eq!(strip_extension("adder"), "adder");
    assert_eq!(strip_extension(".hidden"), "");
    assert_eq!(strip_extension("trailing."), "trailing");
    assert_eq!(strip_extension(""), "");
    assert_eq!(strip_extension("sch\u{e9}ma.net"), "sch\u{e9}ma");
    assert_eq!(bench_name_from(Some("c17.txt")), "c17");
    assert_eq!(bench_name_from(None), "unknown");
}

#[test]
fn bench_name_of_a_path() {
    assert_eq!(extract_bench_name("benchmarks/iscas/c17.txt"), "c17");
    assert_eq!(extract_bench_name("c432"), "c432");
    assert_eq!(extract_bench_name("some.dir/c17.v"), "c17");
    assert_eq!(extract_bench_name(".."), "unknown");
    assert_eq!(extract_bench_name("runs/.."), "unknown");
    assert_eq!(extract_bench_name("/.."), "unknown");
    assert_eq!(extract_bench_name("a.."), "a.");
    assert_eq!(extract_bench_name("runs/c17.txt/"), "c17");
    assert_eq!(extract_bench_name(""), "unknown");
    for path in ["a/b/c.d.e", "x/", "/", "./n.txt", "plain"] {
        assert!(!extract_bench_name(path).contains('/'));
    }
}

#[test]
fn naming_a_circuit_after_its_file() {
    let mut circuit = Circuit::new();
    parse_netlist(b"n1 = !x0\n", &mut circuit).unwrap();
    set_bench_name(&mut circuit, Some("c432.v2.txt"));
    assert_eq!(circuit.bench_name, "c432.v2");
    assert_eq!(circuit.num_gates, 1);
    set_bench_name(&mut circuit, None);
    assert_eq!(circuit.bench_name, "unknown");
    assert!(circuit.is_well_formed());
}

#[test]
fn chunk_sizes() {
    assert_eq!(chunk_size_for(100, 4), 25);
    assert_eq!(chunk_size_for(31, 4), 31);
    assert_eq!(chunk_size_for(32, 4), 8);
    assert_eq!(chunk_size_for(4000, 4), 1000);
    assert_eq!(chunk_size_for(4004, 4), 1000);
    assert_eq!(chunk_size_for(1_000_000, 1), 1000);
    assert_eq!(chunk_size_for(7, 1), 7);
    assert_eq!(chunk_size_for(0, 8), 0);
    assert_eq!(chunk_size_for(50, 0), 50);
}

#[test]
fn chunk_size_on_this_machine() {
    // whatever the number of processors, few items stay in one chunk
    assert_eq!(calculate_chunk_size(0), 0);
    assert_eq!(calculate_chunk_size(7), 7);
    let size = calculate_chunk_size(1_000_000);
    assert!(size == 1_000_000 || (8..=1000).contains(&size));
}
