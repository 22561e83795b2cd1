use delphi::generator::{generate_magic_verilog, generate_micro_ops, generate_stats};
use delphi::mapper::{create_compact_mapping, create_naive_mapping};
use delphi::{
    generate_reports, process_netlist, schedule_netlist, Circuit, Failure, ParseError, Stage, SynthesisError,
};

const ADDER: &str = "\
n1 = x0 + x1
n2 = x0 + n1
n3 = x1 + n1
n4 = n2 + n3
n5 = n4 + x2
n6 = n4 + n5
n7 = x2 + n5
n10008 = n6 + n7
n10009 = n1 + n5
.end
";

#[test]
fn the_pipeline_gives_the_reports_of_its_stages() {
    let reports = process_netlist(ADDER.as_bytes()).unwrap();
    let mut circuit = schedule_netlist(ADDER.as_bytes()).unwrap();
    assert_eq!(reports.num_gates, 9);
    assert_eq!(reports.num_inputs, 3);
    assert_eq!(reports.num_outputs, 2);
    assert_eq!(circuit.num_gates, 9);
    assert_eq!(circuit.max_asap, 6);
    assert_eq!(circuit.max_alap, 6);
    assert_eq!(circuit.max_list, 6);
    assert_eq!(reports.stats, generate_stats(&circuit).unwrap());
    assert_eq!(reports.verilog, generate_magic_verilog(&circuit));
    let naive = create_naive_mapping(&mut circuit).unwrap();
    assert_eq!(reports.naive_ops, generate_micro_ops(&circuit, &naive, true));
    let compact = create_compact_mapping(&mut circuit).unwrap();
    assert_eq!(reports.compact_ops, generate_micro_ops(&circuit, &compact, false));
}

#[test]
fn two_runs_of_the_pipeline_agree() {
    let first = process_netlist(ADDER.as_bytes()).unwrap();
    let second = process_netlist(ADDER.as_bytes()).unwrap();
    assert_eq!(first.stats, second.stats);
    assert_eq!(first.verilog, second.verilog);
    assert_eq!(first.naive_ops, second.naive_ops);
    assert_eq!(first.compact_ops, second.compact_ops);
    assert!(first.stats.starts_with("ASAP SCHEDULE:\n"));
    assert!(first.verilog.ends_with("\nendmodule\n"));
    assert!(first.naive_ops.contains("Crossbar Size     : 1x12\n"));
    assert!(first.compact_ops.contains("Crossbar Size     : 3x"));
}

fn failure(stage: Stage, error: SynthesisError) -> Option<Failure> {
    Some(Failure { stage, error })
}

#[test]
fn the_pipeline_reports_the_first_failure() {
    assert_eq!(
        process_netlist(b"n1 = \n").err(),
        failure(Stage::Parse, SynthesisError::Parse(ParseError::Arity))
    );
    assert_eq!(
        process_netlist(b"n1 = !n99999999999\n").err(),
        failure(Stage::Parse, SynthesisError::Parse(ParseError::Token))
    );
    assert_eq!(
        process_netlist(b"n1 = !x1000\n").err(),
        failure(Stage::PrimaryInputs, SynthesisError::ResourceExhausted)
    );
    assert_eq!(
        process_netlist(b"n1 = !n2\nn2 = !n1\n").err(),
        failure(Stage::AsapSchedule, SynthesisError::Cycle)
    );
    assert_eq!(schedule_netlist(b"n1 = !n1\n").err(), failure(Stage::AsapSchedule, SynthesisError::Cycle));
    // a chain too long for the statistics
    let mut chain = String::from("n1 = !x0\n");
    for i in 2..=501 {
        chain.push_str(&format!("n{} = !n{}\n", i, i - 1));
    }
    assert!(schedule_netlist(chain.as_bytes()).is_ok());
    assert_eq!(
        process_netlist(chain.as_bytes()).err(),
        failure(Stage::Statistics, SynthesisError::ResourceExhausted)
    );
    // more inputs and gates than the naive mapping has columns
    let mut wide = String::new();
    for i in 0..401 {
        wide.push_str(&format!("n{} = x{} + x{}\n", i + 1, i, i + 200));
    }
    assert_eq!(
        process_netlist(wide.as_bytes()).err(),
        failure(Stage::NaiveMapping, SynthesisError::ResourceExhausted)
    );
    // 400 gates and 501 inputs fit the single row, but there is one input more than the compact mapping has rows
    let mut tall = String::from("n1 = !x500\n");
    for i in 2..=400 {
        tall.push_str(&format!("n{} = !n{}\n", i, i - 1));
    }
    assert_eq!(
        process_netlist(tall.as_bytes()).err(),
        failure(Stage::CompactMapping, SynthesisError::ResourceExhausted)
    );
}

#[test]
fn stage_names() {
    let names: Vec<&str> = [
        Stage::Parse,
        Stage::PrimaryInputs,
        Stage::AsapSchedule,
        Stage::AlapSchedule,
        Stage::ListSchedule,
        Stage::Statistics,
        Stage::NaiveMapping,
        Stage::CompactMapping,
    ]
    .iter()
    .map(|s| s.name())
    .collect();
    assert_eq!(
        names,
        vec![
            "parse",
            "primary inputs",
            "ASAP schedule",
            "ALAP schedule",
            "list schedule",
            "schedule statistics",
            "naive mapping",
            "compact mapping",
        ]
    );
}

#[test]
fn the_pipeline_on_an_empty_netlist() {
    let reports = process_netlist(b".end\n").unwrap();
    assert_eq!((reports.num_gates, reports.num_inputs, reports.num_outputs), (0, 0, 0));
    assert_eq!(
        reports.verilog,
        "// NOR_NOT mapped module module_name\n\nmodule module_name (\n\n\n\nendmodule\n"
    );
    assert!(reports.naive_ops.ends_with("Crossbar Size     : 1x1\n---------------------------\n\n\n"));
    assert!(reports.compact_ops.ends_with("Crossbar Size     : 1x1\n---------------------------\n\n\n"));
}

#[test]
fn reports_of_a_circuit_made_by_hand() {
    let mut circuit = Circuit::new();
    let mut gate = delphi::TableGate::default();
    gate.fanin = 1;
    gate.inputs[0] = 8000;
    gate.out = 1;
    gate.asap_level = 1;
    gate.alap_level = 1;
    gate.list_level = 1;
    circuit.gates.push(gate);
    circuit.num_gates = 1;
    circuit.num_inputs = 1;
    circuit.max_asap = 1;
    assert!(circuit.is_well_formed());
    let reports = generate_reports(&mut circuit).unwrap();
    assert!(reports.naive_ops.starts_with("# Level:  1 "));
    assert!(reports.verilog.contains("  not    g1   ( wr_1     ,           ip_1     );\n"));
    assert_eq!(circuit.gates[0].gate_map.map(|id| (id.idx, id.jdx)), Some((0, 1)));
}
