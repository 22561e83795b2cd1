use delphi::generator::{
    drives_output, format_gate_name, format_wire, generate_magic_verilog, generate_micro_ops, generate_stats,
    schedule_stats,
};
use delphi::mapper::{create_compact_mapping, create_naive_mapping};
use delphi::parser::{find_primary_inputs, parse_netlist};
use delphi::scheduler::{compute_alap_schedule, compute_asap_schedule, compute_list_schedule, Schedule};
use delphi::text::{decimal_string, push_left_aligned, push_number, push_right_aligned};
use delphi::{Circuit, SynthesisError, MAX_LEVELS};

fn ready(text: &str) -> Circuit {
    let mut circuit = Circuit::new();
    parse_netlist(text.as_bytes(), &mut circuit).expect("the netlist parses");
    find_primary_inputs(&mut circuit).expect("the inputs are within limits");
    compute_asap_schedule(&mut circuit).expect("acyclic");
    compute_alap_schedule(&mut circuit).expect("acyclic");
    compute_list_schedule(&mut circuit).expect("acyclic");
    circuit
}

#[test]
fn numbers_in_base_ten() {
    assert_eq!(decimal_string(0), "0");
    assert_eq!(decimal_string(7), "7");
    assert_eq!(decimal_string(10), "10");
    assert_eq!(decimal_string(8000), "8000");
    assert_eq!(decimal_string(-1), "-1");
    assert_eq!(decimal_string(-2147483648), "-2147483648");
    assert_eq!(decimal_string(i64::MAX), "9223372036854775807");
    assert_eq!(decimal_string(1234567890), format!("{}", 1234567890));
}

#[test]
fn fields_of_a_width() {
    let mut s = String::from("[");
    push_number(&mut s, 42, 4);
    s.push('|');
    push_number(&mut s, -7, 4);
    s.push('|');
    push_number(&mut s, 123456, 4);
    s.push('|');
    push_left_aligned(&mut s, "ab", 5);
    s.push('|');
    push_left_aligned(&mut s, "abcdefg", 5);
    s.push('|');
    push_right_aligned(&mut s, "ab", 5);
    s.push('|');
    push_right_aligned(&mut s, "", 2);
    s.push(']');
    assert_eq!(s, "[  42|  -7|123456|ab   |abcdefg|   ab|  ]");
    assert_eq!(s, format!("[{:4}|{:4}|{:4}|{:<5}|{:<5}|{:>5}|{:2}]", 42, -7, 123456, "ab", "abcdefg", "ab", ""));
}

#[test]
fn wire_names() {
    assert_eq!(format_wire(8000, false), "ip_1    ");
    assert_eq!(format_wire(8011, false), "ip_12   ");
    assert_eq!(format_wire(7999, false), "wr_7999 ");
    assert_eq!(format_wire(1, false), "wr_1    ");
    assert_eq!(format_wire(123456, false), "ip_115457");
    assert_eq!(format_wire(i32::MAX, false), "ip_2147475648");
    // a primary output is named so whatever its id
    assert_eq!(format_wire(1, true), "op_1    ");
    assert_eq!(format_wire(7999, true), "op_7999 ");
    assert_eq!(format_wire(8000, true), "op_8000 ");
    // a wire whose id is not above 0 is numbered beyond every id
    assert_eq!(format_wire(0, false), "wr_2147483648");
    assert_eq!(format_wire(-1, false), "wr_2147483649");
    assert_eq!(format_wire(-3, false), "wr_2147483651");
    assert_eq!(format_wire(-3, true), "op_2147483651");
    assert_eq!(format_wire(i32::MIN, false), "wr_4294967296");
}

#[test]
fn structural_netlist() {
    let circuit = ready("n2 = !x0\nn10003 = x1 + n2\n");
    let expected = "\
// NOR_NOT mapped module module_name

module module_name (
  input  ip_1,
  input  ip_2,
  output op_1
);

  wire wr_2;

  not    g1   ( wr_2     ,           ip_1     );
  nor    g2   ( op_3     , ip_2     , wr_2     );

endmodule
";
    assert_eq!(generate_magic_verilog(&circuit), expected);
}

#[test]
fn structural_netlist_lists_the_gates_by_asap_level() {
    let circuit = ready("n3 = !n2\nn2 = !n1\nn4 = !x0\nn1 = !x0\n");
    // the list schedule has moved n4, which alone has mobility, to the end
    assert_eq!(circuit.gates.iter().map(|g| g.out).collect::<Vec<_>>(), vec![3, 2, 1, 4]);
    let text = generate_magic_verilog(&circuit);
    let gates: Vec<&str> = text.lines().filter(|l| l.starts_with("  not")).collect();
    assert_eq!(
        gates,
        vec![
            "  not    g1   ( wr_1     ,           ip_1     );",
            "  not    g2   ( wr_4     ,           ip_1     );",
            "  not    g3   ( wr_2     ,           wr_1     );",
            "  not    g4   ( wr_3     ,           wr_2     );",
        ]
    );
}

#[test]
fn structural_netlist_without_ports() {
    let circuit = Circuit::new();
    assert_eq!(
        generate_magic_verilog(&circuit),
        "// NOR_NOT mapped module module_name\n\nmodule module_name (\n\n\n\nendmodule\n"
    );
}

#[test]
fn structural_netlist_with_several_outputs() {
    let circuit = ready("n10001 = !x0\nn10002 = !x0\nn10003 = !x0\n-n4 = n1 + n2 + n3\n");
    let text = generate_magic_verilog(&circuit);
    let ports: Vec<&str> = text.lines().skip(3).take(5).collect();
    assert_eq!(ports, vec!["  input  ip_1,", "  output op_1,", "  output op_2,", "  output op_3", ");"]);
    let wires: Vec<&str> = text.lines().filter(|l| l.starts_with("  wire")).collect();
    assert_eq!(wires, vec!["  wire wr_4;", "  wire wr_5;"]);
    // the three outputs are named as outputs, the fresh wire as a wire of its own
    assert!(text.contains("  not    g1   ( op_2     ,           ip_1     );\n"));
    assert!(text.contains("  not    g3   ( op_1     ,           ip_1     );\n"));
    assert!(text.contains("  nor    g4   ( wr_2147483649 , op_2     , op_3     );\n"));
    assert!(text.contains("  nor    g5   ( wr_4     , op_1     , wr_2147483649 );\n"));
    assert!(drives_output(&circuit, 1));
    assert!(drives_output(&circuit, 3));
    assert!(!drives_output(&circuit, 4));
    assert!(!drives_output(&circuit, -1));
    assert!(!drives_output(&circuit, 8000));
}

#[test]
fn schedule_statistics() {
    let circuit = ready("n2 = !x0\nn3 = x0 + n2\n");
    let section = " SCHEDULE:
=============
Gate distribution across levels:
  1 1
Number of levels: 2, MaxGates: 1
Number of memristors: 3
Time steps (serial): 4, Time steps (parallel): 4
Crossbar size (serial): 1 x 3
Crossbar size (parallel): 1 x 3
";
    let expected = format!("ASAP{0}ALAP{0}LIST{0}", section);
    assert_eq!(generate_stats(&circuit), Ok(expected));
}

#[test]
fn schedule_statistics_count_the_columns_of_nots() {
    // level 1: NOT NOT NOR, level 2: NOT NOR: column 0 hosts NOTs only
    let circuit = ready("n1 = !x0\nn2 = !x1\nn3 = x0 + x1\nn4 = !n1\nn5 = n2 + n3\nn6 = n4 + n5\n");
    let stats = schedule_stats(&circuit, Schedule::Asap).unwrap();
    assert_eq!(stats.histogram, vec![3, 2, 1]);
    assert_eq!(stats.levels, 3);
    assert_eq!(stats.max_gates, 3);
    assert_eq!(stats.not_only_columns, 0);
    // columns 0 and 1 host both kinds, column 2 a NOR only
    assert_eq!(stats.both_columns, 2);
    let text = generate_stats(&circuit).unwrap();
    let asap: Vec<&str> = text.lines().take(9).collect();
    assert_eq!(
        asap,
        vec![
            "ASAP SCHEDULE:",
            "=============",
            "Gate distribution across levels:",
            "  3 2 1",
            "Number of levels: 3, MaxGates: 3",
            "Number of memristors: 8",
            "Time steps (serial): 9, Time steps (parallel): 6",
            "Crossbar size (serial): 3 x 3",
            "Crossbar size (parallel): 3 x 9",
        ]
    );
}

#[test]
fn a_column_of_nots_takes_two_memristors() {
    let circuit = ready("n1 = !x0\nn2 = x0 + x1\nn3 = !n1\nn4 = !n2\n");
    let stats = schedule_stats(&circuit, Schedule::Asap).unwrap();
    assert_eq!(stats.histogram, vec![2, 2]);
    assert_eq!(stats.max_gates, 2);
    // column 0: n1, n3 (NOTs); column 1: n2 (NOR), n4 (NOT)
    assert_eq!(stats.not_only_columns, 1);
    assert_eq!(stats.both_columns, 1);
    let text = generate_stats(&circuit).unwrap();
    assert!(text.starts_with(
        "ASAP SCHEDULE:\n=============\nGate distribution across levels:\n  2 2\n\
         Number of levels: 2, MaxGates: 2\nNumber of memristors: 5\n\
         Time steps (serial): 6, Time steps (parallel): 4\n\
         Crossbar size (serial): 2 x 3\nCrossbar size (parallel): 2 x 5\n"
    ));
}

#[test]
fn a_column_that_has_hosted_both_kinds_stays_so() {
    // column 0 hosts a NOT, a NOR and a NOT again
    let circuit = ready("n1 = !x0\nn2 = n1 + x0\nn3 = !n2\n");
    let stats = schedule_stats(&circuit, Schedule::Asap).unwrap();
    assert_eq!(stats.histogram, vec![1, 1, 1]);
    assert_eq!(stats.not_only_columns, 0);
    assert_eq!(stats.both_columns, 1);
}

#[test]
fn statistics_of_an_unscheduled_circuit() {
    let mut circuit = Circuit::new();
    parse_netlist(b"n1 = !x0\n", &mut circuit).unwrap();
    let stats = schedule_stats(&circuit, Schedule::List).unwrap();
    assert_eq!(stats.histogram, vec![0]);
    assert_eq!(stats.levels, -1);
    assert_eq!(stats.max_gates, 0);
    assert_eq!(stats.not_only_columns, 0);
    let empty = Circuit::new();
    let text = generate_stats(&empty).unwrap();
    assert!(text.starts_with(
        "ASAP SCHEDULE:\n=============\nGate distribution across levels:\n  0\n\
         Number of levels: 0, MaxGates: 0\nNumber of memristors: 0\n\
         Time steps (serial): 0, Time steps (parallel): 0\n\
         Crossbar size (serial): 0 x 3\nCrossbar size (parallel): 0 x 0\n"
    ));
}

#[test]
fn statistics_beyond_the_levels() {
    let mut text = String::from("n1 = !x0\n");
    for i in 2..=MAX_LEVELS {
        text.push_str(&format!("n{} = !n{}\n", i, i - 1));
    }
    let circuit = ready(&text);
    assert_eq!(circuit.max_asap, MAX_LEVELS as i32);
    assert!(generate_stats(&circuit).is_ok());
    let circuit = ready(&(text + "n501 = !n500\n"));
    assert_eq!(generate_stats(&circuit), Err(SynthesisError::ResourceExhausted));
    assert_eq!(schedule_stats(&circuit, Schedule::Alap).err(), Some(SynthesisError::ResourceExhausted));
}

#[test]
fn micro_operations_of_the_naive_mapping() {
    let mut circuit = ready("n2 = !x0\nn3 = x0 + n2\n");
    let mapping = create_naive_mapping(&mut circuit).unwrap();
    let expected = "\
# Level:  1 _____________________________________
   0 False    0 /0                         1 True
# Level:  2 _____________________________________
   0 False    0 /0           10x1          2 True

Metrics
-------
Primary Inputs    : 1
Levels            : 2
Read Operations   : 2
Write Operations  : 5
Evaluation Cycles : 2
Total Cycles      : 9
Crossbar Size     : 1x3
---------------------------


";
    let text = generate_micro_ops(&circuit, &mapping, true);
    assert_eq!(text, expected);
    let lines: Vec<&str> = text.lines().collect();
    assert_eq!(lines[0], format!("# Level: {:2} _____________________________________", 1));
    assert_eq!(lines[1], format!("{:4} {:5} {:4} {:9} {:14}{:4} True", 0, "False", 0, "/0", " ", 1));
    assert_eq!(lines[3], format!("{:4} {:5} {:4} {:9} {:4}{:9} {:4} True", 0, "False", 0, "/0", 1, "0x1", 2));
}

#[test]
fn micro_operations_of_the_compact_mapping() {
    let mut circuit = ready("n2 = !x0\nn3 = !x1\nn4 = n2 + n3\n");
    let mapping = create_compact_mapping(&mut circuit).unwrap();
    // the NOR reads the copy of n2, which is labelled as n2's own cell
    let expected = "\
# Level:  1 _____________________________________
   0 False    0 /0                         1 True
   1 False    0 /1                         1 True
# Level:  2 _____________________________________
   1 False    2 0x1          11x1          3 True

Metrics
-------
Primary Inputs    : 2
Levels            : 2
Read Operations   : 2
Write Operations  : 5
Evaluation Cycles : 2
Total Cycles      : 9
Crossbar Size     : 2x4
---------------------------


";
    assert_eq!(generate_micro_ops(&circuit, &mapping, false), expected);
    // read as a naive mapping, the crossbar counts as one row
    assert!(generate_micro_ops(&circuit, &mapping, true).contains("Crossbar Size     : 1x4\n"));
}

#[test]
fn micro_operations_with_absent_operands() {
    let mut circuit = ready("n1 = n8 + n9\nn2 = !n7\n");
    let mapping = create_naive_mapping(&mut circuit).unwrap();
    let text = generate_micro_ops(&circuit, &mapping, true);
    let lines: Vec<&str> = text.lines().take(3).collect();
    assert_eq!(
        lines,
        vec![
            "# Level:  1 _____________________________________",
            "   0 False                                  0 True",
            "   0 False                                 1 True",
        ]
    );
    assert_eq!(lines[1], format!("{:4} {:5} {:14} {:14} {:4} True", 0, "False", " ", " ", 0));
    assert_eq!(lines[2], format!("{:4} {:5} {:14} {:14}{:4} True", 0, "False", " ", " ", 1));
}

#[test]
fn micro_operations_of_an_empty_mapping() {
    let circuit = Circuit::new();
    let mapping = delphi::CrossbarMapping::new();
    let expected = "\nMetrics\n-------\nPrimary Inputs    : 0\nLevels            : 0\nRead Operations   : 0\n\
                    Write Operations  : 1\nEvaluation Cycles : 0\nTotal Cycles      : 1\n\
                    Crossbar Size     : 1x1\n---------------------------\n\n\n";
    assert_eq!(generate_micro_ops(&circuit, &mapping, false), expected);
    assert_eq!(generate_micro_ops(&circuit, &mapping, true), expected);
}

#[test]
fn operand_labels() {
    let mut circuit = ready("n2 = !x0\nn3 = !x1\nn4 = n2 + n3\n");
    let mapping = create_compact_mapping(&mut circuit).unwrap();
    assert_eq!(format_gate_name(&mapping, &mapping.crossbar[1][0]), "/1");
    assert_eq!(format_gate_name(&mapping, &mapping.crossbar[0][1]), "0x1");
    assert!(mapping.crossbar[1][2].is_copy);
    assert_eq!(format_gate_name(&mapping, &mapping.crossbar[1][2]), "0x1");
    let mut orphan = mapping.crossbar[1][2];
    orphan.inputs[0] = None;
    assert_eq!(format_gate_name(&mapping, &orphan), "???");
    let mut circuit = ready("n3 = x0 + x1\n");
    let mapping = create_compact_mapping(&mut circuit).unwrap();
    assert!(mapping.crossbar[1][1].is_copy);
    assert_eq!(format_gate_name(&mapping, &mapping.crossbar[1][1]), "/0");
}

#[test]
fn one_section_of_the_statistics() {
    let circuit = ready("n1 = !x0\nn2 = !x1\nn3 = n1 + n2\n");
    let mut text = String::from("# ");
    assert_eq!(delphi::generator::generate_schedule_stats(&mut text, &circuit, "ALAP", Schedule::Alap), Ok(()));
    assert_eq!(
        text,
        "# ALAP SCHEDULE:\n=============\nGate distribution across levels:\n  2 1\n\
         Number of levels: 2, MaxGates: 2\nNumber of memristors: 5\n\
         Time steps (serial): 5, Time steps (parallel): 4\n\
         Crossbar size (serial): 2 x 3\nCrossbar size (parallel): 2 x 5\n"
    );
}

#[test]
fn a_column_of_one_kind_takes_two_memristors() {
    let circuit = ready("n3 = x1 + x2\n");
    let stats = schedule_stats(&circuit, Schedule::Asap).unwrap();
    assert_eq!((stats.max_gates, stats.not_only_columns, stats.both_columns), (1, 0, 0));
    let mut text = String::new();
    assert_eq!(delphi::generator::generate_schedule_stats(&mut text, &circuit, "ASAP", Schedule::Asap), Ok(()));
    assert_eq!(
        text,
        "ASAP SCHEDULE:\n=============\nGate distribution across levels:\n  1\n\
         Number of levels: 1, MaxGates: 1\nNumber of memristors: 2\n\
         Time steps (serial): 2, Time steps (parallel): 2\n\
         Crossbar size (serial): 1 x 3\nCrossbar size (parallel): 1 x 3\n"
    );
    let circuit = ready("n3 = !x1\n");
    let mut text = String::new();
    assert_eq!(delphi::generator::generate_schedule_stats(&mut text, &circuit, "LIST", Schedule::List), Ok(()));
    assert!(text.contains("Number of memristors: 2\n"));
    assert!(text.contains("Crossbar size (parallel): 1 x 2\n"));
}

#[test]
fn a_gate_that_drives_a_fresh_wire_gets_its_instruction() {
    // the first gate of the decomposed line drives wire -1
    let mut circuit = ready("n2 = x0 + x0 + x0\n");
    assert_eq!(circuit.gates.iter().map(|g| g.out).collect::<Vec<_>>(), vec![-1, 2]);
    let mapping = create_naive_mapping(&mut circuit).unwrap();
    let text = generate_micro_ops(&circuit, &mapping, true);
    let lines: Vec<&str> = text.lines().take(4).collect();
    assert_eq!(
        lines,
        vec![
            format!("# Level: {:2} _____________________________________", 1),
            format!("{:4} {:5} {:4} {:9} {:4}{:9} {:4} True", 0, "False", 0, "/0", 0, "/0", 1),
            format!("# Level: {:2} _____________________________________", 2),
            format!("{:4} {:5} {:4} {:9} {:4}{:9} {:4} True", 0, "False", 0, "/0", 1, "0x1", 2),
        ]
    );
    assert!(text.contains("Levels            : 2\n"));
}
