use delphi::generator::{generate_magic_verilog, generate_micro_ops, generate_stats};
use delphi::mapper::{create_compact_mapping, create_naive_mapping};
use delphi::parser::{find_primary_inputs, parse_netlist, write_equations};
use delphi::scheduler::{compute_alap_schedule, compute_asap_schedule, compute_list_schedule};
use delphi::{Circuit, MAX_GATES};

/// A netlist with shared operands, chains of different length and
/// decomposed lines.
const NETLIST: &str = "\
n1 = x0 + x1
n2 = !n1
n3 = x2 + n1
n4 = n2 + n3 + x3
n5 = !x4
n6 = n4 + n5 + x0 + x1
n10007 = n6 + n3
n10008 = !n5
.end
";

fn parsed(text: &str) -> Circuit {
    let mut circuit = Circuit::new();
    parse_netlist(text.as_bytes(), &mut circuit).expect("the netlist parses");
    find_primary_inputs(&mut circuit).expect("the inputs are within limits");
    circuit
}

fn scheduled(text: &str) -> Circuit {
    let mut circuit = parsed(text);
    compute_asap_schedule(&mut circuit).expect("acyclic");
    compute_alap_schedule(&mut circuit).expect("acyclic");
    compute_list_schedule(&mut circuit).expect("acyclic");
    circuit
}

/// The level of a wire: 0 unless a gate drives it.
fn wire_level(circuit: &Circuit, wire: i32, pick: fn(&delphi::TableGate) -> i32) -> i32 {
    circuit.gates.iter().find(|g| g.out == wire).map(pick).unwrap_or(0)
}

#[test]
fn every_gate_fires_after_its_operands() {
    let circuit = scheduled(NETLIST);
    assert_eq!(circuit.gates.len(), 11);
    for g in &circuit.gates {
        let mut latest = wire_level(&circuit, g.inputs[0], |g| g.asap_level);
        if g.fanin == 2 {
            latest = latest.max(wire_level(&circuit, g.inputs[1], |g| g.asap_level));
        }
        assert_eq!(g.asap_level, 1 + latest, "gate {}", g.out);
        assert!(g.asap_level >= 1);
    }
    assert_eq!(circuit.max_asap, circuit.gates.iter().map(|g| g.asap_level).max().unwrap());
    assert_eq!(circuit.max_asap, 7);
}

#[test]
fn every_gate_fires_before_its_readers() {
    let circuit = scheduled(NETLIST);
    for g in &circuit.gates {
        let readers: Vec<i32> = circuit
            .gates
            .iter()
            .filter(|c| c.inputs[0] == g.out || (c.fanin == 2 && c.inputs[1] == g.out))
            .map(|c| c.alap_level)
            .collect();
        match readers.iter().min() {
            Some(first) => assert_eq!(g.alap_level, first - 1, "gate {}", g.out),
            None => assert_eq!(g.alap_level, circuit.max_alap, "gate {}", g.out),
        }
        assert!(g.alap_level >= g.asap_level, "gate {}", g.out);
    }
    assert_eq!(circuit.gates.iter().map(|g| g.alap_level).min(), Some(1));
    assert_eq!(circuit.max_alap, 7);
}

#[test]
fn mobility_is_the_slack_between_the_schedules() {
    let circuit = scheduled(NETLIST);
    for g in &circuit.gates {
        assert_eq!(g.mobility, g.alap_level - g.asap_level);
        assert!(g.mobility >= 0);
    }
    let mobilities: Vec<i32> = circuit.gates.iter().map(|g| g.mobility).collect();
    let mut sorted = mobilities.clone();
    sorted.sort();
    assert_eq!(mobilities, sorted);
    assert!(mobilities.iter().any(|&m| m > 0));
}

#[test]
fn compact_mapping_keeps_operands_on_the_row() {
    let mut circuit = scheduled(NETLIST);
    let mapping = create_compact_mapping(&mut circuit).unwrap();
    let mut nors = 0;
    let mut copies = 0;
    for (r, row) in mapping.crossbar.iter().enumerate() {
        for cell in row {
            if cell.fanin == 2 {
                nors += 1;
                assert_eq!(cell.inputs[0].unwrap().idx, r);
                assert_eq!(cell.inputs[1].unwrap().idx, r);
            }
            if cell.is_copy {
                copies += 1;
            }
        }
    }
    assert_eq!(nors, 8);
    assert!(copies > 0);
    for g in &circuit.gates {
        let spot = g.gate_map.unwrap();
        let cell = &mapping.crossbar[spot.idx][spot.jdx];
        assert_eq!(cell.value, g.out);
        assert_eq!(cell.fanin, g.fanin);
        assert!(!cell.is_copy);
    }
}

#[test]
fn compact_rows_are_filled_to_their_first_free_column() {
    let mut circuit = scheduled(NETLIST);
    let mapping = create_compact_mapping(&mut circuit).unwrap();
    assert_eq!(mapping.crossbar.len(), circuit.num_inputs);
    let mut widest = 0;
    for (r, row) in mapping.crossbar.iter().enumerate() {
        let high_water = 1 + row.iter().map(|cell| cell.jdx).max().unwrap();
        assert_eq!(row.len() as i32, high_water);
        for (c, cell) in row.iter().enumerate() {
            assert_eq!((cell.idx, cell.jdx), (r as i32, c as i32));
        }
        assert_eq!(row[0].value, (MAX_GATES + r) as i32);
        widest = widest.max(row.len());
    }
    assert_eq!(mapping.max_jdx, widest as i32 - 1);
    assert_eq!(mapping.max_idx, circuit.num_inputs as i32 - 1);
}

#[test]
fn naive_mapping_takes_one_row() {
    let mut circuit = scheduled(NETLIST);
    let mapping = create_naive_mapping(&mut circuit).unwrap();
    assert_eq!(mapping.max_idx, 0);
    assert_eq!(mapping.max_jdx, (circuit.num_inputs + circuit.num_gates) as i32 - 1);
    assert_eq!(mapping.max_jdx, 15);
    assert_eq!(mapping.crossbar.len(), 1);
    assert_eq!(mapping.crossbar[0].len(), 16);
    let levels: Vec<i32> = mapping.crossbar[0][circuit.num_inputs..].iter().map(|c| c.asap_level).collect();
    let mut sorted = levels.clone();
    sorted.sort();
    assert_eq!(levels, sorted);
}

#[test]
fn reading_what_was_written_gives_the_same_gates() {
    let first = parsed("n1 = x0 + x1\nn2 = !n1\nn10003 = n2 + x7\nn4 = !n3\nn10000 = n8000 + n0\n");
    let text = write_equations(&first, 0).expect("every gate can be written");
    assert_eq!(
        String::from_utf8(text.clone()).unwrap(),
        "n1 = x0 + x1\nn2 = !n1\nn10003 = n2 + x7\nn4 = !n3\nn10000 = x0 + n0\n"
    );
    let second = parsed(std::str::from_utf8(&text).unwrap());
    assert_eq!(second.num_gates, first.num_gates);
    assert_eq!(second.num_inputs, first.num_inputs);
    assert_eq!(second.num_outputs, first.num_outputs);
    for (a, b) in first.gates.iter().zip(second.gates.iter()) {
        assert_eq!((a.fanin, &a.inputs, a.out, a.is_output), (b.fanin, &b.inputs, b.out, b.is_output));
    }
    assert_eq!(write_equations(&second, 0), Some(text));
}

#[test]
fn fresh_wires_are_written_under_new_names() {
    let first = parsed(NETLIST);
    let text = write_equations(&first, 500).expect("every gate can be written");
    assert_eq!(
        String::from_utf8(text.clone()).unwrap(),
        "n1 = x0 + x1\nn2 = !n1\nn3 = x2 + n1\nn501 = n3 + x3\nn4 = n2 + n501\nn5 = !x4\n\
         n502 = n4 + n5\nn503 = x0 + x1\nn6 = n502 + n503\nn10007 = n6 + n3\nn10008 = !n5\n"
    );
    let second = parsed(std::str::from_utf8(&text).unwrap());
    assert_eq!(second.num_gates, first.num_gates);
    let rename = |id: i32| if id < 0 { 500 - id } else { id };
    for (a, b) in first.gates.iter().zip(second.gates.iter()) {
        assert_eq!(a.fanin, b.fanin);
        assert_eq!(rename(a.out), b.out);
        assert_eq!(a.is_output, b.is_output);
        assert_eq!(rename(a.inputs[0]), b.inputs[0]);
        if a.fanin == 2 {
            assert_eq!(rename(a.inputs[1]), b.inputs[1]);
        }
    }
    // the second table holds no fresh wire: it is written as it is
    assert_eq!(write_equations(&second, 0), Some(text));
}

#[test]
fn gates_that_cannot_be_written() {
    // a fresh wire renamed beyond the output bias would read as an output
    let circuit = parsed("n1 = x0 + x1 + x2\n");
    assert_eq!(write_equations(&circuit, 10000), None);
    // an operand at or beyond 8000 is written, and read, as a primary input
    assert_eq!(
        write_equations(&circuit, 9999),
        Some(b"n10000 = x1 + x2\nn1 = x0 + x2000\n".to_vec())
    );
    assert_eq!(write_equations(&circuit, -1), Some(b"n0 = x1 + x2\nn1 = x0 + n0\n".to_vec()));
    assert_eq!(write_equations(&circuit, -2), None);
    let mut circuit = parsed("n1 = !x0\n");
    assert!(write_equations(&circuit, 0).is_some());
    circuit.gates[0].out = 10001;
    assert_eq!(write_equations(&circuit, 0), None);
    circuit.gates[0].is_output = true;
    assert_eq!(write_equations(&circuit, 0), Some(b"n20001 = !x0\n".to_vec()));
    circuit.gates[0].out = 0;
    assert_eq!(write_equations(&circuit, 0), None);
    circuit.gates[0].is_output = false;
    assert_eq!(write_equations(&circuit, 0), Some(b"n0 = !x0\n".to_vec()));
    assert_eq!(write_equations(&Circuit::new(), 0), Some(Vec::new()));
}

/// The four reports of a netlist.
fn reports(text: &str) -> [String; 4] {
    let mut circuit = scheduled(text);
    let stats = generate_stats(&circuit).unwrap();
    let verilog = generate_magic_verilog(&circuit);
    let naive = create_naive_mapping(&mut circuit).unwrap();
    let naive_ops = generate_micro_ops(&circuit, &naive, true);
    let compact = create_compact_mapping(&mut circuit).unwrap();
    let compact_ops = generate_micro_ops(&circuit, &compact, false);
    [stats, verilog, naive_ops, compact_ops]
}

#[test]
fn two_runs_give_the_same_reports() {
    let first = reports(NETLIST);
    let second = reports(NETLIST);
    assert_eq!(first, second);
    assert!(first.iter().all(|report| !report.is_empty()));
}

#[test]
fn the_whole_pipeline_on_a_small_netlist() {
    let [stats, verilog, naive_ops, compact_ops] = reports("n1 = x0 + x1\nn10002 = !n1\n");
    let section = " SCHEDULE:\n=============\nGate distribution across levels:\n  1 1\n\
                   Number of levels: 2, MaxGates: 1\nNumber of memristors: 3\n\
                   Time steps (serial): 4, Time steps (parallel): 4\n\
                   Crossbar size (serial): 1 x 3\nCrossbar size (parallel): 1 x 3\n";
    assert_eq!(stats, format!("ASAP{0}ALAP{0}LIST{0}", section));
    assert_eq!(
        verilog,
        "// NOR_NOT mapped module module_name\n\nmodule module_name (\n  input  ip_1,\n  input  ip_2,\n  \
         output op_1\n);\n\n  wire wr_2;\n\n  nor    g1   ( wr_1     , ip_1     , ip_2     );\n  \
         not    g2   ( op_2     ,           wr_1     );\n\nendmodule\n"
    );
    let heading = |level: i32| format!("# Level: {:2} _____________________________________\n", level);
    let metrics = |size: &str| {
        format!(
            "\nMetrics\n-------\nPrimary Inputs    : 2\nLevels            : 2\nRead Operations   : 2\n\
             Write Operations  : 5\nEvaluation Cycles : 2\nTotal Cycles      : 9\nCrossbar Size     : {}\n\
             ---------------------------\n\n\n",
            size
        )
    };
    assert_eq!(
        naive_ops,
        heading(1)
            + "   0 False    0 /0           1/1           2 True\n"
            + &heading(2)
            + &format!("{:4} {:5} {:4} {:9} {:14}{:4} True\n", 0, "False", 2, "0x2", " ", 3)
            + &metrics("1x4")
    );
    assert_eq!(
        compact_ops,
        heading(1)
            + "   1 False    1 /0           0/1           2 True\n"
            + &heading(2)
            + &format!("{:4} {:5} {:4} {:9} {:14}{:4} True\n", 1, "False", 2, "1x2", " ", 3)
            + &metrics("2x4")
    );
}

#[test]
fn cells_that_are_not_copies_hold_different_wires() {
    let mut circuit = scheduled(NETLIST);
    for naive in [true, false] {
        let mapping = if naive {
            create_naive_mapping(&mut circuit).unwrap()
        } else {
            create_compact_mapping(&mut circuit).unwrap()
        };
        let mut wires: Vec<i32> = mapping
            .crossbar
            .iter()
            .flat_map(|row| row.iter())
            .filter(|cell| !cell.is_copy)
            .map(|cell| cell.value)
            .collect();
        assert_eq!(wires.len(), circuit.num_inputs + circuit.num_gates);
        wires.sort();
        wires.dedup();
        assert_eq!(wires.len(), circuit.num_inputs + circuit.num_gates);
    }
}
