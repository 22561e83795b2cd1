use delphi::parser::{find_primary_inputs, parse_netlist};
use delphi::scheduler::{
    all_alap_labeled, compute_alap_schedule, compute_asap_schedule, compute_list_schedule, get_alap_level,
    get_asap_level, get_list_level, is_pi, is_po, list_schedule_possible,
};
use delphi::sorting::{sort_gates, stable_order, SortKey};
use delphi::{Circuit, SynthesisError, TableGate};

fn circuit_of(text: &str) -> Circuit {
    let mut circuit = Circuit::new();
    parse_netlist(text.as_bytes(), &mut circuit).expect("the netlist parses");
    find_primary_inputs(&mut circuit).expect("the inputs are within limits");
    circuit
}

/// A full adder's worth of NORs with reconvergent fan-out.
const DIAMOND: &str = "n1 = x0 + x1\nn2 = x0 + n1\nn3 = x1 + n1\nn4 = n2 + n3\nn5 = !n4\nn6 = !x2\nn7 = n5 + n6\n";

fn levels(circuit: &Circuit, pick: fn(&TableGate) -> i32) -> Vec<(i32, i32)> {
    let mut out: Vec<(i32, i32)> = circuit.gates.iter().map(|g| (g.out, pick(g))).collect();
    out.sort();
    out
}

#[test]
fn asap_levels_of_the_diamond() {
    let mut circuit = circuit_of(DIAMOND);
    assert_eq!(compute_asap_schedule(&mut circuit), Ok(()));
    assert_eq!(
        levels(&circuit, |g| g.asap_level),
        vec![(1, 1), (2, 2), (3, 2), (4, 3), (5, 4), (6, 1), (7, 5)]
    );
    assert_eq!(circuit.max_asap, 5);
}

#[test]
fn alap_levels_of_the_diamond() {
    let mut circuit = circuit_of(DIAMOND);
    assert_eq!(compute_alap_schedule(&mut circuit), Ok(()));
    assert_eq!(
        levels(&circuit, |g| g.alap_level),
        vec![(1, 1), (2, 2), (3, 2), (4, 3), (5, 4), (6, 4), (7, 5)]
    );
    assert_eq!(circuit.max_alap, 5);
}

#[test]
fn list_schedule_of_the_diamond() {
    let mut circuit = circuit_of(DIAMOND);
    assert_eq!(compute_asap_schedule(&mut circuit), Ok(()));
    assert_eq!(compute_alap_schedule(&mut circuit), Ok(()));
    assert_eq!(compute_list_schedule(&mut circuit), Ok(()));
    assert_eq!(
        levels(&circuit, |g| g.mobility),
        vec![(1, 0), (2, 0), (3, 0), (4, 0), (5, 0), (6, 3), (7, 0)]
    );
    // sorted by mobility, the one gate with slack comes last
    let order: Vec<i32> = circuit.gates.iter().map(|g| g.out).collect();
    assert_eq!(order, vec![1, 2, 3, 4, 5, 7, 6]);
    assert_eq!(
        levels(&circuit, |g| g.list_level),
        vec![(1, 1), (2, 2), (3, 2), (4, 3), (5, 4), (6, 1), (7, 5)]
    );
    assert_eq!(circuit.max_list, 5);
}

#[test]
fn asap_does_not_depend_on_the_order_of_the_lines() {
    let mut circuit = circuit_of("n3 = !n2\nn2 = !n1\nn1 = !x0\n");
    assert_eq!(compute_asap_schedule(&mut circuit), Ok(()));
    assert_eq!(levels(&circuit, |g| g.asap_level), vec![(1, 1), (2, 2), (3, 3)]);
    assert_eq!(circuit.max_asap, 3);
    assert_eq!(compute_alap_schedule(&mut circuit), Ok(()));
    assert_eq!(levels(&circuit, |g| g.alap_level), vec![(1, 1), (2, 2), (3, 3)]);
}

#[test]
fn alap_puts_every_output_on_the_last_level() {
    let mut circuit = circuit_of("n1 = !x0\nn2 = !n1\nn3 = !n2\nn4 = !x1\n");
    assert_eq!(compute_asap_schedule(&mut circuit), Ok(()));
    assert_eq!(compute_alap_schedule(&mut circuit), Ok(()));
    assert_eq!(levels(&circuit, |g| g.asap_level), vec![(1, 1), (2, 2), (3, 3), (4, 1)]);
    assert_eq!(levels(&circuit, |g| g.alap_level), vec![(1, 1), (2, 2), (3, 3), (4, 3)]);
    assert_eq!(circuit.max_alap, 3);
}

#[test]
fn alap_follows_the_reader_that_fires_first() {
    // n1 feeds n2 (then n3, n4) and the output n5 directly
    let mut circuit = circuit_of("n1 = !x0\nn2 = !n1\nn3 = !n2\nn4 = !n3\nn5 = n1 + x1\n");
    assert_eq!(compute_alap_schedule(&mut circuit), Ok(()));
    assert_eq!(levels(&circuit, |g| g.alap_level), vec![(1, 1), (2, 2), (3, 3), (4, 4), (5, 4)]);
}

#[test]
fn schedules_of_an_empty_circuit() {
    let mut circuit = Circuit::new();
    assert_eq!(compute_asap_schedule(&mut circuit), Ok(()));
    assert_eq!(compute_alap_schedule(&mut circuit), Ok(()));
    assert_eq!(compute_list_schedule(&mut circuit), Ok(()));
    assert_eq!((circuit.max_asap, circuit.max_alap, circuit.max_list), (0, 0, 0));
}

#[test]
fn a_gate_that_reads_itself_is_a_cycle() {
    let mut circuit = circuit_of("n1 = n1 + x0\nn2 = !x0\n");
    assert_eq!(compute_asap_schedule(&mut circuit), Err(SynthesisError::Cycle));
    assert_eq!(levels(&circuit, |g| g.asap_level), vec![(1, -1), (2, 1)]);
    assert_eq!(compute_alap_schedule(&mut circuit), Err(SynthesisError::Cycle));
    assert_eq!(compute_list_schedule(&mut circuit), Err(SynthesisError::Cycle));
    assert_eq!(levels(&circuit, |g| g.list_level), vec![(1, -1), (2, 1)]);
}

#[test]
fn gates_behind_a_cycle_stay_unassigned() {
    let mut circuit = circuit_of("n1 = !n2\nn2 = !n1\nn3 = !n2\nn4 = !x0\n");
    assert_eq!(compute_asap_schedule(&mut circuit), Err(SynthesisError::Cycle));
    assert_eq!(levels(&circuit, |g| g.asap_level), vec![(1, -1), (2, -1), (3, -1), (4, 1)]);
    assert_eq!(circuit.max_asap, 0);
}

#[test]
fn a_wire_driven_twice_has_the_level_of_its_first_driver() {
    let mut circuit = circuit_of("n1 = !x0\nn2 = !n1\nn1 = !n2\nn3 = !n1\n");
    assert_eq!(compute_asap_schedule(&mut circuit), Ok(()));
    let by_position: Vec<i32> = circuit.gates.iter().map(|g| g.asap_level).collect();
    assert_eq!(by_position, vec![1, 2, 3, 2]);
}

#[test]
fn list_schedule_without_the_other_schedules_leaves_max_list() {
    let mut circuit = circuit_of("n1 = !x0\nn2 = !n1\n");
    assert_eq!(compute_list_schedule(&mut circuit), Ok(()));
    // the list levels are found, but their top is not the largest ASAP level
    assert_eq!(levels(&circuit, |g| g.list_level), vec![(1, 1), (2, 2)]);
    assert_eq!(circuit.max_list, 0);
    assert_eq!(levels(&circuit, |g| g.mobility), vec![(1, 0), (2, 0)]);
}

#[test]
fn list_schedule_is_possible_for_the_right_top_level_only() {
    let mut circuit = circuit_of(DIAMOND);
    assert!(list_schedule_possible(&mut circuit, 5, 2));
    assert!(list_schedule_possible(&mut circuit, 5, 19));
    assert!(list_schedule_possible(&mut circuit, 5, 0));
    assert!(!list_schedule_possible(&mut circuit, 4, 2));
    assert!(!list_schedule_possible(&mut circuit, 6, 3));
    let mut cyclic = circuit_of("n1 = !n1\n");
    assert!(!list_schedule_possible(&mut cyclic, 0, 2));
    assert!(!list_schedule_possible(&mut cyclic, 1, 2));
}

#[test]
fn wire_queries() {
    let mut circuit = circuit_of("n1 = x0 + x1\nn2 = !n1\n");
    assert!(is_pi(&circuit, 8000));
    assert!(is_pi(&circuit, 77));
    assert!(!is_pi(&circuit, 1));
    assert!(is_po(&circuit, 2));
    assert!(is_po(&circuit, 77));
    assert!(!is_po(&circuit, 1));
    assert!(!is_po(&circuit, 8001));
    assert_eq!(get_asap_level(&circuit, 8000), 0);
    assert_eq!(get_asap_level(&circuit, 1), -1);
    assert_eq!(get_list_level(&circuit, 2), -1);
    assert!(!all_alap_labeled(&circuit));
    compute_asap_schedule(&mut circuit).unwrap();
    compute_alap_schedule(&mut circuit).unwrap();
    compute_list_schedule(&mut circuit).unwrap();
    assert!(all_alap_labeled(&circuit));
    assert_eq!(get_asap_level(&circuit, 1), 1);
    assert_eq!(get_asap_level(&circuit, 2), 2);
    assert_eq!(get_list_level(&circuit, 2), 2);
    assert_eq!(get_list_level(&circuit, 8001), 0);
    assert_eq!(get_alap_level(&circuit, 1), 1);
    // a wire that no gate reads is a primary output
    assert_eq!(get_alap_level(&circuit, 2), 0);
    // a wire that is read and not driven has no ALAP level
    assert_eq!(get_alap_level(&circuit, 8000), -1);
}

fn gate(out: i32, mobility: i32, asap: i32, list_time: i32) -> TableGate {
    let mut g = TableGate::default();
    g.fanin = 1;
    g.out = out;
    g.mobility = mobility;
    g.asap_level = asap;
    g.list_time = list_time;
    g
}

#[test]
fn sorting_is_stable() {
    let mut gates = vec![
        gate(1, 2, 5, 0),
        gate(2, 0, 5, 0),
        gate(3, 2, 1, 0),
        gate(4, 1, 3, 0),
        gate(5, 0, 1, 0),
        gate(6, 2, 3, 0),
    ];
    sort_gates(&mut gates, SortKey::Mobility);
    assert_eq!(gates.iter().map(|g| g.out).collect::<Vec<_>>(), vec![2, 5, 4, 1, 3, 6]);
    sort_gates(&mut gates, SortKey::AsapLevel);
    assert_eq!(gates.iter().map(|g| g.out).collect::<Vec<_>>(), vec![5, 3, 4, 6, 2, 1]);
    sort_gates(&mut gates, SortKey::ListTime);
    assert_eq!(gates.iter().map(|g| g.out).collect::<Vec<_>>(), vec![5, 3, 4, 6, 2, 1]);
    let mut none: Vec<TableGate> = Vec::new();
    sort_gates(&mut none, SortKey::Mobility);
    assert!(none.is_empty());
}

#[test]
fn stable_order_of_keys() {
    assert_eq!(stable_order(&vec![3, 1, 2, 1, -1, 3]), vec![4, 1, 3, 2, 0, 5]);
    assert_eq!(stable_order(&vec![]), Vec::<usize>::new());
    assert_eq!(stable_order(&vec![7, 7, 7]), vec![0, 1, 2]);
}
