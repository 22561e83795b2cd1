//! The structural netlist of the mapped module: its inputs and outputs, its wires and
//! one NOT or NOR instance for each gate, in ASAP order.
use vstd::prelude::*;
use vstd::string::*;
use crate::circuit::{Circuit, CircuitView, gate_views, GateView, lemma_nodes_of_views, Node};
use crate::generator::stats::lemma_levels_of_views;
use crate::limits::MAX_GATES;
use crate::scheduler::{levels_of, Schedule, view_levels};
use crate::sorting::{is_stable_order, lemma_stable_order_unique, stable_order, the_stable_order};
use crate::text::{decimal, decimal_string, pad_right, push_decimal, push_left_aligned};

verus! {

/// Whether wire `w` is a primary output: some gate that is flagged as an
/// output drives it.
pub open spec fn is_output_wire(gates: Seq<GateView>, w: int) -> bool {
    exists|i: int| 0 <= i < gates.len() && (#[trigger] gates[i]).node.out == w && gates[i].is_output
}

/// The number under which a wire is named: its id where that is above 0;
/// a wire with another id, such as the fresh wires of the parser, gets a
/// number beyond every id, counted up from there.
pub open spec fn net_number(w: int) -> int {
    if w > 0 {
        w
    } else {
        i32::MAX + 1 - w
    }
}

/// No two wires are named under one number.
pub proof fn lemma_net_numbers_differ(a: int, b: int)
    requires
        i32::MIN <= a <= i32::MAX,
        i32::MIN <= b <= i32::MAX,
        a != b,
    ensures
        net_number(a) != net_number(b),
{
}

/// The name of wire `id` in the netlist: `op_N` for a primary output, which
/// is the output of a gate flagged so; else `ip_N` for primary input `N - 1`;
/// else `wr_N`. `N` is the number of the wire and fills at least five
/// columns.
pub open spec fn wire_name(id: int, output: bool) -> Seq<char> {
    if output {
        "op_"@ + pad_right(decimal(net_number(id)), 5)
    } else if id >= MAX_GATES {
        "ip_"@ + pad_right(decimal(id - MAX_GATES + 1), 5)
    } else {
        "wr_"@ + pad_right(decimal(net_number(id)), 5)
    }
}

/// The name of wire `w` in the netlist of the gates `gates`.
pub open spec fn net_name(gates: Seq<GateView>, w: int) -> Seq<char> {
    wire_name(w, is_output_wire(gates, w))
}

/// The lines `head`, number, `tail` for the numbers from `from` up to, not
/// including, `to`.
pub open spec fn numbered_lines(head: Seq<char>, tail: Seq<char>, from: int, to: int) -> Seq<char>
    decreases to - from,
{
    if to <= from {
        Seq::empty()
    } else {
        numbered_lines(head, tail, from, to - 1) + head + decimal(to - 1) + tail
    }
}

/// The declarations of `m` outputs: all but the last end in a comma, the
/// last closes the list of declarations. Without outputs nothing is
/// declared and the list is left open.
pub open spec fn output_lines(m: int) -> Seq<char> {
    if m > 0 {
        numbered_lines("  output op_"@, ",\n"@, 1, m) + "  output op_"@ + decimal(m) + "\n);\n"@
    } else {
        Seq::empty()
    }
}

/// The instance of gate `g`, the `k`-th of the listing: its name, the net
/// it drives, and the nets it reads in operand order.
pub open spec fn gate_line(gates: Seq<GateView>, g: Node, k: int) -> Seq<char> {
    let name = pad_right("g"@ + decimal(k), 5);
    if g.fanin == 1 {
        "  not    "@ + name + "( "@ + net_name(gates, g.out) + " ,           "@ + net_name(gates, g.a) + " );\n"@
    } else {
        "  nor    "@ + name + "( "@ + net_name(gates, g.out) + " , "@ + net_name(gates, g.a) + " , "@ + net_name(
            gates,
            g.b,
        ) + " );\n"@
    }
}

/// The instances of the first `j` gates of the listing, which takes the
/// gates in the order `order`.
pub open spec fn gate_lines(gates: Seq<GateView>, order: Seq<int>, j: int) -> Seq<char>
    decreases j,
{
    if j <= 0 {
        Seq::empty()
    } else {
        gate_lines(gates, order, j - 1) + gate_line(gates, gates[order[j - 1]].node, j)
    }
}

/// The structural netlist of a module with `k` inputs, `m` outputs and the
/// gates `gates`, listed in the order `order`.
pub open spec fn magic_verilog(gates: Seq<GateView>, k: int, m: int, order: Seq<int>) -> Seq<char> {
    "// NOR_NOT mapped module module_name\n\nmodule module_name (\n"@ + numbered_lines(
        "  input  ip_"@,
        ",\n"@,
        1,
        k + 1,
    ) + output_lines(m) + "\n"@ + numbered_lines("  wire wr_"@, ";\n"@, m + 1, gates.len() as int + 1) + "\n"@
        + gate_lines(gates, order, gates.len() as int) + "\nendmodule\n"@
}

/// The structural netlist of a circuit given as numbers: its gates are
/// listed in the stable order of their ASAP levels.
pub open spec fn verilog_view(v: CircuitView) -> Seq<char> {
    magic_verilog(v.gates, v.num_inputs, v.num_outputs, the_stable_order(view_levels(v.gates, Schedule::Asap)))
}

/// The name of wire `id` in the netlist; `is_output` says whether the wire
/// is a primary output.
pub fn format_wire(id: i32, is_output: bool) -> (s: String)
    ensures
        s@ == wire_name(id as int, is_output),
{
    let mut s = String::new();
    let number: i64 = if id > 0 {
        id as i64
    } else {
        i32::MAX as i64 + 1 - id as i64
    };
    let n: i64 = if is_output {
        s.append("op_");
        number
    } else if id >= MAX_GATES as i32 {
        s.append("ip_");
        id as i64 - MAX_GATES as i64 + 1
    } else {
        s.append("wr_");
        number
    };
    let digits = decimal_string(n);
    push_left_aligned(&mut s, digits.as_str(), 5);
    proof {
        assert(s@ =~= wire_name(id as int, is_output));
    }
    s
}

/// Whether wire `w` is a primary output of the circuit.
pub fn drives_output(circuit: &Circuit, w: i32) -> (r: bool)
    ensures
        r == is_output_wire(gate_views(circuit.gates@), w as int),
{
    let n = circuit.gates.len();
    let ghost gates = gate_views(circuit.gates@);
    for i in 0..n
        invariant
            n == circuit.gates@.len(),
            gates == gate_views(circuit.gates@),
            forall|j: int| 0 <= j < i ==> !((#[trigger] gates[j]).node.out == w && gates[j].is_output),
    {
        if circuit.gates[i].out == w && circuit.gates[i].is_output {
            assert(gates[i as int].node.out == w && gates[i as int].is_output);
            return true;
        }
    }
    false
}

/// The name of wire `w` in the netlist of the circuit.
fn net_name_of(circuit: &Circuit, w: i32) -> (s: String)
    ensures
        s@ == net_name(gate_views(circuit.gates@), w as int),
{
    format_wire(w, drives_output(circuit, w))
}

/// Appends the lines `head`, number, `tail` for the numbers from `from` up
/// to, not including, `to`.
fn push_numbered_lines(out: &mut String, head: &str, tail: &str, from: usize, to: usize)
    requires
        to <= i64::MAX,
    ensures
        final(out)@ == old(out)@ + numbered_lines(head@, tail@, from as int, to as int),
{
    if to <= from {
        assert(out@ =~= old(out)@ + numbered_lines(head@, tail@, from as int, to as int));
        return ;
    }
    proof {
        assert(out@ =~= old(out)@ + numbered_lines(head@, tail@, from as int, from as int));
    }
    for i in from..to
        invariant
            from <= to <= i64::MAX,
            out@ == old(out)@ + numbered_lines(head@, tail@, from as int, i as int),
    {
        let ghost before = out@;
        out.append(head);
        push_decimal(out, i as i64);
        out.append(tail);
        proof {
            assert(out@ =~= old(out)@ + (numbered_lines(head@, tail@, from as int, i as int) + head@ + decimal(
                i as int,
            ) + tail@));
        }
    }
}

/// Appends the instance of gate `i` of the circuit, the `k`-th of the listing.
fn push_gate_line(out: &mut String, circuit: &Circuit, i: usize, k: usize)
    requires
        circuit.wf(),
        i < circuit.gates@.len(),
        k <= MAX_GATES,
    ensures
        final(out)@ == old(out)@ + gate_line(
            gate_views(circuit.gates@),
            gate_views(circuit.gates@)[i as int].node,
            k as int,
        ),
{
    assert(circuit.gates@[i as int].wf());
    let mut name = String::new();
    name.append("g");
    push_decimal(&mut name, k as i64);
    assert(name@ =~= "g"@ + decimal(k as int));
    let target = net_name_of(circuit, circuit.gates[i].out);
    let first = net_name_of(circuit, circuit.gates[i].inputs[0]);
    if circuit.gates[i].fanin == 1 {
        out.append("  not    ");
        push_left_aligned(out, name.as_str(), 5);
        out.append("( ");
        out.append(target.as_str());
        out.append(" ,           ");
        out.append(first.as_str());
        out.append(" );\n");
    } else {
        let second = net_name_of(circuit, circuit.gates[i].inputs[1]);
        out.append("  nor    ");
        push_left_aligned(out, name.as_str(), 5);
        out.append("( ");
        out.append(target.as_str());
        out.append(" , ");
        out.append(first.as_str());
        out.append(" , ");
        out.append(second.as_str());
        out.append(" );\n");
    }
    proof {
        assert(out@ =~= old(out)@ + gate_line(
            gate_views(circuit.gates@),
            gate_views(circuit.gates@)[i as int].node,
            k as int,
        ));
    }
}

/// The ASAP levels of the gates, in table order.
fn asap_keys(circuit: &Circuit) -> (keys: Vec<i32>)
    ensures
        keys@.map_values(|k: i32| k as int) == levels_of(circuit.gates@, Schedule::Asap),
{
    let mut keys: Vec<i32> = Vec::new();
    let n = circuit.gates.len();
    for i in 0..n
        invariant
            n == circuit.gates@.len(),
            keys@.len() == i,
            forall|j: int| 0 <= j < i ==> keys@[j] == circuit.gates@[j].asap_level,
    {
        keys.push(circuit.gates[i].asap_level);
    }
    proof {
        assert(keys@.map_values(|k: i32| k as int) =~= levels_of(circuit.gates@, Schedule::Asap));
    }
    keys
}

/// Writes the structural netlist of the mapped module.
///
/// The module declares one input for each primary input and one output for
/// each primary output, then the wires numbered from the first number after
/// the outputs up to the number of gates, then one `not` or `nor` instance for
/// each gate. The gates come in ASAP order, gates of one level in table
/// order, and are named `g1`, `g2` and so on in that order. A net is named
/// `op_` exactly where a gate flagged as an output drives it, else `ip_` for
/// a primary input and `wr_` for any other wire. The circuit is not changed.
pub fn generate_magic_verilog(circuit: &Circuit) -> (text: String)
    requires
        circuit.wf(),
    ensures
        text@ == verilog_view(circuit@),
        exists|order: Seq<int>|
            is_stable_order(levels_of(circuit.gates@, Schedule::Asap), order) && text@ == magic_verilog(
                gate_views(circuit.gates@),
                circuit.num_inputs as int,
                circuit.num_outputs as int,
                order,
            ),
{
    let keys = asap_keys(circuit);
    let order = stable_order(&keys);
    let ghost net = gate_views(circuit.gates@);
    let ghost ord = order@.map_values(|p: usize| p as int);
    let n = circuit.gates.len();
    let k = circuit.num_inputs;
    let m = circuit.num_outputs;
    let mut text = String::new();
    text.append("// NOR_NOT mapped module module_name\n\nmodule module_name (\n");
    push_numbered_lines(&mut text, "  input  ip_", ",\n", 1, k + 1);
    let ghost ports = text@;
    if m > 0 {
        push_numbered_lines(&mut text, "  output op_", ",\n", 1, m);
        text.append("  output op_");
        push_decimal(&mut text, m as i64);
        text.append("\n);\n");
    }
    assert(text@ =~= ports + output_lines(m as int));
    text.append("\n");
    push_numbered_lines(&mut text, "  wire wr_", ";\n", m + 1, n + 1);
    text.append("\n");
    let ghost head = text@;
    assert(text@ =~= head + gate_lines(net, ord, 0));
    for j in 0..n
        invariant
            circuit.wf(),
            n == circuit.gates@.len(),
            net == gate_views(circuit.gates@),
            ord == order@.map_values(|p: usize| p as int),
            is_stable_order(levels_of(circuit.gates@, Schedule::Asap), ord),
            text@ == head + gate_lines(net, ord, j as int),
    {
        assert(0 <= ord[j as int] < n);
        push_gate_line(&mut text, circuit, order[j], j + 1);
        proof {
            assert(text@ =~= head + (gate_lines(net, ord, j as int) + gate_line(net, net[ord[j as int]].node, j + 1)));
        }
    }
    text.append("\nendmodule\n");
    proof {
        assert(text@ =~= magic_verilog(net, k as int, m as int, ord));
        lemma_nodes_of_views(circuit.gates@);
        lemma_levels_of_views(circuit.gates@, Schedule::Asap);
        let keys = levels_of(circuit.gates@, Schedule::Asap);
        lemma_stable_order_unique(keys, ord, the_stable_order(keys));
    }
    text
}

} // verus!
