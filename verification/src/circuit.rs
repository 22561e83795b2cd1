//! The table of gates: logical gates, their schedule decorations, and the circuit
//! that owns them.
use vstd::prelude::*;
use crate::crossbar::CellId;
use crate::limits::{MAX_FANIN, MAX_GATES, MAX_PI};

verus! {

/// The wiring of one gate as plain numbers: what it reads and what it drives.
///
/// A NOT gate reads its one operand on both pins, so `b` repeats `a`.
pub struct Node {
    pub fanin: int,
    pub a: int,
    pub b: int,
    pub out: int,
}

impl Node {
    /// Whether this gate reads wire `w`.
    pub open spec fn reads(&self, w: int) -> bool {
        self.a == w || self.b == w
    }
}

/// A logical gate: NOT (`fanin == 1`) or two-input NOR (`fanin == 2`).
#[derive(Debug, Clone)]
pub struct TableGate {
    pub fanin: usize,
    /// Operand wire ids; the first `fanin` entries count.
    pub inputs: Vec<i32>,
    /// The wire id this gate drives.
    pub out: i32,
    pub asap_level: i32,
    pub alap_level: i32,
    pub list_level: i32,
    pub list_time: i32,
    pub mobility: i32,
    pub slack: i32,
    /// The wires driven by the gates that read this gate's output.
    pub output_gates: Vec<i32>,
    /// Whether this gate drives a primary output.
    pub is_output: bool,
    /// Where the mapper placed this gate, once it has.
    pub gate_map: Option<CellId>,
}

impl TableGate {
    /// A gate is well formed when it is a NOT or a NOR, holds its operands,
    /// and its schedule levels are unassigned (-1) or within the limit on gates.
    pub open spec fn wf(&self) -> bool {
        &&& 1 <= self.fanin <= 2
        &&& self.inputs@.len() >= self.fanin
        &&& -1 <= self.asap_level <= MAX_GATES
        &&& -1 <= self.alap_level <= MAX_GATES
        &&& -1 <= self.list_level <= MAX_GATES
    }

    /// This gate's wiring.
    pub open spec fn node(&self) -> Node {
        Node {
            fanin: self.fanin as int,
            a: self.inputs@[0] as int,
            b: if self.fanin >= 2 {
                self.inputs@[1] as int
            } else {
                self.inputs@[0] as int
            },
            out: self.out as int,
        }
    }

    /// Runtime form of `wf`.
    pub fn is_well_formed(&self) -> (r: bool)
        ensures
            r == self.wf(),
    {
        let top = MAX_GATES as i32;
        1 <= self.fanin && self.fanin <= 2 && self.inputs.len() >= self.fanin && -1 <= self.asap_level
            && self.asap_level <= top && -1 <= self.alap_level && self.alap_level <= top && -1
            <= self.list_level && self.list_level <= top
    }
}

impl Default for TableGate {
    /// A blank gate: no operands, nothing assigned. It becomes well formed
    /// once `fanin` is set to 1 or 2.
    fn default() -> (g: Self)
        ensures
            g.fanin == 0,
            g.inputs@ == Seq::new(MAX_FANIN as nat, |i: int| -1i32),
            g.out == -1,
            g.asap_level == -1,
            g.alap_level == -1,
            g.list_level == -1,
            g.list_time == -1,
            g.mobility == 0,
            g.slack == 0,
            g.output_gates@.len() == 0,
            !g.is_output,
            g.gate_map is None,
    {
        let inputs: Vec<i32> = vec![-1i32; MAX_FANIN];
        assert(inputs@ =~= Seq::new(MAX_FANIN as nat, |i: int| -1i32));
        TableGate {
            fanin: 0,
            inputs,
            out: -1,
            asap_level: -1,
            alap_level: -1,
            list_level: -1,
            list_time: -1,
            mobility: 0,
            slack: 0,
            output_gates: Vec::new(),
            is_output: false,
            gate_map: None,
        }
    }
}

/// A gate as plain numbers: its wiring and its schedule decorations.
pub struct GateView {
    pub node: Node,
    pub is_output: bool,
    pub asap_level: int,
    pub alap_level: int,
    pub list_level: int,
    pub list_time: int,
    pub mobility: int,
    pub slack: int,
    pub output_gates: Seq<int>,
    pub gate_map: Option<CellId>,
}

impl View for TableGate {
    type V = GateView;

    open spec fn view(&self) -> GateView {
        GateView {
            node: self.node(),
            is_output: self.is_output,
            asap_level: self.asap_level as int,
            alap_level: self.alap_level as int,
            list_level: self.list_level as int,
            list_time: self.list_time as int,
            mobility: self.mobility as int,
            slack: self.slack as int,
            output_gates: self.output_gates@.map_values(|w: i32| w as int),
            gate_map: self.gate_map,
        }
    }
}

/// The gates of a table as plain numbers, gate by gate.
pub open spec fn gate_views(gates: Seq<TableGate>) -> Seq<GateView> {
    Seq::new(gates.len(), |i: int| gates[i]@)
}

/// The wiring of gates given as plain numbers.
pub open spec fn nodes(gates: Seq<GateView>) -> Seq<Node> {
    Seq::new(gates.len(), |i: int| gates[i].node)
}

/// The wiring of a table of gates, gate by gate.
pub open spec fn netlist(gates: Seq<TableGate>) -> Seq<Node> {
    Seq::new(gates.len(), |i: int| gates[i].node())
}

/// Whether every gate of the table is well formed.
pub open spec fn gates_wf(gates: Seq<TableGate>) -> bool {
    forall|i: int| 0 <= i < gates.len() ==> (#[trigger] gates[i]).wf()
}

/// A circuit: the table of gates, the primary inputs, and the schedule maxima.
#[derive(Debug)]
pub struct Circuit {
    pub gates: Vec<TableGate>,
    pub num_gates: usize,
    /// Slot `i` holds the wire id of primary input `i`, or 0 if no gate reads it.
    pub primary_inputs: Vec<i32>,
    pub num_inputs: usize,
    pub num_outputs: usize,
    pub max_asap: i32,
    pub max_alap: i32,
    pub max_list: i32,
    pub max_resources: i32,
    pub bench_name: String,
}

/// A circuit as plain numbers: its gates, its counts and its schedule maxima.
pub struct CircuitView {
    pub gates: Seq<GateView>,
    pub num_gates: int,
    pub primary_inputs: Seq<int>,
    pub num_inputs: int,
    pub num_outputs: int,
    pub max_asap: int,
    pub max_alap: int,
    pub max_list: int,
    pub max_resources: int,
    pub bench_name: Seq<char>,
}

impl View for Circuit {
    type V = CircuitView;

    open spec fn view(&self) -> CircuitView {
        CircuitView {
            gates: gate_views(self.gates@),
            num_gates: self.num_gates as int,
            primary_inputs: self.primary_inputs@.map_values(|w: i32| w as int),
            num_inputs: self.num_inputs as int,
            num_outputs: self.num_outputs as int,
            max_asap: self.max_asap as int,
            max_alap: self.max_alap as int,
            max_list: self.max_list as int,
            max_resources: self.max_resources as int,
            bench_name: self.bench_name@,
        }
    }
}

/// The wiring of a table of gates is the wiring of its gates as numbers.
pub proof fn lemma_nodes_of_views(gates: Seq<TableGate>)
    ensures
        nodes(gate_views(gates)) == netlist(gates),
{
    assert(nodes(gate_views(gates)) =~= netlist(gates));
}

impl Circuit {
    /// A circuit is well formed when its counters match the table of gates, every
    /// gate is well formed, and sizes and schedule maxima are within limits.
    pub open spec fn wf(&self) -> bool {
        &&& self.num_gates == self.gates@.len()
        &&& self.gates@.len() <= MAX_GATES
        &&& gates_wf(self.gates@)
        &&& self.num_inputs <= MAX_PI
        &&& self.num_outputs <= self.gates@.len()
        &&& 0 <= self.max_asap <= MAX_GATES
        &&& 0 <= self.max_alap <= MAX_GATES
        &&& 0 <= self.max_list <= MAX_GATES
    }

    /// The wiring of the circuit's gates.
    pub open spec fn netlist(&self) -> Seq<Node> {
        netlist(self.gates@)
    }

    /// Whether `self` differs from `other` at most in the table of gates.
    pub open spec fn same_frame(&self, other: &Circuit) -> bool {
        &&& self.num_gates == other.num_gates
        &&& self.primary_inputs@ == other.primary_inputs@
        &&& self.num_inputs == other.num_inputs
        &&& self.num_outputs == other.num_outputs
        &&& self.max_asap == other.max_asap
        &&& self.max_alap == other.max_alap
        &&& self.max_list == other.max_list
        &&& self.max_resources == other.max_resources
        &&& self.bench_name@ == other.bench_name@
    }

    /// An empty circuit.
    pub fn new() -> (c: Self)
        ensures
            c.wf(),
            c.gates@.len() == 0,
            c.num_gates == 0,
            c.primary_inputs@.len() == 0,
            c.num_inputs == 0,
            c.num_outputs == 0,
            c.max_asap == 0,
            c.max_alap == 0,
            c.max_list == 0,
            c.max_resources == 0,
            c.bench_name@.len() == 0,
    {
        Circuit {
            gates: Vec::new(),
            num_gates: 0,
            primary_inputs: Vec::new(),
            num_inputs: 0,
            num_outputs: 0,
            max_asap: 0,
            max_alap: 0,
            max_list: 0,
            max_resources: 0,
            bench_name: String::new(),
        }
    }

    /// Runtime form of `wf`.
    pub fn is_well_formed(&self) -> (r: bool)
        ensures
            r == self.wf(),
    {
        let top = MAX_GATES as i32;
        if self.num_gates != self.gates.len() || self.gates.len() > MAX_GATES || self.num_inputs > MAX_PI
            || self.num_outputs > self.gates.len() || self.max_asap < 0 || self.max_asap > top
            || self.max_alap < 0 || self.max_alap > top || self.max_list < 0 || self.max_list > top {
            return false;
        }
        let n = self.gates.len();
        for i in 0..n
            invariant
                n == self.gates@.len(),
                forall|j: int| 0 <= j < i ==> (#[trigger] self.gates@[j]).wf(),
        {
            if !self.gates[i].is_well_formed() {
                return false;
            }
        }
        true
    }
}

} // verus!
