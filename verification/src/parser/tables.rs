//! Tables derived from the wiring of the gates: which primary inputs the
//! circuit reads, and which wires each gate's output feeds.
use vstd::prelude::*;
use crate::circuit::{Circuit, CircuitView, lemma_nodes_of_views, Node, nodes, TableGate};
use crate::error::SynthesisError;
use crate::limits::{MAX_GATES, MAX_PI};

verus! {

/// Whether some gate reads primary input `n`.
pub open spec fn reads_input(net: Seq<Node>, n: int) -> bool {
    exists|i: int| 0 <= i < net.len() && (#[trigger] net[i]).reads(MAX_GATES + n)
}

/// Whether `k` is the number of primary inputs of the netlist: one more than
/// the largest primary input that a gate reads, or 0 if none is read.
pub open spec fn is_input_count(net: Seq<Node>, k: int) -> bool {
    &&& k >= 0
    &&& forall|n: int| n >= k ==> !reads_input(net, n)
    &&& k > 0 ==> reads_input(net, k - 1)
}

/// The primary-input table of a netlist with `k` primary inputs: slot `n`
/// holds the wire id of input `n` where a gate reads it, and 0 elsewhere.
pub open spec fn input_table(net: Seq<Node>, k: int) -> Seq<int> {
    Seq::new(
        k as nat,
        |n: int|
            if reads_input(net, n) {
                MAX_GATES + n
            } else {
                0
            },
    )
}

/// The number of primary inputs that the first `i` gates call for.
fn count_inputs(circuit: &Circuit) -> (k: usize)
    requires
        circuit.wf(),
    ensures
        is_input_count(circuit.netlist(), k as int),
{
    let n = circuit.gates.len();
    let ghost net = circuit.netlist();
    let mut k: usize = 0;
    for i in 0..n
        invariant
            n == circuit.gates@.len(),
            circuit.wf(),
            net == circuit.netlist(),
            is_input_count(net.take(i as int), k as int),
    {
        let ghost before = net.take(i as int);
        let ghost after = net.take(i + 1);
        let ghost k0 = k;
        assert(circuit.gates@[i as int].wf());
        let a = circuit.gates[i].inputs[0];
        let b = if circuit.gates[i].fanin >= 2 {
            circuit.gates[i].inputs[1]
        } else {
            a
        };
        if a >= MAX_GATES as i32 && (a - MAX_GATES as i32) as usize >= k {
            k = (a - MAX_GATES as i32) as usize + 1;
        }
        if b >= MAX_GATES as i32 && (b - MAX_GATES as i32) as usize >= k {
            k = (b - MAX_GATES as i32) as usize + 1;
        }
        proof {
            assert(after[i as int] == net[i as int]);
            assert(net[i as int].a == a && net[i as int].b == b);
            assert forall|m: int| m >= k implies !reads_input(after, m) by {
                if reads_input(after, m) {
                    let w = choose|w: int| 0 <= w < after.len() && (#[trigger] after[w]).reads(MAX_GATES + m);
                    if w < i {
                        assert(before[w] == after[w]);
                        assert(reads_input(before, m));
                    }
                }
            }
            if k > 0 {
                if k == k0 {
                    let w = choose|w: int| 0 <= w < before.len() && (#[trigger] before[w]).reads(MAX_GATES + k0 - 1);
                    assert(after[w] == before[w]);
                } else {
                    assert(after[i as int].reads(MAX_GATES + k - 1));
                }
            }
        }
    }
    proof {
        assert(net.take(n as int) =~= net);
    }
    k
}

/// Whether the table `slots` is right for the first `i` gates: a slot holds
/// the wire id of its input where one of those gates reads it, else 0.
spec fn table_upto(net: Seq<Node>, slots: Seq<i32>, i: int) -> bool {
    forall|n: int|
        0 <= n < slots.len() ==> #[trigger] slots[n] == if reads_input(net.take(i), n) {
            MAX_GATES + n
        } else {
            0
        }
}

/// The number of primary inputs of a netlist.
pub open spec fn the_input_count(net: Seq<Node>) -> int {
    choose|k: int| is_input_count(net, k)
}

/// What finding the primary inputs makes of a circuit: their number is
/// recorded; `ResourceExhausted` where there are more than `MAX_PI`.
pub open spec fn inputs_view(v: CircuitView) -> Result<CircuitView, SynthesisError> {
    let k = the_input_count(nodes(v.gates));
    if k > MAX_PI {
        Err(SynthesisError::ResourceExhausted)
    } else {
        Ok(CircuitView { num_inputs: k, primary_inputs: input_table(nodes(v.gates), k), ..v })
    }
}

/// Finds the primary inputs of the circuit.
///
/// Primary inputs are numbered from 0. The number of inputs becomes one more
/// than the largest primary input that a gate reads, or 0 if no gate reads
/// one; an internal wire that no gate drives is not counted among them. The
/// table of primary inputs is rebuilt: slot `n` holds the wire id of input
/// `n` where a gate reads it, and 0 where the netlist skips it. A netlist
/// that reads a primary input at or beyond `MAX_PI` is refused with
/// `ResourceExhausted`, and the circuit is left as it was.
pub fn find_primary_inputs(circuit: &mut Circuit) -> (res: Result<(), SynthesisError>)
    requires
        old(circuit).wf(),
    ensures
        final(circuit).wf(),
        final(circuit).gates@ == old(circuit).gates@,
        match inputs_view(old(circuit)@) {
            Ok(v) => res is Ok && final(circuit)@ == v,
            Err(e) => res == Err::<(), SynthesisError>(e),
        },
        match res {
            Ok(_) => {
                &&& is_input_count(old(circuit).netlist(), final(circuit).num_inputs as int)
                &&& final(circuit).primary_inputs@.map_values(|v: i32| v as int) == input_table(
                    old(circuit).netlist(),
                    final(circuit).num_inputs as int,
                )
                &&& final(circuit).num_gates == old(circuit).num_gates
                &&& final(circuit).num_outputs == old(circuit).num_outputs
                &&& final(circuit).max_asap == old(circuit).max_asap
                &&& final(circuit).max_alap == old(circuit).max_alap
                &&& final(circuit).max_list == old(circuit).max_list
                &&& final(circuit).max_resources == old(circuit).max_resources
                &&& final(circuit).bench_name@ == old(circuit).bench_name@
            },
            Err(e) => {
                &&& e == SynthesisError::ResourceExhausted
                &&& *final(circuit) == *old(circuit)
            },
        },
        res is Err <==> exists|n: int| n >= MAX_PI && reads_input(old(circuit).netlist(), n),
{
    let k = count_inputs(circuit);
    let ghost net = circuit.netlist();
    proof {
        lemma_nodes_of_views(circuit.gates@);
        lemma_input_count_unique(net, k as int, the_input_count(net));
    }
    if k > MAX_PI {
        proof {
            assert(reads_input(net, k - 1));
        }
        return Err(SynthesisError::ResourceExhausted);
    }
    let mut slots: Vec<i32> = Vec::new();
    for n in 0..k
        invariant
            slots@.len() == n,
            forall|m: int| 0 <= m < n ==> slots@[m] == 0,
    {
        slots.push(0);
    }
    let count = circuit.gates.len();
    proof {
        assert forall|m: int| !reads_input(net.take(0), m) by {}
    }
    for i in 0..count
        invariant
            count == circuit.gates@.len(),
            circuit.wf(),
            *circuit == *old(circuit),
            net == circuit.netlist(),
            k <= MAX_PI,
            is_input_count(net, k as int),
            slots@.len() == k,
            table_upto(net, slots@, i as int),
    {
        let ghost before = net.take(i as int);
        let ghost after = net.take(i + 1);
        let ghost old_slots = slots@;
        assert(circuit.gates@[i as int].wf());
        let a = circuit.gates[i].inputs[0];
        let b = if circuit.gates[i].fanin >= 2 {
            circuit.gates[i].inputs[1]
        } else {
            a
        };
        proof {
            assert(after[i as int] == net[i as int]);
            assert(net[i as int].a == a && net[i as int].b == b);
            if a >= MAX_GATES {
                assert(net[i as int].reads(MAX_GATES + (a - MAX_GATES)));
                assert(reads_input(net, a - MAX_GATES));
            }
            if b >= MAX_GATES {
                assert(net[i as int].reads(MAX_GATES + (b - MAX_GATES)));
                assert(reads_input(net, b - MAX_GATES));
            }
        }
        if a >= MAX_GATES as i32 {
            slots[(a - MAX_GATES as i32) as usize] = a;
        }
        if b >= MAX_GATES as i32 {
            slots[(b - MAX_GATES as i32) as usize] = b;
        }
        proof {
            assert forall|m: int| 0 <= m < slots@.len() implies #[trigger] slots@[m] == if reads_input(after, m) {
                MAX_GATES + m
            } else {
                0
            } by {
                if reads_input(before, m) {
                    let w = choose|w: int| 0 <= w < before.len() && (#[trigger] before[w]).reads(MAX_GATES + m);
                    assert(after[w] == before[w]);
                    assert(old_slots[m] == MAX_GATES + m);
                } else if reads_input(after, m) {
                    let w = choose|w: int| 0 <= w < after.len() && (#[trigger] after[w]).reads(MAX_GATES + m);
                    if w < i {
                        assert(before[w] == after[w]);
                    }
                } else {
                    assert(old_slots[m] == 0);
                    if a - MAX_GATES == m || b - MAX_GATES == m {
                        assert(after[i as int].reads(MAX_GATES + m));
                    }
                }
            }
        }
    }
    circuit.num_inputs = k;
    circuit.primary_inputs = slots;
    proof {
        assert(net.take(count as int) =~= net);
        assert(circuit.primary_inputs@.map_values(|v: i32| v as int) =~= input_table(net, k as int));
    }
    Ok(())
}

/// What gate `k` adds to the fan-out list of a gate that drives wire `w`:
/// the wire that gate `k` drives, once for each operand on which it reads
/// `w`; nothing where gate `k` drives wire 0.
pub open spec fn feeds(g: Node, w: int) -> Seq<int> {
    let first = if g.a == w && g.out != 0 {
        seq![g.out]
    } else {
        Seq::empty()
    };
    if g.fanin >= 2 && g.b == w && g.out != 0 {
        first.push(g.out)
    } else {
        first
    }
}

/// The fan-out list of gate `i` over the first `k` gates: the wires driven
/// by the gates, other than gate `i` itself, that read its output, in table
/// order.
pub open spec fn fanout_before(net: Seq<Node>, i: int, k: int) -> Seq<int>
    decreases k,
{
    if k <= 0 {
        Seq::empty()
    } else if k - 1 == i {
        fanout_before(net, i, k - 1)
    } else {
        fanout_before(net, i, k - 1) + feeds(net[k - 1], net[i].out)
    }
}

/// The fan-out list of gate `i`.
pub open spec fn fanout(net: Seq<Node>, i: int) -> Seq<int> {
    fanout_before(net, i, net.len() as int)
}

/// Whether gate `g` is gate `h` with `more` appended to its fan-out list.
pub open spec fn with_fanout(g: TableGate, h: TableGate, more: Seq<int>) -> bool {
    &&& g.fanin == h.fanin
    &&& g.inputs == h.inputs
    &&& g.out == h.out
    &&& g.asap_level == h.asap_level
    &&& g.alap_level == h.alap_level
    &&& g.list_level == h.list_level
    &&& g.list_time == h.list_time
    &&& g.mobility == h.mobility
    &&& g.slack == h.slack
    &&& g.is_output == h.is_output
    &&& g.gate_map == h.gate_map
    &&& g.output_gates@.map_values(|v: i32| v as int) == h.output_gates@.map_values(|v: i32| v as int) + more
}

/// Appends to the fan-out list of gate `i` the wires that gate `k` feeds.
fn note_reader(circuit: &mut Circuit, i: usize, k: usize)
    requires
        old(circuit).wf(),
        i < old(circuit).gates@.len(),
        k < old(circuit).gates@.len(),
        i != k,
    ensures
        final(circuit).gates@.len() == old(circuit).gates@.len(),
        final(circuit).same_frame(old(circuit)),
        forall|m: int| 0 <= m < old(circuit).gates@.len() && m != i ==> final(circuit).gates@[m] == old(
            circuit,
        ).gates@[m],
        with_fanout(
            final(circuit).gates@[i as int],
            old(circuit).gates@[i as int],
            feeds(old(circuit).netlist()[k as int], old(circuit).gates@[i as int].out as int),
        ),
{
    assert(circuit.gates@[k as int].wf());
    let w = circuit.gates[i].out;
    let out = circuit.gates[k].out;
    let fanin = circuit.gates[k].fanin;
    let a = circuit.gates[k].inputs[0];
    let ghost list = circuit.gates@[i as int].output_gates@.map_values(|v: i32| v as int);
    if a == w && out != 0 {
        let ghost was = circuit.gates@[i as int].output_gates@;
        circuit.gates[i].output_gates.push(out);
        assert(circuit.gates@[i as int].output_gates@.map_values(|v: i32| v as int) =~= was.map_values(
            |v: i32| v as int,
        ).push(out as int));
    }
    if fanin >= 2 {
        let b = circuit.gates[k].inputs[1];
        if b == w && out != 0 {
            let ghost was = circuit.gates@[i as int].output_gates@;
            circuit.gates[i].output_gates.push(out);
            assert(circuit.gates@[i as int].output_gates@.map_values(|v: i32| v as int) =~= was.map_values(
                |v: i32| v as int,
            ).push(out as int));
        }
    }
    proof {
        let more = feeds(old(circuit).netlist()[k as int], w as int);
        assert(circuit.gates@[i as int].output_gates@.map_values(|v: i32| v as int) =~= list + more);
    }
}

/// Records, for every gate, the wires that its output feeds.
///
/// To the fan-out list of each gate are appended the wires driven by the
/// other gates that read its output, in table order, once for each operand
/// that reads it; a reader that drives wire 0 is not recorded. Nothing else
/// in the circuit changes.
pub fn find_gate_outputs(circuit: &mut Circuit)
    requires
        old(circuit).wf(),
    ensures
        final(circuit).wf(),
        final(circuit).same_frame(old(circuit)),
        final(circuit).gates@.len() == old(circuit).gates@.len(),
        forall|i: int|
            0 <= i < old(circuit).gates@.len() ==> with_fanout(
                #[trigger] final(circuit).gates@[i],
                old(circuit).gates@[i],
                fanout(old(circuit).netlist(), i),
            ),
{
    let n = circuit.gates.len();
    let ghost net = circuit.netlist();
    for i in 0..n
        invariant
            n == circuit.gates@.len(),
            n == old(circuit).gates@.len(),
            circuit.wf(),
            circuit.same_frame(old(circuit)),
            net == old(circuit).netlist(),
            net == circuit.netlist(),
            forall|m: int| 0 <= m < i ==> with_fanout(
                #[trigger] circuit.gates@[m],
                old(circuit).gates@[m],
                fanout(net, m),
            ),
            forall|m: int| i <= m < n ==> circuit.gates@[m] == old(circuit).gates@[m],
    {
        let ghost start = circuit.gates@;
        proof {
            assert(start[i as int].output_gates@.map_values(|v: i32| v as int) + Seq::<int>::empty()
                =~= start[i as int].output_gates@.map_values(|v: i32| v as int));
        }
        for k in 0..n
            invariant
                i < n,
                n == circuit.gates@.len(),
                n == start.len(),
                circuit.wf(),
                circuit.same_frame(old(circuit)),
                net == circuit.netlist(),
                forall|m: int| 0 <= m < n && m != i ==> circuit.gates@[m] == start[m],
                with_fanout(circuit.gates@[i as int], start[i as int], fanout_before(net, i as int, k as int)),
        {
            if k != i {
                let ghost mid = circuit.gates@;
                let ghost sofar = fanout_before(net, i as int, k as int);
                note_reader(circuit, i, k);
                proof {
                    let more = feeds(net[k as int], net[i as int].out);
                    assert(mid[i as int].out == net[i as int].out);
                    assert((start[i as int].output_gates@.map_values(|v: i32| v as int) + sofar) + more
                        =~= start[i as int].output_gates@.map_values(|v: i32| v as int) + (sofar + more));
                    assert(circuit.netlist() =~= net);
                    assert forall|m: int| 0 <= m < n implies (#[trigger] circuit.gates@[m]).wf() by {
                        assert(mid[m].wf());
                    }
                }
            }
        }
    }
}

/// A netlist has one number of primary inputs.
pub proof fn lemma_input_count_unique(net: Seq<Node>, k: int, m: int)
    requires
        is_input_count(net, k),
        is_input_count(net, m),
    ensures
        k == m,
{
    if k < m {
        assert(reads_input(net, m - 1));
    }
    if m < k {
        assert(reads_input(net, k - 1));
    }
}

} // verus!
