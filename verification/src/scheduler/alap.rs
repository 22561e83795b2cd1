//! The ALAP schedule: every gate fires as late as the gates that read its
//! output allow.
use vstd::prelude::*;
use crate::circuit::{Circuit, CircuitView, lemma_nodes_of_views, Node, nodes};
use crate::error::SynthesisError;
use crate::limits::MAX_GATES;
use crate::scheduler::{
    all_labeled, get_level, is_pi, is_po, lemma_all_unset, lemma_count_full, lemma_relevelled_views,
    levels_of, relevelled, reset_levels, Schedule, set_level, top_level, with_levels,
};
use crate::scheduler::depths::{
    before_readers, consumes, depth_inv, depth_ok, depths_stuck, has_depths, is_alap_leveling, is_depths,
    is_partial_depths, lemma_alap_unique, lemma_depth_assign, lemma_stuck_has_no_depths, meets_reader,
    readers_set,
};
use crate::scheduler::levels::{
    count_unset, first_driver, is_driven, is_read, lemma_count_unset_bounds, lemma_count_unset_update,
    lemma_driver_from, lemma_peak, peak,
};

verus! {

/// The ALAP schedule of a netlist that has one, and its number of levels.
pub open spec fn the_alap(net: Seq<Node>) -> (Seq<int>, int) {
    choose|p: (Seq<int>, int)| is_alap_leveling(net, p.0, p.1)
}

/// What the ALAP scheduler makes of a circuit: every gate at the level of
/// the netlist's ALAP schedule, and the number of levels recorded; `Cycle`
/// for a netlist without one.
pub open spec fn alap_view(v: CircuitView) -> Result<CircuitView, SynthesisError> {
    let net = nodes(v.gates);
    if has_depths(net) {
        let p = the_alap(net);
        Ok(CircuitView { gates: with_levels(v.gates, Schedule::Alap, p.0), max_alap: p.1, ..v })
    } else {
        Err(SynthesisError::Cycle)
    }
}

/// The ALAP level of wire `line_id`: 0 for a primary output, which no gate
/// reads; else the ALAP level of the first gate that drives it; -1 for a
/// wire that is read and that no gate drives.
pub fn get_alap_level(circuit: &Circuit, line_id: i32) -> (v: i32)
    requires
        circuit.wf(),
    ensures
        v == if !is_read(circuit.netlist(), line_id as int) {
            0
        } else if is_driven(circuit.netlist(), line_id as int) {
            circuit.gates@[first_driver(circuit.netlist(), line_id as int)].alap_level as int
        } else {
            -1
        },
{
    if is_po(circuit, line_id) {
        return 0;
    }
    if is_pi(circuit, line_id) {
        return -1;
    }
    proof {
        lemma_driver_from(circuit.netlist(), line_id as int, 0);
    }
    get_level(circuit, Schedule::Alap, line_id)
}

/// Whether every gate has an ALAP level.
pub fn all_alap_labeled(circuit: &Circuit) -> (r: bool)
    ensures
        r == forall|i: int| 0 <= i < circuit.gates@.len() ==> (#[trigger] circuit.gates@[i]).alap_level != -1,
{
    let r = all_labeled(circuit, Schedule::Alap);
    proof {
        assert forall|i: int| 0 <= i < circuit.gates@.len() implies (levels_of(circuit.gates@, Schedule::Alap)[i] != -1)
            == ((#[trigger] circuit.gates@[i]).alap_level != -1) by {}
        if r {
            assert forall|i: int| 0 <= i < circuit.gates@.len() implies (#[trigger] circuit.gates@[i]).alap_level != -1 by {
                assert(levels_of(circuit.gates@, Schedule::Alap)[i] != -1);
            }
        }
    }
    r
}

/// Whether every gate that reads wire `line_id` has an ALAP level.
fn readers_labeled(circuit: &Circuit, line_id: i32) -> (r: bool)
    requires
        circuit.wf(),
    ensures
        r == readers_set(circuit.netlist(), levels_of(circuit.gates@, Schedule::Alap), line_id as int),
{
    let n = circuit.gates.len();
    let ghost net = circuit.netlist();
    let ghost d = levels_of(circuit.gates@, Schedule::Alap);
    for c in 0..n
        invariant
            n == circuit.gates@.len(),
            circuit.wf(),
            net == circuit.netlist(),
            d == levels_of(circuit.gates@, Schedule::Alap),
            forall|j: int| 0 <= j < c && (#[trigger] net[j]).reads(line_id as int) ==> d[j] != -1,
    {
        assert(circuit.gates@[c as int].wf());
        let reads = circuit.gates[c].inputs[0] == line_id || (circuit.gates[c].fanin >= 2
            && circuit.gates[c].inputs[1] == line_id);
        assert(reads == net[c as int].reads(line_id as int));
        if reads && circuit.gates[c].alap_level == -1 {
            assert(d[c as int] == -1);
            return false;
        }
    }
    true
}

/// Raises the ALAP level of gate `index` above the levels of the gates that
/// read wire `line_id` and have a level: it becomes one more than the
/// largest of them where that is more than it was.
fn update_alap(circuit: &mut Circuit, index: usize, line_id: i32)
    requires
        old(circuit).wf(),
        index < old(circuit).gates@.len(),
        !old(circuit).netlist()[index as int].reads(line_id as int),
        forall|c: int|
            0 <= c < old(circuit).gates@.len() ==> (#[trigger] old(circuit).gates@[c]).alap_level < MAX_GATES,
    ensures
        final(circuit).same_frame(old(circuit)),
        final(circuit).netlist() == old(circuit).netlist(),
        final(circuit).gates@ == old(circuit).gates@.update(
            index as int,
            Schedule::Alap.put(old(circuit).gates@[index as int], final(circuit).gates@[index as int].alap_level),
        ),
        ({
            let net = old(circuit).netlist();
            let d = levels_of(old(circuit).gates@, Schedule::Alap);
            let v = final(circuit).gates@[index as int].alap_level as int;
            &&& v >= d[index as int]
            &&& v <= MAX_GATES
            &&& forall|c: int| 0 <= c < net.len() && (#[trigger] net[c]).reads(line_id as int) && d[c] != -1 ==> d[c] + 1 <= v
            &&& v == d[index as int] || exists|c: int|
                0 <= c < net.len() && (#[trigger] net[c]).reads(line_id as int) && d[c] != -1 && d[c] + 1 == v
        }),
{
    let n = circuit.gates.len();
    let ghost net = circuit.netlist();
    let ghost d = levels_of(circuit.gates@, Schedule::Alap);
    assert(circuit.gates@[index as int].wf());
    let mut v: i32 = circuit.gates[index].alap_level;
    for j in 0..n
        invariant
            n == circuit.gates@.len(),
            index < n,
            circuit.wf(),
            *circuit == *old(circuit),
            net == circuit.netlist(),
            d == levels_of(circuit.gates@, Schedule::Alap),
            forall|c: int| 0 <= c < n ==> (#[trigger] circuit.gates@[c]).alap_level < MAX_GATES,
            d[index as int] <= v <= MAX_GATES,
            forall|c: int| 0 <= c < j && (#[trigger] net[c]).reads(line_id as int) && d[c] != -1 ==> d[c] + 1 <= v,
            v == d[index as int] || exists|c: int|
                0 <= c < j && (#[trigger] net[c]).reads(line_id as int) && d[c] != -1 && d[c] + 1 == v,
    {
        assert(circuit.gates@[j as int].wf());
        let reads = circuit.gates[j].inputs[0] == line_id || (circuit.gates[j].fanin >= 2
            && circuit.gates[j].inputs[1] == line_id);
        assert(reads == net[j as int].reads(line_id as int));
        let level = circuit.gates[j].alap_level;
        assert(level == d[j as int]);
        if reads && level != -1 && v <= level {
            v = level + 1;
        }
    }
    set_level(circuit, Schedule::Alap, index, v);
}

/// Gives gate `g`, whose readers all have a depth, its own.
fn assign_depth(circuit: &mut Circuit, g: usize)
    requires
        old(circuit).wf(),
        g < old(circuit).gates@.len(),
        depth_inv(old(circuit).netlist(), levels_of(old(circuit).gates@, Schedule::Alap)),
        old(circuit).gates@[g as int].alap_level == -1,
        readers_set(
            old(circuit).netlist(),
            levels_of(old(circuit).gates@, Schedule::Alap),
            old(circuit).gates@[g as int].out as int,
        ),
    ensures
        final(circuit).wf(),
        final(circuit).same_frame(old(circuit)),
        final(circuit).netlist() == old(circuit).netlist(),
        relevelled(old(circuit).gates@, final(circuit).gates@, Schedule::Alap),
        depth_inv(old(circuit).netlist(), levels_of(final(circuit).gates@, Schedule::Alap)),
        count_unset(levels_of(final(circuit).gates@, Schedule::Alap)) + 1 == count_unset(
            levels_of(old(circuit).gates@, Schedule::Alap),
        ),
{
    let ghost net = circuit.netlist();
    let ghost d = levels_of(circuit.gates@, Schedule::Alap);
    let ghost before = circuit.gates@;
    let n = circuit.gates.len();
    let out = circuit.gates[g].out;
    proof {
        lemma_count_unset_bounds(d);
        assert(d[g as int] == -1);
        assert(net[g as int].out == out);
        assert(!net[g as int].reads(out as int));
        assert forall|c: int| 0 <= c < n implies (#[trigger] circuit.gates@[c]).alap_level < MAX_GATES by {
            assert(d[c] <= net.len() - count_unset(d));
        }
    }
    update_alap(circuit, g, out);
    proof {
        let v = circuit.gates@[g as int].alap_level as int;
        assert(is_read(net, net[g as int].out));
        let r = choose|r: int| 0 <= r < net.len() && (#[trigger] net[r]).reads(net[g as int].out);
        assert(d[r] != -1);
        assert(depth_ok(net, d, r));
        assert(v >= 2);
        let c = choose|c: int| 0 <= c < net.len() && (#[trigger] net[c]).reads(out as int) && d[c] != -1 && d[c] + 1 == v;
        assert(consumes(net, c, g as int) && d[c] + 1 == v);
        assert forall|c: int| #[trigger] consumes(net, c, g as int) implies d[c] + 1 <= v by {
            assert(net[c].reads(out as int));
            assert(d[c] != -1);
        }
        lemma_depth_assign(net, d, g as int, v);
        assert(levels_of(circuit.gates@, Schedule::Alap) =~= d.update(g as int, v));
        assert forall|j: int| 0 <= j < n implies (#[trigger] circuit.gates@[j]).wf() by {
            assert(before[j].wf());
        }
    }
}

/// One pass of the ALAP fixed point: every unassigned gate whose readers all
/// have a depth is given its own. Returns how many gates it assigned.
fn depth_pass(circuit: &mut Circuit) -> (count: usize)
    requires
        old(circuit).wf(),
        depth_inv(old(circuit).netlist(), levels_of(old(circuit).gates@, Schedule::Alap)),
    ensures
        final(circuit).wf(),
        final(circuit).same_frame(old(circuit)),
        final(circuit).netlist() == old(circuit).netlist(),
        relevelled(old(circuit).gates@, final(circuit).gates@, Schedule::Alap),
        depth_inv(old(circuit).netlist(), levels_of(final(circuit).gates@, Schedule::Alap)),
        count_unset(levels_of(final(circuit).gates@, Schedule::Alap)) + count == count_unset(
            levels_of(old(circuit).gates@, Schedule::Alap),
        ),
        count == 0 ==> depths_stuck(old(circuit).netlist(), levels_of(final(circuit).gates@, Schedule::Alap)),
{
    let n = circuit.gates.len();
    let ghost net = circuit.netlist();
    let ghost start = levels_of(circuit.gates@, Schedule::Alap);
    let mut count: usize = 0;
    proof {
        lemma_count_unset_bounds(start);
    }
    for g in 0..n
        invariant
            n == circuit.gates@.len(),
            n == old(circuit).gates@.len(),
            circuit.wf(),
            circuit.same_frame(old(circuit)),
            circuit.netlist() == net,
            net == old(circuit).netlist(),
            relevelled(old(circuit).gates@, circuit.gates@, Schedule::Alap),
            depth_inv(net, levels_of(circuit.gates@, Schedule::Alap)),
            count_unset(levels_of(circuit.gates@, Schedule::Alap)) + count == count_unset(start),
            count_unset(start) <= n,
            count == 0 ==> levels_of(circuit.gates@, Schedule::Alap) == start,
            count == 0 ==> forall|j: int| 0 <= j < g && #[trigger] start[j] == -1 ==> !readers_set(net, start, net[j].out),
    {
        let ghost before = circuit.gates@;
        if circuit.gates[g].alap_level == -1 {
            let out = circuit.gates[g].out;
            assert(net[g as int].out == out);
            if readers_labeled(circuit, out) {
                assign_depth(circuit, g);
                count += 1;
                proof {
                    assert forall|j: int| 0 <= j < n implies #[trigger] circuit.gates@[j] == Schedule::Alap.put(
                        old(circuit).gates@[j],
                        Schedule::Alap.level(circuit.gates@[j]) as i32,
                    ) by {
                        assert(before[j] == Schedule::Alap.put(old(circuit).gates@[j], Schedule::Alap.level(before[j]) as i32));
                        assert(circuit.gates@[j] == Schedule::Alap.put(before[j], Schedule::Alap.level(circuit.gates@[j]) as i32));
                    }
                }
            }
        }
    }
    count
}

/// Whether, of the first `g` gates, those whose output no gate reads have
/// depth 1, and every other gate is unassigned.
spec fn outputs_labeled(net: Seq<Node>, d: Seq<int>, g: int) -> bool {
    &&& d.len() == net.len()
    &&& forall|j: int|
        0 <= j < net.len() ==> #[trigger] d[j] == if j < g && !is_read(net, net[j].out) {
            1
        } else {
            -1int
        }
}

/// Depth 1 for the gates that no gate reads is a sound start of the fixed point.
proof fn lemma_outputs_labeled(net: Seq<Node>, d: Seq<int>)
    requires
        outputs_labeled(net, d, net.len() as int),
    ensures
        depth_inv(net, d),
{
    lemma_count_unset_bounds(d);
    assert forall|g: int| 0 <= g < net.len() implies #[trigger] d[g] == -1 || depth_ok(net, d, g) by {
        if d[g] != -1 {
            assert forall|c: int| #[trigger] consumes(net, c, g) implies d[c] != -1 && d[c] + 1 <= d[g] by {
                assert(net[c].reads(net[g].out));
            }
        }
    }
    assert forall|j: int| 0 <= j < d.len() implies #[trigger] d[j] <= net.len() - count_unset(d) by {
        if d[j] == 1 && count_unset(d) == net.len() {
            lemma_count_full(d, j);
        }
    }
}

/// The first step of the ALAP fixed point: every gate is unassigned but
/// those whose output no gate reads, which get depth 1. Returns the number
/// of gates left unassigned.
fn label_outputs(circuit: &mut Circuit) -> (remaining: usize)
    requires
        old(circuit).wf(),
    ensures
        final(circuit).wf(),
        final(circuit).same_frame(old(circuit)),
        final(circuit).netlist() == old(circuit).netlist(),
        relevelled(old(circuit).gates@, final(circuit).gates@, Schedule::Alap),
        depth_inv(old(circuit).netlist(), levels_of(final(circuit).gates@, Schedule::Alap)),
        remaining == count_unset(levels_of(final(circuit).gates@, Schedule::Alap)),
{
    reset_levels(circuit, Schedule::Alap);
    let ghost net = circuit.netlist();
    let n = circuit.gates.len();
    let mut remaining: usize = n;
    proof {
        lemma_all_unset(levels_of(circuit.gates@, Schedule::Alap));
    }
    for g in 0..n
        invariant
            n == circuit.gates@.len(),
            n == old(circuit).gates@.len(),
            circuit.wf(),
            circuit.same_frame(old(circuit)),
            circuit.netlist() == net,
            net == old(circuit).netlist(),
            relevelled(old(circuit).gates@, circuit.gates@, Schedule::Alap),
            outputs_labeled(net, levels_of(circuit.gates@, Schedule::Alap), g as int),
            remaining == count_unset(levels_of(circuit.gates@, Schedule::Alap)),
            remaining <= n,
    {
        let ghost d = levels_of(circuit.gates@, Schedule::Alap);
        let ghost before = circuit.gates@;
        let out = circuit.gates[g].out;
        if is_po(circuit, out) {
            proof {
                assert(d[g as int] == -1);
                lemma_count_unset_update(d, g as int, 1);
                lemma_count_unset_bounds(d);
            }
            set_level(circuit, Schedule::Alap, g, 1);
            remaining = remaining - 1;
            proof {
                assert forall|j: int| 0 <= j < n implies (#[trigger] circuit.gates@[j]).wf() by {
                    assert(before[j].wf());
                }
                assert forall|j: int| 0 <= j < n implies #[trigger] circuit.gates@[j] == Schedule::Alap.put(
                    old(circuit).gates@[j],
                    Schedule::Alap.level(circuit.gates@[j]) as i32,
                ) by {
                    assert(before[j] == Schedule::Alap.put(
                        old(circuit).gates@[j],
                        Schedule::Alap.level(before[j]) as i32,
                    ));
                }
            }
        }
    }
    proof {
        lemma_outputs_labeled(net, levels_of(circuit.gates@, Schedule::Alap));
    }
    remaining
}

/// Runs the ALAP fixed point from scratch: the gates that no gate reads get
/// depth 1, then passes follow one another until every gate has a depth or
/// a pass assigns none. Returns whether every gate has a depth.
fn assign_depths(circuit: &mut Circuit) -> (complete: bool)
    requires
        old(circuit).wf(),
    ensures
        final(circuit).wf(),
        final(circuit).same_frame(old(circuit)),
        final(circuit).netlist() == old(circuit).netlist(),
        relevelled(old(circuit).gates@, final(circuit).gates@, Schedule::Alap),
        complete == has_depths(old(circuit).netlist()),
        complete ==> is_depths(old(circuit).netlist(), levels_of(final(circuit).gates@, Schedule::Alap)),
        is_partial_depths(old(circuit).netlist(), levels_of(final(circuit).gates@, Schedule::Alap)),
        !complete ==> depths_stuck(old(circuit).netlist(), levels_of(final(circuit).gates@, Schedule::Alap)),
{
    let ghost net = circuit.netlist();
    let n = circuit.gates.len();
    let mut remaining: usize = label_outputs(circuit);
    while remaining > 0
        invariant
            n == circuit.gates@.len(),
            circuit.wf(),
            circuit.same_frame(old(circuit)),
            circuit.netlist() == net,
            net == old(circuit).netlist(),
            relevelled(old(circuit).gates@, circuit.gates@, Schedule::Alap),
            depth_inv(net, levels_of(circuit.gates@, Schedule::Alap)),
            remaining == count_unset(levels_of(circuit.gates@, Schedule::Alap)),
        decreases remaining,
    {
        let ghost before = circuit.gates@;
        let count = depth_pass(circuit);
        proof {
            assert forall|j: int| 0 <= j < n implies #[trigger] circuit.gates@[j] == Schedule::Alap.put(
                old(circuit).gates@[j],
                Schedule::Alap.level(circuit.gates@[j]) as i32,
            ) by {
                assert(before[j] == Schedule::Alap.put(old(circuit).gates@[j], Schedule::Alap.level(before[j]) as i32));
                assert(circuit.gates@[j] == Schedule::Alap.put(before[j], Schedule::Alap.level(circuit.gates@[j]) as i32));
            }
        }
        if count == 0 {
            proof {
                let d = levels_of(circuit.gates@, Schedule::Alap);
                lemma_count_unset_bounds(d);
                let g = choose|g: int| 0 <= g < d.len() && #[trigger] d[g] == -1;
                assert forall|full: Seq<int>| !is_depths(net, full) by {
                    lemma_stuck_has_no_depths(net, d, full, g);
                }
            }
            return false;
        }
        remaining = remaining - count;
    }
    proof {
        let d = levels_of(circuit.gates@, Schedule::Alap);
        lemma_count_unset_bounds(d);
        assert forall|g: int| 0 <= g < net.len() implies #[trigger] depth_ok(net, d, g) by {
            assert(d[g] != -1);
        }
        assert(is_depths(net, d));
    }
    true
}

/// Computes the ALAP schedule.
///
/// A gate whose output no gate reads drives a primary output and fires at
/// the last level; every other gate fires one level before the earliest of
/// the gates that read its output. `max_alap` becomes the number of levels,
/// which is the length of the longest chain of gates, and some gate fires at
/// level 1. Nothing but the ALAP levels and `max_alap` changes.
///
/// A netlist in which a gate's output reaches that gate itself has no such
/// schedule and is refused with `Cycle`; `max_alap` then stays, and the ALAP
/// levels hold the depths that could be found: the length of the longest
/// chain from a gate to a primary output, or -1.
pub fn compute_alap_schedule(circuit: &mut Circuit) -> (res: Result<(), SynthesisError>)
    requires
        old(circuit).wf(),
    ensures
        final(circuit).wf(),
        final(circuit).netlist() == old(circuit).netlist(),
        relevelled(old(circuit).gates@, final(circuit).gates@, Schedule::Alap),
        final(circuit).num_gates == old(circuit).num_gates,
        final(circuit).primary_inputs@ == old(circuit).primary_inputs@,
        final(circuit).num_inputs == old(circuit).num_inputs,
        final(circuit).num_outputs == old(circuit).num_outputs,
        final(circuit).max_asap == old(circuit).max_asap,
        final(circuit).max_list == old(circuit).max_list,
        final(circuit).max_resources == old(circuit).max_resources,
        final(circuit).bench_name@ == old(circuit).bench_name@,
        res is Ok <==> has_depths(old(circuit).netlist()),
        match alap_view(old(circuit)@) {
            Ok(v) => res is Ok && final(circuit)@ == v,
            Err(e) => res == Err::<(), SynthesisError>(e),
        },
        match res {
            Ok(_) => is_alap_leveling(
                old(circuit).netlist(),
                levels_of(final(circuit).gates@, Schedule::Alap),
                final(circuit).max_alap as int,
            ),
            Err(e) => {
                &&& e == SynthesisError::Cycle
                &&& final(circuit).max_alap == old(circuit).max_alap
                &&& is_partial_depths(old(circuit).netlist(), levels_of(final(circuit).gates@, Schedule::Alap))
                &&& depths_stuck(old(circuit).netlist(), levels_of(final(circuit).gates@, Schedule::Alap))
            },
        },
{
    let ghost net = circuit.netlist();
    let n = circuit.gates.len();
    proof {
        lemma_nodes_of_views(old(circuit).gates@);
    }
    if !assign_depths(circuit) {
        return Err(SynthesisError::Cycle);
    }
    let m = top_level(circuit, Schedule::Alap);
    let ghost d = levels_of(circuit.gates@, Schedule::Alap);
    let ghost labeled = circuit.gates@;
    proof {
        lemma_peak(d);
        assert forall|g: int| 0 <= g < net.len() implies 1 <= #[trigger] d[g] by {
            assert(depth_ok(net, d, g));
        }
    }
    for g in 0..n
        invariant
            n == circuit.gates@.len(),
            n == labeled.len(),
            circuit.wf(),
            circuit.same_frame(old(circuit)),
            circuit.netlist() == net,
            d == levels_of(labeled, Schedule::Alap),
            m == peak(d),
            0 <= m <= MAX_GATES,
            forall|j: int| 0 <= j < n ==> 1 <= #[trigger] d[j] <= m,
            relevelled(old(circuit).gates@, labeled, Schedule::Alap),
            forall|j: int| 0 <= j < g ==> #[trigger] circuit.gates@[j] == Schedule::Alap.put(labeled[j], (m - d[j] + 1) as i32),
            forall|j: int| g <= j < n ==> #[trigger] circuit.gates@[j] == labeled[j],
    {
        let ghost before = circuit.gates@;
        assert(d[g as int] == labeled[g as int].alap_level);
        let v = m - circuit.gates[g].alap_level + 1;
        set_level(circuit, Schedule::Alap, g, v);
        proof {
            assert forall|j: int| 0 <= j < n implies (#[trigger] circuit.gates@[j]).wf() by {
                assert(before[j].wf());
            }
        }
    }
    circuit.max_alap = m;
    proof {
        let al = levels_of(circuit.gates@, Schedule::Alap);
        assert forall|j: int| 0 <= j < n implies #[trigger] circuit.gates@[j] == Schedule::Alap.put(
            old(circuit).gates@[j],
            Schedule::Alap.level(circuit.gates@[j]) as i32,
        ) by {
            assert(labeled[j] == Schedule::Alap.put(old(circuit).gates@[j], Schedule::Alap.level(labeled[j]) as i32));
            assert(circuit.gates@[j] == Schedule::Alap.put(labeled[j], (m - d[j] + 1) as i32));
        }
        assert forall|j: int| 0 <= j < n implies #[trigger] al[j] == m - d[j] + 1 by {
            assert(circuit.gates@[j] == Schedule::Alap.put(labeled[j], (m - d[j] + 1) as i32));
        }
        if n > 0 {
            assert(d[0] >= 1);
            let top = choose|i: int| 0 <= i < d.len() && #[trigger] d[i] == peak(d);
            assert(al[top] == 1);
        }
        assert forall|g: int| 0 <= g < net.len() implies 1 <= #[trigger] al[g] <= m && before_readers(net, al, g)
            && if is_read(net, net[g].out) {
            meets_reader(net, al, g)
        } else {
            al[g] == m
        } by {
            assert(depth_ok(net, d, g));
            assert forall|c: int| #[trigger] consumes(net, c, g) implies al[g] <= al[c] - 1 by {
                assert(d[c] + 1 <= d[g]);
            }
            if is_read(net, net[g].out) {
                let r = choose|r: int| 0 <= r < net.len() && (#[trigger] net[r]).reads(net[g].out);
                assert(consumes(net, r, g));
                assert(d[r] >= 1) by {
                    assert(d[r] != -1);
                }
                let c = choose|c: int| #[trigger] consumes(net, c, g) && d[c] + 1 == d[g];
                assert(consumes(net, c, g) && al[g] == al[c] - 1);
            } else {
                if d[g] != 1 {
                    let c = choose|c: int| #[trigger] consumes(net, c, g) && d[c] + 1 == d[g];
                    assert(net[c].reads(net[g].out));
                }
            }
        }
    }
    proof {
        let al = levels_of(circuit.gates@, Schedule::Alap);
        let p = the_alap(net);
        assert(is_alap_leveling(net, (al, m as int).0, (al, m as int).1));
        lemma_alap_unique(net, al, m as int, p.0, p.1);
        lemma_relevelled_views(old(circuit).gates@, circuit.gates@, Schedule::Alap);
    }
    Ok(())
}

} // verus!
