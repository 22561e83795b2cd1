//! The fixed point that gives every gate its level: pass after pass over the
//! table, each gate gets its level once its operands have theirs.
use vstd::prelude::*;
use crate::circuit::{Circuit, Node};
use crate::limits::MAX_GATES;
use crate::scheduler::{get_level, lemma_all_unset, levels_of, relevelled, reset_levels, Schedule, set_level};
use crate::scheduler::levels::{
    count_unset, first_driver, is_driven, is_leveling, is_partial_leveling, is_ready, is_stuck,
    lemma_count_unset_bounds, lemma_count_unset_update, lemma_driver_from, lemma_stuck_has_no_leveling,
    ready_level, schedulable, wire_level,
};

verus! {

/// What the fixed point keeps true of the levels it has given: they are a
/// level schedule as far as they go, and none exceeds the number of gates
/// that have one.
pub open spec fn pass_inv(net: Seq<Node>, lv: Seq<int>) -> bool {
    &&& is_partial_leveling(net, lv)
    &&& forall|i: int| 0 <= i < lv.len() ==> #[trigger] lv[i] <= net.len() - count_unset(lv)
}

/// Giving a ready gate its level keeps the fixed point's invariant.
proof fn lemma_assign_keeps_inv(net: Seq<Node>, lv: Seq<int>, i: int)
    requires
        pass_inv(net, lv),
        0 <= i < net.len(),
        lv[i] == -1,
        is_ready(net, lv, i),
    ensures
        pass_inv(net, lv.update(i, ready_level(net, lv, i))),
        1 <= ready_level(net, lv, i) <= net.len() - count_unset(lv) + 1,
        count_unset(lv.update(i, ready_level(net, lv, i))) == count_unset(lv) - 1,
{
    let v = ready_level(net, lv, i);
    let next = lv.update(i, v);
    lemma_count_unset_bounds(lv);
    assert forall|w: int| wire_level(net, lv, w) != -1 implies wire_level(net, next, w) == wire_level(net, lv, w)
        && 0 <= wire_level(net, lv, w) <= net.len() - count_unset(lv) by {
        lemma_driver_from(net, w, 0);
        if is_driven(net, w) {
            let p = first_driver(net, w);
            assert(lv[p] != -1);
            assert(lv[p] >= 1);
        }
    }
    assert(v >= 1);
    lemma_count_unset_update(lv, i, v);
    assert forall|j: int| 0 <= j < net.len() implies #[trigger] next[j] == -1 || (next[j] >= 1 && is_ready(
        net,
        next,
        j,
    ) && next[j] == ready_level(net, next, j)) by {
        if j != i {
            assert(next[j] == lv[j]);
            if lv[j] != -1 {
                assert(is_ready(net, lv, j));
            }
        }
    }
    assert forall|j: int| 0 <= j < next.len() implies #[trigger] next[j] <= net.len() - count_unset(next) by {
        if j != i {
            assert(next[j] == lv[j]);
        }
    }
}

/// One pass of the fixed point over the table of gates: every unassigned gate
/// whose operands have a level is given its own, until `cap` gates have
/// been (a `cap` below 1 is no limit). Returns how many gates it assigned.
fn assign_pass(circuit: &mut Circuit, which: Schedule, cap: i32) -> (count: usize)
    requires
        old(circuit).wf(),
        pass_inv(old(circuit).netlist(), levels_of(old(circuit).gates@, which)),
    ensures
        final(circuit).wf(),
        final(circuit).same_frame(old(circuit)),
        final(circuit).netlist() == old(circuit).netlist(),
        relevelled(old(circuit).gates@, final(circuit).gates@, which),
        pass_inv(old(circuit).netlist(), levels_of(final(circuit).gates@, which)),
        count_unset(levels_of(final(circuit).gates@, which)) + count == count_unset(
            levels_of(old(circuit).gates@, which),
        ),
        count == 0 ==> is_stuck(old(circuit).netlist(), levels_of(final(circuit).gates@, which)),
{
    let n = circuit.gates.len();
    let ghost net = circuit.netlist();
    let ghost start = levels_of(circuit.gates@, which);
    let mut count: usize = 0;
    let mut filled: bool = false;
    let mut i: usize = 0;
    proof {
        lemma_count_unset_bounds(start);
    }
    while i < n && !filled
        invariant
            i <= n,
            n == circuit.gates@.len(),
            n == old(circuit).gates@.len(),
            n <= MAX_GATES,
            circuit.wf(),
            circuit.same_frame(old(circuit)),
            circuit.netlist() == net,
            net == old(circuit).netlist(),
            start == levels_of(old(circuit).gates@, which),
            relevelled(old(circuit).gates@, circuit.gates@, which),
            pass_inv(net, levels_of(circuit.gates@, which)),
            count_unset(levels_of(circuit.gates@, which)) + count == count_unset(start),
            count_unset(start) <= n,
            filled ==> count > 0,
            count == 0 ==> levels_of(circuit.gates@, which) == start,
            count == 0 ==> forall|j: int| 0 <= j < i && #[trigger] start[j] == -1 ==> !is_ready(net, start, j),
        decreases n - i,
    {
        let ghost lv = levels_of(circuit.gates@, which);
        let ghost before = circuit.gates@;
        assert(before[i as int].wf());
        if which.get(&circuit.gates[i]) == -1 {
            let a = circuit.gates[i].inputs[0];
            let b = if circuit.gates[i].fanin >= 2 {
                circuit.gates[i].inputs[1]
            } else {
                a
            };
            let la = get_level(circuit, which, a);
            let lb = get_level(circuit, which, b);
            assert(net[i as int].a == a && net[i as int].b == b);
            if la != -1 && lb != -1 {
                proof {
                    lemma_assign_keeps_inv(net, lv, i as int);
                    lemma_count_unset_bounds(lv);
                }
                let v = if la >= lb {
                    la + 1
                } else {
                    lb + 1
                };
                set_level(circuit, which, i, v);
                count += 1;
                if cap >= 1 && count == cap as usize {
                    filled = true;
                }
                proof {
                    assert forall|j: int| 0 <= j < n implies (#[trigger] circuit.gates@[j]).wf() by {
                        assert(before[j].wf());
                    }
                    assert forall|j: int| 0 <= j < n implies #[trigger] circuit.gates@[j] == which.put(
                        old(circuit).gates@[j],
                        which.level(circuit.gates@[j]) as i32,
                    ) by {
                        assert(before[j] == which.put(old(circuit).gates@[j], which.level(before[j]) as i32));
                    }
                }
            }
        }
        i += 1;
    }
    count
}

/// Runs the fixed point of schedule `which` from scratch: all gates are
/// marked unassigned, then passes follow one another until every gate has a
/// level or a pass assigns none. Returns whether every gate has a level.
pub(crate) fn assign_levels(circuit: &mut Circuit, which: Schedule, cap: i32) -> (complete: bool)
    requires
        old(circuit).wf(),
    ensures
        final(circuit).wf(),
        final(circuit).same_frame(old(circuit)),
        final(circuit).netlist() == old(circuit).netlist(),
        relevelled(old(circuit).gates@, final(circuit).gates@, which),
        complete == schedulable(old(circuit).netlist()),
        complete ==> is_leveling(old(circuit).netlist(), levels_of(final(circuit).gates@, which)),
        is_partial_leveling(old(circuit).netlist(), levels_of(final(circuit).gates@, which)),
        !complete ==> is_stuck(old(circuit).netlist(), levels_of(final(circuit).gates@, which)),
{
    reset_levels(circuit, which);
    let ghost net = circuit.netlist();
    let n = circuit.gates.len();
    let mut remaining: usize = n;
    proof {
        lemma_all_unset(levels_of(circuit.gates@, which));
    }
    while remaining > 0
        invariant
            n == circuit.gates@.len(),
            circuit.wf(),
            circuit.same_frame(old(circuit)),
            circuit.netlist() == net,
            net == old(circuit).netlist(),
            relevelled(old(circuit).gates@, circuit.gates@, which),
            pass_inv(net, levels_of(circuit.gates@, which)),
            remaining == count_unset(levels_of(circuit.gates@, which)),
        decreases remaining,
    {
        let ghost before = circuit.gates@;
        let count = assign_pass(circuit, which, cap);
        proof {
            assert forall|j: int| 0 <= j < n implies #[trigger] circuit.gates@[j] == which.put(
                old(circuit).gates@[j],
                which.level(circuit.gates@[j]) as i32,
            ) by {
                assert(before[j] == which.put(old(circuit).gates@[j], which.level(before[j]) as i32));
                assert(circuit.gates@[j] == which.put(before[j], which.level(circuit.gates@[j]) as i32));
            }
        }
        if count == 0 {
            proof {
                let lv = levels_of(circuit.gates@, which);
                lemma_count_unset_bounds(lv);
                let g = choose|g: int| 0 <= g < lv.len() && #[trigger] lv[g] == -1;
                assert forall|full: Seq<int>| !is_leveling(net, full) by {
                    lemma_stuck_has_no_leveling(net, lv, full, g);
                }
            }
            return false;
        }
        remaining = remaining - count;
    }
    proof {
        let lv = levels_of(circuit.gates@, which);
        lemma_count_unset_bounds(lv);
        assert(is_leveling(net, lv));
    }
    true
}

} // verus!
