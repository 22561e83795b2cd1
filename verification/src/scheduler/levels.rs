//! Level schedules of a netlist: what they are, that a netlist has at most
//! one, and that a fixed point which is stuck proves there is none.
use vstd::prelude::*;
use crate::circuit::Node;

verus! {

/// The index of the first gate from `i` on that drives wire `w`, or the
/// number of gates where there is none.
pub open spec fn driver_from(net: Seq<Node>, w: int, i: int) -> int
    decreases net.len() - i,
{
    if 0 <= i < net.len() && net[i].out != w {
        driver_from(net, w, i + 1)
    } else if i < net.len() {
        i
    } else {
        net.len() as int
    }
}

/// The index of the first gate that drives wire `w`, or the number of gates
/// where no gate drives it.
pub open spec fn first_driver(net: Seq<Node>, w: int) -> int {
    driver_from(net, w, 0)
}

/// Whether some gate drives wire `w`. A wire that no gate drives is a
/// primary input of the netlist.
pub open spec fn is_driven(net: Seq<Node>, w: int) -> bool {
    first_driver(net, w) < net.len()
}

/// Whether some gate reads wire `w`. A wire that no gate reads is a primary
/// output of the netlist.
pub open spec fn is_read(net: Seq<Node>, w: int) -> bool {
    exists|c: int| 0 <= c < net.len() && (#[trigger] net[c]).reads(w)
}

/// The level of wire `w` under the levels `lv`: the level of the first
/// gate that drives it, and 0 for a wire that no gate drives.
pub open spec fn wire_level(net: Seq<Node>, lv: Seq<int>, w: int) -> int {
    if is_driven(net, w) {
        lv[first_driver(net, w)]
    } else {
        0
    }
}

/// The larger of two levels.
pub open spec fn later(x: int, y: int) -> int {
    if x >= y {
        x
    } else {
        y
    }
}

/// The level at which gate `i` can fire: one more than the later of its
/// operands' levels.
pub open spec fn ready_level(net: Seq<Node>, lv: Seq<int>, i: int) -> int {
    1 + later(wire_level(net, lv, net[i].a), wire_level(net, lv, net[i].b))
}

/// Whether both operands of gate `i` have a level.
pub open spec fn is_ready(net: Seq<Node>, lv: Seq<int>, i: int) -> bool {
    wire_level(net, lv, net[i].a) != -1 && wire_level(net, lv, net[i].b) != -1
}

/// Whether `lv` is a level schedule of the netlist: every gate has a level of
/// at least 1, one more than the later of its operands' levels, where a wire
/// that no gate drives has level 0.
pub open spec fn is_leveling(net: Seq<Node>, lv: Seq<int>) -> bool {
    &&& lv.len() == net.len()
    &&& forall|i: int| 0 <= i < net.len() ==> #[trigger] lv[i] >= 1 && lv[i] == ready_level(net, lv, i)
}

/// Whether the netlist has a level schedule, which is to say that no gate
/// depends on its own output.
pub open spec fn schedulable(net: Seq<Node>) -> bool {
    exists|lv: Seq<int>| is_leveling(net, lv)
}

/// Whether `lv` is a level schedule as far as it goes: a gate is unassigned
/// (-1), or it has the level that its operands, which have theirs, give it.
pub open spec fn is_partial_leveling(net: Seq<Node>, lv: Seq<int>) -> bool {
    &&& lv.len() == net.len()
    &&& forall|i: int|
        0 <= i < net.len() ==> #[trigger] lv[i] == -1 || (lv[i] >= 1 && is_ready(net, lv, i) && lv[i]
            == ready_level(net, lv, i))
}

/// Whether no unassigned gate can be given a level: each waits for an
/// operand that has none.
pub open spec fn is_stuck(net: Seq<Node>, lv: Seq<int>) -> bool {
    forall|i: int| 0 <= i < net.len() && #[trigger] lv[i] == -1 ==> !is_ready(net, lv, i)
}

/// The number of unassigned entries of `lv`.
pub open spec fn count_unset(lv: Seq<int>) -> nat
    decreases lv.len(),
{
    if lv.len() == 0 {
        0
    } else {
        count_unset(lv.drop_last()) + if lv.last() == -1 {
            1nat
        } else {
            0nat
        }
    }
}

/// Whether `m` is the largest entry of `lv`, or 0 where `lv` is empty.
pub open spec fn is_top_level(lv: Seq<int>, m: int) -> bool {
    &&& forall|i: int| 0 <= i < lv.len() ==> #[trigger] lv[i] <= m
    &&& if lv.len() == 0 {
        m == 0
    } else {
        exists|i: int| 0 <= i < lv.len() && #[trigger] lv[i] == m
    }
}

/// The largest positive entry of `lv`, or 0 where it has none.
pub open spec fn peak(lv: Seq<int>) -> int
    decreases lv.len(),
{
    if lv.len() == 0 {
        0
    } else {
        later(peak(lv.drop_last()), lv.last())
    }
}

/// The peak is not negative, no entry exceeds it, and unless it is 0 some
/// entry attains it.
pub proof fn lemma_peak(lv: Seq<int>)
    ensures
        peak(lv) >= 0,
        forall|i: int| 0 <= i < lv.len() ==> #[trigger] lv[i] <= peak(lv),
        peak(lv) == 0 || exists|i: int| 0 <= i < lv.len() && #[trigger] lv[i] == peak(lv),
    decreases lv.len(),
{
    if lv.len() > 0 {
        let rest = lv.drop_last();
        lemma_peak(rest);
        assert forall|i: int| 0 <= i < lv.len() implies #[trigger] lv[i] <= peak(lv) by {
            if i < rest.len() {
                assert(rest[i] == lv[i]);
            }
        }
        if peak(lv) != 0 {
            if peak(lv) == lv.last() {
                assert(lv[lv.len() - 1] == peak(lv));
            } else {
                let j = choose|j: int| 0 <= j < rest.len() && #[trigger] rest[j] == peak(rest);
                assert(lv[j] == peak(lv));
            }
        }
    }
}

/// The peak of a level schedule is its top level.
pub proof fn lemma_peak_is_top(lv: Seq<int>)
    requires
        forall|i: int| 0 <= i < lv.len() ==> #[trigger] lv[i] >= 1,
    ensures
        is_top_level(lv, peak(lv)),
        forall|m: int| is_top_level(lv, m) ==> m == peak(lv),
{
    lemma_peak(lv);
    if lv.len() > 0 {
        assert(lv[0] >= 1);
    }
}

/// The first driver from `i` on, if there is one, drives the wire, and no
/// gate between `i` and it does.
pub proof fn lemma_driver_from(net: Seq<Node>, w: int, i: int)
    requires
        0 <= i <= net.len(),
    ensures
        i <= driver_from(net, w, i) <= net.len(),
        driver_from(net, w, i) < net.len() ==> net[driver_from(net, w, i)].out == w,
        forall|q: int| i <= q < driver_from(net, w, i) ==> (#[trigger] net[q]).out != w,
    decreases net.len() - i,
{
    if i < net.len() && net[i].out != w {
        lemma_driver_from(net, w, i + 1);
    }
}

/// There are no more unassigned entries than entries, and none exactly
/// when every entry is assigned.
pub proof fn lemma_count_unset_bounds(lv: Seq<int>)
    ensures
        count_unset(lv) <= lv.len(),
        count_unset(lv) == 0 <==> forall|i: int| 0 <= i < lv.len() ==> #[trigger] lv[i] != -1,
    decreases lv.len(),
{
    if lv.len() > 0 {
        lemma_count_unset_bounds(lv.drop_last());
        if count_unset(lv) == 0 {
            assert forall|i: int| 0 <= i < lv.len() implies #[trigger] lv[i] != -1 by {
                if i < lv.len() - 1 {
                    assert(lv.drop_last()[i] == lv[i]);
                }
            }
        } else if lv.last() != -1 {
            let j = choose|j: int| 0 <= j < lv.drop_last().len() && #[trigger] lv.drop_last()[j] == -1;
            assert(lv[j] == -1);
        }
    }
}

/// Giving an unassigned entry a level leaves one unassigned entry fewer.
pub proof fn lemma_count_unset_update(lv: Seq<int>, i: int, v: int)
    requires
        0 <= i < lv.len(),
        lv[i] == -1,
        v != -1,
    ensures
        count_unset(lv.update(i, v)) == count_unset(lv) - 1,
    decreases lv.len(),
{
    let next = lv.update(i, v);
    if i == lv.len() - 1 {
        assert(next.drop_last() =~= lv.drop_last());
    } else {
        assert(next.drop_last() =~= lv.drop_last().update(i, v));
        lemma_count_unset_update(lv.drop_last(), i, v);
    }
}

/// A netlist with a level schedule is never stuck short of it: where a fixed
/// point is stuck with gate `g` unassigned, the operand it waits for is
/// driven by an unassigned gate of a lower level, and so on without end. So
/// no `full` is a level schedule of such a netlist.
pub proof fn lemma_stuck_has_no_leveling(net: Seq<Node>, lv: Seq<int>, full: Seq<int>, g: int)
    requires
        lv.len() == net.len(),
        is_stuck(net, lv),
        0 <= g < net.len(),
        lv[g] == -1,
    ensures
        !is_leveling(net, full),
    decreases full[g],
{
    if is_leveling(net, full) {
        let w = if wire_level(net, lv, net[g].a) == -1 {
            net[g].a
        } else {
            net[g].b
        };
        assert(!is_ready(net, lv, g));
        assert(wire_level(net, lv, w) == -1);
        let p = first_driver(net, w);
        lemma_driver_from(net, w, 0);
        assert(lv[p] == -1);
        assert(full[g] == ready_level(net, full, g));
        assert(wire_level(net, full, w) == full[p]);
        assert(full[p] >= 1);
        lemma_stuck_has_no_leveling(net, lv, full, p);
    }
}

/// A netlist has at most one level schedule.
pub proof fn lemma_leveling_unique(net: Seq<Node>, a: Seq<int>, b: Seq<int>)
    requires
        is_leveling(net, a),
        is_leveling(net, b),
    ensures
        a == b,
{
    assert forall|i: int| 0 <= i < net.len() implies a[i] == b[i] by {
        lemma_same_level(net, a, b, i);
    }
    assert(a =~= b);
}

/// Two level schedules give gate `i` the same level.
proof fn lemma_same_level(net: Seq<Node>, a: Seq<int>, b: Seq<int>, i: int)
    requires
        is_leveling(net, a),
        is_leveling(net, b),
        0 <= i < net.len(),
    ensures
        a[i] == b[i],
    decreases a[i],
{
    assert(a[i] == ready_level(net, a, i));
    assert(b[i] == ready_level(net, b, i));
    lemma_driver_from(net, net[i].a, 0);
    lemma_driver_from(net, net[i].b, 0);
    if is_driven(net, net[i].a) {
        let p = first_driver(net, net[i].a);
        assert(a[p] >= 1);
        lemma_same_level(net, a, b, p);
    }
    if is_driven(net, net[i].b) {
        let p = first_driver(net, net[i].b);
        assert(a[p] >= 1);
        lemma_same_level(net, a, b, p);
    }
}

} // verus!
