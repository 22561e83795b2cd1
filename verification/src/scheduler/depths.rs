//! ALAP schedules of a netlist, and the depths from which they are made.
//!
//! The depth of a gate is the length of the longest chain of gates from it
//! to a primary output: 1 for a gate whose output no gate reads, else one
//! more than the largest depth among the gates that read its output.
use vstd::prelude::*;
use crate::circuit::Node;
use crate::scheduler::levels::{
    count_unset, first_driver, is_driven, is_leveling, is_read, lemma_driver_from, ready_level, wire_level,
};

verus! {

/// Whether gate `c` reads the output of gate `g`.
pub open spec fn consumes(net: Seq<Node>, c: int, g: int) -> bool {
    0 <= c < net.len() && net[c].reads(net[g].out)
}

/// Whether gate `g` has the depth that the gates reading its output give it:
/// they all have a depth, and `d[g]` is 1 where there is none of them, else
/// one more than the largest of theirs.
pub open spec fn depth_ok(net: Seq<Node>, d: Seq<int>, g: int) -> bool {
    &&& d[g] >= 1
    &&& forall|c: int| #[trigger] consumes(net, c, g) ==> d[c] != -1 && d[c] + 1 <= d[g]
    &&& d[g] == 1 || exists|c: int| #[trigger] consumes(net, c, g) && d[c] + 1 == d[g]
}

/// Whether `d` gives every gate its depth.
pub open spec fn is_depths(net: Seq<Node>, d: Seq<int>) -> bool {
    &&& d.len() == net.len()
    &&& forall|g: int| 0 <= g < net.len() ==> #[trigger] depth_ok(net, d, g)
}

/// Whether every gate of the netlist has a depth, which is to say that no
/// gate's output reaches that gate itself through the gates that read it.
pub open spec fn has_depths(net: Seq<Node>) -> bool {
    exists|d: Seq<int>| is_depths(net, d)
}

/// Whether `d` gives depths as far as it goes: a gate is unassigned (-1) or
/// has its depth.
pub open spec fn is_partial_depths(net: Seq<Node>, d: Seq<int>) -> bool {
    &&& d.len() == net.len()
    &&& forall|g: int| 0 <= g < net.len() ==> #[trigger] d[g] == -1 || depth_ok(net, d, g)
}

/// Whether every gate that reads wire `w` has a depth.
pub open spec fn readers_set(net: Seq<Node>, d: Seq<int>, w: int) -> bool {
    forall|c: int| 0 <= c < net.len() && (#[trigger] net[c]).reads(w) ==> d[c] != -1
}

/// Whether no unassigned gate can be given a depth: each waits for a reader
/// of its output that has none.
pub open spec fn depths_stuck(net: Seq<Node>, d: Seq<int>) -> bool {
    forall|g: int| 0 <= g < net.len() && #[trigger] d[g] == -1 ==> !readers_set(net, d, net[g].out)
}

/// What the fixed point keeps true of the depths it has given.
pub open spec fn depth_inv(net: Seq<Node>, d: Seq<int>) -> bool {
    &&& is_partial_depths(net, d)
    &&& forall|g: int| 0 <= g < d.len() ==> #[trigger] d[g] <= net.len() - count_unset(d)
    &&& forall|g: int| 0 <= g < d.len() && #[trigger] d[g] == -1 ==> is_read(net, net[g].out)
}

/// Whether gate `g` fires before every gate that reads its output.
pub open spec fn before_readers(net: Seq<Node>, al: Seq<int>, g: int) -> bool {
    forall|c: int| #[trigger] consumes(net, c, g) ==> al[g] <= al[c] - 1
}

/// Whether gate `g` fires just before some gate that reads its output.
pub open spec fn meets_reader(net: Seq<Node>, al: Seq<int>, g: int) -> bool {
    exists|c: int| #[trigger] consumes(net, c, g) && al[g] == al[c] - 1
}

/// Whether `al` is the ALAP schedule of the netlist with `m` levels: every
/// gate fires at a level from 1 to `m`, before every gate that reads its
/// output and just before one of them, or at level `m` where no gate reads
/// its output; and, unless the netlist is empty, some gate fires at level 1.
pub open spec fn is_alap_leveling(net: Seq<Node>, al: Seq<int>, m: int) -> bool {
    &&& al.len() == net.len()
    &&& if net.len() == 0 {
        m == 0
    } else {
        exists|g: int| 0 <= g < net.len() && #[trigger] al[g] == 1
    }
    &&& forall|g: int|
        0 <= g < net.len() ==> 1 <= #[trigger] al[g] <= m && before_readers(net, al, g) && if is_read(
            net,
            net[g].out,
        ) {
            meets_reader(net, al, g)
        } else {
            al[g] == m
        }
}

/// Giving a gate whose readers all have a depth its own keeps the fixed
/// point's invariant.
pub proof fn lemma_depth_assign(net: Seq<Node>, d: Seq<int>, g: int, v: int)
    requires
        depth_inv(net, d),
        0 <= g < net.len(),
        d[g] == -1,
        readers_set(net, d, net[g].out),
        v >= 1,
        forall|c: int| #[trigger] consumes(net, c, g) ==> d[c] + 1 <= v,
        v == 1 || exists|c: int| #[trigger] consumes(net, c, g) && d[c] + 1 == v,
    ensures
        depth_inv(net, d.update(g, v)),
        v <= net.len() - count_unset(d) + 1,
        count_unset(d.update(g, v)) == count_unset(d) - 1,
{
    let next = d.update(g, v);
    crate::scheduler::levels::lemma_count_unset_bounds(d);
    crate::scheduler::levels::lemma_count_unset_update(d, g, v);
    assert(!consumes(net, g, g));
    if v != 1 {
        let c = choose|c: int| #[trigger] consumes(net, c, g) && d[c] + 1 == v;
        assert(d[c] <= net.len() - count_unset(d));
    }
    assert forall|h: int| 0 <= h < net.len() implies #[trigger] next[h] == -1 || depth_ok(net, next, h) by {
        if h == g {
            assert forall|c: int| #[trigger] consumes(net, c, g) implies next[c] != -1 && next[c] + 1 <= next[g] by {
                assert(net[c].reads(net[g].out));
                assert(d[c] != -1);
            }
            if v != 1 {
                let c = choose|c: int| #[trigger] consumes(net, c, g) && d[c] + 1 == v;
                assert(consumes(net, c, g) && next[c] + 1 == next[g]);
            }
        } else if d[h] != -1 {
            assert(depth_ok(net, d, h));
            assert forall|c: int| #[trigger] consumes(net, c, h) implies next[c] != -1 && next[c] + 1 <= next[h] by {
                assert(d[c] != -1);
            }
            if d[h] != 1 {
                let c = choose|c: int| #[trigger] consumes(net, c, h) && d[c] + 1 == d[h];
                assert(d[c] != -1);
                assert(consumes(net, c, h) && next[c] + 1 == next[h]);
            }
        }
    }
    assert forall|h: int| 0 <= h < next.len() implies #[trigger] next[h] <= net.len() - count_unset(next) by {
        if h != g {
            assert(next[h] == d[h]);
        }
    }
    assert forall|h: int| 0 <= h < next.len() && #[trigger] next[h] == -1 implies is_read(net, net[h].out) by {
        assert(d[h] == -1);
    }
}

/// Where the fixed point is stuck with gate `g` unassigned, some reader of
/// its output is unassigned too, and has a smaller depth in any table of
/// depths, and so on without end. So no `full` gives every gate its depth.
pub proof fn lemma_stuck_has_no_depths(net: Seq<Node>, d: Seq<int>, full: Seq<int>, g: int)
    requires
        d.len() == net.len(),
        depths_stuck(net, d),
        0 <= g < net.len(),
        d[g] == -1,
    ensures
        !is_depths(net, full),
    decreases full[g],
{
    if is_depths(net, full) {
        assert(!readers_set(net, d, net[g].out));
        let c = choose|c: int| 0 <= c < net.len() && (#[trigger] net[c]).reads(net[g].out) && d[c] == -1;
        assert(depth_ok(net, full, g));
        assert(depth_ok(net, full, c));
        assert(consumes(net, c, g));
        lemma_stuck_has_no_depths(net, d, full, c);
    }
}

/// A gate's ALAP level is never below its ASAP level: no gate is asked to
/// fire before it can.
pub proof fn lemma_alap_not_before_asap(net: Seq<Node>, asap: Seq<int>, alap: Seq<int>, m: int, g: int)
    requires
        is_leveling(net, asap),
        is_alap_leveling(net, alap, m),
        0 <= g < net.len(),
    ensures
        alap[g] >= asap[g],
    decreases asap[g],
{
    assert(asap[g] == ready_level(net, asap, g));
    assert(1 <= alap[g]);
    let w = if wire_level(net, asap, net[g].a) >= wire_level(net, asap, net[g].b) {
        net[g].a
    } else {
        net[g].b
    };
    assert(asap[g] == 1 + wire_level(net, asap, w));
    if is_driven(net, w) {
        let p = first_driver(net, w);
        lemma_driver_from(net, w, 0);
        assert(asap[p] >= 1);
        assert(consumes(net, g, p));
        assert(before_readers(net, alap, p));
        lemma_alap_not_before_asap(net, asap, alap, m, p);
    }
}

/// A netlist has at most one table of depths.
pub proof fn lemma_depths_unique(net: Seq<Node>, x: Seq<int>, y: Seq<int>)
    requires
        is_depths(net, x),
        is_depths(net, y),
    ensures
        x == y,
{
    assert forall|g: int| 0 <= g < net.len() implies x[g] == y[g] by {
        lemma_same_depth(net, x, y, g);
    }
    assert(x =~= y);
}

/// Two tables of depths give gate `g` the same depth.
proof fn lemma_same_depth(net: Seq<Node>, x: Seq<int>, y: Seq<int>, g: int)
    requires
        is_depths(net, x),
        is_depths(net, y),
        0 <= g < net.len(),
    ensures
        x[g] == y[g],
    decreases x[g],
{
    assert(depth_ok(net, x, g));
    assert(depth_ok(net, y, g));
    assert forall|c: int| #[trigger] consumes(net, c, g) implies x[c] == y[c] by {
        assert(depth_ok(net, x, c));
        lemma_same_depth(net, x, y, c);
    }
    if x[g] != 1 {
        let c = choose|c: int| #[trigger] consumes(net, c, g) && x[c] + 1 == x[g];
        assert(y[c] + 1 <= y[g]);
    }
    if y[g] != 1 {
        let c = choose|c: int| #[trigger] consumes(net, c, g) && y[c] + 1 == y[g];
        assert(x[c] + 1 <= x[g]);
    }
}

/// The depths that an ALAP schedule with `m` levels stands for.
pub open spec fn depths_of(al: Seq<int>, m: int) -> Seq<int> {
    Seq::new(al.len(), |g: int| m - al[g] + 1)
}

/// An ALAP schedule counts the levels down from the depths of the gates.
pub proof fn lemma_alap_gives_depths(net: Seq<Node>, al: Seq<int>, m: int)
    requires
        is_alap_leveling(net, al, m),
    ensures
        is_depths(net, depths_of(al, m)),
{
    let d = depths_of(al, m);
    assert forall|g: int| 0 <= g < net.len() implies #[trigger] depth_ok(net, d, g) by {
        assert(1 <= al[g] <= m);
        assert(before_readers(net, al, g));
        assert forall|c: int| #[trigger] consumes(net, c, g) implies d[c] != -1 && d[c] + 1 <= d[g] by {
            assert(1 <= al[c] <= m);
            assert(al[g] <= al[c] - 1);
        }
        if is_read(net, net[g].out) {
            assert(meets_reader(net, al, g));
            let c = choose|c: int| #[trigger] consumes(net, c, g) && al[g] == al[c] - 1;
            assert(consumes(net, c, g) && d[c] + 1 == d[g]);
        }
    }
}

/// A netlist has at most one ALAP schedule, and that has one number of levels.
pub proof fn lemma_alap_unique(net: Seq<Node>, a: Seq<int>, ma: int, b: Seq<int>, mb: int)
    requires
        is_alap_leveling(net, a, ma),
        is_alap_leveling(net, b, mb),
    ensures
        a == b,
        ma == mb,
{
    lemma_alap_gives_depths(net, a, ma);
    lemma_alap_gives_depths(net, b, mb);
    let da = depths_of(a, ma);
    let db = depths_of(b, mb);
    lemma_depths_unique(net, da, db);
    if net.len() > 0 {
        let g = choose|g: int| 0 <= g < net.len() && #[trigger] a[g] == 1;
        let h = choose|h: int| 0 <= h < net.len() && #[trigger] b[h] == 1;
        assert(da[g] == ma && db[g] == mb - b[g] + 1);
        assert(db[h] == mb && da[h] == ma - a[h] + 1);
        assert(1 <= b[g] && 1 <= a[h]);
        assert(ma == mb);
        assert forall|i: int| 0 <= i < net.len() implies a[i] == b[i] by {
            assert(da[i] == db[i]);
        }
    }
    assert(a =~= b);
}

} // verus!
