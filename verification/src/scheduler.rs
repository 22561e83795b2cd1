//! The three schedules of the table of gates: as soon as possible, as late as
//! possible, and the list schedule ordered by mobility.
pub mod alap;
pub mod asap;
pub mod depths;
pub mod fixed_point;
pub mod levels;
pub mod list;

pub use crate::scheduler::alap::{all_alap_labeled, compute_alap_schedule, get_alap_level};
pub use crate::scheduler::asap::compute_asap_schedule;
pub use crate::scheduler::list::{compute_list_schedule, list_schedule_possible};

use vstd::prelude::*;
use crate::circuit::{Circuit, gate_views, GateView, netlist, Node, TableGate};
use crate::limits::MAX_GATES;
use crate::scheduler::levels::{
    count_unset, driver_from, first_driver, is_driven, is_leveling, is_read, lemma_count_unset_bounds, peak,
    wire_level,
};

verus! {

/// One of the three level decorations of a gate.
#[derive(Debug, Clone, Copy, PartialEq, Eq, Structural)]
pub enum Schedule {
    Asap,
    Alap,
    List,
}

impl Schedule {
    /// The level that gate `g` has in this schedule.
    pub open spec fn level(&self, g: TableGate) -> int {
        match *self {
            Schedule::Asap => g.asap_level as int,
            Schedule::Alap => g.alap_level as int,
            Schedule::List => g.list_level as int,
        }
    }

    /// Gate `g` with level `v` in this schedule.
    pub open spec fn put(&self, g: TableGate, v: i32) -> TableGate {
        match *self {
            Schedule::Asap => TableGate { asap_level: v, ..g },
            Schedule::Alap => TableGate { alap_level: v, ..g },
            Schedule::List => TableGate { list_level: v, ..g },
        }
    }

    /// The level that a gate given as numbers has in this schedule.
    pub open spec fn view_level(&self, g: GateView) -> int {
        match *self {
            Schedule::Asap => g.asap_level,
            Schedule::Alap => g.alap_level,
            Schedule::List => g.list_level,
        }
    }

    /// A gate given as numbers with level `v` in this schedule.
    pub open spec fn put_view(&self, g: GateView, v: int) -> GateView {
        match *self {
            Schedule::Asap => GateView { asap_level: v, ..g },
            Schedule::Alap => GateView { alap_level: v, ..g },
            Schedule::List => GateView { list_level: v, ..g },
        }
    }

    /// Reads the level that gate `g` has in this schedule.
    pub fn get(&self, g: &TableGate) -> (v: i32)
        ensures
            v == self.level(*g),
    {
        match self {
            Schedule::Asap => g.asap_level,
            Schedule::Alap => g.alap_level,
            Schedule::List => g.list_level,
        }
    }
}

/// The levels of a table of gates in schedule `which`, gate by gate.
pub open spec fn levels_of(gates: Seq<TableGate>, which: Schedule) -> Seq<int> {
    Seq::new(gates.len(), |i: int| which.level(gates[i]))
}

/// The levels of gates given as numbers, gate by gate.
pub open spec fn view_levels(gates: Seq<GateView>, which: Schedule) -> Seq<int> {
    Seq::new(gates.len(), |i: int| which.view_level(gates[i]))
}

/// Gates given as numbers with the levels `lv` in schedule `which`.
pub open spec fn with_levels(gates: Seq<GateView>, which: Schedule, lv: Seq<int>) -> Seq<GateView> {
    Seq::new(gates.len(), |i: int| which.put_view(gates[i], lv[i]))
}

/// The level schedule of a netlist that has one.
pub open spec fn the_leveling(net: Seq<Node>) -> Seq<int> {
    choose|lv: Seq<int>| is_leveling(net, lv)
}

/// New levels in one schedule change the gates as numbers in those levels
/// only.
pub proof fn lemma_relevelled_views(before: Seq<TableGate>, after: Seq<TableGate>, which: Schedule)
    requires
        relevelled(before, after, which),
    ensures
        gate_views(after) == with_levels(gate_views(before), which, levels_of(after, which)),
        netlist(after) == netlist(before),
{
    assert forall|i: int| 0 <= i < before.len() implies #[trigger] after[i]@ == which.put_view(
        before[i]@,
        which.level(after[i]),
    ) && after[i].node() == before[i].node() by {
        assert(after[i] == which.put(before[i], which.level(after[i]) as i32));
    }
    assert(gate_views(after) =~= with_levels(gate_views(before), which, levels_of(after, which)));
    assert(netlist(after) =~= netlist(before));
}

/// Whether the table `after` is the table `before` with new levels in
/// schedule `which`, and nothing else changed.
pub open spec fn relevelled(before: Seq<TableGate>, after: Seq<TableGate>, which: Schedule) -> bool {
    &&& after.len() == before.len()
    &&& forall|i: int|
        0 <= i < before.len() ==> #[trigger] after[i] == which.put(before[i], which.level(after[i]) as i32)
}

/// Sets the level of gate `i` in schedule `which`.
pub(crate) fn set_level(circuit: &mut Circuit, which: Schedule, i: usize, v: i32)
    requires
        i < old(circuit).gates@.len(),
    ensures
        final(circuit).gates@ == old(circuit).gates@.update(i as int, which.put(old(circuit).gates@[i as int], v)),
        final(circuit).same_frame(old(circuit)),
        final(circuit).netlist() == old(circuit).netlist(),
        levels_of(final(circuit).gates@, which) == levels_of(old(circuit).gates@, which).update(i as int, v as int),
{
    match which {
        Schedule::Asap => {
            circuit.gates[i].asap_level = v;
        },
        Schedule::Alap => {
            circuit.gates[i].alap_level = v;
        },
        Schedule::List => {
            circuit.gates[i].list_level = v;
        },
    }
    proof {
        assert(circuit.gates@ =~= old(circuit).gates@.update(i as int, which.put(old(circuit).gates@[i as int], v)));
        assert(circuit.netlist() =~= old(circuit).netlist());
        assert(levels_of(circuit.gates@, which) =~= levels_of(old(circuit).gates@, which).update(
            i as int,
            v as int,
        ));
    }
}

/// Marks every gate as unassigned in schedule `which`.
pub(crate) fn reset_levels(circuit: &mut Circuit, which: Schedule)
    requires
        old(circuit).wf(),
    ensures
        final(circuit).wf(),
        final(circuit).same_frame(old(circuit)),
        final(circuit).netlist() == old(circuit).netlist(),
        relevelled(old(circuit).gates@, final(circuit).gates@, which),
        forall|i: int| 0 <= i < old(circuit).gates@.len() ==> #[trigger] levels_of(final(circuit).gates@, which)[i] == -1,
{
    let n = circuit.gates.len();
    for i in 0..n
        invariant
            n == circuit.gates@.len(),
            n == old(circuit).gates@.len(),
            circuit.wf(),
            circuit.same_frame(old(circuit)),
            circuit.netlist() == old(circuit).netlist(),
            forall|j: int| 0 <= j < i ==> #[trigger] circuit.gates@[j] == which.put(old(circuit).gates@[j], -1i32),
            forall|j: int| i <= j < n ==> #[trigger] circuit.gates@[j] == old(circuit).gates@[j],
    {
        let ghost before = circuit.gates@;
        set_level(circuit, which, i, -1);
        proof {
            assert forall|j: int| 0 <= j < n implies (#[trigger] circuit.gates@[j]).wf() by {
                assert(before[j].wf());
            }
        }
    }
}

/// Whether no gate drives wire `line_id`: the wire is a primary input.
pub fn is_pi(circuit: &Circuit, line_id: i32) -> (r: bool)
    ensures
        r == !is_driven(circuit.netlist(), line_id as int),
{
    let n = circuit.gates.len();
    let ghost net = circuit.netlist();
    let mut i: usize = 0;
    while i < n
        invariant
            n == circuit.gates@.len(),
            net == circuit.netlist(),
            i <= n,
            driver_from(net, line_id as int, i as int) == first_driver(net, line_id as int),
        decreases n - i,
    {
        if circuit.gates[i].out == line_id {
            return false;
        }
        i += 1;
    }
    true
}

/// Whether no gate reads wire `line_id`: the wire is a primary output.
pub fn is_po(circuit: &Circuit, line_id: i32) -> (r: bool)
    requires
        circuit.wf(),
    ensures
        r == !is_read(circuit.netlist(), line_id as int),
{
    let n = circuit.gates.len();
    let ghost net = circuit.netlist();
    for i in 0..n
        invariant
            n == circuit.gates@.len(),
            circuit.wf(),
            net == circuit.netlist(),
            forall|c: int| 0 <= c < i ==> !(#[trigger] net[c]).reads(line_id as int),
    {
        assert(circuit.gates@[i as int].wf());
        if circuit.gates[i].inputs[0] == line_id {
            assert(net[i as int].reads(line_id as int));
            return false;
        }
        if circuit.gates[i].fanin >= 2 && circuit.gates[i].inputs[1] == line_id {
            assert(net[i as int].reads(line_id as int));
            return false;
        }
    }
    true
}

/// The level of wire `line_id` in schedule `which`: 0 for a wire that no
/// gate drives, else the level of the first gate that drives it.
pub(crate) fn get_level(circuit: &Circuit, which: Schedule, line_id: i32) -> (v: i32)
    ensures
        v == wire_level(circuit.netlist(), levels_of(circuit.gates@, which), line_id as int),
{
    let n = circuit.gates.len();
    let ghost net = circuit.netlist();
    let mut i: usize = 0;
    while i < n
        invariant
            n == circuit.gates@.len(),
            net == circuit.netlist(),
            i <= n,
            driver_from(net, line_id as int, i as int) == first_driver(net, line_id as int),
        decreases n - i,
    {
        if circuit.gates[i].out == line_id {
            return which.get(&circuit.gates[i]);
        }
        i += 1;
    }
    0
}

/// The ASAP level of wire `line_id`: 0 for a primary input, else the ASAP
/// level of the first gate that drives it (-1 while that gate has none).
pub fn get_asap_level(circuit: &Circuit, line_id: i32) -> (v: i32)
    ensures
        v == wire_level(circuit.netlist(), levels_of(circuit.gates@, Schedule::Asap), line_id as int),
{
    get_level(circuit, Schedule::Asap, line_id)
}

/// The list level of wire `line_id`: 0 for a primary input, else the list
/// level of the first gate that drives it (-1 while that gate has none).
pub fn get_list_level(circuit: &Circuit, line_id: i32) -> (v: i32)
    ensures
        v == wire_level(circuit.netlist(), levels_of(circuit.gates@, Schedule::List), line_id as int),
{
    get_level(circuit, Schedule::List, line_id)
}

/// A table of unassigned levels has as many unassigned entries as gates.
pub(crate) proof fn lemma_all_unset(lv: Seq<int>)
    requires
        forall|i: int| 0 <= i < lv.len() ==> #[trigger] lv[i] == -1,
    ensures
        count_unset(lv) == lv.len(),
    decreases lv.len(),
{
    if lv.len() > 0 {
        assert forall|i: int| 0 <= i < lv.drop_last().len() implies #[trigger] lv.drop_last()[i] == -1 by {
            assert(lv.drop_last()[i] == lv[i]);
        }
        lemma_all_unset(lv.drop_last());
    }
}

/// The largest positive level of schedule `which` in the table of gates, or 0
/// where there is none.
pub(crate) fn top_level(circuit: &Circuit, which: Schedule) -> (m: i32)
    requires
        circuit.wf(),
    ensures
        0 <= m <= MAX_GATES,
        m == peak(levels_of(circuit.gates@, which)),
{
    let n = circuit.gates.len();
    let ghost lv = levels_of(circuit.gates@, which);
    let mut m: i32 = 0;
    for i in 0..n
        invariant
            n == circuit.gates@.len(),
            circuit.wf(),
            lv == levels_of(circuit.gates@, which),
            0 <= m <= MAX_GATES,
            m == peak(lv.take(i as int)),
    {
        assert(circuit.gates@[i as int].wf());
        assert(lv.take(i + 1).drop_last() =~= lv.take(i as int));
        let v = which.get(&circuit.gates[i]);
        if v > m {
            m = v;
        }
    }
    proof {
        assert(lv.take(n as int) =~= lv);
    }
    m
}

/// Whether every gate has a level in schedule `which`.
pub(crate) fn all_labeled(circuit: &Circuit, which: Schedule) -> (r: bool)
    ensures
        r == forall|i: int| 0 <= i < circuit.gates@.len() ==> #[trigger] levels_of(circuit.gates@, which)[i] != -1,
{
    let n = circuit.gates.len();
    for i in 0..n
        invariant
            n == circuit.gates@.len(),
            forall|j: int| 0 <= j < i ==> #[trigger] levels_of(circuit.gates@, which)[j] != -1,
    {
        if which.get(&circuit.gates[i]) == -1 {
            assert(levels_of(circuit.gates@, which)[i as int] == -1);
            return false;
        }
    }
    true
}

/// A table in which every entry is unassigned holds no assigned entry.
pub(crate) proof fn lemma_count_full(lv: Seq<int>, j: int)
    requires
        0 <= j < lv.len(),
        count_unset(lv) == lv.len(),
    ensures
        lv[j] == -1,
    decreases lv.len(),
{
    lemma_count_unset_bounds(lv.drop_last());
    if j < lv.len() - 1 {
        lemma_count_full(lv.drop_last(), j);
    }
}

} // verus!
