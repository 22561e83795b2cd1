//! The list schedule: the gates are ordered by mobility and given their
//! levels in that order.
use vstd::prelude::*;
use crate::circuit::{
    Circuit, CircuitView, gate_views, gates_wf, GateView, lemma_nodes_of_views, netlist, nodes, TableGate,
};
use crate::error::SynthesisError;
use crate::limits::MAX_GATES;
use crate::scheduler::{
    all_labeled, lemma_relevelled_views, levels_of, relevelled, Schedule, the_leveling, top_level,
    view_levels, with_levels,
};
use crate::scheduler::depths::is_alap_leveling;
use crate::scheduler::fixed_point::assign_levels;
use crate::scheduler::levels::{
    is_leveling, is_partial_leveling, is_stuck, lemma_leveling_unique, peak, ready_level, schedulable,
};
use crate::sorting::{is_stable_sort, lemma_sort_of_views, sort_gates, sorted_views, SortKey};

verus! {

/// A gate given as numbers, prepared for list scheduling: its mobility
/// computed and its list level unassigned.
pub open spec fn prepared_view(g: GateView) -> GateView {
    GateView { mobility: g.alap_level - g.asap_level, list_level: -1, ..g }
}

/// The gates of a circuit as the list scheduler orders them: each with its
/// mobility, in the stable order of the mobilities.
pub open spec fn list_sorted(v: CircuitView) -> Seq<GateView> {
    sorted_views(Seq::new(v.gates.len(), |i: int| prepared_view(v.gates[i])), SortKey::Mobility)
}

/// What the list scheduler makes of a circuit: the gates with their
/// mobility, in the stable order of their mobilities, each at the level of
/// the level schedule of the netlist so ordered; `max_list` records the top
/// level where that is the largest ASAP level; `Cycle` for a netlist without
/// a level schedule.
pub open spec fn list_view(v: CircuitView) -> Result<CircuitView, SynthesisError> {
    let sorted = list_sorted(v);
    let net = nodes(sorted);
    if schedulable(net) {
        let lv = the_leveling(net);
        let asap = view_levels(sorted, Schedule::Asap);
        Ok(
            CircuitView {
                gates: with_levels(sorted, Schedule::List, lv),
                max_list: if peak(lv) == peak(asap) {
                    peak(asap)
                } else {
                    v.max_list
                },
                ..v
            },
        )
    } else {
        Err(SynthesisError::Cycle)
    }
}

/// Tries to form the list schedule with at most `max_gates` gates assigned
/// in each pass over the table (a `max_gates` below 1 is no limit).
///
/// All list levels are reset; then, pass after pass, every unassigned gate
/// whose operands have a list level gets one more than the later of them,
/// until every gate has a level or a pass assigns none. The schedule is
/// possible where every gate got a level and the top level is `max_level`.
pub fn list_schedule_possible(circuit: &mut Circuit, max_level: i32, max_gates: i32) -> (ok: bool)
    requires
        old(circuit).wf(),
    ensures
        final(circuit).wf(),
        final(circuit).same_frame(old(circuit)),
        final(circuit).netlist() == old(circuit).netlist(),
        relevelled(old(circuit).gates@, final(circuit).gates@, Schedule::List),
        is_partial_leveling(old(circuit).netlist(), levels_of(final(circuit).gates@, Schedule::List)),
        schedulable(old(circuit).netlist()) ==> is_leveling(
            old(circuit).netlist(),
            levels_of(final(circuit).gates@, Schedule::List),
        ),
        !schedulable(old(circuit).netlist()) ==> is_stuck(
            old(circuit).netlist(),
            levels_of(final(circuit).gates@, Schedule::List),
        ),
        ok == (schedulable(old(circuit).netlist()) && max_level == peak(
            levels_of(final(circuit).gates@, Schedule::List),
        )),
{
    if !assign_levels(circuit, Schedule::List, max_gates) {
        return false;
    }
    top_level(circuit, Schedule::List) == max_level
}

/// A gate with its mobility computed and its list level unassigned.
pub open spec fn prepared(g: TableGate) -> TableGate {
    TableGate { mobility: (g.alap_level - g.asap_level) as i32, list_level: -1i32, ..g }
}

/// Whether the mobility of `g` is its ALAP level less its ASAP level.
pub open spec fn has_mobility(g: TableGate) -> bool {
    g.mobility == g.alap_level - g.asap_level
}

/// The table of gates with every gate prepared for list scheduling.
pub open spec fn all_prepared(gates: Seq<TableGate>) -> Seq<TableGate> {
    Seq::new(gates.len(), |i: int| prepared(gates[i]))
}

/// The table of gates with every list level unassigned.
pub open spec fn unlisted(gates: Seq<TableGate>) -> Seq<TableGate> {
    Seq::new(gates.len(), |i: int| TableGate { list_level: -1i32, ..gates[i] })
}

/// Computes every gate's mobility and clears its list level.
fn prepare_gates(circuit: &mut Circuit)
    requires
        old(circuit).wf(),
    ensures
        final(circuit).wf(),
        final(circuit).same_frame(old(circuit)),
        final(circuit).gates@ == all_prepared(old(circuit).gates@),
{
    let n = circuit.gates.len();
    for i in 0..n
        invariant
            n == circuit.gates@.len(),
            n == old(circuit).gates@.len(),
            old(circuit).wf(),
            circuit.same_frame(old(circuit)),
            forall|j: int| 0 <= j < i ==> #[trigger] circuit.gates@[j] == prepared(old(circuit).gates@[j]),
            forall|j: int| i <= j < n ==> #[trigger] circuit.gates@[j] == old(circuit).gates@[j],
    {
        assert(old(circuit).gates@[i as int].wf());
        circuit.gates[i].mobility = circuit.gates[i].alap_level - circuit.gates[i].asap_level;
        circuit.gates[i].list_level = -1;
    }
    proof {
        assert(circuit.gates@ =~= all_prepared(old(circuit).gates@));
        assert forall|j: int| 0 <= j < n implies (#[trigger] circuit.gates@[j]).wf() by {
            assert(old(circuit).gates@[j].wf());
        }
    }
}

/// Sorting keeps every gate well formed.
proof fn lemma_sorted_gates_wf(input: Seq<TableGate>, output: Seq<TableGate>, key: SortKey)
    requires
        is_stable_sort(input, output, key),
        gates_wf(input),
        forall|i: int| 0 <= i < input.len() ==> (#[trigger] input[i]).list_level == -1,
        forall|i: int| 0 <= i < input.len() ==> has_mobility(#[trigger] input[i]),
    ensures
        gates_wf(output),
        forall|i: int| 0 <= i < output.len() ==> (#[trigger] output[i]).list_level == -1,
        forall|i: int| 0 <= i < output.len() ==> has_mobility(#[trigger] output[i]),
{
    crate::sorting::lemma_stable_sort_same_gates(input, output, key);
    assert forall|i: int| 0 <= i < output.len() implies (#[trigger] output[i]).wf() && output[i].list_level == -1
        && has_mobility(output[i]) by {
        assert(input.contains(output[i]));
        let j = choose|j: int| 0 <= j < input.len() && input[j] == output[i];
        assert(input[j].wf());
        assert(has_mobility(input[j]));
    }
}

/// Computes the list schedule.
///
/// Every gate's mobility becomes its ALAP level less its ASAP level, and the
/// table is sorted by mobility, smallest first, gates of equal mobility
/// keeping their order. The list levels are then assigned over the sorted
/// table, with at most 2, then 3, and so on up to 19 gates in each pass, until
/// one attempt reaches every gate with a top level equal to the largest ASAP
/// level in the table; `max_list` is then set to that level. Where no attempt
/// does, `max_list` stays. Either way every gate has its list level: one more
/// than the later of its operands' list levels, with 0 for a wire that no
/// gate drives.
///
/// A netlist in which a gate depends on its own output is refused with
/// `Cycle`; the table is sorted all the same, and the gates that could be
/// reached have their list levels.
pub fn compute_list_schedule(circuit: &mut Circuit) -> (res: Result<(), SynthesisError>)
    requires
        old(circuit).wf(),
    ensures
        final(circuit).wf(),
        is_stable_sort(all_prepared(old(circuit).gates@), unlisted(final(circuit).gates@), SortKey::Mobility),
        forall|i: int| 0 <= i < final(circuit).gates@.len() ==> has_mobility(#[trigger] final(circuit).gates@[i]),
        final(circuit).num_gates == old(circuit).num_gates,
        final(circuit).primary_inputs@ == old(circuit).primary_inputs@,
        final(circuit).num_inputs == old(circuit).num_inputs,
        final(circuit).num_outputs == old(circuit).num_outputs,
        final(circuit).max_asap == old(circuit).max_asap,
        final(circuit).max_alap == old(circuit).max_alap,
        final(circuit).max_resources == old(circuit).max_resources,
        final(circuit).bench_name@ == old(circuit).bench_name@,
        is_partial_leveling(final(circuit).netlist(), levels_of(final(circuit).gates@, Schedule::List)),
        res is Ok <==> schedulable(final(circuit).netlist()),
        match list_view(old(circuit)@) {
            Ok(v) => res is Ok && final(circuit)@ == v,
            Err(e) => res == Err::<(), SynthesisError>(e),
        },
        match res {
            Ok(_) => {
                let list = levels_of(final(circuit).gates@, Schedule::List);
                let asap = levels_of(final(circuit).gates@, Schedule::Asap);
                &&& is_leveling(final(circuit).netlist(), list)
                &&& final(circuit).max_list == if peak(list) == peak(asap) {
                    peak(asap)
                } else {
                    old(circuit).max_list as int
                }
            },
            Err(e) => {
                &&& e == SynthesisError::Cycle
                &&& final(circuit).max_list == old(circuit).max_list
                &&& is_stuck(final(circuit).netlist(), levels_of(final(circuit).gates@, Schedule::List))
            },
        },
{
    prepare_gates(circuit);
    let ghost ready = circuit.gates@;
    sort_gates(&mut circuit.gates, SortKey::Mobility);
    let ghost sorted = circuit.gates@;
    let ghost net = netlist(sorted);
    proof {
        assert forall|i: int| 0 <= i < ready.len() implies has_mobility(#[trigger] ready[i]) by {
            assert(old(circuit).gates@[i].wf());
        }
        lemma_sorted_gates_wf(ready, sorted, SortKey::Mobility);
        assert(unlisted(sorted) =~= sorted);
        // as numbers, the gates stand in the stable order of their mobilities
        lemma_sort_of_views(ready, sorted, SortKey::Mobility);
        let v = old(circuit)@;
        let ready_views = Seq::new(v.gates.len(), |i: int| prepared_view(v.gates[i]));
        assert forall|i: int| 0 <= i < ready.len() implies #[trigger] gate_views(ready)[i] == ready_views[i] by {
            assert(old(circuit).gates@[i].wf());
            assert(ready[i] == prepared(old(circuit).gates@[i]));
        }
        assert(gate_views(ready) =~= ready_views);
        assert(gate_views(sorted) == list_sorted(v));
        lemma_nodes_of_views(sorted);
    }
    let max_level = top_level(circuit, Schedule::Asap);
    let ghost asap = levels_of(sorted, Schedule::Asap);
    let mut found = false;
    let mut max_gates: i32 = 2;
    while max_gates < 20 && !found
        invariant
            2 <= max_gates <= 20,
            found ==> max_gates > 2,
            0 <= max_level <= MAX_GATES,
            circuit.wf(),
            circuit.netlist() == net,
            net == netlist(sorted),
            nodes(gate_views(sorted)) == net,
            gate_views(sorted) == list_sorted(old(circuit)@),
            circuit.max_list == old(circuit).max_list || found,
            relevelled(sorted, circuit.gates@, Schedule::List),
            forall|i: int| 0 <= i < sorted.len() ==> has_mobility(#[trigger] sorted[i]),
            levels_of(circuit.gates@, Schedule::Asap) == asap,
            max_level == peak(asap),
            circuit.num_gates == old(circuit).num_gates,
            circuit.primary_inputs@ == old(circuit).primary_inputs@,
            circuit.num_inputs == old(circuit).num_inputs,
            circuit.num_outputs == old(circuit).num_outputs,
            circuit.max_asap == old(circuit).max_asap,
            circuit.max_alap == old(circuit).max_alap,
            circuit.max_resources == old(circuit).max_resources,
            circuit.bench_name@ == old(circuit).bench_name@,
            max_gates > 2 ==> {
                let list = levels_of(circuit.gates@, Schedule::List);
                &&& is_partial_leveling(net, list)
                &&& schedulable(net) ==> is_leveling(net, list)
                &&& !schedulable(net) ==> is_stuck(net, list)
                &&& found == (schedulable(net) && peak(list) == max_level)
            },
            circuit.max_list == if found {
                max_level
            } else {
                old(circuit).max_list
            },
        decreases 20 - max_gates + if found { 0int } else { 1int },
    {
        let ghost before = circuit.gates@;
        if list_schedule_possible(circuit, max_level, max_gates) {
            circuit.max_list = max_level;
            found = true;
        }
        proof {
            assert forall|j: int| 0 <= j < sorted.len() implies #[trigger] circuit.gates@[j] == Schedule::List.put(
                sorted[j],
                Schedule::List.level(circuit.gates@[j]) as i32,
            ) by {
                assert(before[j] == Schedule::List.put(sorted[j], Schedule::List.level(before[j]) as i32));
                assert(circuit.gates@[j] == Schedule::List.put(before[j], Schedule::List.level(circuit.gates@[j]) as i32));
            }
            assert(levels_of(circuit.gates@, Schedule::Asap) =~= asap);
        }
        max_gates += 1;
    }
    proof {
        assert(unlisted(circuit.gates@) =~= sorted);
        assert forall|i: int| 0 <= i < circuit.gates@.len() implies has_mobility(#[trigger] circuit.gates@[i]) by {
            assert(has_mobility(sorted[i]));
        }
        lemma_relevelled_views(sorted, circuit.gates@, Schedule::List);
        assert(view_levels(gate_views(sorted), Schedule::Asap) =~= asap);
        if schedulable(net) {
            lemma_leveling_unique(net, levels_of(circuit.gates@, Schedule::List), the_leveling(net));
        }
    }
    if !found {
        if !all_labeled(circuit, Schedule::List) {
            return Err(SynthesisError::Cycle);
        }
        proof {
            let list = levels_of(circuit.gates@, Schedule::List);
            assert forall|i: int| 0 <= i < net.len() implies #[trigger] list[i] >= 1 && list[i] == ready_level(
                net,
                list,
                i,
            ) by {
                assert(list[i] != -1);
            }
            assert(is_leveling(net, list));
        }
    }
    Ok(())
}

/// Mobility is never negative: in a table of gates that carries its ASAP
/// schedule and its ALAP schedule, no gate has an ALAP level below its ASAP
/// level.
pub proof fn lemma_mobility_not_negative(gates: Seq<TableGate>, m: int, g: int)
    requires
        is_leveling(netlist(gates), levels_of(gates, Schedule::Asap)),
        is_alap_leveling(netlist(gates), levels_of(gates, Schedule::Alap), m),
        0 <= g < gates.len(),
    ensures
        gates[g].alap_level - gates[g].asap_level >= 0,
        prepared(gates[g]).mobility >= 0,
        has_mobility(gates[g]) ==> gates[g].mobility >= 0,
{
    crate::scheduler::depths::lemma_alap_not_before_asap(
        netlist(gates),
        levels_of(gates, Schedule::Asap),
        levels_of(gates, Schedule::Alap),
        m,
        g,
    );
    assert(levels_of(gates, Schedule::Asap)[g] >= 1);
}

} // verus!
