//! The ASAP schedule: every gate fires as soon as its operands allow.
use vstd::prelude::*;
use crate::circuit::{Circuit, CircuitView, lemma_nodes_of_views, nodes};
use crate::error::SynthesisError;
use crate::scheduler::{
    lemma_relevelled_views, levels_of, relevelled, Schedule, the_leveling, top_level, with_levels,
};
use crate::scheduler::fixed_point::assign_levels;
use crate::scheduler::levels::{
    is_leveling, is_partial_leveling, is_stuck, is_top_level, lemma_leveling_unique, lemma_peak_is_top, peak,
    schedulable,
};

verus! {

/// What the ASAP scheduler makes of a circuit: every gate at the level of
/// the netlist's level schedule, and the largest level recorded; `Cycle` for
/// a netlist without a level schedule.
pub open spec fn asap_view(v: CircuitView) -> Result<CircuitView, SynthesisError> {
    let net = nodes(v.gates);
    if schedulable(net) {
        let lv = the_leveling(net);
        Ok(CircuitView { gates: with_levels(v.gates, Schedule::Asap, lv), max_asap: peak(lv), ..v })
    } else {
        Err(SynthesisError::Cycle)
    }
}

/// Computes the ASAP schedule.
///
/// Every gate gets the level at which it can fire at the earliest: one more
/// than the later of its operands' levels, where a wire that no gate drives
/// (a primary input) has level 0 and a driven wire has the level of the first
/// gate that drives it. `max_asap` becomes the largest level, 0 for an empty
/// table. Nothing but the ASAP levels and `max_asap` changes.
///
/// A netlist that has no such schedule, because a gate depends on its own
/// output, is refused with `Cycle`; the gates that could be assigned keep
/// their levels, the others are left unassigned, and `max_asap` stays.
pub fn compute_asap_schedule(circuit: &mut Circuit) -> (res: Result<(), SynthesisError>)
    requires
        old(circuit).wf(),
    ensures
        final(circuit).wf(),
        final(circuit).netlist() == old(circuit).netlist(),
        relevelled(old(circuit).gates@, final(circuit).gates@, Schedule::Asap),
        final(circuit).num_gates == old(circuit).num_gates,
        final(circuit).primary_inputs@ == old(circuit).primary_inputs@,
        final(circuit).num_inputs == old(circuit).num_inputs,
        final(circuit).num_outputs == old(circuit).num_outputs,
        final(circuit).max_alap == old(circuit).max_alap,
        final(circuit).max_list == old(circuit).max_list,
        final(circuit).max_resources == old(circuit).max_resources,
        final(circuit).bench_name@ == old(circuit).bench_name@,
        res is Ok <==> schedulable(old(circuit).netlist()),
        match asap_view(old(circuit)@) {
            Ok(v) => res is Ok && final(circuit)@ == v,
            Err(e) => res == Err::<(), SynthesisError>(e),
        },
        match res {
            Ok(_) => {
                &&& is_leveling(old(circuit).netlist(), levels_of(final(circuit).gates@, Schedule::Asap))
                &&& is_top_level(levels_of(final(circuit).gates@, Schedule::Asap), final(circuit).max_asap as int)
                &&& final(circuit).max_asap == peak(levels_of(final(circuit).gates@, Schedule::Asap))
            },
            Err(e) => {
                &&& e == SynthesisError::Cycle
                &&& final(circuit).max_asap == old(circuit).max_asap
                &&& is_partial_leveling(old(circuit).netlist(), levels_of(final(circuit).gates@, Schedule::Asap))
                &&& is_stuck(old(circuit).netlist(), levels_of(final(circuit).gates@, Schedule::Asap))
            },
        },
{
    proof {
        lemma_nodes_of_views(old(circuit).gates@);
    }
    if !assign_levels(circuit, Schedule::Asap, 0) {
        return Err(SynthesisError::Cycle);
    }
    let m = top_level(circuit, Schedule::Asap);
    circuit.max_asap = m;
    proof {
        let net = old(circuit).netlist();
        let lv = levels_of(circuit.gates@, Schedule::Asap);
        lemma_peak_is_top(lv);
        lemma_leveling_unique(net, lv, the_leveling(net));
        lemma_relevelled_views(old(circuit).gates@, circuit.gates@, Schedule::Asap);
    }
    Ok(())
}

} // verus!
