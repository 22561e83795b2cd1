//! The pipeline as a whole: from the text of a netlist to the four reports.
use vstd::prelude::*;
use crate::circuit::{Circuit, CircuitView, gate_views, GateView};
use crate::error::SynthesisError;
use crate::generator::micro_ops::{generate_micro_ops, micro_view};
use crate::generator::stats::{generate_stats, stats_view};
use crate::generator::verilog::{generate_magic_verilog, verilog_view};
use crate::mapper::mapper_sorted;
use crate::mapper::compact::{compact_view, create_compact_mapping};
use crate::mapper::naive::{create_naive_mapping, naive_view};
use crate::parser::{parse_netlist, parse_view};
use crate::parser::tables::{find_primary_inputs, inputs_view};
use crate::scheduler::alap::{alap_view, compute_alap_schedule};
use crate::scheduler::asap::{asap_view, compute_asap_schedule};
use crate::scheduler::list::{compute_list_schedule, list_view};
use crate::sorting::SortKey;

verus! {

/// The reports of one netlist.
#[derive(Debug)]
pub struct Reports {
    /// The schedule statistics.
    pub stats: String,
    /// The structural netlist of the mapped module.
    pub verilog: String,
    /// The micro-operations of the naive mapping.
    pub naive_ops: String,
    /// The micro-operations of the compact mapping.
    pub compact_ops: String,
    /// The number of gates of the netlist.
    pub num_gates: usize,
    /// The number of primary inputs of the netlist.
    pub num_inputs: usize,
    /// The number of primary outputs of the netlist.
    pub num_outputs: usize,
}

/// The reports of one netlist as plain values.
pub struct ReportTexts {
    pub stats: Seq<char>,
    pub verilog: Seq<char>,
    pub naive_ops: Seq<char>,
    pub compact_ops: Seq<char>,
    pub num_gates: int,
    pub num_inputs: int,
    pub num_outputs: int,
}

impl View for Reports {
    type V = ReportTexts;

    open spec fn view(&self) -> ReportTexts {
        ReportTexts {
            stats: self.stats@,
            verilog: self.verilog@,
            naive_ops: self.naive_ops@,
            compact_ops: self.compact_ops@,
            num_gates: self.num_gates as int,
            num_inputs: self.num_inputs as int,
            num_outputs: self.num_outputs as int,
        }
    }
}

/// A stage of the pipeline.
#[derive(Debug, Clone, Copy, PartialEq, Eq, Structural)]
pub enum Stage {
    Parse,
    PrimaryInputs,
    AsapSchedule,
    AlapSchedule,
    ListSchedule,
    Statistics,
    NaiveMapping,
    CompactMapping,
}

impl Stage {
    /// The name of the stage for diagnostics.
    pub fn name(&self) -> (s: &'static str)
        ensures
            s@ == match *self {
                Stage::Parse => "parse"@,
                Stage::PrimaryInputs => "primary inputs"@,
                Stage::AsapSchedule => "ASAP schedule"@,
                Stage::AlapSchedule => "ALAP schedule"@,
                Stage::ListSchedule => "list schedule"@,
                Stage::Statistics => "schedule statistics"@,
                Stage::NaiveMapping => "naive mapping"@,
                Stage::CompactMapping => "compact mapping"@,
            },
    {
        match self {
            Stage::Parse => "parse",
            Stage::PrimaryInputs => "primary inputs",
            Stage::AsapSchedule => "ASAP schedule",
            Stage::AlapSchedule => "ALAP schedule",
            Stage::ListSchedule => "list schedule",
            Stage::Statistics => "schedule statistics",
            Stage::NaiveMapping => "naive mapping",
            Stage::CompactMapping => "compact mapping",
        }
    }
}

/// The failure of the pipeline: the stage that failed, and why.
#[derive(Debug, Clone, Copy, PartialEq, Eq, Structural)]
pub struct Failure {
    pub stage: Stage,
    pub error: SynthesisError,
}

/// The circuit that holds nothing, as numbers.
pub open spec fn empty_view() -> CircuitView {
    CircuitView {
        gates: Seq::empty(),
        num_gates: 0,
        primary_inputs: Seq::empty(),
        num_inputs: 0,
        num_outputs: 0,
        max_asap: 0,
        max_alap: 0,
        max_list: 0,
        max_resources: 0,
        bench_name: Seq::empty(),
    }
}

/// The outcome of a stage as an outcome of the pipeline: a failure names
/// the stage.
pub open spec fn at_stage<T>(stage: Stage, outcome: Result<T, SynthesisError>) -> Result<T, Failure> {
    match outcome {
        Ok(v) => Ok(v),
        Err(error) => Err(Failure { stage, error }),
    }
}

/// What a stage makes of the outcome of the stages before it: the first
/// failure ends the pipeline.
pub open spec fn and_then(
    before: Result<CircuitView, Failure>,
    stage: Stage,
    step: spec_fn(CircuitView) -> Result<CircuitView, SynthesisError>,
) -> Result<CircuitView, Failure> {
    match before {
        Ok(v) => at_stage(stage, step(v)),
        Err(e) => Err(e),
    }
}

/// The circuit that the netlist `text` describes, with its primary inputs
/// found and its three schedules computed; or the failure of the first
/// stage that fails.
pub open spec fn scheduled_view(text: Seq<u8>) -> Result<CircuitView, Failure> {
    let parsed = at_stage(Stage::Parse, parse_view(text, empty_view()));
    let found = and_then(parsed, Stage::PrimaryInputs, |v: CircuitView| inputs_view(v));
    let asap = and_then(found, Stage::AsapSchedule, |v: CircuitView| asap_view(v));
    let alap = and_then(asap, Stage::AlapSchedule, |v: CircuitView| alap_view(v));
    and_then(alap, Stage::ListSchedule, |v: CircuitView| list_view(v))
}

/// The reports of a scheduled circuit: its statistics and its structural
/// netlist, then the micro-operations of its naive mapping and, from the
/// circuit as the naive mapper leaves it, of its compact mapping; or the
/// failure of the first stage that fails.
pub open spec fn reports_view(c: CircuitView) -> Result<ReportTexts, Failure> {
    match stats_view(c) {
        Err(error) => Err(Failure { stage: Stage::Statistics, error }),
        Ok(stats) => match naive_view(c) {
            Err(error) => Err(Failure { stage: Stage::NaiveMapping, error }),
            Ok((d, naive)) => match compact_view(d) {
                Err(error) => Err(Failure { stage: Stage::CompactMapping, error }),
                Ok((e, compact)) => Ok(
                    ReportTexts {
                        stats,
                        verilog: verilog_view(c),
                        naive_ops: micro_view(d, naive, true),
                        compact_ops: micro_view(e, compact, false),
                        num_gates: c.gates.len() as int,
                        num_inputs: c.num_inputs,
                        num_outputs: c.num_outputs,
                    },
                ),
            },
        },
    }
}

/// The circuit as the writing of its reports leaves it: as it was where the
/// statistics fail; sorted and unplaced where a mapper fails; else sorted and
/// placed as the compact mapper leaves it.
pub open spec fn reported_view(c: CircuitView) -> CircuitView {
    match stats_view(c) {
        Err(_) => c,
        Ok(_) => match naive_view(c) {
            Err(_) => CircuitView { gates: mapper_sorted(c, SortKey::AsapLevel), ..c },
            Ok((d, _)) => match compact_view(d) {
                Err(_) => CircuitView { gates: mapper_sorted(d, SortKey::ListTime), ..d },
                Ok((e, _)) => e,
            },
        },
    }
}

/// The outcome of the pipeline on the netlist `text`: the reports, or the
/// failure of the first stage that fails. It is a function of the text.
pub open spec fn pipeline(text: Seq<u8>) -> Result<ReportTexts, Failure> {
    match scheduled_view(text) {
        Ok(c) => reports_view(c),
        Err(e) => Err(e),
    }
}

/// An outcome of the pipeline as plain values.
pub open spec fn outcome_view(res: Result<Reports, Failure>) -> Result<ReportTexts, Failure> {
    match res {
        Ok(reports) => Ok(reports@),
        Err(e) => Err(e),
    }
}

/// Determinism: two runs of the pipeline on the same text have the same
/// outcome, report for report and character for character.
pub proof fn lemma_pipeline_deterministic(
    text: Seq<u8>,
    first: Result<Reports, Failure>,
    second: Result<Reports, Failure>,
)
    requires
        outcome_view(first) == pipeline(text),
        outcome_view(second) == pipeline(text),
    ensures
        outcome_view(first) == outcome_view(second),
        first matches Ok(a) ==> second matches Ok(b) && a.stats@ == b.stats@ && a.verilog@ == b.verilog@
            && a.naive_ops@ == b.naive_ops@ && a.compact_ops@ == b.compact_ops@,
        first matches Err(e) ==> second matches Err(x) && x == e,
{
}

/// Reads the netlist `text` into a fresh circuit, finds its primary inputs
/// and computes its ASAP, ALAP and list schedules. The circuit has no name
/// yet, and none of its gates is placed.
pub fn schedule_netlist(text: &[u8]) -> (res: Result<Circuit, Failure>)
    ensures
        match scheduled_view(text@) {
            Ok(v) => res matches Ok(circuit) && circuit@ == v && circuit.wf(),
            Err(e) => res matches Err(x) && x == e,
        },
{
    let mut circuit = Circuit::new();
    proof {
        assert(gate_views(circuit.gates@) =~= Seq::<GateView>::empty());
        assert(circuit.primary_inputs@.map_values(|w: i32| w as int) =~= Seq::<int>::empty());
        assert(circuit.bench_name@ =~= Seq::<char>::empty());
        assert(circuit@ == empty_view());
    }
    match parse_netlist(text, &mut circuit) {
        Ok(_) => {},
        Err(error) => {
            return Err(Failure { stage: Stage::Parse, error });
        },
    }
    match find_primary_inputs(&mut circuit) {
        Ok(_) => {},
        Err(error) => {
            return Err(Failure { stage: Stage::PrimaryInputs, error });
        },
    }
    match compute_asap_schedule(&mut circuit) {
        Ok(_) => {},
        Err(error) => {
            return Err(Failure { stage: Stage::AsapSchedule, error });
        },
    }
    match compute_alap_schedule(&mut circuit) {
        Ok(_) => {},
        Err(error) => {
            return Err(Failure { stage: Stage::AlapSchedule, error });
        },
    }
    match compute_list_schedule(&mut circuit) {
        Ok(_) => {},
        Err(error) => {
            return Err(Failure { stage: Stage::ListSchedule, error });
        },
    }
    Ok(circuit)
}

/// Writes the four reports of a scheduled circuit. The circuit is left as
/// the compact mapper leaves it, sorted and placed; where a mapper fails,
/// sorted and unplaced; where the statistics fail, as it was.
pub fn generate_reports(circuit: &mut Circuit) -> (res: Result<Reports, Failure>)
    requires
        old(circuit).wf(),
    ensures
        final(circuit).wf(),
        outcome_view(res) == reports_view(old(circuit)@),
        final(circuit)@ == reported_view(old(circuit)@),
{
    let stats = match generate_stats(circuit) {
        Ok(stats) => stats,
        Err(error) => {
            return Err(Failure { stage: Stage::Statistics, error });
        },
    };
    let verilog = generate_magic_verilog(circuit);
    let num_gates = circuit.gates.len();
    let num_inputs = circuit.num_inputs;
    let num_outputs = circuit.num_outputs;
    let naive = match create_naive_mapping(circuit) {
        Ok(mapping) => mapping,
        Err(error) => {
            return Err(Failure { stage: Stage::NaiveMapping, error });
        },
    };
    let naive_ops = generate_micro_ops(circuit, &naive, true);
    let compact = match create_compact_mapping(circuit) {
        Ok(mapping) => mapping,
        Err(error) => {
            return Err(Failure { stage: Stage::CompactMapping, error });
        },
    };
    let compact_ops = generate_micro_ops(circuit, &compact, false);
    Ok(Reports { stats, verilog, naive_ops, compact_ops, num_gates, num_inputs, num_outputs })
}

/// Runs the pipeline on the netlist `text`: parsing, the primary inputs,
/// the three schedules, the statistics, the structural netlist, and the two
/// mappings with their micro-operations. The outcome is the reports, or the
/// stage that failed first and why; either way it depends on nothing but the
/// text.
pub fn process_netlist(text: &[u8]) -> (res: Result<Reports, Failure>)
    ensures
        outcome_view(res) == pipeline(text@),
{
    let mut circuit = match schedule_netlist(text) {
        Ok(circuit) => circuit,
        Err(e) => {
            return Err(e);
        },
    };
    generate_reports(&mut circuit)
}

} // verus!
