//! The schedule statistics: for each of the three schedules, how the gates
//! spread over the levels and what crossbar a level-by-level execution needs.
use vstd::prelude::*;
use vstd::string::*;
use crate::circuit::{Circuit, CircuitView, gate_views, lemma_nodes_of_views, Node, nodes};
use crate::error::SynthesisError;
use crate::limits::{MAX_GATES, MAX_LEVELS};
use crate::scheduler::{levels_of, Schedule, view_levels};
use crate::scheduler::levels::later;
use crate::text::{decimal, labelled, push_decimal, push_labelled};

verus! {

/// The number of entries of `lv` that are `l`.
pub open spec fn count_level(lv: Seq<int>, l: int) -> nat
    decreases lv.len(),
{
    if lv.len() == 0 {
        0
    } else {
        count_level(lv.drop_last(), l) + if lv.last() == l {
            1nat
        } else {
            0nat
        }
    }
}

/// The largest entry of `lv`, or 0 where `lv` is empty.
pub open spec fn highest(lv: Seq<int>) -> int
    decreases lv.len(),
{
    if lv.len() == 0 {
        0
    } else if lv.len() == 1 {
        lv[0]
    } else {
        later(highest(lv.drop_last()), lv.last())
    }
}

/// The number of levels that the histogram covers: the largest level, and
/// at least one.
pub open spec fn histogram_size(lv: Seq<int>) -> int {
    later(1, highest(lv))
}

/// The histogram of the schedule: entry `j` is the number of gates at
/// level `j + 1`.
pub open spec fn histogram(lv: Seq<int>) -> Seq<int> {
    Seq::new(histogram_size(lv) as nat, |j: int| count_level(lv, j + 1) as int)
}

/// The largest number of gates at one of the levels 1 to `size`.
pub open spec fn widest(lv: Seq<int>, size: int) -> int
    decreases size,
{
    if size <= 0 {
        0
    } else {
        later(widest(lv, size - 1), count_level(lv, size) as int)
    }
}

/// The largest number of gates at one level of the schedule.
pub open spec fn max_gates(lv: Seq<int>) -> int {
    widest(lv, histogram_size(lv))
}

/// The column of gate `i` when its level is executed: the number of gates
/// of the same level that stand before it in the table.
pub open spec fn column_of(lv: Seq<int>, i: int) -> int {
    count_level(lv.take(i), lv[i]) as int
}

/// Whether, among the first `i` gates, one with `kind` operands is
/// executed in column `c` at some level from 1 on.
pub open spec fn hosts_before(lv: Seq<int>, net: Seq<Node>, c: int, kind: int, i: int) -> bool {
    exists|j: int| 0 <= j < i && #[trigger] lv[j] >= 1 && column_of(lv, j) == c && net[j].fanin == kind
}

/// Whether column `c` hosts a gate with `kind` operands at some level.
pub open spec fn hosts(lv: Seq<int>, net: Seq<Node>, c: int, kind: int) -> bool {
    hosts_before(lv, net, c, kind, lv.len() as int)
}

/// The number of columns below `width` that host NOT gates and no NOR gate.
pub open spec fn not_only_columns(lv: Seq<int>, net: Seq<Node>, width: int) -> int
    decreases width,
{
    if width <= 0 {
        0
    } else {
        not_only_columns(lv, net, width - 1) + if hosts(lv, net, width - 1, 1) && !hosts(lv, net, width - 1, 2) {
            1int
        } else {
            0int
        }
    }
}

/// The number of columns below `width` that host both NOT gates and NOR
/// gates.
pub open spec fn both_columns(lv: Seq<int>, net: Seq<Node>, width: int) -> int
    decreases width,
{
    if width <= 0 {
        0
    } else {
        both_columns(lv, net, width - 1) + if hosts(lv, net, width - 1, 1) && hosts(lv, net, width - 1, 2) {
            1int
        } else {
            0int
        }
    }
}

/// The first `j` numbers of `hist`, a space between two of them.
pub open spec fn joined(hist: Seq<int>, j: int) -> Seq<char>
    decreases j,
{
    if j <= 0 {
        Seq::empty()
    } else if j == 1 {
        decimal(hist[0])
    } else {
        joined(hist, j - 1) + " "@ + decimal(hist[j - 1])
    }
}

/// The statistics of the schedule called `name`, which gives the gates of
/// `net` the levels `lv`.
///
/// A column that hosts gates of one kind, NOTs only or NORs only, takes two
/// memristors, and a column that hosts both kinds takes three: the memristor
/// count is two for each column and one more for each column of both kinds.
/// The parallel crossbar is three wide for each column, less one for each
/// column of NOTs only. The serial execution takes a step for each gate and
/// one for each level, the parallel execution two steps for each level.
pub open spec fn section(name: Seq<char>, lv: Seq<int>, net: Seq<Node>) -> Seq<char> {
    let width = max_gates(lv);
    section_text(
        name,
        histogram(lv),
        highest(lv),
        width,
        2 * width + both_columns(lv, net, width),
        3 * width - not_only_columns(lv, net, width),
        lv.len() as int,
    )
}

/// The statistics of a schedule as numbers.
#[derive(Debug)]
pub struct ScheduleStats {
    /// Entry `j` is the number of gates at level `j + 1`.
    pub histogram: Vec<usize>,
    /// The largest level.
    pub levels: i32,
    /// The largest number of gates at one level.
    pub max_gates: usize,
    /// The number of columns that host NOT gates only.
    pub not_only_columns: usize,
    /// The number of columns that host both NOT gates and NOR gates.
    pub both_columns: usize,
}

impl ScheduleStats {
    /// Whether these are the statistics of the schedule that gives the gates
    /// of `net` the levels `lv`.
    pub open spec fn describes(&self, lv: Seq<int>, net: Seq<Node>) -> bool {
        &&& self.histogram@.map_values(|v: usize| v as int) == histogram(lv)
        &&& self.levels == highest(lv)
        &&& self.max_gates == max_gates(lv)
        &&& self.not_only_columns == not_only_columns(lv, net, max_gates(lv))
        &&& self.both_columns == both_columns(lv, net, max_gates(lv))
    }
}

/// Counting a level over one gate more adds that gate where it has the
/// level, and no prefix counts more than the whole.
proof fn lemma_count_level_prefix(lv: Seq<int>, i: int, l: int)
    requires
        0 <= i <= lv.len(),
    ensures
        count_level(lv.take(i), l) <= count_level(lv, l),
        count_level(lv, l) <= lv.len(),
        i < lv.len() ==> count_level(lv.take(i + 1), l) == count_level(lv.take(i), l) + if lv[i] == l {
            1nat
        } else {
            0nat
        },
    decreases lv.len() - i,
{
    if i < lv.len() {
        assert(lv.take(i + 1).drop_last() =~= lv.take(i));
        lemma_count_level_prefix(lv, i + 1, l);
    } else {
        assert(lv.take(i) =~= lv);
        lemma_count_level_bound(lv, l);
    }
    lemma_count_level_bound(lv, l);
}

/// No level has more gates than there are gates.
proof fn lemma_count_level_bound(lv: Seq<int>, l: int)
    ensures
        count_level(lv, l) <= lv.len(),
    decreases lv.len(),
{
    if lv.len() > 0 {
        lemma_count_level_bound(lv.drop_last(), l);
    }
}

/// The widest level has no more gates than there are gates.
proof fn lemma_widest_bound(lv: Seq<int>, size: int)
    ensures
        0 <= widest(lv, size) <= lv.len(),
    decreases size,
{
    if size > 0 {
        lemma_count_level_bound(lv, size);
        lemma_widest_bound(lv, size - 1);
    }
}

/// No level up to `size` has more gates than the widest of them.
proof fn lemma_widest(lv: Seq<int>, size: int, l: int)
    requires
        1 <= l <= size,
    ensures
        count_level(lv, l) <= widest(lv, size),
    decreases size,
{
    if l < size {
        lemma_widest(lv, size - 1, l);
    }
}

/// No entry exceeds the highest.
proof fn lemma_highest(lv: Seq<int>)
    ensures
        forall|i: int| 0 <= i < lv.len() ==> #[trigger] lv[i] <= highest(lv),
    decreases lv.len(),
{
    if lv.len() > 1 {
        lemma_highest(lv.drop_last());
        assert forall|i: int| 0 <= i < lv.len() implies #[trigger] lv[i] <= highest(lv) by {
            if i < lv.len() - 1 {
                assert(lv.drop_last()[i] == lv[i]);
            }
        }
    }
}

/// The largest level of schedule `which`, or 0 for an empty table.
fn highest_level(circuit: &Circuit, which: Schedule) -> (top: i32)
    requires
        circuit.wf(),
    ensures
        top == highest(levels_of(circuit.gates@, which)),
        -1 <= top <= MAX_GATES,
{
    let n = circuit.gates.len();
    let ghost lv = levels_of(circuit.gates@, which);
    if n == 0 {
        return 0;
    }
    assert(circuit.gates@[0].wf());
    let mut top = which.get(&circuit.gates[0]);
    assert(lv.take(1) =~= seq![lv[0]]);
    for i in 1..n
        invariant
            n == circuit.gates@.len(),
            circuit.wf(),
            lv == levels_of(circuit.gates@, which),
            top == highest(lv.take(i as int)),
            -1 <= top <= MAX_GATES,
    {
        assert(circuit.gates@[i as int].wf());
        assert(lv.take(i + 1).drop_last() =~= lv.take(i as int));
        let v = which.get(&circuit.gates[i]);
        if v > top {
            top = v;
        }
    }
    assert(lv.take(n as int) =~= lv);
    top
}

/// The histogram of schedule `which` over the levels 1 to `size`.
fn level_histogram(circuit: &Circuit, which: Schedule, size: usize) -> (hist: Vec<usize>)
    requires
        circuit.wf(),
        size <= MAX_GATES,
    ensures
        hist@.len() == size,
        forall|j: int| 0 <= j < size ==> #[trigger] hist@[j] == count_level(levels_of(circuit.gates@, which), j + 1),
{
    let n = circuit.gates.len();
    let ghost lv = levels_of(circuit.gates@, which);
    let mut hist: Vec<usize> = Vec::new();
    for j in 0..size
        invariant
            hist@.len() == j,
            forall|m: int| 0 <= m < j ==> #[trigger] hist@[m] == 0,
    {
        hist.push(0);
    }
    for i in 0..n
        invariant
            n == circuit.gates@.len(),
            circuit.wf(),
            lv == levels_of(circuit.gates@, which),
            hist@.len() == size,
            forall|j: int| 0 <= j < size ==> #[trigger] hist@[j] == count_level(lv.take(i as int), j + 1),
    {
        let v = which.get(&circuit.gates[i]);
        proof {
            assert forall|l: int| 1 <= l <= size implies #[trigger] count_level(lv.take(i + 1), l) == count_level(
                lv.take(i as int),
                l,
            ) + if lv[i as int] == l {
                1nat
            } else {
                0nat
            } && count_level(lv.take(i as int), l) <= i by {
                lemma_count_level_prefix(lv, i as int, l);
                lemma_count_level_bound(lv.take(i as int), l);
            }
        }
        if v >= 1 && v as usize <= size {
            proof {
                lemma_count_level_bound(lv.take(i as int), v as int);
            }
            let slot = (v - 1) as usize;
            let was = hist[slot];
            hist[slot] = was + 1;
        }
    }
    proof {
        assert(lv.take(n as int) =~= lv);
    }
    hist
}

/// The flags of the columns below `width`: for each, whether it hosts a
/// NOT gate and whether it hosts a NOR gate.
fn column_kinds(circuit: &Circuit, which: Schedule, top: usize, width: usize) -> (kinds: (Vec<bool>, Vec<bool>))
    requires
        circuit.wf(),
        top <= MAX_GATES,
        top == histogram_size(levels_of(circuit.gates@, which)),
        width == max_gates(levels_of(circuit.gates@, which)),
    ensures
        kinds.0@.len() == width,
        kinds.1@.len() == width,
        forall|c: int| 0 <= c < width ==> #[trigger] kinds.0@[c] == hosts(levels_of(circuit.gates@, which), circuit.netlist(), c, 1),
        forall|c: int| 0 <= c < width ==> #[trigger] kinds.1@[c] == hosts(levels_of(circuit.gates@, which), circuit.netlist(), c, 2),
{
    let n = circuit.gates.len();
    let ghost lv = levels_of(circuit.gates@, which);
    let ghost net = circuit.netlist();
    let mut nots: Vec<bool> = Vec::new();
    let mut nors: Vec<bool> = Vec::new();
    let mut seen: Vec<usize> = Vec::new();
    for c in 0..width
        invariant
            nots@.len() == c,
            nors@.len() == c,
            forall|m: int| 0 <= m < c ==> !#[trigger] nots@[m],
            forall|m: int| 0 <= m < c ==> !#[trigger] nors@[m],
    {
        nots.push(false);
        nors.push(false);
    }
    for l in 0..top + 1
        invariant
            seen@.len() == l,
            forall|m: int| 0 <= m < l ==> #[trigger] seen@[m] == 0,
    {
        seen.push(0);
    }
    proof {
        lemma_highest(lv);
    }
    for i in 0..n
        invariant
            n == circuit.gates@.len(),
            circuit.wf(),
            lv == levels_of(circuit.gates@, which),
            net == circuit.netlist(),
            top == histogram_size(lv),
            width == max_gates(lv),
            forall|j: int| 0 <= j < lv.len() ==> #[trigger] lv[j] <= highest(lv),
            nots@.len() == width,
            nors@.len() == width,
            seen@.len() == top + 1,
            forall|l: int| 1 <= l <= top ==> #[trigger] seen@[l] == count_level(lv.take(i as int), l),
            forall|c: int| 0 <= c < width ==> #[trigger] nots@[c] == hosts_before(lv, net, c, 1, i as int),
            forall|c: int| 0 <= c < width ==> #[trigger] nors@[c] == hosts_before(lv, net, c, 2, i as int),
    {
        assert(circuit.gates@[i as int].wf());
        let v = which.get(&circuit.gates[i]);
        let fanin = circuit.gates[i].fanin;
        let ghost old_nots = nots@;
        let ghost old_nors = nors@;
        proof {
            assert(lv[i as int] <= highest(lv));
            assert forall|l: int| 1 <= l <= top implies #[trigger] count_level(lv.take(i + 1), l) == count_level(
                lv.take(i as int),
                l,
            ) + if lv[i as int] == l {
                1nat
            } else {
                0nat
            } by {
                lemma_count_level_prefix(lv, i as int, l);
            }
            if v >= 1 {
                lemma_count_level_prefix(lv, i as int, v as int);
                lemma_count_level_prefix(lv, i + 1, v as int);
                lemma_widest(lv, top as int, v as int);
            }
        }
        if v >= 1 {
            let c = seen[v as usize];
            assert(c == column_of(lv, i as int));
            seen[v as usize] = c + 1;
            if fanin == 1 {
                nots[c] = true;
            } else {
                nors[c] = true;
            }
        }
        proof {
            assert forall|c: int| 0 <= c < width implies #[trigger] nots@[c] == hosts_before(lv, net, c, 1, i + 1) by {
                if hosts_before(lv, net, c, 1, i as int) {
                    let j = choose|j: int| 0 <= j < i && #[trigger] lv[j] >= 1 && column_of(lv, j) == c && net[j].fanin == 1;
                    assert(0 <= j < i + 1 && lv[j] >= 1 && column_of(lv, j) == c && net[j].fanin == 1);
                } else if hosts_before(lv, net, c, 1, i + 1) {
                    let j = choose|j: int| 0 <= j < i + 1 && #[trigger] lv[j] >= 1 && column_of(lv, j) == c && net[j].fanin == 1;
                    assert(j == i);
                } else {
                    if v >= 1 && fanin == 1 && column_of(lv, i as int) == c {
                        assert(0 <= i < i + 1 && lv[i as int] >= 1 && column_of(lv, i as int) == c && net[i as int].fanin == 1);
                    }
                }
            }
            assert forall|c: int| 0 <= c < width implies #[trigger] nors@[c] == hosts_before(lv, net, c, 2, i + 1) by {
                if hosts_before(lv, net, c, 2, i as int) {
                    let j = choose|j: int| 0 <= j < i && #[trigger] lv[j] >= 1 && column_of(lv, j) == c && net[j].fanin == 2;
                    assert(0 <= j < i + 1 && lv[j] >= 1 && column_of(lv, j) == c && net[j].fanin == 2);
                } else if hosts_before(lv, net, c, 2, i + 1) {
                    let j = choose|j: int| 0 <= j < i + 1 && #[trigger] lv[j] >= 1 && column_of(lv, j) == c && net[j].fanin == 2;
                    assert(j == i);
                } else {
                    if v >= 1 && fanin == 2 && column_of(lv, i as int) == c {
                        assert(0 <= i < i + 1 && lv[i as int] >= 1 && column_of(lv, i as int) == c && net[i as int].fanin == 2);
                    }
                }
            }
        }
    }
    (nots, nors)
}

/// Computes the statistics of schedule `which`. A schedule with more than
/// `MAX_LEVELS` levels is refused with `ResourceExhausted`.
pub fn schedule_stats(circuit: &Circuit, which: Schedule) -> (res: Result<ScheduleStats, SynthesisError>)
    requires
        circuit.wf(),
    ensures
        res is Ok <==> highest(levels_of(circuit.gates@, which)) <= MAX_LEVELS,
        match res {
            Ok(stats) => stats.describes(levels_of(circuit.gates@, which), circuit.netlist()),
            Err(e) => e == SynthesisError::ResourceExhausted,
        },
{
    let ghost lv = levels_of(circuit.gates@, which);
    let ghost net = circuit.netlist();
    let top = highest_level(circuit, which);
    if top > MAX_LEVELS as i32 {
        return Err(SynthesisError::ResourceExhausted);
    }
    let size: usize = if top < 1 {
        1
    } else {
        top as usize
    };
    let hist = level_histogram(circuit, which, size);
    let mut width: usize = 0;
    for l in 0..size
        invariant
            hist@.len() == size,
            forall|j: int| 0 <= j < size ==> #[trigger] hist@[j] == count_level(lv, j + 1),
            width == widest(lv, l as int),
    {
        if hist[l] > width {
            width = hist[l];
        }
    }
    let (nots, nors) = column_kinds(circuit, which, size, width);
    let mut not_only: usize = 0;
    let mut both: usize = 0;
    for c in 0..width
        invariant
            nots@.len() == width,
            nors@.len() == width,
            forall|m: int| 0 <= m < width ==> #[trigger] nots@[m] == hosts(lv, net, m, 1),
            forall|m: int| 0 <= m < width ==> #[trigger] nors@[m] == hosts(lv, net, m, 2),
            not_only == not_only_columns(lv, net, c as int),
            both == both_columns(lv, net, c as int),
            not_only + both <= c,
    {
        if nots[c] && !nors[c] {
            not_only += 1;
        }
        if nots[c] && nors[c] {
            both += 1;
        }
    }
    proof {
        assert(hist@.map_values(|v: usize| v as int) =~= histogram(lv));
    }
    Ok(
        ScheduleStats {
            histogram: hist,
            levels: top,
            max_gates: width,
            not_only_columns: not_only,
            both_columns: both,
        },
    )
}

/// The first lines of a schedule's statistics: its name, the histogram,
/// the number of levels and the widest level.
pub open spec fn section_head(name: Seq<char>, hist: Seq<int>, top: int, width: int) -> Seq<char> {
    name + " SCHEDULE:\n=============\nGate distribution across levels:\n  "@ + joined(hist, hist.len() as int)
        + labelled("\nNumber of levels: "@, top) + labelled(", MaxGates: "@, width)
}

/// The last lines of a schedule's statistics: the memristors, the time
/// steps and the crossbar sizes.
pub open spec fn section_tail(top: int, width: int, devices: int, parallel: int, gates: int) -> Seq<char> {
    labelled("\nNumber of memristors: "@, devices) + labelled("\nTime steps (serial): "@, gates + top) + labelled(
        ", Time steps (parallel): "@,
        2 * top,
    ) + labelled("\nCrossbar size (serial): "@, width) + labelled(" x 3\nCrossbar size (parallel): "@, width)
        + labelled(" x "@, parallel) + "\n"@
}

/// The statistics of a schedule as text, from its numbers.
pub open spec fn section_text(
    name: Seq<char>,
    hist: Seq<int>,
    top: int,
    width: int,
    devices: int,
    parallel: int,
    gates: int,
) -> Seq<char> {
    section_head(name, hist, top, width) + section_tail(top, width, devices, parallel, gates)
}

/// Appends the numbers of the histogram, a space between two of them.
fn push_histogram(out: &mut String, hist: &Vec<usize>)
    requires
        forall|m: int| 0 <= m < hist@.len() ==> #[trigger] hist@[m] <= MAX_GATES,
    ensures
        final(out)@ == old(out)@ + joined(hist@.map_values(|v: usize| v as int), hist@.len() as int),
{
    let ghost numbers = hist@.map_values(|v: usize| v as int);
    let size = hist.len();
    assert(out@ =~= old(out)@ + joined(numbers, 0));
    for j in 0..size
        invariant
            size == hist@.len(),
            numbers == hist@.map_values(|v: usize| v as int),
            forall|m: int| 0 <= m < hist@.len() ==> #[trigger] hist@[m] <= MAX_GATES,
            out@ == old(out)@ + joined(numbers, j as int),
    {
        if j > 0 {
            out.append(" ");
        }
        assert(hist@[j as int] <= MAX_GATES);
        push_decimal(out, hist[j] as i64);
        proof {
            assert(numbers[j as int] == hist@[j as int] as int);
            if j > 0 {
                assert(out@ =~= old(out)@ + (joined(numbers, j as int) + " "@ + decimal(numbers[j as int])));
            } else {
                assert(out@ =~= old(out)@ + decimal(numbers[0]));
            }
        }
    }
}

/// Appends the first lines of a schedule's statistics.
fn push_section_head(out: &mut String, name: &str, stats: &ScheduleStats)
    requires
        -1 <= stats.levels <= MAX_GATES,
        stats.max_gates <= MAX_GATES,
        forall|m: int| 0 <= m < stats.histogram@.len() ==> #[trigger] stats.histogram@[m] <= MAX_GATES,
    ensures
        final(out)@ == old(out)@ + section_head(
            name@,
            stats.histogram@.map_values(|v: usize| v as int),
            stats.levels as int,
            stats.max_gates as int,
        ),
{
    out.append(name);
    out.append(" SCHEDULE:\n=============\nGate distribution across levels:\n  ");
    push_histogram(out, &stats.histogram);
    push_labelled(out, "\nNumber of levels: ", stats.levels as i64);
    push_labelled(out, ", MaxGates: ", stats.max_gates as i64);
    proof {
        assert(out@ =~= old(out)@ + section_head(
            name@,
            stats.histogram@.map_values(|v: usize| v as int),
            stats.levels as int,
            stats.max_gates as int,
        ));
    }
}

/// Appends the last lines of a schedule's statistics.
fn push_section_tail(out: &mut String, top: i64, width: i64, devices: i64, parallel: i64, gates: i64)
    requires
        -1 <= top <= MAX_GATES,
        0 <= width <= MAX_GATES,
        0 <= devices <= 3 * MAX_GATES,
        0 <= parallel <= 3 * MAX_GATES,
        0 <= gates <= MAX_GATES,
    ensures
        final(out)@ == old(out)@ + section_tail(
            top as int,
            width as int,
            devices as int,
            parallel as int,
            gates as int,
        ),
{
    push_labelled(out, "\nNumber of memristors: ", devices);
    push_labelled(out, "\nTime steps (serial): ", gates + top);
    push_labelled(out, ", Time steps (parallel): ", 2 * top);
    push_labelled(out, "\nCrossbar size (serial): ", width);
    push_labelled(out, " x 3\nCrossbar size (parallel): ", width);
    push_labelled(out, " x ", parallel);
    out.append("\n");
    proof {
        assert(out@ =~= old(out)@ + section_tail(
            top as int,
            width as int,
            devices as int,
            parallel as int,
            gates as int,
        ));
    }
}

/// Appends the statistics of a schedule, from its numbers.
fn push_section(out: &mut String, name: &str, stats: &ScheduleStats, gates: usize)
    requires
        gates <= MAX_GATES,
        -1 <= stats.levels <= MAX_GATES,
        stats.max_gates <= MAX_GATES,
        stats.not_only_columns + stats.both_columns <= stats.max_gates,
        forall|m: int| 0 <= m < stats.histogram@.len() ==> #[trigger] stats.histogram@[m] <= MAX_GATES,
    ensures
        final(out)@ == old(out)@ + section_text(
            name@,
            stats.histogram@.map_values(|v: usize| v as int),
            stats.levels as int,
            stats.max_gates as int,
            2 * stats.max_gates + stats.both_columns,
            3 * stats.max_gates - stats.not_only_columns,
            gates as int,
        ),
{
    let top = stats.levels as i64;
    let width = stats.max_gates as i64;
    let devices = 2 * width + stats.both_columns as i64;
    let parallel = 3 * width - stats.not_only_columns as i64;
    push_section_head(out, name, stats);
    push_section_tail(out, top, width, devices, parallel, gates as i64);
    proof {
        assert(out@ =~= old(out)@ + section_text(
            name@,
            stats.histogram@.map_values(|v: usize| v as int),
            stats.levels as int,
            stats.max_gates as int,
            2 * stats.max_gates + stats.both_columns,
            3 * stats.max_gates - stats.not_only_columns,
            gates as int,
        ));
    }
}

/// Appends the statistics of schedule `which` under the name `name`.
pub fn generate_schedule_stats(out: &mut String, circuit: &Circuit, name: &str, which: Schedule) -> (res: Result<
    (),
    SynthesisError,
>)
    requires
        circuit.wf(),
    ensures
        res is Ok <==> highest(levels_of(circuit.gates@, which)) <= MAX_LEVELS,
        match res {
            Ok(_) => final(out)@ == old(out)@ + section(name@, levels_of(circuit.gates@, which), circuit.netlist()),
            Err(e) => e == SynthesisError::ResourceExhausted && final(out)@ == old(out)@,
        },
{
    let ghost lv = levels_of(circuit.gates@, which);
    let ghost net = circuit.netlist();
    let stats = match schedule_stats(circuit, which) {
        Ok(stats) => stats,
        Err(e) => {
            return Err(e);
        },
    };
    proof {
        lemma_widest_bound(lv, histogram_size(lv));
        lemma_highest(lv);
        lemma_not_only_bound(lv, net, stats.max_gates as int);
        assert forall|m: int| 0 <= m < stats.histogram@.len() implies #[trigger] stats.histogram@[m] <= MAX_GATES by {
            let numbers = stats.histogram@.map_values(|v: usize| v as int);
            assert(numbers.len() == histogram(lv).len());
            assert(numbers[m] == stats.histogram@[m] as int);
            assert(histogram(lv)[m] == count_level(lv, m + 1) as int);
            lemma_count_level_bound(lv, m + 1);
        }
        if lv.len() > 0 {
            assert(lv[0] <= highest(lv));
            assert(circuit.gates@[0].wf());
        }
    }
    push_section(out, name, &stats, circuit.gates.len());
    Ok(())
}

/// The columns of NOTs only and the columns of both kinds are together no
/// more than the columns.
proof fn lemma_not_only_bound(lv: Seq<int>, net: Seq<Node>, width: int)
    requires
        width >= 0,
    ensures
        0 <= not_only_columns(lv, net, width),
        0 <= both_columns(lv, net, width),
        not_only_columns(lv, net, width) + both_columns(lv, net, width) <= width,
    decreases width,
{
    if width > 0 {
        lemma_not_only_bound(lv, net, width - 1);
    }
}

/// Whether each of the three schedules has at most `MAX_LEVELS` levels.
pub open spec fn levels_in_range(circuit: &Circuit) -> bool {
    &&& highest(levels_of(circuit.gates@, Schedule::Asap)) <= MAX_LEVELS
    &&& highest(levels_of(circuit.gates@, Schedule::Alap)) <= MAX_LEVELS
    &&& highest(levels_of(circuit.gates@, Schedule::List)) <= MAX_LEVELS
}

/// The schedule statistics of a circuit given as numbers: the sections of
/// the three schedules, or `ResourceExhausted` where one of them has more
/// than `MAX_LEVELS` levels.
pub open spec fn stats_view(v: CircuitView) -> Result<Seq<char>, SynthesisError> {
    let net = nodes(v.gates);
    let asap = view_levels(v.gates, Schedule::Asap);
    let alap = view_levels(v.gates, Schedule::Alap);
    let list = view_levels(v.gates, Schedule::List);
    if highest(asap) <= MAX_LEVELS && highest(alap) <= MAX_LEVELS && highest(list) <= MAX_LEVELS {
        Ok(section("ASAP"@, asap, net) + section("ALAP"@, alap, net) + section("LIST"@, list, net))
    } else {
        Err(SynthesisError::ResourceExhausted)
    }
}

/// The levels of gates are the levels of the gates as numbers.
pub proof fn lemma_levels_of_views(gates: Seq<crate::circuit::TableGate>, which: Schedule)
    ensures
        view_levels(gate_views(gates), which) == levels_of(gates, which),
{
    assert(view_levels(gate_views(gates), which) =~= levels_of(gates, which));
}

/// Writes the schedule statistics: the section of the ASAP schedule, then
/// that of the ALAP schedule, then that of the list schedule. A schedule with
/// more than `MAX_LEVELS` levels is refused with `ResourceExhausted`.
pub fn generate_stats(circuit: &Circuit) -> (res: Result<String, SynthesisError>)
    requires
        circuit.wf(),
    ensures
        res is Ok <==> levels_in_range(circuit),
        match stats_view(circuit@) {
            Ok(t) => res matches Ok(text) && text@ == t,
            Err(e) => res matches Err(x) && x == e,
        },
        match res {
            Ok(text) => text@ == section("ASAP"@, levels_of(circuit.gates@, Schedule::Asap), circuit.netlist())
                + section("ALAP"@, levels_of(circuit.gates@, Schedule::Alap), circuit.netlist()) + section(
                "LIST"@,
                levels_of(circuit.gates@, Schedule::List),
                circuit.netlist(),
            ),
            Err(e) => e == SynthesisError::ResourceExhausted,
        },
{
    proof {
        lemma_nodes_of_views(circuit.gates@);
        lemma_levels_of_views(circuit.gates@, Schedule::Asap);
        lemma_levels_of_views(circuit.gates@, Schedule::Alap);
        lemma_levels_of_views(circuit.gates@, Schedule::List);
    }
    let mut text = String::new();
    match generate_schedule_stats(&mut text, circuit, "ASAP", Schedule::Asap) {
        Ok(_) => {},
        Err(e) => {
            return Err(e);
        },
    }
    assert(text@ =~= section("ASAP"@, levels_of(circuit.gates@, Schedule::Asap), circuit.netlist()));
    match generate_schedule_stats(&mut text, circuit, "ALAP", Schedule::Alap) {
        Ok(_) => {},
        Err(e) => {
            return Err(e);
        },
    }
    match generate_schedule_stats(&mut text, circuit, "LIST", Schedule::List) {
        Ok(_) => {},
        Err(e) => {
            return Err(e);
        },
    }
    Ok(text)
}

} // verus!
