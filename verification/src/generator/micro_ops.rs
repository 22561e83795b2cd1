//! The stream of micro-operations: one instruction for each gate cell of the
//! crossbar, level by level, and the metrics of the run.
use vstd::prelude::*;
use vstd::string::*;
use crate::circuit::{Circuit, CircuitView};
use crate::crossbar::{CellId, CrossbarMapping, in_grid, MappingView, MemristiveGate};
use crate::limits::MAX_GATES;
use crate::text::{
    decimal, labelled, pad_left, pad_right, push_decimal, push_labelled, push_left_aligned, push_number,
    push_spaces, spaces,
};

verus! {

/// The label of a cell that stands for itself: `/N` for primary input `N`,
/// else its coordinate, row `x` column.
pub open spec fn plain_label(cell: MemristiveGate) -> Seq<char> {
    if cell.value >= MAX_GATES {
        "/"@ + decimal(cell.value - MAX_GATES)
    } else {
        decimal(cell.idx as int) + "x"@ + decimal(cell.jdx as int)
    }
}

/// The label of a cell as an operand: a copy is labelled as the cell it
/// copies, or `???` where it names none.
pub open spec fn cell_label(rows: Seq<Seq<MemristiveGate>>, cell: MemristiveGate) -> Seq<char> {
    if cell.value < MAX_GATES && cell.is_copy {
        match cell.inputs[0] {
            Some(src) => plain_label(rows[src.idx as int][src.jdx as int]),
            None => "???"@,
        }
    } else {
        plain_label(cell)
    }
}

/// The column and the label of an operand cell, the column in a field of
/// four and followed by `gap`, the label in a field of nine and followed by
/// a space; fifteen spaces for an operand that is absent.
pub open spec fn operand_field(rows: Seq<Seq<MemristiveGate>>, operand: Option<CellId>, gap: Seq<char>) -> Seq<
    char,
> {
    match operand {
        Some(id) => {
            let cell = rows[id.idx as int][id.jdx as int];
            pad_left(decimal(cell.jdx as int), 4) + gap + pad_right(cell_label(rows, cell), 9) + " "@
        },
        None => spaces(15),
    }
}

/// The instruction of a gate cell: its row, the copy flag, its operands, the
/// column it writes, and the write enable.
pub open spec fn instruction(rows: Seq<Seq<MemristiveGate>>, cell: MemristiveGate) -> Seq<char> {
    pad_left(decimal(cell.idx as int), 4) + " False "@ + operand_field(rows, cell.inputs[0], " "@) + if cell.fanin
        > 1 {
        operand_field(rows, cell.inputs[1], Seq::empty())
    } else {
        spaces(14)
    } + pad_left(decimal(cell.jdx as int), 4) + " True\n"@
}

/// Whether the cell gets an instruction at level `l`: it holds a gate, not
/// a primary input or a copy, and this gate fires at that level.
pub open spec fn fires_at(cell: MemristiveGate, l: int) -> bool {
    cell.value < MAX_GATES && !cell.is_copy && cell.asap_level == l
}

/// The heading of level `l`.
pub open spec fn level_heading(l: int) -> Seq<char> {
    "# Level: "@ + pad_left(decimal(l), 2) + " _____________________________________\n"@
}

/// The instructions of level `l` for the first `c` cells of `row`, and
/// whether the level has begun, given whether it had before the row. The
/// first instruction of a level above 0 comes under the level's heading.
pub open spec fn row_ops(
    rows: Seq<Seq<MemristiveGate>>,
    row: Seq<MemristiveGate>,
    l: int,
    c: int,
    begun: bool,
) -> (Seq<char>, bool)
    decreases c,
{
    if c <= 0 {
        (Seq::empty(), begun)
    } else {
        let (text, so_far) = row_ops(rows, row, l, c - 1, begun);
        if fires_at(row[c - 1], l) {
            (
                text + if !so_far && l >= 1 {
                    level_heading(l)
                } else {
                    Seq::empty()
                } + instruction(rows, row[c - 1]),
                true,
            )
        } else {
            (text, so_far)
        }
    }
}

/// The smaller of two numbers.
pub open spec fn at_most(x: int, y: int) -> int {
    if x <= y {
        x
    } else {
        y
    }
}

/// The instructions of level `l` for the first `r` rows, each scanned up to
/// column `max_jdx`, and whether the level has begun.
pub open spec fn grid_ops(rows: Seq<Seq<MemristiveGate>>, max_jdx: int, l: int, r: int) -> (Seq<char>, bool)
    decreases r,
{
    if r <= 0 {
        (Seq::empty(), false)
    } else {
        let (text, begun) = grid_ops(rows, max_jdx, l, r - 1);
        let (more, now) = row_ops(rows, rows[r - 1], l, at_most(rows[r - 1].len() as int, max_jdx + 1), begun);
        (text + more, now)
    }
}

/// The instructions of the levels from 0 up to, not including, `l`, over
/// the rows up to `max_idx` and the columns up to `max_jdx`; and the highest
/// level that has an instruction, 0 where none has.
pub open spec fn level_ops(rows: Seq<Seq<MemristiveGate>>, max_idx: int, max_jdx: int, l: int) -> (Seq<char>, int)
    decreases l,
{
    if l <= 0 {
        (Seq::empty(), 0)
    } else {
        let (text, reached) = level_ops(rows, max_idx, max_jdx, l - 1);
        let (more, begun) = grid_ops(rows, max_jdx, l - 1, at_most(rows.len() as int, max_idx + 1));
        (
            text + more,
            if begun {
                l - 1
            } else {
                reached
            },
        )
    }
}

/// The size of the crossbar as the metrics give it: one row for the naive
/// mapping, else the rows in use, by the columns in use; 1x1 where the
/// mapping has recorded no extent.
pub open spec fn crossbar_size(max_idx: int, max_jdx: int, is_naive: bool) -> Seq<char> {
    if is_naive {
        if max_jdx < 0 {
            "1x1"@
        } else {
            "1x"@ + decimal(max_jdx + 1)
        }
    } else if max_idx < 0 || max_jdx < 0 {
        "1x1"@
    } else {
        decimal(max_idx + 1) + "x"@ + decimal(max_jdx + 1)
    }
}

/// The metrics that close the stream.
pub open spec fn metrics(k: int, reached: int, top: int, max_idx: int, max_jdx: int, is_naive: bool) -> Seq<char> {
    labelled("\nMetrics\n-------\nPrimary Inputs    : "@, k) + labelled("\nLevels            : "@, reached)
        + labelled("\nRead Operations   : "@, top) + labelled("\nWrite Operations  : "@, 2 * top + 1) + labelled(
        "\nEvaluation Cycles : "@,
        top,
    ) + labelled("\nTotal Cycles      : "@, 4 * top + 1) + "\nCrossbar Size     : "@ + crossbar_size(
        max_idx,
        max_jdx,
        is_naive,
    ) + "\n---------------------------\n\n\n"@
}

/// The stream of micro-operations of a mapping: the instructions of the
/// levels 0 to `top`, then the metrics.
pub open spec fn micro_ops(
    rows: Seq<Seq<MemristiveGate>>,
    max_idx: int,
    max_jdx: int,
    k: int,
    top: int,
    is_naive: bool,
) -> Seq<char> {
    let (text, reached) = level_ops(rows, max_idx, max_jdx, top + 1);
    text + metrics(k, reached, top, max_idx, max_jdx, is_naive)
}

/// The stream of micro-operations of a circuit and a mapping given as
/// plain values.
pub open spec fn micro_view(v: CircuitView, m: MappingView, is_naive: bool) -> Seq<char> {
    micro_ops(m.rows, m.max_idx, m.max_jdx, v.num_inputs, v.max_asap, is_naive)
}

/// The label of a cell that stands for itself.
fn plain_label_of(cell: &MemristiveGate) -> (s: String)
    ensures
        s@ == plain_label(*cell),
{
    let mut s = String::new();
    if cell.value >= MAX_GATES as i32 {
        s.append("/");
        push_decimal(&mut s, cell.value as i64 - MAX_GATES as i64);
    } else {
        push_decimal(&mut s, cell.idx as i64);
        s.append("x");
        push_decimal(&mut s, cell.jdx as i64);
    }
    proof {
        assert(s@ =~= plain_label(*cell));
    }
    s
}

/// The label of a cell as an operand.
pub fn format_gate_name(mapping: &CrossbarMapping, mem: &MemristiveGate) -> (s: String)
    requires
        mapping.wf(),
        forall|s: int| 0 <= s < 2 ==> match #[trigger] mem.inputs[s] {
            Some(id) => in_grid(mapping.rows(), id),
            None => true,
        },
    ensures
        s@ == cell_label(mapping.rows(), *mem),
{
    if mem.value < MAX_GATES as i32 && mem.is_copy {
        match mem.inputs[0] {
            Some(src) => {
                assert(in_grid(mapping.rows(), src));
                plain_label_of(&mapping.crossbar[src.idx][src.jdx])
            },
            None => "???".to_owned(),
        }
    } else {
        plain_label_of(mem)
    }
}

/// Appends the column and the label of an operand cell.
fn push_operand(out: &mut String, mapping: &CrossbarMapping, operand: Option<CellId>, spaced: bool)
    requires
        mapping.wf(),
        operand matches Some(id) ==> in_grid(mapping.rows(), id),
    ensures
        final(out)@ == old(out)@ + operand_field(
            mapping.rows(),
            operand,
            if spaced {
                " "@
            } else {
                Seq::empty()
            },
        ),
{
    match operand {
        Some(id) => {
            let cell = &mapping.crossbar[id.idx][id.jdx];
            proof {
                assert(mapping.rows()[id.idx as int][id.jdx as int] == *cell);
                assert forall|s: int| 0 <= s < 2 implies match #[trigger] cell.inputs[s] {
                    Some(i) => in_grid(mapping.rows(), i),
                    None => true,
                } by {
                    assert(match mapping.rows()[id.idx as int][id.jdx as int].inputs[s] {
                        Some(i) => in_grid(mapping.rows(), i),
                        None => true,
                    });
                }
            }
            push_number(out, cell.jdx as i64, 4);
            if spaced {
                out.append(" ");
            }
            let label = format_gate_name(mapping, cell);
            push_left_aligned(out, label.as_str(), 9);
            out.append(" ");
            proof {
                let gap = if spaced {
                    " "@
                } else {
                    Seq::empty()
                };
                assert(out@ =~= old(out)@ + (pad_left(decimal(cell.jdx as int), 4) + gap + pad_right(
                    cell_label(mapping.rows(), *cell),
                    9,
                ) + " "@));
            }
        },
        None => {
            push_spaces(out, 15);
        },
    }
}

/// Appends the instruction of a gate's cell at row `r`, column `c`.
fn push_instruction(out: &mut String, mapping: &CrossbarMapping, r: usize, c: usize)
    requires
        mapping.wf(),
        r < mapping.crossbar@.len(),
        c < mapping.crossbar@[r as int]@.len(),
    ensures
        final(out)@ == old(out)@ + instruction(mapping.rows(), mapping.rows()[r as int][c as int]),
{
    let cell = &mapping.crossbar[r][c];
    let ghost rows = mapping.rows();
    proof {
        assert(rows[r as int][c as int] == *cell);
        assert forall|s: int| 0 <= s < 2 implies match #[trigger] cell.inputs[s] {
            Some(i) => in_grid(rows, i),
            None => true,
        } by {
            assert(match rows[r as int][c as int].inputs[s] {
                Some(i) => in_grid(rows, i),
                None => true,
            });
        }
        assert(match cell.inputs[0] {
            Some(i) => in_grid(rows, i),
            None => true,
        });
        assert(match cell.inputs[1] {
            Some(i) => in_grid(rows, i),
            None => true,
        });
    }
    push_number(out, cell.idx as i64, 4);
    out.append(" False ");
    push_operand(out, mapping, cell.inputs[0], true);
    let ghost mid = out@;
    if cell.fanin > 1 {
        push_operand(out, mapping, cell.inputs[1], false);
    } else {
        push_spaces(out, 14);
    }
    push_number(out, cell.jdx as i64, 4);
    out.append(" True\n");
    proof {
        assert(out@ =~= old(out)@ + instruction(rows, *cell));
    }
}

/// Appends the instructions of level `l` for the cells of row `r`, up to
/// column `max_jdx`.
fn push_row_ops(out: &mut String, mapping: &CrossbarMapping, r: usize, l: i32, begun: bool) -> (now: bool)
    requires
        mapping.wf(),
        r < mapping.crossbar@.len(),
        0 <= l <= MAX_GATES,
    ensures
        ({
            let rows = mapping.rows();
            let (text, after) = row_ops(
                rows,
                rows[r as int],
                l as int,
                at_most(rows[r as int].len() as int, mapping.max_jdx + 1),
                begun,
            );
            final(out)@ == old(out)@ + text && now == after
        }),
{
    let ghost rows = mapping.rows();
    let ghost row = rows[r as int];
    let len = mapping.crossbar[r].len();
    let width: usize = if mapping.max_jdx < 0 {
        0
    } else if (mapping.max_jdx as usize) + 1 < len {
        mapping.max_jdx as usize + 1
    } else {
        len
    };
    assert(width == at_most(row.len() as int, mapping.max_jdx + 1));
    let mut now = begun;
    proof {
        assert(out@ =~= old(out)@ + row_ops(rows, row, l as int, 0, begun).0);
    }
    for c in 0..width
        invariant
            mapping.wf(),
            rows == mapping.rows(),
            row == rows[r as int],
            r < mapping.crossbar@.len(),
            width <= mapping.crossbar@[r as int]@.len(),
            0 <= l <= MAX_GATES,
            out@ == old(out)@ + row_ops(rows, row, l as int, c as int, begun).0,
            now == row_ops(rows, row, l as int, c as int, begun).1,
    {
        let cell = &mapping.crossbar[r][c];
        assert(row[c as int] == *cell);
        let ghost so_far = row_ops(rows, row, l as int, c as int, begun).0;
        if cell.value < MAX_GATES as i32 && !cell.is_copy && cell.asap_level == l {
            let ghost before = out@;
            if !now && l >= 1 {
                out.append("# Level: ");
                push_number(out, l as i64, 2);
                out.append(" _____________________________________\n");
                assert(out@ =~= before + level_heading(l as int));
            } else {
                assert(out@ =~= before + Seq::<char>::empty());
            }
            push_instruction(out, mapping, r, c);
            now = true;
            proof {
                let heading = if !row_ops(rows, row, l as int, c as int, begun).1 && l >= 1 {
                    level_heading(l as int)
                } else {
                    Seq::empty()
                };
                assert(out@ =~= old(out)@ + (so_far + heading + instruction(rows, row[c as int])));
            }
        }
    }
    now
}

/// Appends the instructions of level `l` for all rows up to `max_idx`.
fn push_grid_ops(out: &mut String, mapping: &CrossbarMapping, l: i32) -> (begun: bool)
    requires
        mapping.wf(),
        0 <= l <= MAX_GATES,
    ensures
        ({
            let rows = mapping.rows();
            let (text, after) = grid_ops(
                rows,
                mapping.max_jdx as int,
                l as int,
                at_most(rows.len() as int, mapping.max_idx + 1),
            );
            final(out)@ == old(out)@ + text && begun == after
        }),
{
    let ghost rows = mapping.rows();
    let len = mapping.crossbar.len();
    let height: usize = if mapping.max_idx < 0 {
        0
    } else if (mapping.max_idx as usize) + 1 < len {
        mapping.max_idx as usize + 1
    } else {
        len
    };
    let mut begun = false;
    proof {
        assert(out@ =~= old(out)@ + grid_ops(rows, mapping.max_jdx as int, l as int, 0).0);
    }
    for r in 0..height
        invariant
            mapping.wf(),
            rows == mapping.rows(),
            height <= mapping.crossbar@.len(),
            0 <= l <= MAX_GATES,
            out@ == old(out)@ + grid_ops(rows, mapping.max_jdx as int, l as int, r as int).0,
            begun == grid_ops(rows, mapping.max_jdx as int, l as int, r as int).1,
    {
        let ghost so_far = grid_ops(rows, mapping.max_jdx as int, l as int, r as int).0;
        let ghost was = begun;
        begun = push_row_ops(out, mapping, r, l, begun);
        proof {
            let more = row_ops(
                rows,
                rows[r as int],
                l as int,
                at_most(rows[r as int].len() as int, mapping.max_jdx + 1),
                was,
            ).0;
            assert(out@ =~= old(out)@ + (so_far + more));
        }
    }
    begun
}

/// Appends the size of the crossbar as the metrics give it.
fn push_crossbar_size(out: &mut String, max_idx: i32, max_jdx: i32, is_naive: bool)
    ensures
        final(out)@ == old(out)@ + crossbar_size(max_idx as int, max_jdx as int, is_naive),
{
    if is_naive {
        if max_jdx < 0 {
            out.append("1x1");
        } else {
            out.append("1x");
            push_decimal(out, max_jdx as i64 + 1);
        }
    } else if max_idx < 0 || max_jdx < 0 {
        out.append("1x1");
    } else {
        push_decimal(out, max_idx as i64 + 1);
        out.append("x");
        push_decimal(out, max_jdx as i64 + 1);
    }
    proof {
        assert(out@ =~= old(out)@ + crossbar_size(max_idx as int, max_jdx as int, is_naive));
    }
}

/// Appends the metrics that close the stream.
fn push_metrics(out: &mut String, k: usize, reached: i32, top: i32, max_idx: i32, max_jdx: i32, is_naive: bool)
    requires
        k <= i64::MAX,
    ensures
        final(out)@ == old(out)@ + metrics(
            k as int,
            reached as int,
            top as int,
            max_idx as int,
            max_jdx as int,
            is_naive,
        ),
{
    push_labelled(out, "\nMetrics\n-------\nPrimary Inputs    : ", k as i64);
    push_labelled(out, "\nLevels            : ", reached as i64);
    push_labelled(out, "\nRead Operations   : ", top as i64);
    push_labelled(out, "\nWrite Operations  : ", 2 * (top as i64) + 1);
    push_labelled(out, "\nEvaluation Cycles : ", top as i64);
    push_labelled(out, "\nTotal Cycles      : ", 4 * (top as i64) + 1);
    out.append("\nCrossbar Size     : ");
    push_crossbar_size(out, max_idx, max_jdx, is_naive);
    out.append("\n---------------------------\n\n\n");
    proof {
        assert(out@ =~= old(out)@ + metrics(
            k as int,
            reached as int,
            top as int,
            max_idx as int,
            max_jdx as int,
            is_naive,
        ));
    }
}

/// Writes the stream of micro-operations of a mapping.
///
/// For each ASAP level from 0 to the circuit's `max_asap`, and within a
/// level row by row and column by column up to the mapping's recorded extent,
/// every cell that holds a gate firing at that level (not a primary input,
/// not a copy) gets one instruction; the first instruction of a level above 0
/// comes under the level's heading. The metrics follow: the number of
/// primary inputs, the highest level that has an instruction, the cycle
/// counts, which derive from `max_asap`, and the size of the crossbar.
pub fn generate_micro_ops(circuit: &Circuit, mapping: &CrossbarMapping, is_naive: bool) -> (text: String)
    requires
        circuit.wf(),
        mapping.wf(),
    ensures
        text@ == micro_view(circuit@, mapping@, is_naive),
        text@ == micro_ops(
            mapping.rows(),
            mapping.max_idx as int,
            mapping.max_jdx as int,
            circuit.num_inputs as int,
            circuit.max_asap as int,
            is_naive,
        ),
{
    let ghost rows = mapping.rows();
    let top = circuit.max_asap;
    let mut text = String::new();
    let mut reached: i32 = 0;
    proof {
        assert(text@ =~= level_ops(rows, mapping.max_idx as int, mapping.max_jdx as int, 0).0);
    }
    let mut l: i32 = 0;
    while l <= top
        invariant
            circuit.wf(),
            mapping.wf(),
            rows == mapping.rows(),
            top == circuit.max_asap,
            0 <= l <= top + 1,
            0 <= reached <= MAX_GATES,
            text@ == level_ops(rows, mapping.max_idx as int, mapping.max_jdx as int, l as int).0,
            reached == level_ops(rows, mapping.max_idx as int, mapping.max_jdx as int, l as int).1,
        decreases top + 1 - l,
    {
        let ghost so_far = text@;
        let begun = push_grid_ops(&mut text, mapping, l);
        if begun {
            reached = l;
        }
        proof {
            let more = grid_ops(rows, mapping.max_jdx as int, l as int, at_most(rows.len() as int, mapping.max_idx + 1)).0;
            assert(text@ =~= so_far + more);
        }
        l += 1;
    }
    push_metrics(&mut text, circuit.num_inputs, reached, top, mapping.max_idx, mapping.max_jdx, is_naive);
    text
}

} // verus!
