//! The netlist front end: equations in text become gates of the table.
//!
//! A netlist is a list of lines, one equation per line, closed by a line
//! that begins with `.`. A variable is the letter `n` (internal wire) or `x`
//! (primary input) followed by decimal digits; everything else on a line,
//! but for the first `=`, is ignored. A line before the closing line that
//! holds no equation, a blank line too, is refused.
pub mod equations;
pub mod names;
pub mod tables;

pub use crate::parser::equations::write_equations;
pub use crate::parser::names::{bench_name_from, extract_bench_name, set_bench_name, strip_extension};
pub use crate::parser::tables::{find_gate_outputs, find_primary_inputs};

use vstd::prelude::*;
use vstd::slice::slice_subrange;
use crate::circuit::{Circuit, CircuitView, gate_views, GateView, Node, TableGate};
use crate::error::{ParseError, SynthesisError};
use crate::limits::{MAX_FANIN, MAX_GATES, OUT_BIAS};

verus! {

/// Whether `b` is a decimal digit.
pub open spec fn is_digit(b: u8) -> bool {
    48 <= b <= 57
}

/// Whether `b` is one of the letters that begin a variable, `n` or `x`.
pub open spec fn is_marker(b: u8) -> bool {
    b == 110 || b == 120
}

/// Whether `b` is blank: a space, a tab, a line feed, a vertical tab, a form
/// feed or a carriage return.
pub open spec fn is_blank(b: u8) -> bool {
    b == 32 || 9 <= b <= 13
}

/// Whether a variable begins at position `i` of `s`: a marker with a digit
/// after it.
pub open spec fn starts_variable(s: Seq<u8>, i: int) -> bool {
    0 <= i && i + 1 < s.len() && is_marker(s[i]) && is_digit(s[i + 1])
}

/// The end of the run of digits that begins at `i`: the first position from
/// `i` on that holds no digit.
pub open spec fn digits_end(s: Seq<u8>, i: int) -> int
    decreases s.len() - i,
{
    if 0 <= i < s.len() && is_digit(s[i]) {
        digits_end(s, i + 1)
    } else {
        i
    }
}

/// The number that the digits `s[from..to]` write in base ten.
pub open spec fn number(s: Seq<u8>, from: int, to: int) -> nat
    decreases to - from,
{
    if to <= from {
        0
    } else {
        10 * number(s, from, to - 1) + (s[to - 1] - 48) as nat
    }
}

/// The wire id of the variable that begins at `i`: its number, raised by
/// `MAX_GATES` for a primary input.
pub open spec fn variable_at(s: Seq<u8>, i: int) -> int {
    let n = number(s, i + 1, digits_end(s, i + 1));
    if s[i] == 120 {
        MAX_GATES + n
    } else {
        n as int
    }
}

/// The wire ids of the variables that begin before position `j`, in textual
/// order.
pub open spec fn variables_before(s: Seq<u8>, j: int) -> Seq<int>
    decreases j,
{
    if j <= 0 {
        Seq::empty()
    } else if starts_variable(s, j - 1) {
        variables_before(s, j - 1).push(variable_at(s, j - 1))
    } else {
        variables_before(s, j - 1)
    }
}

/// The wire ids of all variables of `s`, in textual order.
pub open spec fn variables(s: Seq<u8>) -> Seq<int> {
    variables_before(s, s.len() as int)
}

/// The first position from `i` on that holds byte `b`, or the length of `s`.
pub open spec fn find_byte(s: Seq<u8>, b: u8, i: int) -> int
    decreases s.len() - i,
{
    if 0 <= i < s.len() && s[i] != b {
        find_byte(s, b, i + 1)
    } else if i < s.len() {
        i
    } else {
        s.len() as int
    }
}

/// The wire ids that a line stands for: the first variable left of the first
/// `=`, if there is one, then every variable right of it. A line without
/// `=` stands for nothing.
pub open spec fn line_variables(line: Seq<u8>) -> Seq<int> {
    let eq = find_byte(line, 61, 0);
    if eq >= line.len() {
        Seq::empty()
    } else {
        let left = variables(line.subrange(0, eq));
        let right = variables(line.subrange(eq + 1, line.len() as int));
        if left.len() > 0 {
            seq![left[0]] + right
        } else {
            right
        }
    }
}

/// Whether every id of `ids` is small enough to be a wire id.
pub open spec fn ids_fit(ids: Seq<int>) -> bool {
    forall|i: int| 0 <= i < ids.len() ==> #[trigger] ids[i] <= i32::MAX
}

/// A run of digits ends within the text, holds digits only, and is not
/// followed by a digit.
pub proof fn lemma_digits_end_bounds(s: Seq<u8>, i: int)
    requires
        0 <= i <= s.len(),
    ensures
        i <= digits_end(s, i) <= s.len(),
        forall|j: int| i <= j < digits_end(s, i) ==> is_digit(#[trigger] s[j]),
        digits_end(s, i) < s.len() ==> !is_digit(s[digits_end(s, i)]),
    decreases s.len() - i,
{
    if i < s.len() && is_digit(s[i]) {
        lemma_digits_end_bounds(s, i + 1);
    }
}

/// No variable begins inside a run of digits.
pub proof fn lemma_no_variable_in_digits(s: Seq<u8>, i: int, j: int)
    requires
        0 <= i <= j <= s.len(),
        forall|m: int| i <= m < j ==> is_digit(#[trigger] s[m]),
    ensures
        variables_before(s, j) == variables_before(s, i),
    decreases j - i,
{
    if i < j {
        assert(is_digit(s[j - 1]));
        lemma_no_variable_in_digits(s, i, j - 1);
    }
}

/// The byte of the digit 0.
const DIGIT_0: u8 = 48;

/// The byte of the digit 9.
const DIGIT_9: u8 = 57;

/// The byte of the letter `n`.
const LETTER_N: u8 = 110;

/// The byte of the letter `x`.
const LETTER_X: u8 = 120;

/// The byte of the equals sign.
const EQUALS: u8 = 61;

/// The byte of the full stop.
const FULL_STOP: u8 = 46;

/// The byte of the line feed.
const LINE_FEED: u8 = 10;

/// Reads the wire id of the variable that begins at `i`, and the position
/// after its last digit. The id is `None` where it is too large to be a wire id.
fn read_variable(s: &[u8], i: usize) -> (r: (Option<i32>, usize))
    requires
        starts_variable(s@, i as int),
    ensures
        r.1 == digits_end(s@, i + 1),
        i + 1 < r.1 <= s@.len(),
        match r.0 {
            Some(id) => id == variable_at(s@, i as int),
            None => variable_at(s@, i as int) > i32::MAX,
        },
{
    let base: u64 = if s[i] == LETTER_X {
        8000
    } else {
        0
    };
    let limit: u64 = 0x7fff_ffff;
    let mut j: usize = i + 1;
    let mut acc: u64 = 0;
    let mut fits: bool = true;
    proof {
        lemma_digits_end_bounds(s@, i + 1);
    }
    while j < s.len() && DIGIT_0 <= s[j] && s[j] <= DIGIT_9
        invariant
            i + 1 <= j <= digits_end(s@, i + 1) <= s@.len(),
            forall|m: int| i + 1 <= m < digits_end(s@, i + 1) ==> is_digit(#[trigger] s@[m]),
            digits_end(s@, i + 1) < s@.len() ==> !is_digit(s@[digits_end(s@, i + 1)]),
            limit == i32::MAX,
            base <= 8000,
            fits ==> acc == number(s@, i + 1, j as int) && acc + base <= limit,
            !fits ==> number(s@, i + 1, j as int) + base > limit,
        decreases s@.len() - j,
    {
        let d = (s[j] - DIGIT_0) as u64;
        if fits {
            let next = acc * 10 + d;
            if next + base > limit {
                fits = false;
            } else {
                acc = next;
            }
        }
        j += 1;
    }
    assert(j == digits_end(s@, i + 1));
    if fits {
        (Some((acc + base) as i32), j)
    } else {
        (None, j)
    }
}

/// Collects the wire ids of the variables of `s`, in textual order; with
/// `first_only`, of the first variable alone. Fails with `Token` where one of
/// the variables it collects is too large to be a wire id.
fn collect_variables(s: &[u8], first_only: bool, ids: &mut Vec<i32>) -> (ok: bool)
    ensures
        ({
            let all = variables(s@);
            let wanted = if first_only && all.len() > 0 {
                seq![all[0]]
            } else {
                all
            };
            &&& ok == ids_fit(wanted)
            &&& ok ==> final(ids)@.map_values(|v: i32| v as int) == old(ids)@.map_values(|v: i32| v as int) + wanted
        }),
{
    let ghost before = ids@.map_values(|v: i32| v as int);
    let mut i: usize = 0;
    let mut found: bool = false;
    while i < s.len() && !(first_only && found)
        invariant
            i <= s@.len(),
            found == (variables_before(s@, i as int).len() > 0),
            first_only && found ==> variables_before(s@, i as int).len() == 1 && variables(s@)[0]
                == variables_before(s@, i as int)[0] && variables(s@).len() > 0,
            ids_fit(variables_before(s@, i as int)),
            ids@.map_values(|v: i32| v as int) == before + variables_before(s@, i as int),
        decreases s@.len() - i,
    {
        if (s[i] == LETTER_N || s[i] == LETTER_X) && i + 1 < s.len() && DIGIT_0 <= s[i + 1] && s[i + 1]
            <= DIGIT_9 {
            let (id, end) = read_variable(s, i);
            proof {
                lemma_digits_end_bounds(s@, i + 1);
                lemma_no_variable_in_digits(s@, i + 1, end as int);
                lemma_first_variable_stays(s@, end as int);
            }
            match id {
                Some(v) => {
                    let ghost old_ids = ids@;
                    ids.push(v);
                    proof {
                        assert(ids@.map_values(|v: i32| v as int) =~= old_ids.map_values(
                            |v: i32| v as int,
                        ).push(v as int));
                        assert(variables_before(s@, end as int) == variables_before(s@, i as int).push(
                            v as int,
                        ));
                        assert(before + variables_before(s@, i as int).push(v as int) =~= (before
                            + variables_before(s@, i as int)).push(v as int));
                    }
                },
                None => {
                    proof {
                        let upto = variables_before(s@, end as int);
                        assert(upto == variables_before(s@, i as int).push(variable_at(s@, i as int)));
                        lemma_variables_prefix(s@, end as int);
                        let all = variables(s@);
                        assert(all[upto.len() - 1] == upto[upto.len() - 1]);
                        assert(all[upto.len() - 1] > i32::MAX);
                        if first_only {
                            assert(upto.len() == 1);
                            assert(seq![all[0]][0] > i32::MAX);
                        }
                    }
                    return false;
                },
            }
            found = true;
            i = end;
        } else {
            i += 1;
        }
    }
    proof {
        lemma_variables_prefix(s@, i as int);
        if !(first_only && found) {
            assert(i == s@.len());
        } else {
            assert(variables_before(s@, i as int) =~= seq![variables(s@)[0]]);
        }
    }
    true
}

/// What begins before `j` is a prefix of what the whole of `s` holds.
proof fn lemma_variables_prefix(s: Seq<u8>, j: int)
    requires
        0 <= j <= s.len(),
    ensures
        variables_before(s, j).len() <= variables(s).len(),
        forall|m: int| 0 <= m < variables_before(s, j).len() ==> variables(s)[m] == variables_before(s, j)[m],
    decreases s.len() - j,
{
    if j < s.len() {
        lemma_variables_prefix(s, j + 1);
    }
}

/// Once a variable has begun, the first variable of `s` is known.
proof fn lemma_first_variable_stays(s: Seq<u8>, j: int)
    requires
        0 <= j <= s.len(),
    ensures
        variables_before(s, j).len() > 0 ==> variables(s).len() > 0 && variables(s)[0] == variables_before(s, j)[0],
{
    lemma_variables_prefix(s, j);
}

/// The position of the first byte `b` of `s`, or the length of `s`.
fn position_of(s: &[u8], b: u8, from: usize) -> (p: usize)
    requires
        from <= s@.len(),
    ensures
        p == find_byte(s@, b, from as int),
        from <= p <= s@.len(),
{
    let mut i: usize = from;
    while i < s.len() && s[i] != b
        invariant
            from <= i <= s@.len(),
            find_byte(s@, b, i as int) == find_byte(s@, b, from as int),
        decreases s@.len() - i,
    {
        i += 1;
    }
    i
}

/// Extracts the wire ids that a line stands for: the variable left of `=`
/// first, then the variables right of it in textual order. Fails with
/// `Token` exactly where one of them is too large to be a wire id.
pub fn extract_variables(line: &[u8]) -> (r: Result<Vec<i32>, ParseError>)
    ensures
        match r {
            Ok(ids) => ids_fit(line_variables(line@)) && ids@.map_values(|v: i32| v as int) == line_variables(
                line@,
            ),
            Err(e) => e == ParseError::Token && !ids_fit(line_variables(line@)),
        },
{
    let mut ids: Vec<i32> = Vec::new();
    let eq = position_of(line, EQUALS, 0);
    if eq >= line.len() {
        assert(ids@.map_values(|v: i32| v as int) =~= line_variables(line@));
        return Ok(ids);
    }
    let left = slice_subrange(line, 0, eq);
    let right = slice_subrange(line, eq + 1, line.len());
    let ghost lefts = variables(left@);
    let ghost rights = variables(right@);
    let ghost head = if lefts.len() > 0 {
        seq![lefts[0]]
    } else {
        lefts
    };
    assert(ids@.map_values(|v: i32| v as int) =~= Seq::<int>::empty());
    if !collect_variables(left, true, &mut ids) {
        assert(!ids_fit(line_variables(line@))) by {
            assert(line_variables(line@)[0] == lefts[0]);
        }
        return Err(ParseError::Token);
    }
    assert(ids@.map_values(|v: i32| v as int) =~= head);
    if !collect_variables(right, false, &mut ids) {
        assert(!ids_fit(line_variables(line@))) by {
            let m = choose|m: int| 0 <= m < rights.len() && rights[m] > i32::MAX;
            assert(line_variables(line@)[head.len() + m] == rights[m]);
        }
        return Err(ParseError::Token);
    }
    assert(line_variables(line@) =~= head + rights);
    Ok(ids)
}

/// A gate as an equation states it: its operands, the wire it drives, and
/// whether that wire is a primary output. A NOT has no second operand: its
/// `b` is -1.
pub struct Equation {
    pub fanin: int,
    pub a: int,
    pub b: int,
    pub out: int,
    pub is_output: bool,
}

/// The wire that an equation with `v` on its left drives: `v` itself, or
/// `v` without the output bias where it exceeds the bias.
pub open spec fn target(v: int) -> int {
    if v > OUT_BIAS {
        v - OUT_BIAS
    } else {
        v
    }
}

/// A two-input NOR that drives `out`.
pub open spec fn nor(a: int, b: int, out: int, is_output: bool) -> Equation {
    Equation { fanin: 2, a, b, out, is_output }
}

/// The gates of a line that stands for the wire ids `ids`, where `t` is the
/// number of the next fresh intermediate wire; `None` for a number of ids
/// that no gate has.
///
/// Two ids are a NOT, three a NOR. Four are the NOR of the last two, into
/// the fresh wire `-t`, and the NOR of the second id with that wire. Five
/// are the NOR of the second and third, the NOR of the fourth and fifth,
/// into `-t` and `-(t + 1)`, and the NOR of those two wires.
pub open spec fn line_gates(ids: Seq<int>, t: int) -> Option<Seq<Equation>> {
    let out = target(ids[0]);
    let flag = ids[0] > OUT_BIAS;
    if ids.len() == 2 {
        Some(seq![Equation { fanin: 1, a: ids[1], b: -1, out, is_output: flag }])
    } else if ids.len() == 3 {
        Some(seq![nor(ids[1], ids[2], out, flag)])
    } else if ids.len() == 4 {
        Some(seq![nor(ids[2], ids[3], -t, false), nor(ids[1], -t, out, flag)])
    } else if ids.len() == 5 {
        Some(
            seq![
                nor(ids[1], ids[2], -t, false),
                nor(ids[3], ids[4], -(t + 1), false),
                nor(-t, -(t + 1), out, flag),
            ],
        )
    } else {
        None
    }
}

/// The number of fresh intermediate wires that a line of `n` ids takes.
pub open spec fn temps_used(n: int) -> int {
    if n == 4 {
        1
    } else if n == 5 {
        2
    } else {
        0
    }
}

/// The first position from `i` on that holds no blank, or the length of `s`.
pub open spec fn skip_blank(s: Seq<u8>, i: int) -> int
    decreases s.len() - i,
{
    if 0 <= i < s.len() && is_blank(s[i]) {
        skip_blank(s, i + 1)
    } else if i < s.len() {
        i
    } else {
        s.len() as int
    }
}

/// Whether the line closes the netlist: its first byte that is not blank
/// is a full stop.
pub open spec fn is_terminator(line: Seq<u8>) -> bool {
    let p = skip_blank(line, 0);
    p < line.len() && line[p] == 46
}

/// The gates of the netlist `text` from position `i`, the start of a line,
/// to its end or to the line that closes it, where `t` numbers the next fresh
/// wire and `room` is the number of gates that the table can still take.
///
/// The first line that cannot be read decides the error: `Token` for a
/// variable too large, `Arity` for a number of variables other than 2 to 5,
/// `ResourceExhausted` for gates that the table has no room for.
pub open spec fn parse_from(text: Seq<u8>, i: int, t: int, room: int) -> Result<
    Seq<Equation>,
    SynthesisError,
>
    decreases text.len() - i,
    via parse_from_terminates
{
    if i < 0 || i >= text.len() {
        Ok(Seq::empty())
    } else {
        let e = find_byte(text, 10, i);
        let line = text.subrange(i, e);
        let ids = line_variables(line);
        if is_terminator(line) {
            Ok(Seq::empty())
        } else if !ids_fit(ids) {
            Err(SynthesisError::Parse(ParseError::Token))
        } else {
            match line_gates(ids, t) {
                None => Err(SynthesisError::Parse(ParseError::Arity)),
                Some(gates) => if gates.len() > room {
                    Err(SynthesisError::ResourceExhausted)
                } else {
                    let rest = if e >= text.len() {
                        Ok(Seq::empty())
                    } else {
                        parse_from(text, e + 1, t + temps_used(ids.len() as int), room - gates.len())
                    };
                    match rest {
                        Ok(more) => Ok(gates + more),
                        Err(x) => Err(x),
                    }
                },
            }
        }
    }
}

/// The next line begins after the line feed that ends this one.
#[via_fn]
proof fn parse_from_terminates(text: Seq<u8>, i: int, t: int, room: int) {
    if 0 <= i < text.len() {
        lemma_find_byte_bounds(text, 10, i);
    }
}

/// The gates that the netlist `text` adds to a table with room for `room` more.
pub open spec fn parse_text(text: Seq<u8>, room: int) -> Result<Seq<Equation>, SynthesisError> {
    parse_from(text, 0, 1, room)
}

/// The number of primary outputs among `eqs`.
pub open spec fn count_outputs(eqs: Seq<Equation>) -> nat
    decreases eqs.len(),
{
    if eqs.len() == 0 {
        0
    } else {
        count_outputs(eqs.drop_last()) + if eqs.last().is_output {
            1nat
        } else {
            0nat
        }
    }
}

/// Whether `g` is what the parser makes of `e`: wired as `e` says
/// and with nothing scheduled or placed.
pub open spec fn is_fresh_gate(g: TableGate, e: Equation) -> bool {
    &&& g.fanin == e.fanin
    &&& g.inputs@.len() == MAX_FANIN
    &&& g.inputs@[0] == e.a
    &&& g.inputs@[1] == e.b
    &&& forall|j: int| 2 <= j < MAX_FANIN ==> g.inputs@[j] == -1
    &&& g.out == e.out
    &&& g.is_output == e.is_output
    &&& g.asap_level == -1
    &&& g.alap_level == -1
    &&& g.list_level == -1
    &&& g.list_time == -1
    &&& g.mobility == 0
    &&& g.slack == 0
    &&& g.output_gates@.len() == 0
    &&& g.gate_map is None
}

/// A gate with its three schedule levels unassigned.
pub open spec fn unscheduled(g: TableGate) -> TableGate {
    TableGate { asap_level: -1i32, alap_level: -1i32, list_level: -1i32, ..g }
}

/// The first occurrence of a byte from `i` on lies between `i` and the end
/// of the text.
pub proof fn lemma_find_byte_bounds(s: Seq<u8>, b: u8, i: int)
    requires
        0 <= i <= s.len(),
    ensures
        i <= find_byte(s, b, i) <= s.len(),
    decreases s.len() - i,
{
    if i < s.len() && s[i] != b {
        lemma_find_byte_bounds(s, b, i + 1);
    }
}

/// Whether the line closes the netlist.
fn closes_netlist(line: &[u8]) -> (r: bool)
    ensures
        r == is_terminator(line@),
{
    let mut i: usize = 0;
    while i < line.len() && (line[i] == 32 || (9 <= line[i] && line[i] <= 13))
        invariant
            i <= line@.len(),
            skip_blank(line@, i as int) == skip_blank(line@, 0),
        decreases line@.len() - i,
    {
        i += 1;
    }
    i < line.len() && line[i] == FULL_STOP
}

/// Makes a gate from an equation.
fn make_gate(fanin: usize, a: i32, b: i32, out: i32, is_output: bool) -> (g: TableGate)
    requires
        1 <= fanin <= 2,
    ensures
        is_fresh_gate(g, Equation { fanin: fanin as int, a: a as int, b: b as int, out: out as int, is_output }),
        g.wf(),
{
    let mut g = TableGate::default();
    g.fanin = fanin;
    g.inputs[0] = a;
    g.inputs[1] = b;
    g.out = out;
    g.is_output = is_output;
    g
}

/// Appends the gates of one line to `gates`. `None` where the line holds a
/// number of variables that no gate has.
fn push_line_gates(ids: &Vec<i32>, t: i32, gates: &mut Vec<TableGate>) -> (added: Option<usize>)
    requires
        1 <= t <= 2 * MAX_GATES + 1,
        old(gates)@.len() <= MAX_GATES,
    ensures
        ({
            let int_ids = ids@.map_values(|v: i32| v as int);
            match line_gates(int_ids, t as int) {
                None => added is None && final(gates)@ == old(gates)@,
                Some(eqs) => {
                    &&& added == Some(eqs.len() as usize)
                    &&& 1 <= eqs.len() <= 3
                    &&& final(gates)@.len() == old(gates)@.len() + eqs.len()
                    &&& forall|j: int| 0 <= j < old(gates)@.len() ==> final(gates)@[j] == old(gates)@[j]
                    &&& forall|j: int| 0 <= j < eqs.len() ==> is_fresh_gate(
                        #[trigger] final(gates)@[old(gates)@.len() + j],
                        eqs[j],
                    ) && final(gates)@[old(gates)@.len() + j].wf()
                },
            }
        }),
{
    let n = ids.len();
    if n < 2 || n > 5 {
        return None;
    }
    let ghost int_ids = ids@.map_values(|v: i32| v as int);
    assert(forall|j: int| 0 <= j < n ==> int_ids[j] == ids@[j] as int);
    let flag = ids[0] > OUT_BIAS as i32;
    let out = if flag {
        ids[0] - OUT_BIAS as i32
    } else {
        ids[0]
    };
    if n == 2 {
        gates.push(make_gate(1, ids[1], -1, out, flag));
        Some(1)
    } else if n == 3 {
        gates.push(make_gate(2, ids[1], ids[2], out, flag));
        Some(1)
    } else if n == 4 {
        gates.push(make_gate(2, ids[2], ids[3], -t, false));
        gates.push(make_gate(2, ids[1], -t, out, flag));
        Some(2)
    } else {
        gates.push(make_gate(2, ids[1], ids[2], -t, false));
        gates.push(make_gate(2, ids[3], ids[4], -(t + 1), false));
        gates.push(make_gate(2, -t, -(t + 1), out, flag));
        Some(3)
    }
}

/// What was read, followed by what is still to come.
pub open spec fn then_rest(read: Seq<Equation>, rest: Result<Seq<Equation>, SynthesisError>) -> Result<
    Seq<Equation>,
    SynthesisError,
> {
    match rest {
        Ok(more) => Ok(read + more),
        Err(x) => Err(x),
    }
}

/// Reads the gates of the netlist `text` that a table with room for `room`
/// more can take.
fn read_gates(text: &[u8], room: usize) -> (r: Result<Vec<TableGate>, SynthesisError>)
    requires
        room <= MAX_GATES,
    ensures
        match parse_text(text@, room as int) {
            Ok(eqs) => r matches Ok(gates) && gates@.len() == eqs.len() && eqs.len() <= room
                && forall|j: int| 0 <= j < eqs.len() ==> is_fresh_gate(#[trigger] gates@[j], eqs[j])
                    && gates@[j].wf(),
            Err(e) => r matches Err(x) && x == e,
        },
{
    let mut gates: Vec<TableGate> = Vec::new();
    let ghost mut eqs: Seq<Equation> = Seq::empty();
    let mut i: usize = 0;
    let mut t: i32 = 1;
    proof {
        assert(eqs + Seq::<Equation>::empty() =~= eqs);
    }
    while i < text.len()
        invariant
            room <= MAX_GATES,
            gates@.len() == eqs.len() <= room,
            1 <= t <= eqs.len() + 1,
            parse_text(text@, room as int) == then_rest(
                eqs,
                parse_from(text@, i as int, t as int, room - eqs.len()),
            ),
            forall|j: int| 0 <= j < eqs.len() ==> is_fresh_gate(#[trigger] gates@[j], eqs[j]) && gates@[j].wf(),
        decreases text@.len() - i,
    {
        let e = position_of(text, LINE_FEED, i);
        let line = slice_subrange(text, i, e);
        if closes_netlist(line) {
            proof {
                assert(eqs + Seq::<Equation>::empty() =~= eqs);
            }
            return Ok(gates);
        }
        let ids = match extract_variables(line) {
            Ok(ids) => ids,
            Err(_) => {
                return Err(SynthesisError::Parse(ParseError::Token));
            },
        };
        let ghost int_ids = ids@.map_values(|v: i32| v as int);
        let ghost old_gates = gates@;
        let added = match push_line_gates(&ids, t, &mut gates) {
            Some(k) => k,
            None => {
                return Err(SynthesisError::Parse(ParseError::Arity));
            },
        };
        if gates.len() > room {
            return Err(SynthesisError::ResourceExhausted);
        }
        proof {
            let line_eqs = line_gates(int_ids, t as int)->0;
            let next_t = t + temps_used(int_ids.len() as int);
            let rest = if e >= text@.len() {
                Ok(Seq::empty())
            } else {
                parse_from(text@, e + 1, next_t, room - eqs.len() - line_eqs.len())
            };
            assert(parse_from(text@, i as int, t as int, room - eqs.len()) == then_rest(line_eqs, rest));
            assert(then_rest(eqs, then_rest(line_eqs, rest)) == then_rest(eqs + line_eqs, rest)) by {
                if let Ok(more) = rest {
                    assert(eqs + (line_eqs + more) =~= (eqs + line_eqs) + more);
                }
            }
            assert forall|j: int| 0 <= j < (eqs + line_eqs).len() implies is_fresh_gate(
                #[trigger] gates@[j],
                (eqs + line_eqs)[j],
            ) && gates@[j].wf() by {
                if j < eqs.len() {
                    assert(gates@[j] == old_gates[j]);
                } else {
                    assert(gates@[old_gates.len() + (j - eqs.len())] == gates@[j]);
                }
            }
            eqs = eqs + line_eqs;
        }
        if ids.len() == 4 {
            t = t + 1;
        } else if ids.len() == 5 {
            t = t + 2;
        }
        if e >= text.len() {
            proof {
                assert(eqs + Seq::<Equation>::empty() =~= eqs);
            }
            return Ok(gates);
        }
        i = e + 1;
    }
    proof {
        assert(eqs + Seq::<Equation>::empty() =~= eqs);
    }
    Ok(gates)
}

/// Counts the primary outputs among freshly read gates.
fn count_output_gates(gates: &Vec<TableGate>, Ghost(eqs): Ghost<Seq<Equation>>) -> (n: usize)
    requires
        gates@.len() == eqs.len(),
        forall|j: int| 0 <= j < eqs.len() ==> is_fresh_gate(#[trigger] gates@[j], eqs[j]),
    ensures
        n == count_outputs(eqs),
        n <= eqs.len(),
{
    let mut n: usize = 0;
    for j in 0..gates.len()
        invariant
            gates@.len() == eqs.len(),
            forall|m: int| 0 <= m < eqs.len() ==> is_fresh_gate(#[trigger] gates@[m], eqs[m]),
            n == count_outputs(eqs.take(j as int)),
            n <= j,
    {
        proof {
            assert(eqs.take(j + 1).drop_last() =~= eqs.take(j as int));
            assert(is_fresh_gate(gates@[j as int], eqs[j as int]));
        }
        if gates[j].is_output {
            n += 1;
        }
    }
    proof {
        assert(eqs.take(eqs.len() as int) =~= eqs);
    }
    n
}

/// A gate given as numbers with its three schedule levels unassigned.
pub open spec fn unscheduled_view(g: GateView) -> GateView {
    GateView { asap_level: -1, alap_level: -1, list_level: -1, ..g }
}

/// What the parser makes of an equation: a gate, as numbers.
pub open spec fn parsed_gate(e: Equation) -> GateView {
    GateView {
        node: Node {
            fanin: e.fanin,
            a: e.a,
            b: if e.fanin >= 2 {
                e.b
            } else {
                e.a
            },
            out: e.out,
        },
        is_output: e.is_output,
        asap_level: -1,
        alap_level: -1,
        list_level: -1,
        list_time: -1,
        mobility: 0,
        slack: 0,
        output_gates: Seq::empty(),
        gate_map: None,
    }
}

/// What the parser makes of a circuit and a netlist: the gates of the
/// circuit with their levels unassigned, then the gates of the netlist; the
/// input count reset and the output count raised by the outputs read.
pub open spec fn parse_view(text: Seq<u8>, v: CircuitView) -> Result<CircuitView, SynthesisError> {
    match parse_text(text, MAX_GATES - v.gates.len()) {
        Ok(eqs) => Ok(
            CircuitView {
                gates: Seq::new(
                    v.gates.len() + eqs.len(),
                    |i: int|
                        if i < v.gates.len() {
                            unscheduled_view(v.gates[i])
                        } else {
                            parsed_gate(eqs[i - v.gates.len()])
                        },
                ),
                num_gates: (v.gates.len() + eqs.len()) as int,
                num_inputs: 0,
                num_outputs: v.num_outputs + count_outputs(eqs),
                ..v
            },
        ),
        Err(e) => Err(e),
    }
}

/// Reads the netlist `text` and appends its gates to the circuit.
///
/// The lines are read in order up to the end of the text or to the line
/// that closes the netlist, and each becomes one to three gates as
/// `line_gates` says. On success every gate of the circuit, old or new, has
/// its schedule levels unassigned, the input count is reset to 0, and the
/// gate and output counts grow by what was read. On failure the circuit is
/// left as it was.
pub fn parse_netlist(text: &[u8], circuit: &mut Circuit) -> (res: Result<(), SynthesisError>)
    requires
        old(circuit).wf(),
    ensures
        final(circuit).wf(),
        match parse_view(text@, old(circuit)@) {
            Ok(v) => res is Ok && final(circuit)@ == v,
            Err(e) => res == Err::<(), SynthesisError>(e),
        },
        match parse_text(text@, MAX_GATES - old(circuit).gates@.len()) {
            Ok(eqs) => {
                let before = old(circuit).gates@;
                let after = final(circuit).gates@;
                &&& res is Ok
                &&& after.len() == before.len() + eqs.len()
                &&& forall|j: int| 0 <= j < before.len() ==> #[trigger] after[j] == unscheduled(before[j])
                &&& forall|j: int|
                    0 <= j < eqs.len() ==> is_fresh_gate(#[trigger] after[before.len() + j], eqs[j])
                &&& final(circuit).num_gates == after.len()
                &&& final(circuit).num_inputs == 0
                &&& final(circuit).num_outputs == old(circuit).num_outputs + count_outputs(eqs)
                &&& final(circuit).primary_inputs@ == old(circuit).primary_inputs@
                &&& final(circuit).max_asap == old(circuit).max_asap
                &&& final(circuit).max_alap == old(circuit).max_alap
                &&& final(circuit).max_list == old(circuit).max_list
                &&& final(circuit).max_resources == old(circuit).max_resources
                &&& final(circuit).bench_name@ == old(circuit).bench_name@
            },
            Err(e) => res == Err::<(), SynthesisError>(e) && *final(circuit) == *old(circuit),
        },
{
    let room = MAX_GATES - circuit.gates.len();
    let mut fresh = match read_gates(text, room) {
        Ok(gates) => gates,
        Err(e) => {
            return Err(e);
        },
    };
    let ghost eqs = parse_text(text@, room as int)->Ok_0;
    let ghost read = fresh@;
    let outputs = count_output_gates(&fresh, Ghost(eqs));
    let n = circuit.gates.len();
    for j in 0..n
        invariant
            n == circuit.gates@.len(),
            n == old(circuit).gates@.len(),
            circuit.same_frame(old(circuit)),
            forall|m: int| 0 <= m < j ==> #[trigger] circuit.gates@[m] == unscheduled(old(circuit).gates@[m]),
            forall|m: int| j <= m < n ==> #[trigger] circuit.gates@[m] == old(circuit).gates@[m],
    {
        circuit.gates[j].asap_level = -1;
        circuit.gates[j].alap_level = -1;
        circuit.gates[j].list_level = -1;
    }
    circuit.gates.append(&mut fresh);
    circuit.num_gates = circuit.gates.len();
    circuit.num_inputs = 0;
    circuit.num_outputs = circuit.num_outputs + outputs;
    proof {
        let after = circuit.gates@;
        assert forall|j: int| 0 <= j < eqs.len() implies is_fresh_gate(#[trigger] after[n + j], eqs[j]) by {
            assert(after[n + j] == read[j]);
        }
        assert forall|j: int| 0 <= j < after.len() implies (#[trigger] after[j]).wf() by {
            if j < n {
                assert(old(circuit).gates@[j].wf());
            } else {
                assert(after[j] == read[j - n]);
            }
        }
        let v = old(circuit)@;
        let expected = parse_view(text@, v)->Ok_0;
        assert forall|j: int| 0 <= j < after.len() implies #[trigger] gate_views(after)[j] == expected.gates[j] by {
            if j < n {
                assert(after[j] == unscheduled(old(circuit).gates@[j]));
            } else {
                assert(is_fresh_gate(after[n + (j - n)], eqs[j - n]));
                assert(after[j].wf());
                assert(after[j].output_gates@.map_values(|w: i32| w as int) =~= Seq::<int>::empty());
            }
        }
        assert(gate_views(after) =~= expected.gates);
    }
    Ok(())
}

} // verus!
