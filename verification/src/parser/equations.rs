//! Writing a table of gates back as a netlist, and the proof that reading
//! what was written gives the same gates.
use vstd::prelude::*;
use crate::circuit::{Circuit, TableGate};
use crate::error::SynthesisError;
use crate::limits::{MAX_GATES, OUT_BIAS};
use crate::parser::{
    digits_end, Equation, find_byte, ids_fit, is_blank, is_digit, is_marker, is_terminator,
    lemma_digits_end_bounds, lemma_find_byte_bounds, lemma_no_variable_in_digits, line_gates, line_variables,
    number, parse_from, parse_text, skip_blank, starts_variable, temps_used, variable_at, variables,
    variables_before,
};

verus! {

/// The digits of `n` in base ten as bytes, without leading zeros.
pub open spec fn digit_bytes(n: nat) -> Seq<u8>
    decreases n,
{
    if n < 10 {
        seq![(48 + n) as u8]
    } else {
        digit_bytes(n / 10).push((48 + n % 10) as u8)
    }
}

/// The variable that names wire `id` as an operand: `x` and the number of
/// the input for a primary input, else `n` and the id.
pub open spec fn operand_name(id: int) -> Seq<u8> {
    if id >= MAX_GATES {
        seq![120u8] + digit_bytes((id - MAX_GATES) as nat)
    } else {
        seq![110u8] + digit_bytes(id as nat)
    }
}

/// The variable on the left of the equation of `e`: `n` and the wire that
/// `e` drives, raised by the output bias for a primary output.
pub open spec fn target_name(e: Equation) -> Seq<u8> {
    seq![110u8] + digit_bytes(
        if e.is_output {
            (e.out + OUT_BIAS) as nat
        } else {
            e.out as nat
        },
    )
}

/// Whether the netlist grammar can state `e`: it is a NOT or a NOR of wires
/// that are not negative, and its output can carry the output bias or do
/// without it as its flag says.
pub open spec fn writable(e: Equation) -> bool {
    &&& 1 <= e.fanin <= 2
    &&& 0 <= e.a <= i32::MAX
    &&& if e.fanin == 2 {
        0 <= e.b <= i32::MAX
    } else {
        e.b == -1
    }
    &&& if e.is_output {
        1 <= e.out <= i32::MAX - OUT_BIAS
    } else {
        0 <= e.out <= OUT_BIAS
    }
}

/// The equation of `e` as a line of the netlist, without its line feed:
/// `n5 = !x0` for a NOT, `n5 = x0 + n2` for a NOR.
pub open spec fn equation_line(e: Equation) -> Seq<u8> {
    if e.fanin == 1 {
        target_name(e) + seq![32u8, 61u8, 32u8, 33u8] + operand_name(e.a)
    } else {
        target_name(e) + seq![32u8, 61u8, 32u8] + operand_name(e.a) + seq![32u8, 43u8, 32u8] + operand_name(e.b)
    }
}

/// The netlist of the equations `eqs`, one to a line.
pub open spec fn equations_text(eqs: Seq<Equation>) -> Seq<u8>
    decreases eqs.len(),
{
    if eqs.len() == 0 {
        Seq::empty()
    } else {
        equation_line(eqs[0]) + seq![10u8] + equations_text(eqs.drop_first())
    }
}

/// The name that a netlist gives wire `id` when fresh wires, which have
/// negative ids and no name of their own, are renamed: the fresh wire `-t`
/// becomes the wire `shift + t`, and every other wire keeps its id.
pub open spec fn renamed(id: int, shift: int) -> int {
    if id < 0 {
        shift - id
    } else {
        id
    }
}

/// The equation that states gate `g`, with fresh wires renamed.
pub open spec fn equation_of(g: TableGate, shift: int) -> Equation {
    Equation {
        fanin: g.fanin as int,
        a: renamed(g.inputs@[0] as int, shift),
        b: if g.fanin >= 2 {
            renamed(g.inputs@[1] as int, shift)
        } else {
            -1
        },
        out: renamed(g.out as int, shift),
        is_output: g.is_output,
    }
}

/// The equations that state the gates of a table, gate by gate, with fresh
/// wires renamed.
pub open spec fn equations_of(gates: Seq<TableGate>, shift: int) -> Seq<Equation> {
    Seq::new(gates.len(), |i: int| equation_of(gates[i], shift))
}

/// The digits of `n` are digits, at least one, and write `n`.
proof fn lemma_digit_bytes(n: nat)
    ensures
        digit_bytes(n).len() >= 1,
        forall|i: int| 0 <= i < digit_bytes(n).len() ==> is_digit(#[trigger] digit_bytes(n)[i]),
        number(digit_bytes(n), 0, digit_bytes(n).len() as int) == n,
    decreases n,
{
    let s = digit_bytes(n);
    if n < 10 {
        assert(number(s, 0, 0) == 0);
        assert(number(s, 0, 1) == 10 * number(s, 0, 0) + (s[0] - 48) as nat);
    } else {
        let head = digit_bytes(n / 10);
        lemma_digit_bytes(n / 10);
        assert(s == head.push((48 + n % 10) as u8));
        lemma_number_same(s, head, 0, head.len() as int);
        assert(number(s, 0, s.len() as int) == 10 * number(s, 0, s.len() - 1) + (s[s.len() - 1] - 48) as nat);
    }
}

/// The number that a run of digits writes depends on those digits only.
proof fn lemma_number_same(s: Seq<u8>, t: Seq<u8>, from: int, to: int)
    requires
        0 <= from <= to,
        to <= s.len(),
        to <= t.len(),
        forall|i: int| from <= i < to ==> s[i] == t[i],
    ensures
        number(s, from, to) == number(t, from, to),
    decreases to - from,
{
    if from < to {
        lemma_number_same(s, t, from, to - 1);
    }
}

/// The number that a run of digits writes does not depend on where the
/// run stands.
proof fn lemma_number_shift(x: Seq<u8>, y: Seq<u8>, from: int, to: int)
    requires
        0 <= from <= to <= y.len(),
    ensures
        number(x + y, x.len() + from, x.len() + to) == number(y, from, to),
    decreases to - from,
{
    if from < to {
        lemma_number_shift(x, y, from, to - 1);
        assert((x + y)[x.len() + to - 1] == y[to - 1]);
    }
}

/// A run of digits in `x` ends where it did when text that begins with no
/// digit is put after `x`.
proof fn lemma_digits_end_prefix(x: Seq<u8>, y: Seq<u8>, i: int)
    requires
        0 <= i <= x.len(),
        y.len() == 0 || !is_digit(y[0]),
    ensures
        digits_end(x + y, i) == digits_end(x, i),
    decreases x.len() - i,
{
    if i < x.len() {
        assert((x + y)[i] == x[i]);
        if is_digit(x[i]) {
            lemma_digits_end_prefix(x, y, i + 1);
        }
    } else if y.len() > 0 {
        assert((x + y)[i] == y[0]);
    }
}

/// A run of digits in `y` ends at the same place of `y` when `x` is put
/// before it.
proof fn lemma_digits_end_shift(x: Seq<u8>, y: Seq<u8>, i: int)
    requires
        0 <= i <= y.len(),
    ensures
        digits_end(x + y, x.len() + i) == x.len() + digits_end(y, i),
    decreases y.len() - i,
{
    if i < y.len() {
        assert((x + y)[x.len() + i] == y[i]);
        if is_digit(y[i]) {
            lemma_digits_end_shift(x, y, i + 1);
        }
    }
}

/// The variables of two texts put together are those of the first followed
/// by those of the second, provided the second begins with no digit, which
/// would run on a number at the end of the first.
pub proof fn lemma_variables_concat(x: Seq<u8>, y: Seq<u8>)
    requires
        y.len() == 0 || !is_digit(y[0]),
    ensures
        variables(x + y) == variables(x) + variables(y),
{
    lemma_variables_of_prefix(x, y, x.len() as int);
    lemma_variables_of_suffix(x, y, y.len() as int);
    assert((x + y).len() == x.len() + y.len());
}

/// Within the first text, the variables are those of the first text alone.
proof fn lemma_variables_of_prefix(x: Seq<u8>, y: Seq<u8>, j: int)
    requires
        0 <= j <= x.len(),
        y.len() == 0 || !is_digit(y[0]),
    ensures
        variables_before(x + y, j) == variables_before(x, j),
    decreases j,
{
    if j > 0 {
        lemma_variables_of_prefix(x, y, j - 1);
        let s = x + y;
        let i = j - 1;
        assert(s[i] == x[i]);
        if i + 1 < x.len() {
            assert(s[i + 1] == x[i + 1]);
        } else if y.len() > 0 {
            assert(s[i + 1] == y[0]);
        }
        assert(starts_variable(s, i) == starts_variable(x, i));
        if starts_variable(x, i) {
            lemma_digits_end_prefix(x, y, i + 1);
            lemma_digits_end_bounds(x, i + 1);
            lemma_number_same(s, x, i + 1, digits_end(x, i + 1));
        }
    }
}

/// Within the second text, the variables are those of the first text
/// followed by those of the second so far.
proof fn lemma_variables_of_suffix(x: Seq<u8>, y: Seq<u8>, j: int)
    requires
        0 <= j <= y.len(),
        y.len() == 0 || !is_digit(y[0]),
    ensures
        variables_before(x + y, x.len() + j) == variables(x) + variables_before(y, j),
    decreases j,
{
    let s = x + y;
    if j > 0 {
        lemma_variables_of_suffix(x, y, j - 1);
        let i = j - 1;
        assert(s[x.len() + i] == y[i]);
        if i + 1 < y.len() {
            assert(s[x.len() + i + 1] == y[i + 1]);
        }
        assert(starts_variable(s, x.len() + i) == starts_variable(y, i));
        if starts_variable(y, i) {
            lemma_digits_end_shift(x, y, i + 1);
            lemma_digits_end_bounds(y, i + 1);
            lemma_number_shift(x, y, i + 1, digits_end(y, i + 1));
            assert(variable_at(s, x.len() + i) == variable_at(y, i));
            assert((variables(x) + variables_before(y, i)).push(variable_at(y, i)) =~= variables(x)
                + variables_before(y, i).push(variable_at(y, i)));
        }
    } else {
        lemma_variables_of_prefix(x, y, x.len() as int);
        assert(variables(x) + variables_before(y, 0) =~= variables(x));
    }
}

/// Text without `n` and `x` holds no variable.
proof fn lemma_no_markers(s: Seq<u8>, j: int)
    requires
        0 <= j <= s.len(),
        forall|i: int| 0 <= i < s.len() ==> !is_marker(#[trigger] s[i]),
    ensures
        variables_before(s, j) == Seq::<int>::empty(),
    decreases j,
{
    if j > 0 {
        lemma_no_markers(s, j - 1);
        assert(!is_marker(s[j - 1]));
    }
}

/// A marker and the digits of `n` are one variable.
proof fn lemma_one_variable(marker: u8, n: nat)
    requires
        is_marker(marker),
    ensures
        variables(seq![marker] + digit_bytes(n)) == seq![if marker == 120 {
            MAX_GATES + n
        } else {
            n as int
        }],
        (seq![marker] + digit_bytes(n))[0] == marker,
        forall|i: int|
            0 <= i < (seq![marker] + digit_bytes(n)).len() ==> {
                let b = #[trigger] (seq![marker] + digit_bytes(n))[i];
                is_marker(b) || is_digit(b)
            },
{
    let d = digit_bytes(n);
    let tok = seq![marker] + d;
    lemma_digit_bytes(n);
    assert forall|i: int| 0 <= i < tok.len() implies {
        let b = #[trigger] tok[i];
        is_marker(b) || is_digit(b)
    } by {
        if i > 0 {
            assert(tok[i] == d[i - 1]);
        }
    }
    assert(tok[1] == d[0]);
    assert(starts_variable(tok, 0));
    // the digits run to the end of the token
    lemma_digits_end_shift(seq![marker], d, 0);
    lemma_digits_end_bounds(d, 0);
    assert(digits_end(d, 0) == d.len()) by {
        if digits_end(d, 0) < d.len() {
            assert(is_digit(d[digits_end(d, 0)]));
        }
    }
    lemma_number_shift(seq![marker], d, 0, d.len() as int);
    assert(variables_before(tok, 0) == Seq::<int>::empty());
    assert(variables_before(tok, 1) == variables_before(tok, 0).push(variable_at(tok, 0)));
    assert forall|m: int| 1 <= m < tok.len() implies is_digit(#[trigger] tok[m]) by {
        assert(tok[m] == d[m - 1]);
    }
    lemma_no_variable_in_digits(tok, 1, tok.len() as int);
    assert(variables(tok) =~= seq![variable_at(tok, 0)]);
}

/// The position of the first `b` in a text that holds none before `p` and
/// one at `p`.
proof fn lemma_find_first(s: Seq<u8>, b: u8, i: int, p: int)
    requires
        0 <= i <= p < s.len(),
        s[p] == b,
        forall|m: int| i <= m < p ==> #[trigger] s[m] != b,
    ensures
        find_byte(s, b, i) == p,
    decreases p - i,
{
    if i < p {
        lemma_find_first(s, b, i + 1, p);
    }
}

/// The first occurrence of a byte in `r` is where it was when `p` is put
/// before `r`.
proof fn lemma_find_shift(p: Seq<u8>, r: Seq<u8>, b: u8, i: int)
    requires
        0 <= i <= r.len(),
    ensures
        find_byte(p + r, b, p.len() + i) == p.len() + find_byte(r, b, i),
    decreases r.len() - i,
{
    if i < r.len() {
        assert((p + r)[p.len() + i] == r[i]);
        if r[i] != b {
            lemma_find_shift(p, r, b, i + 1);
        }
    }
}

/// Reading a netlist from the start of a line on does not depend on what
/// stands before that line.
pub proof fn lemma_parse_shift(p: Seq<u8>, r: Seq<u8>, i: int, t: int, room: int)
    requires
        0 <= i,
    ensures
        parse_from(p + r, p.len() + i, t, room) == parse_from(r, i, t, room),
    decreases r.len() - i,
{
    let s = p + r;
    if i < r.len() {
        let e = find_byte(r, 10, i);
        lemma_find_shift(p, r, 10, i);
        lemma_find_byte_bounds(r, 10, i);
        assert(s.subrange(p.len() + i, p.len() + e) =~= r.subrange(i, e));
        let line = r.subrange(i, e);
        let ids = line_variables(line);
        if !is_terminator(line) && ids_fit(ids) {
            if let Some(gates) = line_gates(ids, t) {
                if gates.len() <= room && e < r.len() {
                    lemma_parse_shift(p, r, e + 1, t + temps_used(ids.len() as int), room - gates.len());
                }
            }
        }
    }
}

/// What the first variable of an equation's line stands for.
pub open spec fn written_target(e: Equation) -> int {
    if e.is_output {
        e.out + OUT_BIAS
    } else {
        e.out
    }
}

/// The wire ids that the line of `e` stands for.
pub open spec fn written_ids(e: Equation) -> Seq<int> {
    if e.fanin == 1 {
        seq![written_target(e), e.a]
    } else {
        seq![written_target(e), e.a, e.b]
    }
}

/// The line of an equation reads as that equation: it holds no line feed,
/// does not close the netlist, and stands for the equation's wires.
#[verifier::rlimit(50)]
pub proof fn lemma_line_reads(e: Equation)
    requires
        writable(e),
    ensures
        forall|i: int| 0 <= i < equation_line(e).len() ==> #[trigger] equation_line(e)[i] != 10,
        !is_terminator(equation_line(e)),
        line_variables(equation_line(e)) == written_ids(e),
        ids_fit(written_ids(e)),
        forall|t: int| #[trigger] line_gates(written_ids(e), t) == Some(seq![e]),
{
    let line = equation_line(e);
    let v0 = written_target(e);
    let t0 = target_name(e);
    let t1 = operand_name(e.a);
    lemma_one_variable(110, v0 as nat);
    if e.a >= MAX_GATES {
        lemma_one_variable(120, (e.a - MAX_GATES) as nat);
    } else {
        lemma_one_variable(110, e.a as nat);
    }
    assert(variables(t0) == seq![v0]);
    assert(variables(t1) == seq![e.a]);
    let p = t0.len() as int;
    let blank = seq![32u8];
    let bang = seq![32u8, 33u8];
    assert(line[0] == t0[0]);
    assert(line[p] == 32 && line[p + 1] == 61);
    assert forall|m: int| 0 <= m < p + 1 implies #[trigger] line[m] != 61 by {
        if m < p {
            assert(line[m] == t0[m]);
        }
    }
    lemma_find_first(line, 61, 0, p + 1);
    let left = line.subrange(0, p + 1);
    let right = line.subrange(p + 2, line.len() as int);
    assert(left =~= t0 + blank);
    lemma_variables_concat(t0, blank);
    lemma_no_markers(blank, 1);
    assert(variables(left) =~= seq![v0]);
    // no blank at the start, so the line is read from its first byte, an `n`
    assert(!is_blank(line[0]));
    assert(skip_blank(line, 0) == 0);
    if e.fanin == 1 {
        assert(right =~= bang + t1);
        lemma_variables_concat(bang, t1);
        lemma_no_markers(bang, 2);
        assert(variables(right) =~= seq![e.a]);
        assert(line_variables(line) =~= seq![v0, e.a]);
        assert forall|i: int| 0 <= i < line.len() implies #[trigger] line[i] != 10 by {
            if i < p {
                assert(line[i] == t0[i]);
            } else if i >= p + 4 {
                assert(line[i] == t1[i - p - 4]);
            }
        }
        assert forall|t: int| #[trigger] line_gates(written_ids(e), t) == Some(seq![e]) by {
            let gates = line_gates(written_ids(e), t)->0;
            assert(gates[0] == e);
            assert(gates =~= seq![e]);
        }
    } else {
        let t2 = operand_name(e.b);
        if e.b >= MAX_GATES {
            lemma_one_variable(120, (e.b - MAX_GATES) as nat);
        } else {
            lemma_one_variable(110, e.b as nat);
        }
        assert(variables(t2) == seq![e.b]);
        let plus = seq![32u8, 43u8, 32u8];
        assert(right =~= (blank + t1) + (plus + t2));
        lemma_variables_concat(blank + t1, plus + t2);
        lemma_variables_concat(blank, t1);
        lemma_variables_concat(plus, t2);
        lemma_no_markers(plus, 3);
        assert(variables(right) =~= seq![e.a, e.b]);
        assert(line_variables(line) =~= seq![v0, e.a, e.b]);
        let q = p + 3 + t1.len();
        assert forall|i: int| 0 <= i < line.len() implies #[trigger] line[i] != 10 by {
            if i < p {
                assert(line[i] == t0[i]);
            } else if p + 3 <= i < q {
                assert(line[i] == t1[i - p - 3]);
            } else if i >= q + 3 {
                assert(line[i] == t2[i - q - 3]);
            }
        }
        assert forall|t: int| #[trigger] line_gates(written_ids(e), t) == Some(seq![e]) by {
            let gates = line_gates(written_ids(e), t)->0;
            assert(gates[0] == e);
            assert(gates =~= seq![e]);
        }
    }
}

/// Round trip: the netlist written for a sequence of equations reads back
/// as those equations, whatever their number, as long as the table has
/// room for them.
pub proof fn lemma_round_trip(eqs: Seq<Equation>, room: int)
    requires
        forall|i: int| 0 <= i < eqs.len() ==> writable(#[trigger] eqs[i]),
        eqs.len() <= room,
    ensures
        parse_text(equations_text(eqs), room) == Ok::<Seq<Equation>, SynthesisError>(eqs),
    decreases eqs.len(),
{
    lemma_reads_back(eqs, 1, room);
}

/// The netlist written for `eqs` reads back as `eqs`, whatever the number
/// of the next fresh wire.
proof fn lemma_reads_back(eqs: Seq<Equation>, t: int, room: int)
    requires
        forall|i: int| 0 <= i < eqs.len() ==> writable(#[trigger] eqs[i]),
        eqs.len() <= room,
    ensures
        parse_from(equations_text(eqs), 0, t, room) == Ok::<Seq<Equation>, SynthesisError>(eqs),
    decreases eqs.len(),
{
    let text = equations_text(eqs);
    if eqs.len() == 0 {
        assert(eqs =~= Seq::<Equation>::empty());
    } else {
        let e = eqs[0];
        let rest = eqs.drop_first();
        let line = equation_line(e);
        let head = line + seq![10u8];
        let tail = equations_text(rest);
        assert(text == head + tail);
        assert(writable(e));
        lemma_line_reads(e);
        let end = line.len() as int;
        assert(text[end] == 10);
        assert forall|m: int| 0 <= m < end implies #[trigger] text[m] != 10 by {
            assert(text[m] == line[m]);
        }
        lemma_find_first(text, 10, 0, end);
        assert(text.subrange(0, end) =~= line);
        assert(line_gates(written_ids(e), t) == Some(seq![e]));
        assert(temps_used(written_ids(e).len() as int) == 0);
        assert forall|i: int| 0 <= i < rest.len() implies writable(#[trigger] rest[i]) by {
            assert(rest[i] == eqs[i + 1]);
        }
        lemma_reads_back(rest, t, room - 1);
        lemma_parse_shift(head, tail, 0, t, room - 1);
        assert(head.len() == end + 1);
        assert(seq![e] + rest =~= eqs);
    }
}

/// The netlist of equations grows by a line when an equation is added.
pub proof fn lemma_text_push(eqs: Seq<Equation>, e: Equation)
    ensures
        equations_text(eqs.push(e)) == equations_text(eqs) + equation_line(e) + seq![10u8],
    decreases eqs.len(),
{
    let more = eqs.push(e);
    if eqs.len() == 0 {
        assert(more.drop_first() =~= Seq::<Equation>::empty());
        assert(equations_text(more.drop_first()) =~= Seq::<u8>::empty());
        assert(equations_text(more) =~= equation_line(e) + seq![10u8]);
        assert(equations_text(eqs) + equation_line(e) + seq![10u8] =~= equation_line(e) + seq![10u8]);
    } else {
        assert(more.drop_first() =~= eqs.drop_first().push(e));
        lemma_text_push(eqs.drop_first(), e);
        assert(more[0] == eqs[0]);
        assert(equations_text(more) =~= equations_text(eqs) + equation_line(e) + seq![10u8]);
    }
}

/// Appends the digits of `n`.
fn push_digit_bytes(out: &mut Vec<u8>, n: u64)
    ensures
        final(out)@ == old(out)@ + digit_bytes(n as nat),
    decreases n,
{
    if n >= 10 {
        push_digit_bytes(out, n / 10);
    }
    out.push((48 + n % 10) as u8);
    proof {
        assert(out@ =~= old(out)@ + digit_bytes(n as nat));
    }
}

/// Appends the variable that names wire `id` as an operand.
fn push_operand_name(out: &mut Vec<u8>, id: i64)
    requires
        0 <= id <= i32::MAX,
    ensures
        final(out)@ == old(out)@ + operand_name(id as int),
{
    if id >= MAX_GATES as i64 {
        out.push(120);
        push_digit_bytes(out, (id - MAX_GATES as i64) as u64);
    } else {
        out.push(110);
        push_digit_bytes(out, id as u64);
    }
    proof {
        assert(out@ =~= old(out)@ + operand_name(id as int));
    }
}

/// The id of wire `id` with fresh wires renamed.
fn rename(id: i32, shift: i32) -> (r: i64)
    ensures
        r == renamed(id as int, shift as int),
{
    if id < 0 {
        shift as i64 - id as i64
    } else {
        id as i64
    }
}

/// Whether the netlist grammar can state gate `g`, with fresh wires renamed.
fn is_writable(g: &TableGate, shift: i32) -> (r: bool)
    requires
        g.wf(),
    ensures
        r == writable(equation_of(*g, shift as int)),
{
    let top = i32::MAX as i64;
    let bias = OUT_BIAS as i64;
    let a = rename(g.inputs[0], shift);
    if a < 0 || a > top {
        return false;
    }
    if g.fanin == 2 {
        let b = rename(g.inputs[1], shift);
        if b < 0 || b > top {
            return false;
        }
    }
    let out = rename(g.out, shift);
    if g.is_output {
        1 <= out && out <= top - bias
    } else {
        0 <= out && out <= bias
    }
}

/// Appends the variable on the left of the equation of gate `g`.
fn push_target_name(out: &mut Vec<u8>, g: &TableGate, shift: i32)
    requires
        writable(equation_of(*g, shift as int)),
    ensures
        final(out)@ == old(out)@ + target_name(equation_of(*g, shift as int)),
{
    let id = rename(g.out, shift);
    let written: i64 = if g.is_output {
        id + OUT_BIAS as i64
    } else {
        id
    };
    out.push(110);
    push_digit_bytes(out, written as u64);
    proof {
        assert(out@ =~= old(out)@ + target_name(equation_of(*g, shift as int)));
    }
}

/// Appends a space, the sign `sign` and a space.
fn push_sign(out: &mut Vec<u8>, sign: u8)
    ensures
        final(out)@ == old(out)@ + seq![32u8, sign, 32u8],
{
    out.push(32);
    out.push(sign);
    out.push(32);
    proof {
        assert(out@ =~= old(out)@ + seq![32u8, sign, 32u8]);
    }
}

/// Appends the line of gate `g` and its line feed.
fn push_equation(out: &mut Vec<u8>, g: &TableGate, shift: i32)
    requires
        g.wf(),
        writable(equation_of(*g, shift as int)),
    ensures
        final(out)@ == old(out)@ + equation_line(equation_of(*g, shift as int)) + seq![10u8],
{
    let ghost e = equation_of(*g, shift as int);
    push_target_name(out, g, shift);
    push_sign(out, 61);
    let ghost left = out@;
    assert(left == old(out)@ + target_name(e) + seq![32u8, 61u8, 32u8]);
    if g.fanin == 1 {
        out.push(33);
        push_operand_name(out, rename(g.inputs[0], shift));
        proof {
            assert(left.push(33u8) =~= old(out)@ + (target_name(e) + seq![32u8, 61u8, 32u8, 33u8]));
            assert(out@ =~= old(out)@ + equation_line(e));
        }
    } else {
        push_operand_name(out, rename(g.inputs[0], shift));
        push_sign(out, 43);
        push_operand_name(out, rename(g.inputs[1], shift));
        proof {
            assert(out@ =~= old(out)@ + equation_line(e));
        }
    }
    out.push(10);
    proof {
        assert(out@ =~= old(out)@ + equation_line(e) + seq![10u8]);
    }
}

/// Writes the gates of the circuit as a netlist, one equation to a line.
///
/// A NOT is written `n5 = !x0` and a NOR `n5 = x0 + n2`: a primary input by
/// `x` and its number, any other wire by `n` and its id, and the output of a
/// gate that drives a primary output with the output bias added to its id.
/// A fresh wire, which has a negative id `-t`, is written as the wire
/// `shift + t`. Reading the netlist gives the gates back, wired and flagged
/// as they are but for that renaming.
///
/// `None` where a gate cannot be stated: a renamed wire would be beyond the
/// wire ids, or an output would be mistaken for, or cannot carry, the
/// output bias.
pub fn write_equations(circuit: &Circuit, shift: i32) -> (r: Option<Vec<u8>>)
    requires
        circuit.wf(),
    ensures
        r is Some <==> forall|i: int|
            0 <= i < circuit.gates@.len() ==> writable(#[trigger] equations_of(circuit.gates@, shift as int)[i]),
        match r {
            Some(text) => {
                &&& text@ == equations_text(equations_of(circuit.gates@, shift as int))
                &&& parse_text(text@, circuit.gates@.len() as int) == Ok::<Seq<Equation>, SynthesisError>(
                    equations_of(circuit.gates@, shift as int),
                )
            },
            None => true,
        },
{
    let n = circuit.gates.len();
    let ghost eqs = equations_of(circuit.gates@, shift as int);
    let mut text: Vec<u8> = Vec::new();
    proof {
        assert(eqs.take(0) =~= Seq::<Equation>::empty());
    }
    for i in 0..n
        invariant
            circuit.wf(),
            n == circuit.gates@.len(),
            eqs == equations_of(circuit.gates@, shift as int),
            forall|j: int| 0 <= j < i ==> writable(#[trigger] eqs[j]),
            text@ == equations_text(eqs.take(i as int)),
    {
        assert(circuit.gates@[i as int].wf());
        assert(eqs[i as int] == equation_of(circuit.gates@[i as int], shift as int));
        if !is_writable(&circuit.gates[i], shift) {
            return None;
        }
        push_equation(&mut text, &circuit.gates[i], shift);
        proof {
            lemma_text_push(eqs.take(i as int), eqs[i as int]);
            assert(eqs.take(i + 1) =~= eqs.take(i as int).push(eqs[i as int]));
        }
    }
    proof {
        assert(eqs.take(n as int) =~= eqs);
        lemma_round_trip(eqs, n as int);
    }
    Some(text)
}

} // verus!
