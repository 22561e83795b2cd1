//! The benchmark name of a netlist, taken from the name of its file.
use vstd::prelude::*;
use vstd::string::*;
use crate::circuit::Circuit;

verus! {

/// The position of the last full stop of `s` before position `j`, or -1.
pub open spec fn last_stop(s: Seq<char>, j: int) -> int
    decreases j,
{
    if j <= 0 {
        -1
    } else if s[j - 1] == '.' {
        j - 1
    } else {
        last_stop(s, j - 1)
    }
}

/// The file name without its extension: what stands before its last full
/// stop, or all of it where it has none.
pub open spec fn stem(name: Seq<char>) -> Seq<char> {
    let p = last_stop(name, name.len() as int);
    if p >= 0 {
        name.subrange(0, p)
    } else {
        name
    }
}

/// The benchmark name of a netlist whose file is called `name`; `unknown`
/// for a netlist whose path names no file.
pub open spec fn bench_name_of(name: Option<Seq<char>>) -> Seq<char> {
    match name {
        Some(n) => stem(n),
        None => "unknown"@,
    }
}

/// Strips the extension from a file name.
pub fn strip_extension(name: &str) -> (r: String)
    ensures
        r@ == stem(name@),
{
    let n = name.unicode_len();
    let mut j: usize = n;
    while j > 0 && name.get_char(j - 1) != '.'
        invariant
            n == name@.len(),
            0 <= j <= n,
            last_stop(name@, j as int) == last_stop(name@, n as int),
        decreases j,
    {
        j -= 1;
    }
    if j > 0 {
        name.substring_char(0, j - 1).to_owned()
    } else {
        name.to_owned()
    }
}

/// The benchmark name for the file name that a path ends in, if it ends in one.
pub fn bench_name_from(name: Option<&str>) -> (r: String)
    ensures
        r@ == bench_name_of(
            match name {
                Some(n) => Some(n@),
                None => None,
            },
        ),
{
    match name {
        Some(n) => strip_extension(n),
        None => "unknown".to_owned(),
    }
}

/// The final component of `path`, if it has one that is valid text.
///
/// Calls `std::path::Path::file_name`. What separates the components of a
/// path, and whether `..` is one, depends on the platform and on the prefix
/// of the path, so nothing is claimed of the result.
#[verifier::external_body]
fn file_name_of(path: &str) -> (name: Option<String>)
{
    match std::path::Path::new(path).file_name() {
        Some(last) => match last.to_str() {
            Some(text) => Some(text.to_string()),
            None => None,
        },
        None => None,
    }
}

/// The benchmark name of the netlist at `path`: the name of its file without
/// the extension, or `unknown` where the path names no file. Which part of
/// the path is the name of the file is for the platform to say;
/// `bench_name_from` says what becomes of it.
pub fn extract_bench_name(path: &str) -> (r: String)
    ensures
        exists|name: Option<Seq<char>>| r@ == bench_name_of(name),
{
    let r = match file_name_of(path) {
        Some(n) => {
            let r = bench_name_from(Some(n.as_str()));
            assert(r@ == bench_name_of(Some(n@)));
            r
        },
        None => {
            let r = bench_name_from(None);
            assert(r@ == bench_name_of(None::<Seq<char>>));
            r
        },
    };
    r
}

/// Names the circuit after the file of its netlist: the benchmark name
/// becomes the file name without its extension, or `unknown` where there is
/// no file name. Nothing else in the circuit changes.
pub fn set_bench_name(circuit: &mut Circuit, file_name: Option<&str>)
    ensures
        final(circuit).bench_name@ == bench_name_of(
            match file_name {
                Some(n) => Some(n@),
                None => None,
            },
        ),
        final(circuit).gates == old(circuit).gates,
        final(circuit).num_gates == old(circuit).num_gates,
        final(circuit).primary_inputs == old(circuit).primary_inputs,
        final(circuit).num_inputs == old(circuit).num_inputs,
        final(circuit).num_outputs == old(circuit).num_outputs,
        final(circuit).max_asap == old(circuit).max_asap,
        final(circuit).max_alap == old(circuit).max_alap,
        final(circuit).max_list == old(circuit).max_list,
        final(circuit).max_resources == old(circuit).max_resources,
        old(circuit).wf() ==> final(circuit).wf(),
{
    circuit.bench_name = bench_name_from(file_name);
}

} // verus!
