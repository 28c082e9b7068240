//! Running benchmarks over backends.
use vstd::prelude::*;
use vstd::string::StringExecFns;
use crate::float::{parse_bits, parsed_bits};
use crate::folded_export::{order_texts, text_less, Order};
use crate::pattern::{regex_group, regex_valid, Pattern};
use crate::proto::texts;
use crate::rank::{as_ints, rank, ranked};
use crate::text::{chars_of, next_piece, split_on, string_of, trim, trimmed};

verus! {

/// How the programs of a backend are run.
#[derive(Clone, Copy, Debug, PartialEq, Eq, Structural)]
pub enum Runner {
    Wasm,
    WasmGc,
    /// Under Node instead of wasmtime.
    WasmGcV8,
    Js,
    Native,
}

/// How the programs of a backend are run. `None` stands for an unknown backend.
pub open spec fn runner(backend: Seq<char>, wasm_gc_via_v8: bool) -> Option<Runner> {
    if backend == "wasm"@ {
        Some(Runner::Wasm)
    } else if backend == "wasm-gc"@ {
        Some(
            if wasm_gc_via_v8 {
                Runner::WasmGcV8
            } else {
                Runner::WasmGc
            },
        )
    } else if backend == "js"@ {
        Some(Runner::Js)
    } else if backend == "native"@ {
        Some(Runner::Native)
    } else {
        None
    }
}

/// How the programs of a backend are run.
pub fn runner_of(backend: &str, wasm_gc_via_v8: bool) -> (r: Option<Runner>)
    ensures
        r == runner(backend@, wasm_gc_via_v8),
{
    if backend.eq("wasm") {
        Some(Runner::Wasm)
    } else if backend.eq("wasm-gc") {
        Some(
            if wasm_gc_via_v8 {
                Runner::WasmGcV8
            } else {
                Runner::WasmGc
            },
        )
    } else if backend.eq("js") {
        Some(Runner::Js)
    } else if backend.eq("native") {
        Some(Runner::Native)
    } else {
        None
    }
}

impl Runner {
    /// The directory of its programs.
    pub open spec fn target_text(&self) -> Seq<char> {
        match self {
            Runner::Wasm => "wasm"@,
            Runner::WasmGc | Runner::WasmGcV8 => "wasm-gc"@,
            Runner::Js => "js"@,
            Runner::Native => "native"@,
        }
    }

    /// The extension of its programs.
    pub open spec fn extension_text(&self) -> Seq<char> {
        match self {
            Runner::Wasm | Runner::WasmGc | Runner::WasmGcV8 => ".wasm"@,
            Runner::Js => ".js"@,
            Runner::Native => ".exe"@,
        }
    }

    fn target(&self) -> (r: &'static str)
        ensures
            r@ == self.target_text(),
    {
        match self {
            Runner::Wasm => "wasm",
            Runner::WasmGc | Runner::WasmGcV8 => "wasm-gc",
            Runner::Js => "js",
            Runner::Native => "native",
        }
    }

    fn extension(&self) -> (r: &'static str)
        ensures
            r@ == self.extension_text(),
    {
        match self {
            Runner::Wasm | Runner::WasmGc | Runner::WasmGcV8 => ".wasm",
            Runner::Js => ".js",
            Runner::Native => ".exe",
        }
    }

    /// Where the program of a workload is, below the directory of the benchmarks.
    pub fn program(&self, workload: &str) -> (r: Vec<String>)
        ensures
            texts(r@) == seq![
                "_build"@,
                self.target_text(),
                "release"@,
                "build"@,
                "cmd"@,
                workload@,
                workload@ + self.extension_text(),
            ],
    {
        let mut name = workload.to_owned();
        name.append(self.extension());
        let r: Vec<String> = vec![
            "_build".to_owned(),
            self.target().to_owned(),
            "release".to_owned(),
            "build".to_owned(),
            "cmd".to_owned(),
            workload.to_owned(),
            name,
        ];
        assert(texts(r@) =~= seq![
            "_build"@,
            self.target_text(),
            "release"@,
            "build"@,
            "cmd"@,
            workload@,
            workload@ + self.extension_text(),
        ]);
        r
    }
}

/// The arguments that build a workload for a backend. Names are kept in WebAssembly.
pub open spec fn build_words(backend: Seq<char>, workload: Seq<char>) -> Seq<Seq<char>> {
    seq!["build"@, "--release"@] + (if backend == "wasm"@ || backend == "wasm-gc"@ {
        seq!["--no-strip"@]
    } else {
        Seq::empty()
    }) + seq!["--target="@ + backend, "cmd/"@ + workload]
}

/// The arguments that build a workload for a backend.
pub fn build_args(backend: &str, workload: &str) -> (r: Vec<String>)
    ensures
        texts(r@) == build_words(backend@, workload@),
{
    let mut r: Vec<String> = Vec::new();
    r.push("build".to_owned());
    r.push("--release".to_owned());
    if backend.eq("wasm") || backend.eq("wasm-gc") {
        r.push("--no-strip".to_owned());
    }
    let mut target = "--target=".to_owned();
    target.append(backend);
    r.push(target);
    let mut cmd = "cmd/".to_owned();
    cmd.append(workload);
    r.push(cmd);
    assert(texts(r@) =~= build_words(backend@, workload@));
    r
}

/// The entries of a list, without the spaces around them.
pub open spec fn trim_all(s: Seq<Seq<char>>) -> Seq<Seq<char>> {
    Seq::new(s.len(), |i: int| trim(s[i]))
}

/// The entries of a list that is separated by commas, without the spaces around them.
pub fn split_list(text: &str) -> (r: Vec<String>)
    ensures
        texts(r@) == trim_all(split_on(text@, ',')),
{
    let all = chars_of(text);
    let mut r: Vec<String> = Vec::new();
    let mut rest: &[char] = all.as_slice();
    let ghost want = trim_all(split_on(text@, ','));
    assert(want =~= texts(r@) + trim_all(split_on(rest@, ',')));
    loop
        invariant
            want == trim_all(split_on(text@, ',')),
            want == texts(r@) + trim_all(split_on(rest@, ',')),
        decreases rest@.len(),
    {
        let (piece, more) = next_piece(rest, ',');
        let ghost before = texts(r@);
        let ghost pieces = split_on(rest@, ',');
        let entry = string_of(trimmed(piece));
        let ghost e = entry@;
        r.push(entry);
        assert(texts(r@) =~= before.push(e));
        match more {
            Some(m) => {
                proof {
                    assert(pieces =~= seq![piece@] + split_on(m@, ','));
                    assert(trim_all(pieces) =~= seq![e] + trim_all(split_on(m@, ',')));
                    assert(want =~= texts(r@) + trim_all(split_on(m@, ',')));
                }
                rest = m;
            },
            None => {
                proof {
                    assert(trim_all(pieces) =~= seq![e]);
                    assert(texts(r@) =~= want);
                }
                return r;
            },
        }
    }
}

/// Puts a name in its place.
pub open spec fn name_placed(s: Seq<Seq<char>>, x: Seq<char>) -> Seq<Seq<char>>
    decreases s.len(),
{
    if s.len() == 0 || !text_less(x, s.last()) {
        s.push(x)
    } else {
        name_placed(s.drop_last(), x).push(s.last())
    }
}

/// The workloads among the names of directories, in order. `main` is none.
pub open spec fn workloads(names: Seq<Seq<char>>) -> Seq<Seq<char>>
    decreases names.len(),
{
    if names.len() == 0 {
        Seq::empty()
    } else if names.last() == "main"@ {
        workloads(names.drop_last())
    } else {
        name_placed(workloads(names.drop_last()), names.last())
    }
}

fn place_name(v: &mut Vec<String>, x: String)
    ensures
        texts(final(v)@) == name_placed(texts(old(v)@), x@),
{
    let ghost s = texts(v@);
    let ghost xv = x@;
    let k = chars_of(x.as_str());
    let mut i: usize = v.len();
    assert(s.take(i as int) =~= s);
    assert(name_placed(s, xv) =~= name_placed(s.take(i as int), xv) + s.skip(i as int));
    while i > 0
        invariant
            i <= v@.len(),
            v@ == old(v)@,
            s == texts(v@),
            k@ == xv,
            xv == x@,
            name_placed(s, xv) == name_placed(s.take(i as int), xv) + s.skip(i as int),
        decreases i,
    {
        let ghost front = s.take(i as int);
        assert(front.last() == v@[i - 1]@);
        assert(front.drop_last() =~= s.take(i - 1));
        let here = chars_of(v[i - 1].as_str());
        match order_texts(k.as_slice(), here.as_slice()) {
            Order::Less => {
                assert(name_placed(s.take(i - 1), xv).push(s[i - 1]) + s.skip(i as int) =~= name_placed(
                    s.take(i - 1),
                    xv,
                ) + s.skip(i - 1));
            },
            _ => {
                v.insert(i, x);
                assert(texts(v@) =~= front.push(xv) + s.skip(i as int));
                return;
            },
        }
        i -= 1;
    }
    v.insert(0, x);
    assert(s.take(0) =~= Seq::empty());
    assert(texts(v@) =~= s.take(0).push(xv) + s.skip(0));
}

/// The workloads among the names of directories, in order.
pub fn order_workloads(names: Vec<String>) -> (r: Vec<String>)
    ensures
        texts(r@) == workloads(texts(names@)),
{
    let ghost all = texts(names@);
    let mut r: Vec<String> = Vec::new();
    assert(texts(r@) =~= workloads(all.take(0)));
    for i in 0..names.len()
        invariant
            all == texts(names@),
            texts(r@) == workloads(all.take(i as int)),
    {
        proof {
            assert(all.take(i + 1).drop_last() =~= all.take(i as int));
            assert(all.take(i + 1).last() == names@[i as int]@);
        }
        if !names[i].as_str().eq("main") {
            place_name(&mut r, names[i].clone());
        }
    }
    assert(all.take(all.len() as int) =~= all);
    r
}

/// Whether directories of dependencies are swapped. `None` stands for one directory without
/// the other.
pub fn swaps_mooncakes(baseline: &str, patched: &str) -> (r: Option<bool>)
    ensures
        r == if baseline@.len() == 0 && patched@.len() == 0 {
            Some(false)
        } else if baseline@.len() == 0 || patched@.len() == 0 {
            None
        } else {
            Some(true)
        },
{
    if baseline.is_empty() && patched.is_empty() {
        Some(false)
    } else if baseline.is_empty() || patched.is_empty() {
        None
    } else {
        Some(true)
    }
}

/// A number of milliseconds in the output of a run.
pub open spec fn ms_text() -> Seq<char> {
    "([0-9]+\\.[0-9]+|[0-9]+)\\s*ms"@
}

/// Why no time could be read.
#[derive(Clone, Copy, Debug, PartialEq, Eq, Structural)]
pub enum MsError {
    /// There is no number of milliseconds.
    Missing,
    /// What stands there is no number.
    Number,
}

/// The time that a run says it took, as the bit pattern of a double.
pub fn parse_ms(s: &str) -> (r: Result<u64, MsError>)
    ensures
        r == if regex_valid(ms_text()) {
            ms_of(regex_group(ms_text(), s@))
        } else {
            Err(MsError::Missing)
        },
{
    match Pattern::compile("([0-9]+\\.[0-9]+|[0-9]+)\\s*ms") {
        Some(p) => ms_number(p.first_group(s)),
        None => Err(MsError::Missing),
    }
}

/// The time that a piece of output stands for.
pub open spec fn ms_of(found: Option<Seq<char>>) -> Result<u64, MsError> {
    match found {
        None => Err(MsError::Missing),
        Some(t) => match parsed_bits(t) {
            Some(b) => Ok(b),
            None => Err(MsError::Number),
        },
    }
}

/// The time that a piece of output stands for.
pub fn ms_number(found: Option<String>) -> (r: Result<u64, MsError>)
    ensures
        r == ms_of(
            match found {
                Some(s) => Some(s@),
                None => None,
            },
        ),
{
    match found {
        None => Err(MsError::Missing),
        Some(t) => match parse_bits(t.as_str()) {
            Some(b) => Ok(b),
            None => Err(MsError::Number),
        },
    }
}

/// Numbers as integers.
pub open spec fn ints_of(v: Seq<u64>) -> Seq<int> {
    Seq::new(v.len(), |i: int| v[i] as int)
}

/// The number in the middle, the upper one of two. The numbers may be bit patterns of
/// doubles that are not negative, which are in the order of the doubles.
pub fn median(xs: &Vec<u64>) -> (r: u64)
    requires
        xs@.len() > 0,
    ensures
        r == xs@[ranked(ints_of(xs@))[xs@.len() as int / 2]],
        crate::choices::is_middle(xs@, r),
{
    proof {
        crate::choices::law_median(xs@);
    }
    let mut keys: Vec<i128> = Vec::new();
    for i in 0..xs.len()
        invariant
            keys@.len() == i,
            forall|k: int| 0 <= k < i ==> (#[trigger] keys@[k]) == xs@[k],
    {
        keys.push(xs[i] as i128);
    }
    assert(as_ints(keys@) =~= ints_of(xs@));
    let order = rank(&keys);
    assert(crate::rank::places(order@)[xs@.len() as int / 2] == order@[xs@.len() as int / 2]);
    xs[order[xs.len() / 2]]
}

} // verus!
