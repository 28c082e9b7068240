use moon_pprof::cpuprofile;
use moon_pprof::cpuprofile::{CpuNode, CpuProfile};
use moon_pprof::demangle::Verbatim;
use moon_pprof::gz::load_profile;
use moon_pprof::heapprofile;
use moon_pprof::heapprofile::{HeapNode, HeapProfile, HeapSample};
use moon_pprof::mean::round_mean;
use moon_pprof::v8::CallFrame;
use moon_pprof::v8_json::ReadError;

fn frame(name: &str, url: &str, script: &str, line: i32, column: i32) -> CallFrame {
    CallFrame {
        function_name: name.into(),
        url: url.into(),
        script_id: format!("\"{script}\""),
        line_number: line,
        column_number: column,
    }
}

fn synth_cpu() -> CpuProfile {
    CpuProfile {
        nodes: vec![
            CpuNode { id: 1, call_frame: frame("(root)", "", "0", -1, -1), children: vec![2] },
            CpuNode {
                id: 2,
                call_frame: frame("_M0FP26mizchi5bench9ackermann", "wasm", "42", 0, 0),
                children: vec![3],
            },
            CpuNode {
                id: 3,
                call_frame: frame("_M0FP26mizchi5bench3fib", "wasm", "42", 1, 0),
                children: vec![],
            },
        ],
        samples: vec![3, 3, 2],
        time_deltas: vec![1000, 1000, 500],
        start_time: 0,
        end_time: 2500,
    }
}

fn names(bytes: &[u8]) -> Vec<String> {
    let p = load_profile(bytes).unwrap();
    p.function.iter().map(|f| p.string_table[f.name as usize].clone()).collect()
}

#[test]
fn builds_and_demangles() {
    let out = cpuprofile::Builder::new(synth_cpu()).encode().unwrap();
    assert_eq!(out.stats.samples, 2);
    assert_eq!(out.stats.locations, 3);
    assert_eq!(out.stats.functions, 3);
    assert!(!out.encoded.is_empty());
}

#[test]
fn identity_demangler_passes_raw_names() {
    let out = cpuprofile::Builder::new(synth_cpu()).demangle_with(Verbatim).encode().unwrap();
    assert!(out.encoded.len() > 50);
}

#[test]
fn the_demangler_decides_the_names() {
    let out = cpuprofile::Builder::new(synth_cpu()).encode().unwrap();
    assert!(names(&out.encoded).contains(&"mizchi::bench::fib".to_string()));
    let raw = cpuprofile::Builder::new(synth_cpu()).demangle_with(Verbatim).encode().unwrap();
    assert!(names(&raw.encoded).contains(&"_M0FP26mizchi5bench3fib".to_string()));
}

#[test]
fn cpu_times_add_up() {
    let out = cpuprofile::Builder::new(synth_cpu()).encode().unwrap();
    let p = load_profile(&out.encoded).unwrap();
    assert_eq!(p.sample.iter().map(|s| s.value[0]).sum::<i64>(), 3);
    assert_eq!(p.sample.iter().map(|s| s.value[1]).sum::<i64>(), 2_500_000);
}

#[test]
fn a_cycle_of_nodes_is_an_error() {
    let mut p = synth_cpu();
    p.nodes[2].children = vec![2];
    let r = cpuprofile::Builder::new(p).encode();
    assert_eq!(r.err(), Some(cpuprofile::BuildError::Cycle));
}

#[test]
fn times_beyond_64_bits_are_an_error() {
    let mut p = synth_cpu();
    p.time_deltas = vec![i64::MAX, i64::MAX, 1];
    let r = cpuprofile::Builder::new(p).encode();
    assert_eq!(r.err(), Some(cpuprofile::BuildError::Overflow));
}

#[test]
fn reads_a_cpu_profile() {
    let json = r#"{"nodes":[{"id":1,"callFrame":{"functionName":"(root)","scriptId":"0","url":"","lineNumber":-1,"columnNumber":-1},"children":[2]},
        {"id":2,"callFrame":{"functionName":"f","scriptId":7,"url":"a.js","lineNumber":3,"columnNumber":1}}],
        "samples":[2],"timeDeltas":[10],"startTime":5,"endTime":15}"#;
    let p = CpuProfile::from_json(json.as_bytes()).unwrap();
    assert_eq!(p.nodes.len(), 2);
    assert_eq!(p.nodes[0].children, vec![2]);
    assert_eq!(p.nodes[1].call_frame.function_name, "f");
    assert_eq!(p.nodes[1].call_frame.line_number, 3);
    assert_eq!(p.samples, vec![2]);
    assert_eq!(p.end_time, 15);
    assert_eq!(CpuProfile::from_json(b"{").err(), Some(ReadError::Json));
    assert_eq!(CpuProfile::from_json(b"{}").err(), Some(ReadError::Shape));
}

fn synth_heap() -> HeapProfile {
    HeapProfile {
        head: HeapNode {
            call_frame: frame("(root)", "", "0", -1, -1),
            self_size: 0,
            id: 1,
            children: vec![HeapNode {
                call_frame: frame("_M0FP26mizchi5bench9ackermann", "main.js", "42", 9, 0),
                self_size: 4096,
                id: 2,
                children: vec![HeapNode {
                    call_frame: frame("_M0FP26mizchi5bench3fib", "main.js", "42", 19, 0),
                    self_size: 8192,
                    id: 3,
                    children: vec![],
                }],
            }],
        },
        samples: vec![
            HeapSample { size: 4096, node_id: 2, ordinal: 0 },
            HeapSample { size: 8192, node_id: 3, ordinal: 1 },
            HeapSample { size: 8192, node_id: 3, ordinal: 2 },
        ],
    }
}

#[test]
fn lib_builds_and_demangles() {
    let out = heapprofile::Builder::new(synth_heap()).encode().unwrap();
    assert_eq!(out.stats.samples, 2);
    assert_eq!(out.stats.locations, 3);
    assert_eq!(out.stats.functions, 3);
    assert_eq!(out.stats.total_bytes, 4096 + 8192);
    assert_eq!(out.stats.total_objects, 3);
    assert!(!out.encoded.is_empty());
}

#[test]
fn falls_back_to_one_object_per_node_without_samples() {
    let mut p = synth_heap();
    p.samples.clear();
    let out = heapprofile::Builder::new(p).encode().unwrap();
    assert_eq!(out.stats.total_objects, 2);
    assert_eq!(out.stats.total_bytes, 4096 + 8192);
}

#[test]
fn lib_identity_demangler_passes_raw_names() {
    let out = heapprofile::Builder::new(synth_heap()).demangle_with(Verbatim).encode().unwrap();
    assert!(out.encoded.len() > 50);
}

#[test]
fn parses_v8_inspector_snake_case_field_names() {
    let json = r#"{
            "head": {
                "callFrame": {"functionName":"(root)","url":"","scriptId":"0","lineNumber":-1,"columnNumber":-1},
                "selfSize": 0,
                "id": 1,
                "children": [{
                    "callFrame": {"functionName":"alloc","url":"a.js","scriptId":"1","lineNumber":0,"columnNumber":0},
                    "selfSize": 128,
                    "id": 2,
                    "children": []
                }]
            },
            "samples": [{"size":128,"nodeId":2,"ordinal":0}]
        }"#;
    let p = HeapProfile::from_json(json.as_bytes()).unwrap();
    assert_eq!(p.head.children.len(), 1);
    assert_eq!(p.head.children[0].self_size, 128);
    assert_eq!(p.samples.len(), 1);
    assert_eq!(p.samples[0].node_id, 2);
}

// A profile of one node, with `more` among the members of the frame.
fn one_node(more: &str) -> String {
    format!(r#"{{"nodes":[{{"id":1,"callFrame":{{"functionName":"f"{more}}}}}],"samples":[1],"timeDeltas":[5]}}"#)
}

#[test]
fn a_field_that_is_there_twice_is_refused() {
    assert!(CpuProfile::from_json(one_node("").as_bytes()).is_ok());
    let twice = one_node(r#","functionName":"f""#);
    assert_eq!(CpuProfile::from_json(twice.as_bytes()).err(), Some(ReadError::Shape));
    // The name may be written otherwise.
    let escaped = one_node(r#","function\u004eame":"f""#);
    assert_eq!(CpuProfile::from_json(escaped.as_bytes()).err(), Some(ReadError::Shape));
    // What nobody asks for may be repeated.
    let other = one_node(r#","more":1,"more":{"url":[",}"]}"#);
    assert!(CpuProfile::from_json(other.as_bytes()).is_ok());
}

#[test]
fn what_nobody_reads_need_not_be_readable() {
    let deep = format!("{}{}", "[".repeat(100_000), "]".repeat(100_000));
    for value in ["1e999", r#""\ud800""#, deep.as_str(), r#"{"\ud800":1}"#] {
        let text = one_node(&format!(r#","more":{value}"#));
        assert!(CpuProfile::from_json(text.as_bytes()).is_ok());
        let asked = one_node(&format!(r#","scriptId":{value}"#));
        assert_eq!(CpuProfile::from_json(asked.as_bytes()).err(), Some(ReadError::Shape));
        let asked = one_node(&format!(r#","url":{value}"#));
        assert_eq!(CpuProfile::from_json(asked.as_bytes()).err(), Some(ReadError::Shape));
    }
    // Bytes that are no text.
    let mut bytes = one_node(r#","more":"?""#).into_bytes();
    let at = bytes.iter().position(|b| *b == b'?').unwrap();
    bytes[at] = 0xff;
    assert!(CpuProfile::from_json(&bytes).is_ok());
    // It must be JSON nevertheless.
    for value in ["01", "[1,]", "{1:2}", "nul", "\"\n\"", "1 2"] {
        let text = one_node(&format!(r#","more":{value}"#));
        assert_eq!(CpuProfile::from_json(text.as_bytes()).err(), Some(ReadError::Json));
    }
}

#[test]
fn script_ids_are_kept_as_text() {
    for (id, text) in [
        ("7", "7"),
        (r#""42""#, "\"42\""),
        ("1.5", "1.5"),
        ("18446744073709551615", "18446744073709551615"),
        ("true", "true"),
        (r#"[ 1, {"b": "x,]", "a": null, "b": 2} ]"#, r#"[1,{"b":2,"a":null}]"#),
        ("{ }", "{}"),
    ] {
        let p = CpuProfile::from_json(one_node(&format!(r#","scriptId":{id}"#)).as_bytes()).unwrap();
        assert_eq!(p.nodes[0].call_frame.script_id, text);
    }
}

#[test]
fn nesting_ends_at_a_limit() {
    // Each level of nodes is an object inside an array. The innermost one has a frame.
    let tree = |levels: usize| {
        let mut node = r#"{"id":0,"callFrame":{}}"#.to_string();
        for id in 1..levels {
            node = format!(r#"{{"id":{id},"callFrame":{{}},"children":[{node}]}}"#);
        }
        format!(r#"{{"head":{node}}}"#)
    };
    assert!(HeapProfile::from_json(tree(63).as_bytes()).is_ok());
    assert_eq!(HeapProfile::from_json(tree(64).as_bytes()).err(), Some(ReadError::Shape));
}

#[test]
fn means_are_those_of_doubles() {
    assert_eq!(round_mean(10, 4), 3);
    assert_eq!(round_mean(-10, 4), -3);
    assert_eq!(round_mean(0, 3), 0);
    // One sum takes 54 bits. The quotient of the other is rounded up to a half.
    assert_eq!(round_mean(9_007_199_254_740_993, 1), 9_007_199_254_740_992);
    assert_eq!(round_mean(9_007_199_254_740_991, 3), 3_002_399_751_580_331);
    let sums = [1, 5, 999_999, 4_503_599_627_370_497, 6_755_399_441_055_745, 9_007_199_254_740_993, i64::MAX, i64::MIN, -7];
    let numbers = [1u64, 2, 3, 7, 1000, 4_294_967_297, 9_007_199_254_740_993, u64::MAX];
    for sum in sums {
        for n in numbers {
            assert_eq!(round_mean(sum, n), (sum as f64 / n as f64).round() as i64, "{sum} / {n}");
        }
    }
}
