use moon_pprof::chrome_trace;
use moon_pprof::folded::{folded_to_pprof, FoldedError, FoldedImportOptions, ImportStats, LineError};
use moon_pprof::folded_export::{pprof_to_folded, ExportError, ExportStats, PprofExportOptions};
use moon_pprof::gz::load_profile;
use moon_pprof::proto::{string_at, Line, Location, PprofFunction, Profile, Sample, ValueType};
use moon_pprof::speedscope::{SpeedscopeError, SpeedscopeImportOptions};
use moon_pprof::speedscope_export::{pprof_to_speedscope, SpeedscopeExportOptions};
use moon_pprof::speedscope_json::speedscope_to_pprof;
use moon_pprof::to_chrome_trace::{ConvertOptions, Stats, TraceError};
use moon_pprof::trace_write::convert_profile;

fn location(id: u64, line: i64) -> Location {
    Location {
        id,
        mapping_id: 0,
        address: 0,
        line: vec![Line { function_id: id, line, column: 0 }],
        is_folded: false,
    }
}

fn function(id: u64, name: i64, start_line: i64) -> PprofFunction {
    PprofFunction { id, name, system_name: name, filename: 8, start_line }
}

fn synthetic_pprof() -> Profile {
    let strings = vec![
        "",
        "samples",
        "count",
        "cpu",
        "nanoseconds",
        "root",
        "hot",
        "leaf",
        "file:///main.js",
    ];
    Profile {
        sample_type: vec![ValueType { ty: 1, unit: 2 }, ValueType { ty: 3, unit: 4 }],
        sample: vec![
            Sample { location_id: vec![3, 2, 1], value: vec![3, 3_000_000], label: vec![] },
            Sample { location_id: vec![2, 1], value: vec![1, 500_000], label: vec![] },
        ],
        mapping: vec![],
        location: vec![location(1, 1), location(2, 5), location(3, 9)],
        function: vec![function(1, 5, 1), function(2, 6, 5), function(3, 7, 9)],
        string_table: strings.into_iter().map(str::to_string).collect(),
        drop_frames: 0,
        keep_frames: 0,
        time_nanos: 0,
        duration_nanos: 3_500_000,
        period_type: None,
        period: 0,
        comment: vec![],
        default_sample_type: 0,
        doc_url: 0,
    }
}

fn timed_pprof() -> Profile {
    Profile { time_nanos: 1_000_000_000, ..synthetic_pprof() }
}

#[test]
fn exports_folded_stacks() {
    let (folded, stats) = pprof_to_folded(&synthetic_pprof(), &PprofExportOptions::default()).unwrap();
    assert_eq!(stats, ExportStats { stacks: 2, total: 3_500_000 });
    assert!(folded.contains("root;hot;leaf 3000000"));
    assert!(folded.contains("root;hot 500000"));
}

#[test]
fn folded_lines_are_in_order() {
    let (folded, _) = pprof_to_folded(&synthetic_pprof(), &PprofExportOptions::default()).unwrap();
    assert_eq!(folded, "root;hot 500000\nroot;hot;leaf 3000000\n");
}

#[test]
fn a_value_index_must_be_there() {
    let opts = PprofExportOptions { value_index: Some(2) };
    assert_eq!(
        pprof_to_folded(&synthetic_pprof(), &opts).err(),
        Some(ExportError::ValueIndex { index: 2, types: 2 })
    );
}

#[test]
fn exports_speedscope_sampled_profile() {
    let (json, stats) = pprof_to_speedscope(&synthetic_pprof(), &SpeedscopeExportOptions::default()).unwrap();
    assert_eq!(stats, ExportStats { stacks: 2, total: 3_500_000 });
    let value: serde_json::Value = serde_json::from_str(&json).unwrap();
    assert_eq!(value["$schema"], "https://www.speedscope.app/file-format-schema.json");
    assert_eq!(value["profiles"][0]["type"], "sampled");
    assert_eq!(value["profiles"][0]["unit"], "nanoseconds");
    assert_eq!(value["profiles"][0]["endValue"].as_f64().unwrap(), 3_500_000.0);
    assert_eq!(value["profiles"][0]["samples"].as_array().unwrap().len(), 2);
    assert_eq!(value["shared"]["frames"].as_array().unwrap().len(), 3);
}

#[test]
fn imports_speedscope_sampled_profile_to_pprof() {
    let (json, _) = pprof_to_speedscope(&synthetic_pprof(), &SpeedscopeExportOptions::default()).unwrap();
    let out = speedscope_to_pprof(&json, &SpeedscopeImportOptions::default()).unwrap();
    assert_eq!(out.stats, ImportStats { samples: 2, locations: 3, total: 3_500_000 });

    let profile = load_profile(&out.encoded).unwrap();
    let total_count: i64 = profile.sample.iter().map(|s| s.value[0]).sum();
    let total_ns: i64 = profile.sample.iter().map(|s| s.value[1]).sum();
    assert_eq!(total_count, 2);
    assert_eq!(total_ns, 3_500_000);
}

#[test]
fn speedscope_errors() {
    let opts = SpeedscopeImportOptions::default();
    assert_eq!(speedscope_to_pprof("{", &opts).err(), Some(SpeedscopeError::Json));
    assert_eq!(speedscope_to_pprof("{}", &opts).err(), Some(SpeedscopeError::Shape));
    assert_eq!(
        speedscope_to_pprof(
            r#"{"$schema":"s","name":"n","activeProfileIndex":0,"exporter":"e","shared":{"frames":[]},"profiles":[]}"#,
            &opts
        )
        .err(),
        Some(SpeedscopeError::ProfileIndex { index: 0, profiles: 0 })
    );
}

#[test]
fn speedscope_fields_come_once() {
    let file = |more: &str| {
        format!(
            r#"{{"$schema":"s","name":"n","activeProfileIndex":0,"exporter":"e","shared":{{"frames":[{{"name":"f"}}]}},
            "profiles":[{{"type":"sampled","name":"p","unit":"none","startValue":0,"endValue":1,"samples":[[0]]{more}}}]}}"#
        )
    };
    let opts = SpeedscopeImportOptions::default();
    assert!(speedscope_to_pprof(&file(""), &opts).is_ok());
    assert!(speedscope_to_pprof(&file(r#","note":1e400,"note":2"#), &opts).is_ok());
    assert_eq!(speedscope_to_pprof(&file(r#","endValue":1"#), &opts).err(), Some(SpeedscopeError::Shape));
    assert_eq!(speedscope_to_pprof(&file(r#","weights":[1e400]"#), &opts).err(), Some(SpeedscopeError::Shape));
}

#[test]
fn imports_folded_stack_text_to_pprof() {
    let input = "root;wait;leaf 120\nroot;wait 30\n";
    let out = folded_to_pprof(input, &FoldedImportOptions::default()).unwrap();
    assert_eq!(out.stats, ImportStats { samples: 2, locations: 3, total: 150 });

    let profile = load_profile(&out.encoded).unwrap();
    assert_eq!(string_at(&profile, profile.sample_type[1].ty), "delay");
    assert_eq!(string_at(&profile, profile.sample_type[1].unit), "microseconds");
    assert_eq!(profile.duration_nanos, 150_000);

    let total_count: i64 = profile.sample.iter().map(|s| s.value[0]).sum();
    let total_delay: i64 = profile.sample.iter().map(|s| s.value[1]).sum();
    assert_eq!(total_count, 2);
    assert_eq!(total_delay, 150);
}

#[test]
fn folded_line_errors() {
    let opts = FoldedImportOptions::default();
    let error = |text: &str| match folded_to_pprof(text, &opts) {
        Err(FoldedError::Line { line, error }) => (line, error),
        _ => panic!("no line error"),
    };
    assert_eq!(error("a 1\nlonely\n"), (2, LineError::MissingValue));
    assert_eq!(error("a x\n"), (1, LineError::InvalidValue));
    assert_eq!(error("a -3\n"), (1, LineError::Negative));
    assert_eq!(error("a inf\n"), (1, LineError::NotFinite));
    assert_eq!(error("a 1e300\n"), (1, LineError::TooLarge));
}

#[test]
fn folded_values_round() {
    let out = folded_to_pprof("a 1.5\nb 2.4\n", &FoldedImportOptions::default()).unwrap();
    assert_eq!(out.stats.total, 4);
}

#[test]
fn emits_chrome_profile_chunk_json() {
    let out = convert_profile(&timed_pprof(), &ConvertOptions::default()).unwrap();
    assert_eq!(out.stats, Stats { nodes: 4, samples: 2, total_delta_us: 3_500 });

    let v: serde_json::Value = serde_json::from_str(&out.json).unwrap();
    let events = v["traceEvents"].as_array().unwrap();
    assert!(events.iter().any(|e| e["name"] == "Profile"));
    let chunk = events.iter().find(|e| e["name"] == "ProfileChunk").unwrap();
    assert_eq!(chunk["args"]["data"]["samples"].as_array().unwrap().len(), 2);
    let deltas: Vec<i64> = chunk["args"]["data"]["timeDeltas"]
        .as_array()
        .unwrap()
        .iter()
        .map(|d| d.as_i64().unwrap())
        .collect();
    assert_eq!(deltas, vec![3000, 500]);

    let nodes = chunk["args"]["data"]["cpuProfile"]["nodes"].as_array().unwrap();
    let names: Vec<&str> =
        nodes.iter().map(|n| n["callFrame"]["functionName"].as_str().unwrap()).collect();
    assert!(names.contains(&"(root)"));
    assert!(names.contains(&"root"));
    assert!(names.contains(&"hot"));
    assert!(names.contains(&"leaf"));
}

#[test]
fn expand_samples_preserves_count_on_roundtrip() {
    let out = convert_profile(
        &timed_pprof(),
        &ConvertOptions { expand_samples: true, ..ConvertOptions::default() },
    )
    .unwrap();
    assert_eq!(out.stats.samples, 4);
    assert_eq!(out.stats.total_delta_us, 3_500);

    let roundtrip = chrome_trace::convert(&out.json, &chrome_trace::ConvertOptions::default()).unwrap();
    let profile = load_profile(&roundtrip.encoded).unwrap();
    let total_count: i64 = profile.sample.iter().map(|s| s.value[0]).sum();
    let total_ns: i64 = profile.sample.iter().map(|s| s.value[1]).sum();
    assert_eq!(total_count, 4);
    assert_eq!(total_ns, 3_500_000);
}

#[test]
fn a_trace_needs_samples() {
    let empty = Profile { sample: vec![], ..timed_pprof() };
    assert_eq!(
        convert_profile(&empty, &ConvertOptions::default()).err(),
        Some(TraceError::NoSamples)
    );
}
