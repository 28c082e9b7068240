use moon_pprof::demangle::MoonBit;
use moon_pprof::folded::{folded_to_pprof, parse_folded, FoldedError, FoldedImportOptions, LineError};
use moon_pprof::folded_export::{pprof_to_folded, PprofExportOptions};
use moon_pprof::gz::{compress_profile, load_profile, LoadError};
use moon_pprof::heapprofile;
use moon_pprof::heapprofile::{HeapNode, HeapProfile, HeapSample};
use moon_pprof::memprofile::{AllocRecorder, FrameKey};
use moon_pprof::pattern::Names;
use moon_pprof::proto::{Label, Line, Location, Mapping, PprofFunction, Profile, Sample, ValueType};
use moon_pprof::report::{compare_rollups, list_changes, Change};
use moon_pprof::resolve::ProfileIndex;
use moon_pprof::speedscope::SpeedscopeImportOptions;
use moon_pprof::speedscope_export::{pprof_to_speedscope, SpeedscopeExportOptions};
use moon_pprof::speedscope_json::speedscope_to_pprof;
use moon_pprof::summary::{summarize, LeafRule, Reading};
use moon_pprof::v8::CallFrame;

fn full_profile() -> Profile {
    Profile {
        sample_type: vec![ValueType { ty: 1, unit: 2 }],
        sample: vec![Sample {
            location_id: vec![1, u64::MAX],
            value: vec![-1, i64::MIN],
            label: vec![Label { key: 1, text: 2, num: -3, num_unit: 4 }],
        }],
        mapping: vec![Mapping {
            id: 1,
            memory_start: 2,
            memory_limit: 3,
            file_offset: 4,
            filename: 5,
            build_id: 6,
            has_functions: true,
            has_filenames: false,
            has_line_numbers: true,
            has_inline_frames: false,
        }],
        location: vec![Location {
            id: 1,
            mapping_id: 1,
            address: 0xdead_beef,
            line: vec![Line { function_id: 1, line: 300, column: 7 }],
            is_folded: true,
        }],
        function: vec![PprofFunction { id: 1, name: 1, system_name: 2, filename: 0, start_line: 128 }],
        string_table: vec!["".to_string(), "samples".to_string(), "\u{e9}t\u{e9}".to_string()],
        drop_frames: 1,
        keep_frames: 2,
        time_nanos: i64::MAX,
        duration_nanos: -5,
        period_type: Some(ValueType { ty: 2, unit: 1 }),
        period: 99,
        comment: vec![1, 2],
        default_sample_type: 1,
        doc_url: 2,
    }
}

#[test]
fn a_written_profile_is_read_back() {
    let bytes = compress_profile(&full_profile()).unwrap();
    let p = load_profile(&bytes).unwrap();
    let q = full_profile();
    assert_eq!(p.sample[0].location_id, q.sample[0].location_id);
    assert_eq!(p.sample[0].value, q.sample[0].value);
    assert_eq!(p.sample[0].label[0].num, -3);
    assert_eq!(p.mapping[0].build_id, 6);
    assert!(p.mapping[0].has_line_numbers && !p.mapping[0].has_filenames);
    assert_eq!(p.location[0].address, 0xdead_beef);
    assert!(p.location[0].is_folded);
    assert_eq!(p.location[0].line[0].column, 7);
    assert_eq!(p.function[0].start_line, 128);
    assert_eq!(p.string_table, q.string_table);
    assert_eq!((p.drop_frames, p.keep_frames, p.time_nanos), (1, 2, i64::MAX));
    assert_eq!((p.duration_nanos, p.period, p.default_sample_type, p.doc_url), (-5, 99, 1, 2));
    assert_eq!(p.period_type.map(|t| (t.ty, t.unit)), Some((2, 1)));
    assert_eq!(p.comment, vec![1, 2]);
}

#[test]
fn broken_files_are_refused() {
    let mut bytes = compress_profile(&full_profile()).unwrap();
    bytes.truncate(bytes.len() / 2);
    assert_eq!(load_profile(&bytes).err(), Some(LoadError::Gunzip));
    assert_eq!(load_profile(&[0x0a, 0xff]).err(), Some(LoadError::Decode));
    assert!(load_profile(&[]).unwrap().sample.is_empty());
}

fn two_stacks(values: [i64; 2], names: [&str; 2]) -> Profile {
    let mut p = Profile {
        sample_type: vec![ValueType { ty: 1, unit: 2 }],
        sample: vec![],
        mapping: vec![],
        location: vec![],
        function: vec![],
        string_table: ["", "cpu", "nanoseconds", names[0], names[1]].iter().map(|s| s.to_string()).collect(),
        drop_frames: 0,
        keep_frames: 0,
        time_nanos: 0,
        duration_nanos: 0,
        period_type: None,
        period: 0,
        comment: vec![],
        default_sample_type: 0,
        doc_url: 0,
    };
    for id in 1..=2u64 {
        p.function.push(PprofFunction {
            id,
            name: 2 + id as i64,
            system_name: 2 + id as i64,
            filename: 0,
            start_line: 0,
        });
        p.location.push(Location {
            id,
            mapping_id: 0,
            address: 0,
            line: vec![Line { function_id: id, line: 0, column: 0 }],
            is_folded: false,
        });
    }
    p.sample.push(Sample { location_id: vec![2, 1], value: vec![values[0]], label: vec![] });
    p.sample.push(Sample { location_id: vec![1], value: vec![values[1]], label: vec![] });
    p
}

#[test]
fn large_values_go_to_speedscope_and_back() {
    let p = two_stacks([899_999_999_999_983, 7], ["main", "work"]);
    let (json, stats) = pprof_to_speedscope(&p, &SpeedscopeExportOptions::default()).unwrap();
    assert_eq!(stats.total, 899_999_999_999_990);
    let out = speedscope_to_pprof(&json, &SpeedscopeImportOptions::default()).unwrap();
    assert_eq!(out.stats.total, stats.total);
    let back = load_profile(&out.encoded).unwrap();
    assert_eq!(back.sample[0].value, vec![1, 899_999_999_999_983]);
    let names: Vec<&str> = back.sample[0]
        .location_id
        .iter()
        .map(|id| {
            let f = back.location[*id as usize - 1].line[0].function_id;
            back.string_table[back.function[f as usize - 1].name as usize].as_str()
        })
        .collect();
    assert_eq!(names, vec!["work", "main"]);
}

#[test]
fn folded_text_is_read_back() {
    let p = two_stacks([9_007_199_254_740_992, 5], ["main loop", "a;b"]);
    let (text, _) = pprof_to_folded(&p, &PprofExportOptions::default()).unwrap();
    assert_eq!(text, "main loop 5\nmain loop;a:b 9007199254740992\n");
    let stacks = parse_folded(&text).unwrap();
    assert_eq!(stacks.len(), 2);
    assert_eq!(stacks[1].frames, vec!["main loop".to_string(), "a:b".to_string()]);
    assert_eq!(stacks[1].value, 9_007_199_254_740_992);
    let out = folded_to_pprof(&text, &FoldedImportOptions::default()).unwrap();
    assert_eq!(out.stats.total, 9_007_199_254_740_997);
}

#[test]
fn changes_turn_round() {
    let none = Names { names: vec![] };
    let reading = Reading { idx: 0, secondary_idx: None, is_heap: false, leaf: LeafRule::InnermostShown };
    let a = summarize(&two_stacks([10, 4], ["main", "work"]), reading, &none, &none).unwrap();
    let b = summarize(&two_stacks([3, 4], ["main", "work"]), reading, &none, &none).unwrap();
    let there = compare_rollups(&a, &b, false).unwrap();
    let back = compare_rollups(&b, &a, false).unwrap();
    assert_eq!(there.total_delta, -7);
    assert_eq!(back.total_delta, 7);
    assert_eq!(list_changes(&there.rows, Change::Improved).len(), 1);
    assert_eq!(list_changes(&back.rows, Change::Regressed).len(), 1);
    assert!(list_changes(&there.rows, Change::Regressed).is_empty());
}

#[test]
fn stacks_that_look_alike_are_kept_apart() {
    let frame = |i: u32, n: Option<&str>| FrameKey { func_index: i, name: n.map(|s| s.to_string()) };
    let mut r = AllocRecorder::new(1);
    r.record(vec![frame(1, None)], 1);
    r.record(vec![frame(1, Some(""))], 1);
    r.record(vec![frame(12, Some("a")), frame(3, Some("b"))], 1);
    r.record(vec![frame(1, Some("a")), frame(23, Some("b"))], 1);
    r.record(vec![frame(1, None)], 1);
    let p = load_profile(&r.encode_pprof(true).unwrap()).unwrap();
    assert_eq!(p.sample.len(), 4);
    assert_eq!(p.sample.iter().map(|s| s.value[0]).sum::<i64>(), 5);
    assert_eq!(p.sample[0].value, vec![2, 2]);
}

#[test]
fn heap_totals_are_those_of_the_profile() {
    let frame = |name: &str| CallFrame {
        function_name: name.to_string(),
        url: String::new(),
        script_id: "\"0\"".to_string(),
        line_number: 0,
        column_number: 0,
    };
    let leaf = HeapNode { call_frame: frame("f"), self_size: 40, id: 2, children: vec![] };
    let p = HeapProfile {
        head: HeapNode { call_frame: frame("(root)"), self_size: 2, id: 1, children: vec![leaf] },
        samples: vec![
            HeapSample { size: 20, node_id: 2, ordinal: 0 },
            HeapSample { size: 20, node_id: 2, ordinal: 1 },
            HeapSample { size: 2, node_id: 1, ordinal: 2 },
        ],
    };
    let out = heapprofile::Builder::new(p).demangle_with(MoonBit).mapping_filename("m").encode().unwrap();
    let q = load_profile(&out.encoded).unwrap();
    assert_eq!(q.sample.iter().map(|s| s.value[0]).sum::<i64>(), out.stats.total_objects);
    assert_eq!(q.sample.iter().map(|s| s.value[1]).sum::<i64>(), 42);
    assert_eq!(q.string_table[q.mapping[0].filename as usize], "m");
}

#[test]
fn unknown_groups_are_passed_over() {
    // Field 100 as a group that holds field 1, then the period.
    let bytes = [0xa3, 0x06, 0x08, 0x07, 0xa4, 0x06, 0x60, 0x05];
    assert_eq!(load_profile(&bytes).unwrap().period, 5);
    let open = [0xa3, 0x06, 0x08, 0x07];
    assert_eq!(load_profile(&open).err(), Some(LoadError::Decode));
}

#[test]
fn groups_end_at_a_limit() {
    // Field 100 as groups inside one another.
    let groups = |n: usize| {
        let mut b = [0xa3, 0x06].repeat(n);
        b.extend([0xa4, 0x06].repeat(n));
        b
    };
    // A message as field `tag`.
    let inside = |tag: u8, b: Vec<u8>| {
        let mut r = vec![tag << 3 | 2, (b.len() % 128) as u8 | 0x80, (b.len() / 128) as u8];
        r.extend(b);
        r
    };
    assert!(load_profile(&groups(100)).is_ok());
    assert_eq!(load_profile(&groups(101)).err(), Some(LoadError::Decode));
    // A sample, then a line of a location.
    assert!(load_profile(&inside(2, groups(99))).is_ok());
    assert_eq!(load_profile(&inside(2, groups(100))).err(), Some(LoadError::Decode));
    assert!(load_profile(&inside(4, inside(4, groups(98)))).is_ok());
    assert_eq!(load_profile(&inside(4, inside(4, groups(99)))).err(), Some(LoadError::Decode));
}

#[test]
fn sums_beyond_doubles_go_to_speedscope_and_back() {
    // Each value is short, their sum is not.
    let mut p = two_stacks([899_999_999_999_983, 899_999_999_999_999], ["main", "work"]);
    for _ in 0..20 {
        let s = p.sample[0].location_id.clone();
        p.sample.push(Sample { location_id: s, value: p.sample[0].value.clone(), label: vec![] });
    }
    let (json, stats) = pprof_to_speedscope(&p, &SpeedscopeExportOptions::default()).unwrap();
    assert!(stats.total > 1 << 53);
    let out = speedscope_to_pprof(&json, &SpeedscopeImportOptions::default()).unwrap();
    assert_eq!(out.stats.samples, stats.stacks);
    assert_eq!(out.stats.total, stats.total);
    let back = load_profile(&out.encoded).unwrap();
    assert_eq!(back.sample[1].value[1], 899_999_999_999_999);
    assert_eq!(back.sample[21].value[1], 899_999_999_999_983);
}

#[test]
fn speedscope_durations_are_differences() {
    let json = r#"{"$schema":"s","name":"n","activeProfileIndex":0,"exporter":"e",
        "shared":{"frames":[{"name":"f","line":3}]},
        "profiles":[{"type":"sampled","name":"p","unit":"milliseconds","startValue":2.5,"endValue":10,
        "samples":[[0],[0,9],[]],"weights":[1.4,2.5,7]}]}"#;
    let out = speedscope_to_pprof(json, &SpeedscopeImportOptions::default()).unwrap();
    let p = load_profile(&out.encoded).unwrap();
    // 7.5 rounds to 8 milliseconds.
    assert_eq!(p.duration_nanos, 8_000_000);
    assert_eq!(p.sample.iter().map(|s| s.value[1]).collect::<Vec<_>>(), vec![1, 3]);
    assert_eq!(p.function[0].start_line, 3);
}

#[test]
fn two_texts_are_imported_as_one() {
    let a = "main;work 3\nmain 2\n";
    let b = "main;idle 5\nmain;work 1\n";
    let opts = FoldedImportOptions::default();
    let whole = folded_to_pprof(&format!("{a}{b}"), &opts).unwrap();
    let first = folded_to_pprof(a, &opts).unwrap();
    let second = folded_to_pprof(b, &opts).unwrap();
    assert_eq!(whole.stats.samples, first.stats.samples + second.stats.samples);
    assert_eq!(whole.stats.total, first.stats.total + second.stats.total);
    let values = |bytes: &[u8]| -> Vec<i64> {
        load_profile(bytes).unwrap().sample.iter().map(|s| s.value[1]).collect()
    };
    let mut both = values(&first.encoded);
    both.extend(values(&second.encoded));
    assert_eq!(values(&whole.encoded), both);
    // Lines are counted on.
    assert_eq!(
        folded_to_pprof(&format!("{a}broken\n"), &opts).err(),
        Some(FoldedError::Line { line: 3, error: LineError::MissingValue })
    );
}

#[test]
fn an_export_has_one_line_per_stack() {
    let opts = FoldedImportOptions::default();
    let out = folded_to_pprof("b;c 1\na 2\n# note\nb;c 4.4\n a  3\n", &opts).unwrap();
    let p = load_profile(&out.encoded).unwrap();
    let (text, stats) = pprof_to_folded(&p, &PprofExportOptions { value_index: Some(1) }).unwrap();
    assert_eq!(text, "a 5\nb;c 5\n");
    assert_eq!(stats.stacks, out.stats.samples);
    assert_eq!(stats.total, out.stats.total);
}

#[test]
fn speedscope_keeps_the_frames() {
    let mut p = two_stacks([40, 2], ["main", "work"]);
    p.function[0].filename = 1;
    p.location[1].line[0].line = 12;
    p.location[1].line[0].column = 3;
    let (json, stats) = pprof_to_speedscope(&p, &SpeedscopeExportOptions::default()).unwrap();
    let out = speedscope_to_pprof(&json, &SpeedscopeImportOptions::default()).unwrap();
    assert_eq!(out.stats.samples, stats.stacks);
    let back = load_profile(&out.encoded).unwrap();
    assert_eq!(back.duration_nanos, 42);
    let was = ProfileIndex::new(&p);
    let is = ProfileIndex::new(&back);
    for (a, b) in p.sample.iter().zip(&back.sample) {
        for (x, y) in a.location_id.iter().zip(&b.location_id) {
            let (f, g) = (was.frame_for_location(*x), is.frame_for_location(*y));
            assert_eq!((f.name, f.file, f.line, f.col), (g.name, g.file, g.line, g.col));
        }
    }
}
