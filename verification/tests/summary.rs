use moon_pprof::axis::{
    CpuAxis,
    byte_unit, count_change_text, count_text, cpu_axis, is_time_sample_type, value_axis, AxisKind, ByteUnit,
};
use moon_pprof::pattern::{default_mem_pattern, mem_mgmt_re, Names, NameTest, OptionalPattern, Pattern};
use moon_pprof::proto::{Line, Location, PprofFunction, Profile, Sample, ValueType};
use moon_pprof::report::{
    same_unit,
    compare_rollups, compare_summaries, list_changes, report, top_functions, Change, Column, DiffError, Group,
};
use moon_pprof::summary::{compute_summary, summarize, FuncStats, LeafRule, Reading, Rollup};

fn empty_profile(types: Vec<ValueType>, strings: &[&str]) -> Profile {
    Profile {
        sample_type: types,
        sample: vec![],
        mapping: vec![],
        location: vec![],
        function: vec![],
        string_table: strings.iter().map(|s| s.to_string()).collect(),
        drop_frames: 0,
        keep_frames: 0,
        time_nanos: 0,
        duration_nanos: 0,
        period_type: None,
        period: 0,
        comment: vec![],
        default_sample_type: 3,
        doc_url: 0,
    }
}

#[test]
fn summary_prefers_delay_time_axis_for_blocking_profiles() {
    let profile = empty_profile(
        vec![ValueType { ty: 1, unit: 2 }, ValueType { ty: 3, unit: 4 }],
        &["", "samples", "count", "delay", "microseconds"],
    );
    let axis = value_axis(&profile);
    assert_eq!(axis.idx, 1);
    match axis.kind {
        AxisKind::Time { div, label } => {
            assert_eq!(div as f64, 1e3);
            assert_eq!(label, "ms");
        }
        AxisKind::Bytes | AxisKind::Count(_) => panic!("expected time axis"),
    }
}

#[test]
fn bytes_go_before_objects_and_times() {
    let profile = empty_profile(
        vec![
            ValueType { ty: 1, unit: 2 },
            ValueType { ty: 3, unit: 2 },
            ValueType { ty: 4, unit: 5 },
        ],
        &["", "cpu", "count", "alloc_objects", "alloc_space", "bytes"],
    );
    let axis = value_axis(&profile);
    assert_eq!(axis.idx, 2);
    assert_eq!(axis.secondary_idx, Some(1));
    assert!(axis.is_heap);
    assert!(matches!(axis.kind, AxisKind::Bytes));
    assert_eq!(axis.kind.width(), 11);
    let cpu = cpu_axis(&profile);
    assert_eq!((cpu.idx, cpu.unit, cpu.div), (0, "samples", 1));
}

#[test]
fn an_unknown_axis_counts_units() {
    let profile = empty_profile(vec![ValueType { ty: 1, unit: 2 }], &["", "cpu", "parsecs"]);
    let axis = value_axis(&profile);
    assert_eq!(axis.idx, 0);
    assert!(matches!(axis.kind, AxisKind::Count("units")));
    let cpu = cpu_axis(&profile);
    assert_eq!((cpu.idx, cpu.unit, cpu.div), (0, "ns", 1));
    assert!(is_time_sample_type("off_cpu"));
    assert!(!is_time_sample_type("samples"));
}

#[test]
fn counts_and_bytes_as_text() {
    assert_eq!(count_text(-3, "allocs"), "-3 allocs");
    assert_eq!(count_change_text(3, "units"), "+3 units");
    assert_eq!(count_change_text(-3, "units"), "-3 units");
    assert_eq!(byte_unit(1023), ByteUnit::Bytes);
    assert_eq!(byte_unit(-1024), ByteUnit::Kilobytes);
    assert_eq!(byte_unit(1 << 20), ByteUnit::Megabytes);
    assert_eq!(byte_unit(i64::MIN), ByteUnit::Gigabytes);
    assert_eq!(ByteUnit::Kilobytes.size(), 1024);
    assert_eq!(ByteUnit::Megabytes.suffix(), "MB");
}

// Three functions: `main` calls `work`, which calls `moonbit.malloc`.
fn cpu_profile() -> Profile {
    let strings = ["", "samples", "count", "cpu", "nanoseconds", "main", "work", "moonbit.malloc"];
    let mut p = empty_profile(vec![ValueType { ty: 1, unit: 2 }, ValueType { ty: 3, unit: 4 }], &strings);
    for id in 1..=3u64 {
        p.function.push(PprofFunction {
            id,
            name: 4 + id as i64,
            system_name: 4 + id as i64,
            filename: 0,
            start_line: 0,
        });
        p.location.push(Location {
            id,
            mapping_id: 0,
            address: 0,
            line: vec![Line { function_id: id, line: 0, column: 0 }],
            is_folded: false,
        });
    }
    p.sample.push(Sample { location_id: vec![3, 2, 1], value: vec![1, 100], label: vec![] });
    p.sample.push(Sample { location_id: vec![2, 2, 1], value: vec![1, 30], label: vec![] });
    p.sample.push(Sample { location_id: vec![99], value: vec![1, 7], label: vec![] });
    p
}

fn reading() -> Reading {
    Reading { idx: 1, secondary_idx: Some(0), is_heap: false, leaf: LeafRule::InnermostShown }
}

fn names(list: &[&str]) -> Names {
    Names { names: list.iter().map(|s| s.to_string()).collect() }
}

fn row<'a>(r: &'a Rollup, name: &str) -> &'a FuncStats {
    r.stats.iter().find(|s| s.name == name).unwrap()
}

#[test]
fn values_fall_to_functions() {
    let r = summarize(&cpu_profile(), reading(), &names(&["moonbit.malloc"]), &names(&[])).unwrap();
    assert_eq!((r.total, r.total2, r.mem_mgmt_total, r.num_samples), (137, 3, 100, 3));
    assert_eq!(r.stats.len(), 4);
    let main = row(&r, "main");
    assert_eq!((main.self_v, main.cum, main.mem_cum, main.is_mem), (0, 130, 100, false));
    let work = row(&r, "work");
    assert_eq!((work.self_v, work.cum, work.mem_cum, work.self_v2), (30, 130, 100, 1));
    let malloc = row(&r, "moonbit.malloc");
    assert_eq!((malloc.self_v, malloc.cum, malloc.mem_cum, malloc.is_mem), (100, 100, 0, true));
    let unknown = row(&r, "(unknown)");
    assert_eq!((unknown.self_v, unknown.cum), (7, 0));
    assert_eq!(r.stats.iter().map(|s| s.self_v).sum::<i64>(), r.total);
    assert_eq!(r.stats.iter().map(|s| s.self_v2).sum::<i64>(), r.total2);
}

#[test]
fn dropped_frames_are_passed_over() {
    let r = summarize(&cpu_profile(), reading(), &names(&[]), &names(&["moonbit.malloc"])).unwrap();
    assert_eq!(row(&r, "work").self_v, 130);
    assert_eq!(row(&r, "moonbit.malloc").self_v, 0);
}

#[test]
fn sums_beyond_64_bits_are_refused() {
    let mut p = cpu_profile();
    p.sample[0].value[1] = i64::MAX;
    assert!(summarize(&p, reading(), &names(&[]), &names(&[])).is_none());
}

#[test]
fn the_profile_says_what_to_pass_over() {
    let mut p = cpu_profile();
    p.string_table.push("^moonbit\\.(gc\\.)?malloc$".to_string());
    p.drop_frames = 8;
    let mem = mem_mgmt_re(None, None).unwrap();
    let s = compute_summary(&p, &mem).unwrap();
    assert_eq!(row(&s.rollup, "work").self_v, 130);
    assert_eq!(s.rollup.mem_mgmt_total, 0);
    p.drop_frames = 0;
    let s = compute_summary(&p, &mem).unwrap();
    assert_eq!(row(&s.rollup, "moonbit.malloc").self_v, 100);
    assert_eq!(s.rollup.mem_mgmt_total, 100);
}

#[test]
fn regular_expressions() {
    let p = Pattern::compile(default_mem_pattern()).unwrap();
    assert!(p.test("moonbit.gc.malloc"));
    assert!(p.test("tlsf/insert"));
    assert!(!p.test("main"));
    assert!(Pattern::compile("(").is_none());
    assert!(mem_mgmt_re(Some("(".to_string()), None).is_none());
    assert!(mem_mgmt_re(None, Some("^x$".to_string())).unwrap().test("x"));
    assert!(!OptionalPattern { pattern: None }.test("x"));
}

#[test]
fn lists_the_leading_functions() {
    let r = summarize(&cpu_profile(), reading(), &names(&["moonbit.malloc"]), &names(&[])).unwrap();
    let shown = |rows: Vec<usize>| -> Vec<String> { rows.iter().map(|&i| r.stats[i].name.clone()).collect() };
    assert_eq!(shown(top_functions(&r.stats, Group::All, Column::Own, 2)), vec!["moonbit.malloc", "work"]);
    assert_eq!(shown(top_functions(&r.stats, Group::Users, Column::Own, 9)), vec!["work", "(unknown)"]);
    assert_eq!(shown(top_functions(&r.stats, Group::Users, Column::Memory, 9)), vec!["main", "work"]);
    assert_eq!(shown(top_functions(&r.stats, Group::Primitives, Column::Own, 9)), vec!["moonbit.malloc"]);
    let sections = report(&r, false, false);
    assert_eq!(sections.len(), 3);
    assert_eq!(sections[2].listing.title, "Top mem-mgmt primitives by self time");
    assert_eq!(report(&r, true, true)[0].listing.title, "Top allocation sites by bytes");
    assert_eq!(report(&r, true, false)[0].listing.title, "Top allocation sites");
}

#[test]
fn compares_two_profiles() {
    let mem = names(&[]);
    let base = summarize(&cpu_profile(), reading(), &mem, &mem).unwrap();
    let mut other = cpu_profile();
    other.sample[0].value[1] = 40;
    other.sample[1].value[1] = 55;
    other.sample.pop();
    other.string_table[5] = "start".to_string();
    other.sample.push(Sample { location_id: vec![1], value: vec![1, 9], label: vec![] });
    let patched = summarize(&other, reading(), &mem, &mem).unwrap();
    let d = compare_rollups(&base, &patched, true).unwrap();
    assert_eq!(d.total_delta, 104 - 137);
    assert_eq!(d.total2_delta, Some(0));
    let shown = |c: Change| -> Vec<(String, i64)> {
        list_changes(&d.rows, c).iter().map(|&i| (d.rows[i].name.clone(), d.rows[i].delta)).collect()
    };
    assert_eq!(shown(Change::Improved), vec![("moonbit.malloc".to_string(), -60)]);
    assert_eq!(shown(Change::Regressed), vec![("work".to_string(), 25)]);
    assert_eq!(shown(Change::Gone), vec![("(unknown)".to_string(), -7)]);
    assert_eq!(shown(Change::New), vec![("start".to_string(), 9)]);
    let same = compare_rollups(&base, &base, false).unwrap();
    assert_eq!(same.total2_delta, None);
    assert!(list_changes(&same.rows, Change::Improved).is_empty());
    assert!(list_changes(&same.rows, Change::Gone).is_empty());
}

#[test]
fn kinds_of_profiles_do_not_compare() {
    let mem = Pattern::compile("^x$").unwrap();
    let cpu = compute_summary(&cpu_profile(), &mem).unwrap();
    let mut heap = cpu_profile();
    heap.string_table[3] = "alloc_space".to_string();
    let heap = compute_summary(&heap, &mem).unwrap();
    assert_eq!(compare_summaries(&cpu, &heap).err(), Some(DiffError::Kinds));
    assert!(compare_summaries(&cpu, &cpu).is_ok());
}

#[test]
fn changes_beyond_64_bits_are_refused() {
    let mem = Pattern::compile("^x$").unwrap();
    let one = |v: i64| {
        let mut p = cpu_profile();
        p.sample.truncate(1);
        p.sample[0].value[1] = v;
        compute_summary(&p, &mem).unwrap()
    };
    assert_eq!(compare_summaries(&one(i64::MAX), &one(-2)).err(), Some(DiffError::Overflow));
}

#[test]
fn the_innermost_frame_may_be_unknown() {
    let mut p = cpu_profile();
    p.sample.truncate(1);
    p.sample[0].location_id = vec![77, 1];
    let mem = names(&[]);
    let shown = summarize(&p, reading(), &mem, &mem).unwrap();
    assert_eq!(row(&shown, "main").self_v, 100);
    let plain = Reading { leaf: LeafRule::Innermost, ..reading() };
    let r = summarize(&p, plain, &mem, &mem).unwrap();
    assert_eq!(row(&r, "(unknown)").self_v, 100);
}

#[test]
fn axes_compare_by_what_is_shown() {
    let ns = CpuAxis { idx: 0, unit: "ms", div: 1_000_000 };
    assert!(same_unit(&ns, &CpuAxis { idx: 3, ..ns }));
    assert!(!same_unit(&ns, &CpuAxis { div: 1, ..ns }));
    assert!(!same_unit(&ns, &CpuAxis { unit: "samples", ..ns }));
}
