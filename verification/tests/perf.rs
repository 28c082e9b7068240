use moon_pprof::gz::load_profile;
use moon_pprof::perf::{parse, ConvertOptions, Sample, Stats};
use moon_pprof::perf_profile::{convert, convert_from_samples};

const FIXTURE: &str = "\
main.exe 12345/12345    0.000000:    1000000 cpu-clock:
\tffff80008a9c0a3c hot_function+0x10 (/path/to/main.exe)
\tffff80008a9c0b48 middle+0x20 (/path/to/main.exe)
\tffff80008a9c0c00 main+0x8 (/path/to/main.exe)

main.exe 12345/12345    0.001000:    1000000 cpu-clock:
\tffff80008a9c0a3c hot_function+0x10 (/path/to/main.exe)
\tffff80008a9c0b48 middle+0x20 (/path/to/main.exe)
\tffff80008a9c0c00 main+0x8 (/path/to/main.exe)

main.exe 12345/12345    0.002000:    1000000 cpu-clock:
\tffff80008a9c0d60 cold_function+0x40 (/path/to/main.exe)
\tffff80008a9c0c00 main+0x8 (/path/to/main.exe)

main.exe 12345/12345    0.003000:    1000000 cpu-clock:
\tffff80008a9c0e00 [unknown] ([unknown])
";

#[test]
fn parses_three_samples_then_one_unknown() {
    let samples = parse(FIXTURE).unwrap();
    assert_eq!(samples.len(), 4);

    assert_eq!(samples[0].stack.len(), 3);
    assert_eq!(samples[0].stack[0].symbol, "hot_function");
    assert_eq!(samples[0].stack[0].dso, "/path/to/main.exe");
    assert_eq!(samples[0].period, 1_000_000);

    assert_eq!(samples[1].stack.len(), 3);
    assert_eq!(samples[1].stack[0].symbol, "hot_function");

    assert_eq!(samples[2].stack.len(), 2);
    assert_eq!(samples[2].stack[0].symbol, "cold_function");

    assert_eq!(samples[3].stack.len(), 1);
    assert_eq!(samples[3].stack[0].symbol, "[unknown]");
    assert_eq!(samples[3].stack[0].dso, "[unknown]");
}

#[test]
fn convert_aggregates_identical_stacks() {
    let gz = convert(FIXTURE, &ConvertOptions::default()).unwrap();
    let profile = load_profile(&gz).unwrap();

    assert_eq!(profile.sample.len(), 3);
    assert_eq!(profile.sample_type.len(), 2);
    let total_count: i64 = profile.sample.iter().map(|s| s.value[0]).sum();
    assert_eq!(total_count, 4);
    let total_period: i64 = profile.sample.iter().map(|s| s.value[1]).sum();
    assert_eq!(total_period, 4_000_000);

    let hot = profile.sample.iter().find(|s| s.value[0] == 2).unwrap();
    assert_eq!(hot.value[1], 2_000_000);

    let names: Vec<&str> =
        profile.function.iter().map(|f| profile.string_table[f.name as usize].as_str()).collect();
    assert!(names.contains(&"hot_function"));
    assert!(names.contains(&"cold_function"));
    assert!(names.contains(&"[unknown]"));
}

#[test]
fn counts_what_a_capture_holds() {
    let samples = parse(FIXTURE).unwrap();
    let stats = Stats::from_samples(&samples);
    assert_eq!(stats.sample_count, 4);
    assert_eq!(stats.frame_count, 9);
    assert_eq!(stats.unknown_frame_count, 1);
    assert_eq!(stats.period_sum, 4_000_000);
    assert!(!stats.period_likely_missing());
    // Samples that only add up to their number are not without periods.
    let one = |period: u64| Sample { stack: vec![], period };
    assert!(Stats::from_samples(&[one(1), one(1)]).period_likely_missing());
    assert!(!Stats::from_samples(&[one(0), one(2)]).period_likely_missing());
    assert!(!Stats::from_samples(&[]).period_likely_missing());
}

#[test]
fn counts_of_two_captures_add_up() {
    let all = parse(FIXTURE).unwrap();
    let (a, b) = all.split_at(2);
    let (x, y, z) = (Stats::from_samples(a), Stats::from_samples(b), Stats::from_samples(&all));
    assert_eq!(z.sample_count, x.sample_count + y.sample_count);
    assert_eq!(z.frame_count, x.frame_count + y.frame_count);
    assert_eq!(z.unknown_frame_count, x.unknown_frame_count + y.unknown_frame_count);
    assert_eq!(z.period_sum, x.period_sum + y.period_sum);
    assert_eq!(Stats::from_samples(&[]), Stats::default());
}

#[test]
fn samples_without_a_stack_contribute_nothing() {
    let text = format!("{FIXTURE}\nmain.exe 12345/12345    0.004000:    77 cpu-clock:\n\n");
    let samples = parse(&text).unwrap();
    assert_eq!(samples.len(), 5);
    assert!(samples[4].stack.is_empty());
    let opts = ConvertOptions::default();
    let want = load_profile(&convert(FIXTURE, &opts).unwrap()).unwrap();
    let p = load_profile(&convert(&text, &opts).unwrap()).unwrap();
    assert_eq!(p.sample.len(), want.sample.len());
    assert_eq!(p.sample.iter().map(|s| s.value[1]).sum::<i64>(), 4_000_000);
    // The samples of the text give the same bytes.
    assert_eq!(convert_from_samples(samples, &opts).unwrap(), convert(&text, &opts).unwrap());
}
