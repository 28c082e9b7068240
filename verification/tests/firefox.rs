use moon_pprof::demangle::Verbatim;
use moon_pprof::double::{cut_nanos, round_difference, round_nanos};
use moon_pprof::firefox::BuildError;
use moon_pprof::firefox_model::FirefoxProfile;
use moon_pprof::firefox_profile::{weighting, Builder, Source};
use moon_pprof::guest::{convert, json_to_pprof, GuestError};
use moon_pprof::gz::load_profile;
use moon_pprof::proto::Profile;
use moon_pprof::resolver::{FuncTableResolver, SampleWeighting};
use moon_pprof::samply::SamplySyms;
use moon_pprof::v8_json::ReadError;

const GUEST: &str = r#"{
  "libs": [{ "name": "main.wasm", "debugName": "main.wasm" }],
  "meta": { "interval": 2.0, "startTime": 1.5 },
  "threads": [{
    "frameTable": { "length": 2, "func": [0, 1], "address": [16, 32], "line": [null, 7] },
    "funcTable": { "length": 2, "name": [0, 1], "fileName": [null, 2], "resource": [] },
    "stackTable": { "length": 2, "prefix": [null, 0], "frame": [0, 1] },
    "samples": { "length": 4, "stack": [1, 1, 0, null], "timeDeltas": [1.0, 0.0, 2.5, 1.0], "weight": [1, 3, 1, 1] },
    "stringArray": ["main", "_M0FP26mizchi5bench3fib", "fib.mbt"]
  }]
}"#;

fn total(p: &Profile, i: usize) -> i64 {
    p.sample.iter().map(|s| s.value[i]).sum()
}

fn names(p: &Profile) -> Vec<String> {
    p.function.iter().map(|f| p.string_table[f.name as usize].clone()).collect()
}

#[test]
fn converts_guest_profiles() {
    let p = load_profile(&json_to_pprof(GUEST.as_bytes()).unwrap()).unwrap();
    assert_eq!(p.sample.len(), 2);
    assert_eq!(total(&p, 0), 5);
    // A delta that is not above zero counts as one interval.
    assert_eq!(total(&p, 1), 1_000_000 + 2_000_000 + 2_500_000);
    assert_eq!(p.duration_nanos, 5_500_000);
    assert_eq!(p.period, 2_000_000);
    assert_eq!(p.time_nanos, 1_500_000);
    assert_eq!(names(&p), vec!["mizchi::bench::fib".to_string(), "main".to_string()]);
    assert_eq!(p.string_table[p.mapping[0].filename as usize], "main.wasm");
    assert_eq!(p.location[0].address, 32);
    assert_eq!(p.location[0].line[0].line, 7);
}

#[test]
fn converts_guest_profiles_by_plain_deltas() {
    let profile = FirefoxProfile::from_json(GUEST.as_bytes()).unwrap();
    let p = load_profile(&convert(&profile).unwrap()).unwrap();
    assert_eq!(total(&p, 0), 5);
    assert_eq!(total(&p, 1), 1_000_000 + 2_500_000);
    // The one mapping is the module's.
    assert_eq!(p.mapping.len(), 1);
    assert_eq!(p.string_table[p.mapping[0].filename as usize], "main.wasm");
    assert!(p.location.iter().all(|l| l.mapping_id == 1));
}

#[test]
fn guest_errors() {
    assert_eq!(json_to_pprof(b"{").err(), Some(GuestError::Read(ReadError::Json)));
    let twice = GUEST.replace("\"interval\": 2.0", "\"interval\": 2.0, \"interval\": 2.0");
    assert_eq!(json_to_pprof(twice.as_bytes()).err(), Some(GuestError::Read(ReadError::Shape)));
    assert_eq!(json_to_pprof(b"\xff").err(), Some(GuestError::Read(ReadError::Json)));
    assert_eq!(json_to_pprof(b"{}").err(), Some(GuestError::Read(ReadError::Shape)));
    let dangling = GUEST.replace("\"stack\": [1, 1, 0, null]", "\"stack\": [9, 1, 0, null]");
    assert_eq!(json_to_pprof(dangling.as_bytes()).err(), Some(GuestError::Build(BuildError::Stack)));
    let looped = GUEST.replace("\"prefix\": [null, 0]", "\"prefix\": [1, 0]");
    assert_eq!(json_to_pprof(looped.as_bytes()).err(), Some(GuestError::Build(BuildError::Cycle)));
    let frameless = GUEST.replace("\"frame\": [0, 1]", "\"frame\": [0, 5]");
    assert_eq!(json_to_pprof(frameless.as_bytes()).err(), Some(GuestError::Build(BuildError::Frame)));
}

#[test]
fn fixed_intervals_count_each_weight() {
    let profile = FirefoxProfile::from_json(GUEST.as_bytes()).unwrap();
    let weighting = SampleWeighting::FixedInterval { interval_ns: 10 };
    let p = Builder::new(&profile, FuncTableResolver, weighting)
        .demangle_with(Verbatim)
        .mapping_filename("a.out")
        .build()
        .unwrap();
    assert_eq!(total(&p, 0), 5);
    assert_eq!(total(&p, 1), 50);
    assert_eq!(names(&p)[0], "_M0FP26mizchi5bench3fib");
    assert_eq!(p.string_table[p.mapping[0].filename as usize], "a.out");
}

#[test]
fn times_that_do_not_fit_are_an_error() {
    let profile = FirefoxProfile::from_json(GUEST.as_bytes()).unwrap();
    let weighting = SampleWeighting::FixedInterval { interval_ns: i64::MAX };
    let r = Builder::new(&profile, FuncTableResolver, weighting).build();
    assert!(matches!(r, Err(BuildError::Sample)));
    let weighting = SampleWeighting::PerSampleTimeDeltas { default_interval_ns: i64::MAX };
    let r = Builder::new(&profile, FuncTableResolver, weighting).build();
    assert!(matches!(r, Err(BuildError::Overflow)));
}

#[test]
fn missing_metadata_has_defaults() {
    let bare = GUEST.replace("\"meta\": { \"interval\": 2.0, \"startTime\": 1.5 },", "");
    let p = load_profile(&json_to_pprof(bare.as_bytes()).unwrap()).unwrap();
    assert_eq!(p.period, 1_000_000);
    assert_eq!(p.time_nanos, 0);
}

#[test]
fn binary_search_picks_enclosing_symbol() {
    let syms_json = r#"{
          "data": [
            {
              "debug_name": "main.exe",
              "symbol_table": [
                { "rva": 8192, "size": 128, "symbol": 1 },
                { "rva": 4096, "size": 64, "symbol": 2, "frames": [
                  { "function": 3, "file": 4, "line": 7 },
                  { "function": 5, "file": 4, "line": 12 }
                ] }
              ]
            }
          ],
          "string_table": ["", "outer_fn", "with_inline", "real_leaf", "src/m.rs", "wrapper"]
        }"#;
    let resolver = SamplySyms::load(syms_json.as_bytes()).unwrap().into_resolver();
    let frames = resolver.lookup("main.exe", 0x1010).expect("hit");
    assert_eq!(frames.len(), 2);
    assert_eq!(frames[0].name, "wrapper");
    assert_eq!(frames[0].line, 12);
    assert_eq!(frames[1].name, "real_leaf");
    assert_eq!(frames[1].line, 7);
    assert_eq!(frames[0].file, "src/m.rs");

    let frames = resolver.lookup("main.exe", 0x2010).expect("hit");
    assert_eq!(frames.len(), 1);
    assert_eq!(frames[0].name, "outer_fn");
    assert_eq!(frames[0].line, 0);

    assert!(resolver.lookup("main.exe", 0x3000).is_none());
    assert!(resolver.lookup("main.exe", 0x0).is_none());
}

#[test]
fn symbol_files_are_put_in_order() {
    let syms = SamplySyms::load(
        br#"{"data":[{"debug_name":"m","symbol_table":[{"rva":9,"size":1,"symbol":0},{"rva":3,"size":1,"symbol":1}]}],"string_table":["b","a"]}"#,
    )
    .unwrap();
    let starts: Vec<u64> = syms.data[0].symbol_table.iter().map(|s| s.rva).collect();
    assert_eq!(starts, vec![3, 9]);
    assert_eq!(SamplySyms::load(b"[").err().map(|e| e == ReadError::Json), Some(true));
    assert_eq!(SamplySyms::load(b"{}").err().map(|e| e == ReadError::Shape), Some(true));
}

#[test]
fn the_last_symbol_before_an_address_decides() {
    // In no order, with two symbols of one address and one that is covered by a later one.
    let syms = SamplySyms::load(
        br#"{"data":[{"debug_name":"m","symbol_table":[{"rva":20,"size":2,"symbol":3},{"rva":9,"size":5,"symbol":1},
        {"rva":0,"size":100,"symbol":0},{"rva":9,"size":4,"symbol":2}]}],"string_table":["a","b","c","d"]}"#,
    )
    .unwrap();
    let resolver = syms.into_resolver();
    let name = |rva: u64| resolver.lookup("m", rva).map(|f| f[0].name.clone());
    assert_eq!(name(8).as_deref(), Some("a"));
    assert_eq!(name(9).as_deref(), Some("c"));
    assert_eq!(name(12).as_deref(), Some("c"));
    // The first of the two would hold it, and so would the lowest.
    assert_eq!(name(13), None);
    assert_eq!(name(21).as_deref(), Some("d"));
    assert_eq!(name(22), None);
}

#[test]
fn names_samply_profiles() {
    let profile_json = r#"{
      "libs": [{ "name": "main", "debugName": "main.exe" }],
      "threads": [{
        "frameTable": { "length": 1, "func": [0], "address": [4100] },
        "funcTable": { "length": 1, "name": [0], "resource": [0] },
        "stackTable": { "length": 1, "prefix": [null], "frame": [0] },
        "samples": { "length": 1, "stack": [0] },
        "stringArray": ["0x1004"],
        "resourceTable": { "length": 1, "lib": [0] }
      }]
    }"#;
    let syms = br#"{"data":[{"debug_name":"main.exe","symbol_table":[{"rva":4096,"size":64,"symbol":1}]}],"string_table":["","_M0FP26mizchi5bench3fib"]}"#;
    let profile = FirefoxProfile::from_json(profile_json.as_bytes()).unwrap();
    let resolver = SamplySyms::load(syms).unwrap().into_resolver();
    let weighting = SampleWeighting::FixedInterval { interval_ns: 1000 };
    let p = Builder::new(&profile, resolver, weighting).build().unwrap();
    assert_eq!(names(&p), vec!["mizchi::bench::fib".to_string()]);
    assert_eq!(p.sample[0].value, vec![1, 1000]);
}

#[test]
fn the_source_decides_the_weights() {
    let profile = FirefoxProfile::from_json(GUEST.as_bytes()).unwrap();
    assert_eq!(weighting(Source::Samply, &profile), SampleWeighting::FixedInterval { interval_ns: 2_000_000 });
    assert_eq!(
        weighting(Source::WasmtimeGuest, &profile),
        SampleWeighting::PerSampleTimeDeltas { default_interval_ns: 2_000_000 }
    );
}

const TWO_LIBS: &str = r#"{
  "libs": [{ "name": "main", "debugName": "main.exe" }, { "name": "libc", "debugName": "libc.so" }],
  "threads": [{
    "frameTable": { "length": 2, "func": [0, 1], "address": [4100, 9000] },
    "funcTable": { "length": 2, "name": [0, 0], "resource": [0, 1] },
    "stackTable": { "length": 2, "prefix": [null, 0], "frame": [0, 1] },
    "samples": { "length": 1, "stack": [1] },
    "stringArray": ["0x1004"],
    "resourceTable": { "length": 2, "lib": [0, 1] }
  }]
}"#;

#[test]
fn each_module_has_its_mapping() {
    let syms = br#"{"data":[],"string_table":[""]}"#;
    let profile = FirefoxProfile::from_json(TWO_LIBS.as_bytes()).unwrap();
    let resolver = SamplySyms::load(syms).unwrap().into_resolver();
    let weighting = SampleWeighting::FixedInterval { interval_ns: 1000 };
    let p = Builder::new(&profile, resolver, weighting).build().unwrap();
    let mappings: Vec<(u64, &str)> =
        p.mapping.iter().map(|m| (m.id, p.string_table[m.filename as usize].as_str())).collect();
    assert_eq!(mappings, vec![(1, "main"), (2, "libc")]);
    let of: Vec<u64> = p.sample[0].location_id.iter().map(|id| p.location[*id as usize - 1].mapping_id).collect();
    assert_eq!(of, vec![2, 1]);
    assert_eq!(names(&p), vec!["libc+0x2328".to_string(), "main+0x1004".to_string()]);
}

#[test]
fn frames_of_other_files_are_other_locations() {
    // Two frames that differ in their file alone.
    let text = GUEST
        .replace("\"address\": [16, 32], \"line\": [null, 7]", "\"address\": [16, 16], \"line\": [7, 7]")
        .replace("\"name\": [0, 1], \"fileName\": [null, 2]", "\"name\": [0, 0], \"fileName\": [1, 2]");
    for bytes in [
        json_to_pprof(text.as_bytes()).unwrap(),
        convert(&FirefoxProfile::from_json(text.as_bytes()).unwrap()).unwrap(),
    ] {
        let p = load_profile(&bytes).unwrap();
        assert_eq!(p.location.len(), 2);
        assert_eq!(p.function.len(), 2);
        let mut files: Vec<&str> = p.function.iter().map(|f| p.string_table[f.filename as usize].as_str()).collect();
        files.sort();
        assert_eq!(files, vec!["_M0FP26mizchi5bench3fib", "fib.mbt"]);
    }
}

#[test]
fn a_weight_of_zero_counts_nothing() {
    let text = GUEST.replace("\"weight\": [1, 3, 1, 1]", "\"weight\": [0, 3, 0, 1]");
    let profile = FirefoxProfile::from_json(text.as_bytes()).unwrap();
    let weighting = SampleWeighting::FixedInterval { interval_ns: 10 };
    let p = Builder::new(&profile, FuncTableResolver, weighting).build().unwrap();
    assert_eq!(total(&p, 0), 3);
    assert_eq!(total(&p, 1), 30);
}

#[test]
fn milliseconds_become_nanoseconds() {
    for (ms, ns) in [
        ("0.1", 100_000),
        ("0.0000005", 1),
        ("0.0000004", 0),
        ("123456.789012345", 123_456_789_012),
        ("1e300", i64::MAX),
        ("9007199254740.993", 9_007_199_254_740_992_000),
    ] {
        let text = GUEST.replace("\"startTime\": 1.5", &format!("\"startTime\": {ms}"));
        let p = load_profile(&json_to_pprof(text.as_bytes()).unwrap()).unwrap();
        assert_eq!(p.time_nanos, ns, "{ms}");
        let x: f64 = ms.parse().unwrap();
        assert_eq!(p.time_nanos, (x * 1_000_000.0).round() as i64);
        assert_eq!(round_nanos(x.to_bits()), (x * 1_000_000.0).round() as i64);
        assert_eq!(cut_nanos((-x).to_bits()), (-x * 1_000_000.0) as i64);
    }
    assert_eq!(round_nanos(f64::NAN.to_bits()), 0);
    assert_eq!(round_nanos(f64::NEG_INFINITY.to_bits()), i64::MIN);
}

#[test]
fn differences_are_rounded_once() {
    let values = [
        0.0, -0.0, 0.1, 0.3, 2.5, 10.0, 1e16, 1e17, -3.75, 1e-300, 1.5e300, 9007199254740993.0, 4503599627370497.5,
        f64::INFINITY, f64::NEG_INFINITY, f64::NAN,
    ];
    for a in values {
        for b in values {
            let want = ((a - b).round() as i64).max(0);
            assert_eq!(round_difference(a.to_bits(), b.to_bits()), want, "{a} - {b}");
        }
    }
}
