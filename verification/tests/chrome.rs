use moon_pprof::chrome_trace::{convert, extract_profiles, ConvertOptions, ExtractedProfileInfo, TraceError};
use moon_pprof::gz::load_profile;

const TRACE_WITH_PARENT_LINKS: &str = r#"{
      "traceEvents": [
        {
          "pid": 7,
          "tid": 11,
          "ts": 1000,
          "ph": "P",
          "cat": "disabled-by-default-v8.cpu_profiler",
          "name": "Profile",
          "id": "0x1",
          "args": { "data": { "startTime": 1000 } }
        },
        {
          "pid": 7,
          "tid": 11,
          "ts": 1000,
          "ph": "P",
          "cat": "disabled-by-default-v8.cpu_profiler",
          "name": "ProfileChunk",
          "id": "0x1",
          "args": {
            "data": {
              "cpuProfile": {
                "nodes": [
                  {
                    "id": 1,
                    "callFrame": {
                      "functionName": "(root)",
                      "scriptId": "0",
                      "url": "",
                      "lineNumber": -1,
                      "columnNumber": -1
                    }
                  },
                  {
                    "id": 2,
                    "parent": 1,
                    "callFrame": {
                      "functionName": "hot",
                      "scriptId": "1",
                      "url": "file:///main.js",
                      "lineNumber": 4,
                      "columnNumber": 0
                    }
                  },
                  {
                    "id": 3,
                    "parent": 2,
                    "callFrame": {
                      "functionName": "leaf",
                      "scriptId": "1",
                      "url": "file:///main.js",
                      "lineNumber": 8,
                      "columnNumber": 0
                    }
                  }
                ]
              },
              "samples": [3, 3, 2],
              "timeDeltas": [1000, 1500, 500]
            }
          }
        }
      ]
    }"#;

const TRACE_ARRAY: &str = r#"[
      {
        "pid": 1,
        "tid": 2,
        "ts": 10,
        "name": "ProfileChunk",
        "id": "inline",
        "args": {
          "data": {
            "cpuProfile": {
              "nodes": [
                {
                  "id": 1,
                  "callFrame": {
                    "functionName": "(root)",
                    "scriptId": "0",
                    "url": "",
                    "lineNumber": -1,
                    "columnNumber": -1
                  },
                  "children": [2]
                },
                {
                  "id": 2,
                  "callFrame": {
                    "functionName": "work",
                    "scriptId": "1",
                    "url": "file:///work.js",
                    "lineNumber": 0,
                    "columnNumber": 0
                  }
                }
              ],
              "samples": [2],
              "timeDeltas": [250]
            }
          }
        }
      }
    ]"#;

#[test]
fn extracts_profile_streams_from_trace_object() {
    let profiles = extract_profiles(TRACE_WITH_PARENT_LINKS).unwrap();
    assert_eq!(
        profiles,
        vec![ExtractedProfileInfo { key: "pid=7/tid=11/id=0x1".to_string(), nodes: 3, samples: 3 }]
    );
}

#[test]
fn converts_profile_chunks_to_pprof() {
    let out = convert(TRACE_WITH_PARENT_LINKS, &ConvertOptions::default()).unwrap();
    assert_eq!(out.profiles.len(), 1);
    assert_eq!(out.stats.samples, 2);
    assert_eq!(out.stats.locations, 3);

    let profile = load_profile(&out.encoded).unwrap();
    assert_eq!(profile.sample.len(), 2);
    let total_count: i64 = profile.sample.iter().map(|s| s.value[0]).sum();
    assert_eq!(total_count, 3);
    let total_ns: i64 = profile.sample.iter().map(|s| s.value[1]).sum();
    assert_eq!(total_ns, 3_000_000);

    let names: Vec<&str> =
        profile.function.iter().map(|f| profile.string_table[f.name as usize].as_str()).collect();
    assert!(names.contains(&"hot"));
    assert!(names.contains(&"leaf"));
}

#[test]
fn accepts_top_level_trace_event_arrays_and_nested_samples() {
    let profiles = extract_profiles(TRACE_ARRAY).unwrap();
    assert_eq!(profiles[0].nodes, 2);
    assert_eq!(profiles[0].samples, 1);

    let out = convert(TRACE_ARRAY, &ConvertOptions::default()).unwrap();
    let profile = load_profile(&out.encoded).unwrap();
    assert_eq!(profile.sample.len(), 1);
    assert_eq!(profile.sample[0].value, vec![1, 250_000]);
}

#[test]
fn trace_errors() {
    let opts = ConvertOptions::default();
    assert_eq!(convert("{", &opts).err(), Some(TraceError::Json));
    assert_eq!(convert("3", &opts).err(), Some(TraceError::Shape));
    assert_eq!(convert("[]", &opts).err(), Some(TraceError::NoProfile));
    let second = ConvertOptions { profile_index: 1, ..ConvertOptions::default() };
    assert_eq!(
        convert(TRACE_ARRAY, &second).err(),
        Some(TraceError::ProfileIndex { index: 1, profiles: 1 })
    );
}

#[test]
fn profiles_are_known_by_number_too() {
    let text = TRACE_ARRAY.replace("\"inline\"", "5");
    assert_eq!(extract_profiles(&text).unwrap()[0].key, "pid=1/tid=2/id=5");
}

// Events of two profiles. The pieces of the first one come in two.
fn events() -> Vec<String> {
    let piece = |pid: u32, ts: u32, id: u32, samples: &str| {
        format!(
            r#"{{"name":"ProfileChunk","pid":{pid},"tid":1,"ts":{ts},"id":"x","args":{{"data":{{"cpuProfile":{{"nodes":[
            {{"id":1,"callFrame":{{"functionName":"(root)","scriptId":"0","url":"","lineNumber":-1,"columnNumber":-1}}}},
            {{"id":{id},"parent":1,"callFrame":{{"functionName":"f","scriptId":"0","url":"","lineNumber":0,"columnNumber":0}}}}
            ],"samples":{samples}}},"timeDeltas":[]}}}}}}"#
        )
    };
    vec![piece(2, 20, 3, "[3]"), piece(1, 5, 2, "[2,2]"), piece(2, 10, 2, "[2,1,2]")]
}

#[test]
fn the_order_of_events_does_not_change_the_list() {
    let e = events();
    let want = extract_profiles(&format!("[{}]", e.join(","))).unwrap();
    let listed: Vec<(&str, usize, usize)> =
        want.iter().map(|i| (i.key.as_str(), i.nodes, i.samples)).collect();
    assert_eq!(listed, vec![("pid=1/tid=1/id=x", 2, 2), ("pid=2/tid=1/id=x", 3, 4)]);
    for order in [[0, 2, 1], [1, 0, 2], [1, 2, 0], [2, 0, 1], [2, 1, 0]] {
        let list: Vec<&str> = order.iter().map(|i| e[*i].as_str()).collect();
        assert_eq!(extract_profiles(&format!("[{}]", list.join(","))).unwrap(), want);
    }
}

#[test]
fn the_list_comes_with_every_conversion() {
    let text = format!("[{}]", events().join(","));
    let want = extract_profiles(&text).unwrap();
    for index in 0..4 {
        let opts = ConvertOptions {
            profile_index: index,
            no_demangle: true,
            default_sample_delta_us: 7,
            ..ConvertOptions::default()
        };
        match convert(&text, &opts) {
            Ok(out) => {
                assert!(index < 2);
                assert_eq!(out.profiles, want);
            }
            Err(e) => assert_eq!(e, TraceError::ProfileIndex { index, profiles: 2 }),
        }
    }
}

#[test]
fn events_name_their_fields_once() {
    let event = |more: &str| {
        format!(
            r#"[{{"name":"ProfileChunk","pid":1,"tid":2,"args":{{"data":{{"samples":[9],"samples":[1],
            "cpuProfile":{{"nodes":[{{"id":1,"callFrame":{{}}}}]}}}}}}{more}}}]"#
        )
    };
    // Of what stands in the arguments the last one counts.
    assert_eq!(extract_profiles(&event("")).unwrap()[0].samples, 1);
    assert!(extract_profiles(&event(r#","cat":1,"cat":2"#)).is_ok());
    assert_eq!(extract_profiles(&event(r#","pid":1"#)).err(), Some(TraceError::Shape));
    // All of a trace is read.
    assert_eq!(extract_profiles(&event(r#","cat":1e999"#)).err(), Some(TraceError::Shape));
    assert_eq!(extract_profiles(r#"{"traceEvents":[],"traceEvents":[]}"#).err(), Some(TraceError::Shape));
}
