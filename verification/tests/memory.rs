use moon_pprof::alloc_profile::AllocError;
use moon_pprof::gz::load_profile;
use moon_pprof::instrument::{instrument, InstrumentError, InstrumentReport};
use moon_pprof::memprofile::{AllocRecorder, FrameKey};
use moon_pprof::native;
use moon_pprof::native::{is_internal_frame, parse_raw_stream, Allocation};
use moon_pprof::proto::Profile;

fn extract_body<'a>(printed: &'a str, func_marker: &str) -> &'a str {
    let start = printed.find(func_marker).expect("function marker not found in printed wasm");
    let after = &printed[start..];
    let end = after.find("\n  )").unwrap_or(after.len());
    &after[..end]
}

#[test]
fn instrument_inserts_call_at_moonbit_malloc_head() {
    let wat = r#"
            (module
              (func (export "_start"))
              (func $moonbit.malloc (param $n i32) (result i32)
                local.get $n))
        "#;
    let wasm = wat::parse_str(wat).unwrap();
    let (out, report) = instrument(&wasm).unwrap();
    assert!(report.moonbit_malloc_wrapped);
    let printed = wasmprinter::print_bytes(&out).unwrap();
    println!("instrumented wasm:\n{}", printed);
    assert!(printed.contains(r#"(import "moonbit_profile" "alloc_hook""#));
    let body = extract_body(&printed, "$moonbit.malloc");
    assert!(
        body.contains("call ") && body.lines().any(|l| l.trim_start().starts_with("call ")),
        "no call instruction in instrumented body:\n{body}"
    );
}

#[test]
fn instruments_gc_allocations() {
    let wat = r#"
        (module
          (type $point (struct (field i8) (field i64)))
          (type $row (array (mut i32)))
          (func (export "_start")
            (block
              i32.const 1
              i64.const 2
              struct.new $point
              drop)
            i32.const 0
            i32.const 5
            array.new $row
            drop
            i32.const 1
            i32.const 2
            array.new_fixed $row 2
            drop))
    "#;
    let wasm = wat::parse_str(wat).unwrap();
    let (out, report) = instrument(&wasm).unwrap();
    assert_eq!(report, InstrumentReport { moonbit_malloc_wrapped: false, gc_alloc_sites: 3 });
    let printed = wasmprinter::print_bytes(&out).unwrap();
    let ops: Vec<&str> = printed.lines().map(str::trim).collect();
    let at = |op: &str| ops.iter().position(|l| l.starts_with(op)).unwrap();
    // A struct of one byte and eight.
    let s = at("struct.new");
    assert_eq!(ops[s - 2], "i32.const 9");
    assert!(ops[s - 1].starts_with("call "));
    // Four bytes for each element, of which the number is on the stack.
    let a = at("array.new ");
    assert!(ops[a - 6].starts_with("local.set"));
    assert_eq!(ops[a - 5], "i32.const 4");
    assert!(ops[a - 4].starts_with("local.get"));
    assert_eq!(ops[a - 3], "i32.mul");
    assert!(ops[a - 2].starts_with("call "));
    assert!(ops[a - 1].starts_with("local.get"));
    // Two elements.
    let f = at("array.new_fixed");
    assert_eq!(ops[f - 2], "i32.const 8");
}

#[test]
fn allocations_without_a_size_are_not_counted() {
    let wat = r#"
        (module
          (type $nothing (struct))
          (type $point (struct (field i32)))
          (func (export "_start")
            struct.new $nothing
            drop
            struct.new_default $point
            drop))
    "#;
    let (_, report) = instrument(&wat::parse_str(wat).unwrap()).unwrap();
    assert_eq!(report.gc_alloc_sites, 1);
    let empty = wat::parse_str("(module (type $nothing (struct)) (func struct.new $nothing drop))").unwrap();
    assert_eq!(instrument(&empty).err(), Some(InstrumentError::NoSites));
}

#[test]
fn instruments_inside_exception_handlers() {
    let wat = r#"
        (module
          (type $point (struct (field i32)))
          (tag $oops)
          (func (export "_start")
            (block $handled
              (try_table (catch_all $handled)
                struct.new_default $point
                drop))))
    "#;
    let (out, report) = instrument(&wat::parse_str(wat).unwrap()).unwrap();
    assert_eq!(report.gc_alloc_sites, 1);
    let printed = wasmprinter::print_bytes(&out).unwrap();
    let ops: Vec<&str> = printed.lines().map(str::trim).collect();
    let s = ops.iter().position(|l| l.starts_with("struct.new_default")).unwrap();
    assert_eq!(ops[s - 2], "i32.const 4");
}

#[test]
fn instrument_errors() {
    assert_eq!(instrument(b"nothing").err(), Some(InstrumentError::Read));
    let plain = wat::parse_str("(module (func (export \"_start\")))").unwrap();
    assert_eq!(instrument(&plain).err(), Some(InstrumentError::NoSites));
    let imported = wat::parse_str("(module (import \"a\" \"b\" (func $moonbit.malloc (param i32))))").unwrap();
    assert_eq!(instrument(&imported).err(), Some(InstrumentError::Malloc));
    let bare = wat::parse_str("(module (func $moonbit.malloc))").unwrap();
    assert_eq!(instrument(&bare).err(), Some(InstrumentError::Malloc));
}

fn frames(list: &[(u32, Option<&str>)]) -> Vec<FrameKey> {
    list.iter().map(|(i, n)| FrameKey { func_index: *i, name: n.map(|s| s.to_string()) }).collect()
}

fn names(p: &Profile) -> Vec<String> {
    p.function.iter().map(|f| p.string_table[f.name as usize].clone()).collect()
}

#[test]
fn records_allocations() {
    let mut r = AllocRecorder::new(1);
    assert!(!r.wants(0));
    assert!(!r.wants(-5));
    assert!(r.wants(16));
    assert!(r.record(frames(&[(3, Some("_M0FP26mizchi5bench3fib")), (1, None)]), 16));
    assert!(r.wants(8));
    assert!(r.record(frames(&[(3, Some("_M0FP26mizchi5bench3fib")), (1, None)]), 8));
    assert!(r.record(frames(&[]), 99));
    assert!(r.record(frames(&[(1, None)]), 4));
    let p = load_profile(&r.encode_pprof(false).unwrap()).unwrap();
    assert_eq!(p.sample.len(), 2);
    assert_eq!(p.sample[0].value, vec![2, 24]);
    assert_eq!(p.sample[0].location_id, vec![1, 2]);
    assert_eq!(p.sample[1].value, vec![1, 4]);
    assert_eq!(names(&p), vec!["mizchi::bench::fib".to_string(), "func[1]".to_string()]);
    assert_eq!(p.string_table[p.drop_frames as usize], "^moonbit\\.(gc\\.)?malloc$");
    assert_eq!(p.string_table[p.default_sample_type as usize], "alloc_space");
}

#[test]
fn samples_one_allocation_of_several() {
    let mut r = AllocRecorder::new(3);
    let taken: Vec<bool> = (0..7).map(|_| r.wants(10)).collect();
    assert_eq!(taken, vec![true, false, false, true, false, false, true]);
    r.record(frames(&[(1, Some("f"))]), 10);
    let p = load_profile(&r.encode_pprof(true).unwrap()).unwrap();
    assert_eq!(p.sample[0].value, vec![3, 30]);
}

fn raw_record(size: u64, names: &[&[u8]]) -> Vec<u8> {
    let mut b = size.to_le_bytes().to_vec();
    b.push(names.len() as u8);
    for n in names {
        b.extend_from_slice(&(n.len() as u16).to_le_bytes());
        b.extend_from_slice(n);
    }
    b
}

#[test]
fn reads_a_raw_stream() {
    let mut b = raw_record(40, &[b"__moon_pprof_alloc_hook", b"_moonbit_malloc", b"work", b"main"]);
    b.extend(raw_record(2, &[b"malloc"]));
    b.extend(raw_record(7, &[b"work", b"\xff"]));
    let whole = b.len();
    b.extend(&raw_record(9, &[b"cut off"])[..12]);
    let records = parse_raw_stream(&b);
    assert_eq!(records.len(), 3);
    assert_eq!(records[0].size, 40);
    assert_eq!(records[0].frames[3], "main");
    assert_eq!(records[2].frames[1], "<bad utf8>");
    assert_eq!(parse_raw_stream(&b[..whole]).len(), 3);
    assert_eq!(parse_raw_stream(&b[..whole - 1]).len(), 2);

    let p = load_profile(&native::encode_pprof(&records, 2, false).unwrap()).unwrap();
    assert_eq!(p.sample.len(), 2);
    assert_eq!(p.sample[0].value, vec![2, 80]);
    assert_eq!(p.sample[1].value, vec![2, 14]);
    assert_eq!(names(&p), vec!["work".to_string(), "main".to_string(), "<bad utf8>".to_string()]);
}

#[test]
fn allocator_frames_are_internal() {
    for n in ["malloc", "_calloc", "__realloc", "moonbit_malloc_array", "moonbit_make_bytes", "mi_free", "mpprof_init"] {
        assert!(is_internal_frame(n), "{n}");
    }
    for n in ["main", "mallocate", "moonbit_main", "mpprof_other", ""] {
        assert!(!is_internal_frame(n), "{n}");
    }
}

#[test]
fn bytes_beyond_64_bits_are_refused() {
    let records = vec![
        Allocation { size: i64::MAX as u64, frames: vec!["f".to_string()] },
        Allocation { size: 1, frames: vec!["f".to_string()] },
    ];
    assert_eq!(native::encode_pprof(&records, 1, false).err(), Some(AllocError::Overflow));
    assert!(native::encode_pprof(&records[..1].iter().map(|a| Allocation { size: a.size, frames: a.frames.clone() }).collect(), 1, false).is_ok());
}
