use moon_pprof::bench::{
    build_args, median, ms_number, order_workloads, parse_ms, runner_of, split_list, swaps_mooncakes, MsError, Runner,
};
use moon_pprof::cli::{default_syms_path, normalize_argv};
use moon_pprof::gz::{read_maybe_gz, PayloadError};
use moon_pprof::host::{
    guest_millis, nwritten_at, string_append_char, EnvEntry, MoonbitStdioState, StringArrayReader, StringReader,
    ERRNO_BADF, ERRNO_INVAL,
};
use moon_pprof::relink::{
    expand_words, extract_compile_flags, find_cc_line_for_exe, is_cc_invocation, patch_moonbit_malloc, rebuild_cc_argv,
    shell_split, PatchError, Relink,
};

fn words(list: &[&str]) -> Vec<String> {
    list.iter().map(|s| s.to_string()).collect()
}

#[test]
fn long_options_get_two_dashes() {
    let once = normalize_argv(words(&["moon-pprof", "bench", "-runs", "3", "-h", "--out=x", "-build=false", "-", "-\u{e9}"]));
    assert_eq!(
        once,
        words(&["moon-pprof", "bench", "--runs", "3", "-h", "--out=x", "--build=false", "-", "--\u{e9}"])
    );
    assert_eq!(normalize_argv(once.clone()), once);
}

#[test]
fn symbols_are_beside_the_profile() {
    assert_eq!(default_syms_path("a/profile.json.gz"), "a/profile.json.syms.json");
    assert_eq!(default_syms_path("profile.json"), "profile.json.syms.json");
}

#[test]
fn payloads_may_be_compressed() {
    assert_eq!(read_maybe_gz(false, vec![1, 2]).ok(), Some(vec![1, 2]));
    assert_eq!(read_maybe_gz(true, vec![1, 2]).err(), Some(PayloadError::Gunzip));
}

#[test]
fn splits_commands() {
    assert_eq!(
        shell_split("cc -I'$MOON_HOME/inc lude' '' a.c"),
        Some(words(&["cc", "-I$MOON_HOME/inc lude", "a.c"]))
    );
    assert_eq!(shell_split("'two words'"), Some(words(&["two words"])));
    assert_eq!(shell_split("cc 'open"), None);
    assert_eq!(shell_split("  "), Some(words(&[])));
}

#[test]
fn finds_the_compiler_command() {
    let text = "moonc link -o main.exe\n  /usr/bin/cc -o build/main.exe main.c  \r\ncc -o other.exe o.c\n";
    assert_eq!(
        find_cc_line_for_exe(text, "main.exe"),
        Some("/usr/bin/cc -o build/main.exe main.c".to_string())
    );
    assert_eq!(find_cc_line_for_exe(text, "none.exe"), None);
    let chars: Vec<char> = "/opt/clang x".chars().collect();
    assert!(is_cc_invocation(&chars));
    let chars: Vec<char> = "ccache x".chars().collect();
    assert!(!is_cc_invocation(&chars));
}

#[test]
fn puts_directories_in() {
    assert_eq!(
        expand_words(&words(&["$MOON_HOME/lib", "$MOON_TOOLCHAIN_ROOT/a$MOON_HOME"]), "/t", "/h"),
        words(&["/h/lib", "/t/a/h"])
    );
}

#[test]
fn picks_compile_flags() {
    let argv = words(&["cc", "-O2", "-o", "main.exe", "-c", "main.c", "-lm", "-L/lib", "-Iinc", "rt.o", "-g"]);
    assert_eq!(extract_compile_flags(&argv), words(&["-O2", "-Iinc", "-g"]));
    assert_eq!(extract_compile_flags(&words(&[])), words(&[]));
    assert_eq!(extract_compile_flags(&words(&["cc", "-g", "-o"])), words(&["-g"]));
    let argv = words(&["cc", "-O2", "-Iinc", "-rdynamic", "-o", "main.exe", "main.c", "-lm"]);
    assert_eq!(extract_compile_flags(&argv), words(&["-O2", "-Iinc"]));
    let argv = words(&["cc", "-Wall", "-Wl,-z,now", "-Xlinker", "-map", "-fPIC", "-pie"]);
    assert_eq!(extract_compile_flags(&argv), words(&["-Wall", "-fPIC"]));
}

#[test]
fn rebuilds_the_compiler_command() {
    let files = Relink {
        original_c: "/p/main.c".to_string(),
        original_c_name: "main.c".to_string(),
        patched_c: "/p/main.memprof.c".to_string(),
        original_exe: "/p/main.exe".to_string(),
        original_exe_name: "main.exe".to_string(),
        memprof_exe: "/p/main.memprof.exe".to_string(),
        hook_o: "/p/hook.o".to_string(),
    };
    let argv = words(&["cc", "-o", "build/main.exe", "build/main.c", "rt.c"]);
    assert_eq!(
        rebuild_cc_argv(&argv, &files, false),
        Some(words(&["cc", "-o", "/p/main.memprof.exe", "/p/main.memprof.c", "rt.c", "/p/hook.o"]))
    );
    let elf = rebuild_cc_argv(&argv, &files, true).unwrap();
    assert_eq!(elf[elf.len() - 3..], words(&["-rdynamic", "-ldl", "-lpthread"]));
    assert_eq!(rebuild_cc_argv(&words(&["cc", "-o"]), &files, true), None);
    let argv = words(&["cc", "-o", "main.exe", "main.c", "/p/domain.c", "undomain.exe"]);
    assert_eq!(
        rebuild_cc_argv(&argv, &files, false),
        Some(words(&["cc", "-o", "/p/main.memprof.exe", "/p/main.memprof.c", "/p/domain.c", "undomain.exe", "/p/hook.o"]))
    );
}

#[test]
fn patches_the_allocator() {
    let src = "int a;\nstatic void *moonbit_malloc_inlined(size_t size) {\n  if (size) { size = 1; }\n  return 0;\n}\nint b;\n";
    let out = patch_moonbit_malloc(src).unwrap();
    assert!(out.starts_with("int a;\nstatic void *moonbit_malloc_inlined(size_t size) {\n  extern void __moon_pprof_alloc_hook(size_t);\n"));
    assert!(out.ends_with("  return ptr + 1;\n}\nint b;\n"));
    assert!(!out.contains("return 0;"));
    assert_eq!(patch_moonbit_malloc("int a;").err(), Some(PatchError::NoMalloc));
    assert_eq!(
        patch_moonbit_malloc("static void *moonbit_malloc_inlined(size_t size) { {").err(),
        Some(PatchError::Unbalanced)
    );
}

#[test]
fn backends_and_workloads() {
    assert_eq!(runner_of("wasm", false), Some(Runner::Wasm));
    assert_eq!(runner_of("wasm-gc", false), Some(Runner::WasmGc));
    assert_eq!(runner_of("wasm-gc", true), Some(Runner::WasmGcV8));
    assert_eq!(runner_of("jvm", true), None);
    assert_eq!(
        Runner::Native.program("fib"),
        words(&["_build", "native", "release", "build", "cmd", "fib", "fib.exe"])
    );
    assert_eq!(build_args("js", "fib"), words(&["build", "--release", "--target=js", "cmd/fib"]));
    assert_eq!(
        build_args("wasm-gc", "fib"),
        words(&["build", "--release", "--no-strip", "--target=wasm-gc", "cmd/fib"])
    );
    assert_eq!(split_list(" a, b ,,c"), words(&["a", "b", "", "c"]));
    assert_eq!(order_workloads(words(&["zeta", "main", "alpha", "beta"])), words(&["alpha", "beta", "zeta"]));
    assert_eq!(swaps_mooncakes("", ""), Some(false));
    assert_eq!(swaps_mooncakes("a", ""), None);
    assert_eq!(swaps_mooncakes("a", "b"), Some(true));
}

#[test]
fn reads_times() {
    assert_eq!(parse_ms("1 iter in 12.50ms (no profile)").map(f64::from_bits), Ok(12.5));
    assert_eq!(parse_ms("took 7 ms and 9 ms").map(f64::from_bits), Ok(7.0));
    assert_eq!(parse_ms("took 3 s").err(), Some(MsError::Missing));
    assert_eq!(ms_number(Some("x".to_string())).err(), Some(MsError::Number));
    assert_eq!(ms_number(None).err(), Some(MsError::Missing));
    let times: Vec<u64> = [3.5f64, 0.25, 100.0, 7.0].iter().map(|x| x.to_bits()).collect();
    assert_eq!(f64::from_bits(median(&times)), 7.0);
}

#[test]
fn output_comes_in_lines() {
    let mut s = MoonbitStdioState::default();
    assert_eq!(s.print_char('h' as i32), None);
    assert_eq!(s.print_char('i' as i32), None);
    assert_eq!(s.print_char(10), Some(vec!['h' as u16, 'i' as u16]));
    assert!(s.line_utf16.is_empty());

    // Two entries: four bytes at 16, and two at 20.
    let mut memory = vec![0u8; 32];
    memory[0..4].copy_from_slice(&16u32.to_le_bytes());
    memory[4..8].copy_from_slice(&4u32.to_le_bytes());
    memory[8..12].copy_from_slice(&20u32.to_le_bytes());
    memory[12..16].copy_from_slice(&2u32.to_le_bytes());
    memory[16..22].copy_from_slice(b"ab\nc\nd");
    let w = s.fd_write(&memory, 0, 2).unwrap();
    assert_eq!(w.total, 6);
    assert_eq!(w.lines, vec![b"ab".to_vec(), b"c".to_vec()]);
    assert_eq!(s.stdout_bytes, b"d".to_vec());
    let w = s.fd_write(&memory, 8, 1).unwrap();
    assert_eq!(w.lines, vec![b"d".to_vec()]);
    assert_eq!(s.stdout_bytes, b"d".to_vec());

    assert_eq!(s.fd_write(&memory, 28, 1).err(), Some(ERRNO_INVAL));
    assert_eq!(s.fd_write(&memory, -8, 1).err(), Some(ERRNO_INVAL));
    assert_eq!(s.fd_write(&memory, 0, -1).err(), Some(ERRNO_INVAL));
    memory[4..8].copy_from_slice(&17u32.to_le_bytes());
    assert_eq!(s.fd_write(&memory, 0, 1).err(), Some(ERRNO_INVAL));
    assert_eq!(ERRNO_BADF, 8);
    assert_eq!(nwritten_at(28, 32), Some(28));
    assert_eq!(nwritten_at(29, 32), None);
    assert_eq!(nwritten_at(-4, 32), None);
}

#[test]
fn strings_go_over_in_code_units() {
    let mut w = String::new();
    string_append_char(&mut w, 'z' as i32);
    string_append_char(&mut w, 0x1_0041);
    string_append_char(&mut w, 0xd800);
    string_append_char(&mut w, -1);
    assert_eq!(w, "zA\u{fffd}\u{ffff}");
    let mut r = StringReader::new("a\u{1f600}");
    assert_eq!(r.read_char(), 'a' as i32);
    assert_eq!(r.read_char(), 0xd83d);
    assert_eq!(r.read_char(), 0xde00);
    assert_eq!(r.read_char(), -1);
    assert_eq!(r.read_char(), -1);
    let mut a = StringArrayReader { values: words(&["alpha"]), pos: 0 };
    assert_eq!(a.read_string(), "alpha");
    assert_eq!(a.read_string(), "ffi_end_of_/string_array");
}

#[test]
fn a_guest_has_its_own_environment() {
    let mut s = MoonbitStdioState::default();
    let outside = |v: &str| Some(v.to_string());
    assert_eq!(s.guest_env_var("A", outside("1")), outside("1"));
    s.set_env_var("B".to_string(), "2".to_string());
    s.unset_env_var("A".to_string());
    s.set_env_var("B".to_string(), "3".to_string());
    assert_eq!(s.guest_env_var("A", outside("1")), None);
    assert_eq!(s.guest_env_var("B", None), outside("3"));
    let host = vec![
        EnvEntry { key: "C".to_string(), value: outside("c") },
        EnvEntry { key: "A".to_string(), value: outside("a") },
    ];
    let listed = s.guest_env_vars(host);
    assert_eq!(listed, words(&["B", "3", "C", "c"]));
    for (key, host) in [("A", outside("a")), ("B", None), ("C", outside("c")), ("D", None)] {
        let at = listed.chunks(2).find(|pair| pair[0] == key).map(|pair| pair[1].clone());
        assert_eq!(s.guest_env_var(key, host), at);
    }
    assert_eq!(guest_millis(5), 5);
    assert_eq!(guest_millis(u128::MAX), i64::MAX);
}
