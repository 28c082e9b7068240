use moon_pprof::demangle::{demangle, symbol};

#[test]
fn lib_user_function() {
    assert_eq!(demangle("_M0FP26mizchi5bench9ackermann"), "mizchi::bench::ackermann");
}

#[test]
fn lib_double_underscore_in_name() {
    assert_eq!(demangle("_M0FP26mizchi5bench11mandel__sum"), "mizchi::bench::mandel__sum");
}

#[test]
fn lib_macho_underscore() {
    assert_eq!(demangle("__M0FP26mizchi5bench3fib"), "mizchi::bench::fib");
}

#[test]
fn lib_samply_inline_form() {
    assert_eq!(demangle("M0FP26mizchi5bench9ackermann"), "mizchi::bench::ackermann");
}

#[test]
fn lib_generic_suffix_dropped() {
    assert_eq!(demangle("_M0FPB7printlnGsE"), "println");
}

#[test]
fn lib_non_mangled_passthrough() {
    assert_eq!(demangle("main"), "main");
    assert_eq!(demangle(""), "");
    assert_eq!(demangle("printc"), "printc");
}

#[test]
fn malformed_does_not_loop() {
    assert_eq!(demangle("_M0FPXXXXX"), "_M0FPXXXXX");
}

#[test]
fn demangle_user_function() {
    assert_eq!(symbol("_M0FP26mizchi5bench9ackermann"), "mizchi::bench::ackermann");
}

#[test]
fn demangle_double_underscore_in_name() {
    assert_eq!(symbol("_M0FP26mizchi5bench11mandel__sum"), "mizchi::bench::mandel__sum");
}

#[test]
fn demangle_macho_underscore() {
    assert_eq!(symbol("__M0FP26mizchi5bench3fib"), "mizchi::bench::fib");
}

#[test]
fn demangle_samply_inline_form() {
    assert_eq!(symbol("M0FP26mizchi5bench9ackermann"), "mizchi::bench::ackermann");
}

#[test]
fn demangle_generic_suffix_dropped() {
    assert_eq!(symbol("_M0FPB7printlnGsE"), "println");
}

#[test]
fn demangle_non_mangled_passthrough() {
    assert_eq!(symbol("main"), "main");
    assert_eq!(symbol(""), "");
    assert_eq!(symbol("printc"), "printc");
}

#[test]
fn a_leading_underscore_makes_no_difference() {
    assert_eq!(demangle("_M0FP26mizchi5bench3fib"), demangle("__M0FP26mizchi5bench3fib"));
}
