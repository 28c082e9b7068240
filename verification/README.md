# moon-pprof

Profiles of MoonBit programs, converted, recorded and summarized as pprof.

The library in `src/` is verified with Verus: every function states what it returns, and
every statement is proved. `tests/` runs it on concrete inputs. The command line program in
`app/` reads and writes files, runs guests and builds, and prints.

## What the library does

| Area | Modules |
|---|---|
| Symbols | `demangle` |
| pprof profiles: protobuf bytes, gzip, tables | `proto`, `wire`, `codec`, `encode`, `decode`, `round_trip`, `gz`, `pool`, `tables`, `tally`, `frames`, `resolve`, `shown` |
| V8 profiles and Chrome traces | `v8`, `v8_json`, `cpuprofile`, `heapprofile`, `trace_events`, `chrome_trace`, `to_chrome_trace`, `trace_write`, `trace_round_trip`, `trace_kept`, `trace_order` |
| Firefox Profiler profiles: samply and wasmtime | `firefox_model`, `firefox_json`, `firefox`, `firefox_profile`, `resolver`, `samply`, `guest` |
| `perf script` text | `perf`, `perf_profile` |
| Folded stacks and Speedscope | `folded`, `folded_export`, `folded_round_trip`, `folded_import`, `speedscope`, `speedscope_json`, `speedscope_export`, `speedscope_round_trip` |
| Summaries and comparisons | `axis`, `pattern`, `summary`, `rank`, `report` |
| Allocations: instrumented WebAssembly and native binaries | `wasm`, `instrument`, `memprofile`, `native`, `relink`, `alloc_profile` |
| Hosting guests, command lines, benchmarks | `host`, `cli`, `bench` |
| Text, numbers, JSON | `text`, `num`, `float`, `double`, `mean`, `json`, `json_text`, `json_read` |

## How to read it

A function's `ensures` is stated over the views of its arguments. `*_profile` functions give
the whole pprof profile that a conversion produces. Public proof functions whose names start
with `law_` state what holds across functions: that a profile that is written is read back,
that conversions lose no sample and no time, that a trace made of a profile gives the profile
back.

Sums are exact. Where one does not fit in 64 bits, the function returns an error.

What the library believes without proof is marked `external_body` or
`assume_specification`, and its doc comment names the function of the outside crate that it
speaks of.
