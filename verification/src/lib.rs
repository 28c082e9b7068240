use vstd::prelude::*;

pub mod alloc_profile;
pub mod alloc_stacks;
pub mod assembled;
pub mod axis;
pub mod bench;
pub mod captured;
pub mod choices;
pub mod chrome_trace;
pub mod cli;
pub mod codec;
pub mod cpu_stacks;
pub mod cpuprofile;
pub mod decode;
pub mod demangle;
pub mod details;
pub mod double;
pub mod encode;
pub mod firefox;
pub mod firefox_json;
pub mod firefox_model;
pub mod firefox_profile;
pub mod firefox_stacks;
pub mod float;
pub mod folded;
pub mod folded_export;
pub mod folded_import;
pub mod folded_round_trip;
pub mod frames;
pub mod guest;
pub mod gz;
pub mod headings;
pub mod heap_stacks;
pub mod heapprofile;
pub mod host;
pub mod instrument;
pub mod json;
pub mod json_read;
pub mod json_text;
pub mod leads;
pub mod listing;
pub mod mangling;
pub mod mean;
pub mod members;
pub mod memprofile;
pub mod native;
pub mod num;
pub mod numbers;
pub mod pattern;
pub mod perf;
pub mod perf_profile;
pub mod pool;
pub mod printed;
pub mod proto;
pub mod rank;
pub mod relink;
pub mod relinking;
pub mod report;
pub mod reported;
pub mod resolve;
pub mod resolver;
pub mod round_trip;
pub mod samply;
pub mod shown;
pub mod shown_stacks;
pub mod sited;
pub mod speedscope;
pub mod speedscope_export;
pub mod speedscope_json;
pub mod speedscope_round_trip;
pub mod stream;
pub mod summary;
pub mod summed;
pub mod tables;
pub mod tally;
pub mod text;
pub mod to_chrome_trace;
pub mod trace_events;
pub mod trace_kept;
pub mod trace_order;
pub mod trace_round_trip;
pub mod trace_write;
pub mod traced_stacks;
pub mod v8;
pub mod v8_json;
pub mod wasm;
pub mod weighings;
pub mod wire;
