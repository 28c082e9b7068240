//! Profiles recorded by wasmtime's guest profiler.
use vstd::prelude::*;
use crate::codec::profile_bytes;
use crate::demangle::MoonBit;
use crate::firefox::{threads_error, BuildError};
use crate::firefox_json::{is_profile, profile_matches};
use crate::json_text::bytes_json;
use crate::firefox_model::{FirefoxProfile, Millis, Thread};
use crate::firefox_profile::{
    build_profile, encoded, firefox_profile, first_lib, first_lib_name, Builder,
};
use crate::double::{cut_nanos, nearest_nanos, round_nanos, whole_nanos};
use crate::float::{is_one_or_more, is_positive};
use crate::gz::{compress_profile, gzipped, loaded, LoadError};
use crate::proto::{texts, Profile, ProfileView};
use crate::resolver::{
    count_of_sample, sample_count, sample_stack, stack_of_sample, FuncTableResolver, ResolvedSample,
    SampleResolver, SampleWeighting,
};
use crate::tables::profile_ok;
use crate::v8_json::ReadError;

verus! {

/// Why a recorded profile cannot be converted.
#[derive(Clone, Copy, Debug, PartialEq, Eq, Structural)]
pub enum GuestError {
    /// The profile cannot be read.
    Read(ReadError),
    /// The profile cannot be converted.
    Build(BuildError),
}

/// The time that stands in for a missing time delta: the sampling interval, at least one
/// millisecond, cut to whole nanoseconds.
pub open spec fn default_delta(m: Millis) -> i64 {
    if is_one_or_more(m.bits) {
        whole_nanos(m.bits)
    } else {
        1_000_000
    }
}

fn delta_of(m: Millis) -> (r: i64)
    ensures
        r == default_delta(m),
{
    if 0x3ff0_0000_0000_0000 <= m.bits && m.bits <= 0x7ff0_0000_0000_0000 {
        cut_nanos(m.bits)
    } else {
        1_000_000
    }
}

/// How the samples of a recorded profile are weighed.
pub open spec fn guest_weighting(p: FirefoxProfile) -> SampleWeighting {
    SampleWeighting::PerSampleTimeDeltas { default_interval_ns: default_delta(p.meta.interval) }
}

/// Converts the JSON of a recorded profile into compressed pprof. The function table holds
/// the names, and the time deltas weigh the samples.
pub fn json_to_pprof(json: &[u8]) -> (r: Result<Vec<u8>, GuestError>)
    ensures
        match bytes_json(json@) {
            None => r == Err::<Vec<u8>, GuestError>(GuestError::Read(ReadError::Json)),
            Some(j) => if !is_profile(j) {
                r == Err::<Vec<u8>, GuestError>(GuestError::Read(ReadError::Shape))
            } else {
                exists|p: FirefoxProfile|
                    #[trigger] profile_matches(j, p) && match r {
                        Ok(bytes) => guest_encoded(p, Ok(bytes)),
                        Err(GuestError::Build(e)) => guest_encoded(p, Err(e)),
                        Err(GuestError::Read(_)) => false,
                    }
            },
        },
{
    match FirefoxProfile::from_json(json) {
        Err(e) => Err(GuestError::Read(e)),
        Ok(p) => {
            let default_interval_ns: i64 = delta_of(p.meta.interval);
            let weighting = SampleWeighting::PerSampleTimeDeltas { default_interval_ns };
            match Builder::new(&p, FuncTableResolver, weighting).encode() {
                Ok(bytes) => {
                    assert(guest_encoded(p, Ok(bytes)));
                    Ok(bytes)
                },
                Err(e) => {
                    assert(guest_encoded(p, Err(e)));
                    Err(GuestError::Build(e))
                },
            }
        },
    }
}

/// What the conversion of a recorded profile gives.
pub open spec fn guest_encoded(p: FirefoxProfile, r: Result<Vec<u8>, BuildError>) -> bool {
    encoded(p, FuncTableResolver, guest_weighting(p), MoonBit, None, r)
}

/// Weighs each sample by its time delta as it is, and by the sampling interval where it
/// has none.
#[derive(Clone, Copy, Debug, PartialEq, Eq, Structural)]
pub struct DeltaWeighting {
    pub interval_ns: i64,
}

/// The time of a sample.
pub open spec fn delta_ns(w: DeltaWeighting, t: Thread, i: usize) -> i64 {
    if i < t.samples.time_deltas@.len() {
        nearest_nanos(t.samples.time_deltas@[i as int].bits)
    } else {
        w.interval_ns
    }
}

/// A count, where one below one counts as one.
pub open spec fn at_least_one(n: i64) -> i64 {
    if n < 1 {
        1
    } else {
        n
    }
}

impl SampleResolver for DeltaWeighting {
    open spec fn can(&self, profile: FirefoxProfile, thread: Thread, i: usize) -> bool {
        true
    }

    open spec fn weighed(&self, profile: FirefoxProfile, thread: Thread, i: usize) -> ResolvedSample {
        ResolvedSample {
            stack: sample_stack(thread, i),
            count: at_least_one(sample_count(thread, i)),
            ns: delta_ns(*self, thread, i),
        }
    }

    fn can_resolve(&self, profile: &FirefoxProfile, thread: &Thread, i: usize) -> (r: bool) {
        true
    }

    fn resolve(&self, profile: &FirefoxProfile, thread: &Thread, i: usize) -> (r: ResolvedSample) {
        let ns: i64 = if i < thread.samples.time_deltas.len() {
            round_nanos(thread.samples.time_deltas[i].bits)
        } else {
            self.interval_ns
        };
        let c: i64 = count_of_sample(thread, i);
        let count: i64 = if c < 1 {
            1
        } else {
            c
        };
        ResolvedSample { stack: stack_of_sample(thread, i), count, ns }
    }
}

/// The weighting of [`convert`]: an interval that is not above zero counts as one
/// millisecond.
pub open spec fn delta_weighting(p: FirefoxProfile) -> DeltaWeighting {
    DeltaWeighting {
        interval_ns: if is_positive(p.meta.interval.bits) {
            nearest_nanos(p.meta.interval.bits)
        } else {
            1_000_000
        },
    }
}

/// The profile that [`convert`] makes. It has one mapping, which is named after the first
/// module.
pub open spec fn converted(p: FirefoxProfile) -> ProfileView {
    firefox_profile(p, FuncTableResolver, delta_weighting(p), MoonBit, seq![first_lib(p.libs@, "wasm"@)])
}

/// Converts a recorded profile into compressed pprof.
pub fn convert(profile: &FirefoxProfile) -> (r: Result<Vec<u8>, BuildError>)
    ensures
        match threads_error(FuncTableResolver, delta_weighting(*profile), *profile, profile.threads@) {
            Some(e) => r == Err::<Vec<u8>, BuildError>(e),
            None => match r {
                Ok(bytes) => {
                    &&& gzipped(profile_bytes(converted(*profile))) == Some(bytes@)
                    &&& loaded(bytes@) == Ok::<ProfileView, LoadError>(converted(*profile))
                    &&& profile_ok(converted(*profile))
                },
                Err(e) => e == BuildError::Compress && gzipped(profile_bytes(converted(*profile))) is None,
            },
        },
{
    let interval = profile.meta.interval;
    let interval_ns: i64 = if 0 < interval.bits && interval.bits <= 0x7ff0_0000_0000_0000 {
        round_nanos(interval.bits)
    } else {
        1_000_000
    };
    let weighting = DeltaWeighting { interval_ns };
    let names: Vec<String> = vec![first_lib_name(profile, "wasm")];
    assert(texts(names@) =~= seq![first_lib(profile.libs@, "wasm"@)]);
    let out: Profile = match build_profile(profile, &FuncTableResolver, &weighting, &MoonBit, &names) {
        Ok(out) => out,
        Err(e) => {
            return Err(e);
        },
    };
    match compress_profile(&out) {
        Ok(bytes) => Ok(bytes),
        Err(_) => Err(BuildError::Compress),
    }
}

} // verus!
