//! The pprof profile of recorded allocations.
use vstd::prelude::*;
use crate::codec::profile_bytes;
use crate::frames::{
    enter_stacks, named_stack, named_stacks, stack_ids, stacks_entered, NamedFrame, NamedFrameView,
};
use crate::gz::{compress_profile, gzipped, loaded, LoadError};
use crate::num::{fits_i64, is_i64};
use crate::pool::text_id;
use crate::proto::{Mapping, Profile, ProfileView, Sample};
use crate::tables::{
    lemma_fixed_kept, lemma_start_tables, one_mapping, only_mapping, profile_ok, sample_ok,
    sample_types, start_tables, Tables, TablesView,
};
use crate::tally::{
    count_of, counted, counted_sample, first_seen, law_totals_kept, lemma_sum_scaled, sum, sum_of,
    tally_fits, tally_values, total,
};

verus! {

/// Why a profile of allocations cannot be made.
#[derive(Clone, Copy, Debug, PartialEq, Eq, Structural)]
pub enum AllocError {
    /// A count or a sum does not fit in 64 bits.
    Overflow,
    /// The profile cannot be compressed.
    Compress,
}

/// The tables of stacks.
pub open spec fn alloc_tables(stacks: Seq<Seq<NamedFrameView>>, dropped: Seq<char>) -> TablesView {
    stacks_entered(start_tables("alloc_objects"@, "count"@, "alloc_space"@, "bytes"@, dropped), stacks)
}

/// The profile of allocations: one sample per stack, innermost frame first. Frames whose
/// name matches `dropped` are to be passed over.
pub open spec fn alloc_profile(
    stacks: Seq<Seq<NamedFrameView>>,
    values: Seq<(i64, i64)>,
    dropped: Seq<char>,
) -> ProfileView {
    let t = alloc_tables(stacks, dropped);
    let types = sample_types(t.strings, "alloc_objects"@, "count"@, "alloc_space"@, "bytes"@);
    ProfileView {
        sample_type: types,
        sample: Seq::new(stacks.len(), |i: int| counted(stack_ids(t.keys, stacks[i]), values[i])),
        mapping: seq![only_mapping(0)],
        location: t.locations,
        function: t.functions,
        string_table: t.strings,
        drop_frames: text_id(t.strings, dropped),
        keep_frames: 0,
        time_nanos: 0,
        duration_nanos: 0,
        period_type: Some(types[1]),
        period: 1,
        comment: Seq::empty(),
        default_sample_type: types[1].ty,
        doc_url: 0,
    }
}

/// Builds the profile of allocations.
pub(crate) fn build_alloc_profile(
    stacks: &Vec<Vec<NamedFrame>>,
    values: &Vec<(i64, i64)>,
    dropped: &str,
) -> (r: Profile)
    requires
        values@.len() == stacks@.len(),
    ensures
        r@ == alloc_profile(named_stacks(stacks@), values@, dropped@),
        profile_ok(r@),
{
    let ghost v = named_stacks(stacks@);
    let (mut t, fixed) = Tables::start("alloc_objects", "count", "alloc_space", "bytes", dropped);
    let ghost start = t@;
    proof {
        lemma_start_tables("alloc_objects"@, "count"@, "alloc_space"@, "bytes"@, dropped@);
    }
    let ids = enter_stacks(&mut t, stacks);
    let ghost end = t@;
    let mut sample: Vec<Sample> = Vec::new();
    for x in it: ids
        invariant
            it.seq() == ids@,
            v == named_stacks(stacks@),
            values@.len() == stacks@.len(),
            ids@.len() == stacks@.len(),
            forall|i: int|
                0 <= i < ids@.len() ==> (#[trigger] ids@[i])@ == stack_ids(end.keys, named_stack(stacks@[i]@)),
            forall|i: int, j: int|
                0 <= i < ids@.len() && 0 <= j < ids@[i]@.len() ==> 1 <= #[trigger] ids@[i]@[j] <= end.locations.len(),
            sample@.len() == it.index(),
            forall|k: int|
                0 <= k < it.index() ==> (#[trigger] sample@[k])@ == counted(stack_ids(end.keys, v[k]), values@[k]),
            forall|k: int, j: int|
                0 <= k < it.index() && 0 <= j < sample@[k].location_id@.len() ==> 1
                    <= #[trigger] sample@[k].location_id@[j] <= end.locations.len(),
    {
        let ghost done = sample@;
        let ghost i = it.index() as int;
        let n: usize = sample.len();
        assert(x@ == ids@[i]@);
        sample.push(counted_sample(x, values[n]));
        proof {
            assert(v[i] == named_stack(stacks@[i]@));
            assert forall|k: int, j: int|
                0 <= k < i + 1 && 0 <= j < sample@[k].location_id@.len() implies 1
                <= #[trigger] sample@[k].location_id@[j] <= end.locations.len() by {
                if k < i {
                    assert(sample@[k] == done[k]);
                } else {
                    assert(sample@[k].location_id@ == ids@[i]@);
                    assert(1 <= ids@[i]@[j] <= end.locations.len());
                }
            }
        }
    }
    let (string_table, function, location) = t.into_parts();
    proof {
        lemma_fixed_kept(
            start.strings,
            end.strings,
            "alloc_objects"@,
            "count"@,
            "alloc_space"@,
            "bytes"@,
            dropped@,
        );
    }
    let mut mapping: Vec<Mapping> = Vec::new();
    mapping.push(one_mapping(0));
    let p = Profile {
        sample_type: fixed.types,
        sample,
        mapping,
        location,
        function,
        string_table,
        drop_frames: fixed.mapping,
        keep_frames: 0,
        time_nanos: 0,
        duration_nanos: 0,
        period_type: Some(fixed.default_type),
        period: 1,
        comment: Vec::new(),
        default_sample_type: fixed.default_type.ty,
        doc_url: 0,
    };
    proof {
        assert(p@.sample =~= alloc_profile(v, values@, dropped@).sample);
        assert(p@ =~= alloc_profile(v, values@, dropped@));
        assert forall|i: int| 0 <= i < p@.sample.len() implies sample_ok(#[trigger] p@.sample[i], p@) by {
            assert(p@.sample[i] == p.sample@[i]@);
        }
    }
    p
}

/// Whether every count and every sum, each taken `scale` times, is a 64-bit number.
pub open spec fn scaled_fits<K>(s: Seq<K>, w: Seq<i64>, scale: int) -> bool {
    forall|i: int|
        0 <= i < first_seen(s).len() ==> is_i64(count_of(s, #[trigger] first_seen(s)[i]) * scale) && is_i64(
            sum_of(s, w, first_seen(s)[i]) * scale,
        )
}

/// One pair of count and sum per distinct key, each taken `scale` times.
pub open spec fn scaled_values<K>(s: Seq<K>, w: Seq<i64>, scale: int) -> Seq<(i64, i64)> {
    Seq::new(
        first_seen(s).len(),
        |i: int|
            ((count_of(s, first_seen(s)[i]) * scale) as i64, (sum_of(s, w, first_seen(s)[i]) * scale) as i64),
    )
}

pub(crate) proof fn lemma_unscaled_fits<K>(s: Seq<K>, w: Seq<i64>, scale: int)
    requires
        scaled_fits(s, w, scale),
        scale >= 1,
    ensures
        tally_fits(s, w),
{
    assert forall|i: int| 0 <= i < first_seen(s).len() implies count_of(s, #[trigger] first_seen(s)[i]) <= i64::MAX
        && i64::MIN <= sum_of(s, w, first_seen(s)[i]) <= i64::MAX by {
        let c = count_of(s, first_seen(s)[i]);
        let t = sum_of(s, w, first_seen(s)[i]);
        crate::tally::lemma_count_nonnegative(s, first_seen(s)[i]);
        assert(c <= c * scale) by (nonlinear_arith)
            requires
                c >= 0,
                scale >= 1,
        ;
        if t >= 0 {
            assert(t <= t * scale) by (nonlinear_arith)
                requires
                    t >= 0,
                    scale >= 1,
            ;
        } else {
            assert(t >= t * scale) by (nonlinear_arith)
                requires
                    t < 0,
                    scale >= 1,
            ;
        }
    }
}

/// Takes each count and each sum `scale` times.
pub(crate) fn scale_values<K>(
    values: &Vec<(i64, i64)>,
    scale: u32,
    s: Ghost<Seq<K>>,
    w: Ghost<Seq<i64>>,
) -> (r: Option<Vec<(i64, i64)>>)
    requires
        tally_fits(s@, w@),
        values@ == tally_values(s@, w@),
    ensures
        match r {
            Some(v) => scaled_fits(s@, w@, scale as int) && v@ == scaled_values(s@, w@, scale as int),
            None => !scaled_fits(s@, w@, scale as int),
        },
{
    let ghost keys = first_seen(s@);
    let mut r: Vec<(i64, i64)> = Vec::new();
    for i in 0..values.len()
        invariant
            tally_fits(s@, w@),
            values@ == tally_values(s@, w@),
            keys == first_seen(s@),
            r@.len() == i,
            forall|k: int|
                0 <= k < i ==> is_i64(count_of(s@, #[trigger] keys[k]) * scale) && is_i64(
                    sum_of(s@, w@, keys[k]) * scale,
                ),
            forall|k: int| 0 <= k < i ==> (#[trigger] r@[k]) == scaled_values(s@, w@, scale as int)[k],
    {
        let (c, t): (i64, i64) = values[i];
        let f: i128 = scale as i128;
        proof {
            let key = keys[i as int];
            crate::tally::lemma_count_nonnegative(s@, key);
            assert(c == count_of(s@, key) && t == sum_of(s@, w@, key));
            assert(-0x8000_0000_0000_0000_0000_0000 <= c * f <= 0x8000_0000_0000_0000_0000_0000) by (nonlinear_arith)
                requires
                    -0x8000_0000_0000_0000 <= c <= 0x7fff_ffff_ffff_ffff,
                    0 <= f <= 0xffff_ffff,
            ;
            assert(-0x8000_0000_0000_0000_0000_0000 <= t * f <= 0x8000_0000_0000_0000_0000_0000) by (nonlinear_arith)
                requires
                    -0x8000_0000_0000_0000 <= t <= 0x7fff_ffff_ffff_ffff,
                    0 <= f <= 0xffff_ffff,
            ;
        }
        let a: i128 = c as i128 * f;
        let b: i128 = t as i128 * f;
        if !fits_i64(a) || !fits_i64(b) {
            assert(!(is_i64(count_of(s@, first_seen(s@)[i as int]) * scale) && is_i64(
                sum_of(s@, w@, first_seen(s@)[i as int]) * scale,
            )));
            return None;
        }
        r.push((a as i64, b as i64));
    }
    assert(r@ =~= scaled_values(s@, w@, scale as int));
    Some(r)
}

/// What encoding a profile gives.
pub open spec fn alloc_encoded(fits: bool, p: ProfileView, r: Result<Vec<u8>, AllocError>) -> bool {
    match r {
        Ok(bytes) => {
            &&& fits
            &&& profile_ok(p)
            &&& gzipped(profile_bytes(p)) == Some(bytes@)
            &&& loaded(bytes@) == Ok::<ProfileView, LoadError>(p)
        },
        Err(AllocError::Overflow) => !fits,
        Err(AllocError::Compress) => fits && gzipped(profile_bytes(p)) is None,
    }
}

/// Compresses the profile of allocations.
pub(crate) fn encode_alloc_profile(
    stacks: &Vec<Vec<NamedFrame>>,
    values: &Vec<(i64, i64)>,
    dropped: &str,
) -> (r: Result<Vec<u8>, AllocError>)
    requires
        values@.len() == stacks@.len(),
    ensures
        alloc_encoded(true, alloc_profile(named_stacks(stacks@), values@, dropped@), r),
{
    let p = build_alloc_profile(stacks, values, dropped);
    match compress_profile(&p) {
        Ok(bytes) => Ok(bytes),
        Err(_) => Err(AllocError::Compress),
    }
}

/// The profile credits each recorded allocation with `scale` of them: its counts add up to
/// `scale` times the number of records, and its bytes to `scale` times theirs.
pub proof fn law_alloc_totals<K>(
    s: Seq<K>,
    w: Seq<i64>,
    scale: int,
    stacks: Seq<Seq<NamedFrameView>>,
    dropped: Seq<char>,
)
    requires
        w.len() == s.len(),
        stacks.len() == first_seen(s).len(),
        scaled_fits(s, w, scale),
    ensures
        ({
            let out = alloc_profile(stacks, scaled_values(s, w, scale), dropped).sample;
            &&& sum(Seq::new(out.len(), |i: int| out[i].value[0] as int)) == s.len() * scale
            &&& sum(Seq::new(out.len(), |i: int| out[i].value[1] as int)) == total(w) * scale
        }),
{
    let keys = first_seen(s);
    let out = alloc_profile(stacks, scaled_values(s, w, scale), dropped).sample;
    law_totals_kept(s, w);
    let counts = Seq::new(keys.len(), |i: int| count_of(s, keys[i]));
    let sums = Seq::new(keys.len(), |i: int| sum_of(s, w, keys[i]));
    assert(counts =~= Seq::new(first_seen(s).len(), |i: int| count_of(s, first_seen(s)[i])));
    assert(sums =~= Seq::new(first_seen(s).len(), |i: int| sum_of(s, w, first_seen(s)[i])));
    lemma_sum_scaled(counts, scale);
    lemma_sum_scaled(sums, scale);
    assert forall|i: int| 0 <= i < keys.len() implies out[i].value[0] == counts[i] * scale
        && #[trigger] out[i].value[1] == sums[i] * scale by {
        assert(is_i64(count_of(s, first_seen(s)[i]) * scale));
    }
    assert(Seq::new(out.len(), |i: int| out[i].value[0] as int) =~= Seq::new(
        counts.len(),
        |i: int| counts[i] * scale,
    ));
    assert(Seq::new(out.len(), |i: int| out[i].value[1] as int) =~= Seq::new(sums.len(), |i: int| sums[i] * scale));
}

} // verus!
