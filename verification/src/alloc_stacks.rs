//! What the profile of recorded allocations says of each stack.
use vstd::prelude::*;
use crate::alloc_profile::{alloc_profile, alloc_tables, scaled_fits, scaled_values};
use crate::demangle::demangled;
use crate::frames::{
    frame_entered, lemma_frame_entered, named_ok, stack_entered, stack_known, stacks_entered,
    NamedFrameView,
};
use crate::leads::{leads_to, lemma_function_texts, name_of, says, texts_kept};
use crate::memprofile::{
    all_texts, distinct, malloc_frames, named_frames, stack_texts, stack_with, FrameKeyView,
};
use crate::native::{
    allocator_frames, is_internal, native_stacks, starts, user_frames, user_sizes, user_stacks,
    AllocationView,
};
use crate::pool::{extends, law_entered, law_place_kept, lemma_extends_trans, lemma_position};
use crate::proto::ProfileView;
use crate::tables::{lemma_start_tables, start_tables, with_function, TablesView};
use crate::tally::{count_of, first_seen, lemma_first_seen, sum_of};
use crate::text::{dec, law_decimal_round_trip, strip_leading};

verus! {

spec fn row_named(t: TablesView, i: int, names: spec_fn(Seq<char>) -> Seq<char>) -> bool {
    &&& name_of(t, i) == names(t.keys[i])
    &&& crate::leads::file_of(t, i) == Seq::<char>::empty()
    &&& t.locations[i].line.len() == 1
    &&& t.locations[i].line[0].function_id == i + 1
    &&& t.locations[i].line[0].line == 0
}

spec fn rows_named(t: TablesView, names: spec_fn(Seq<char>) -> Seq<char>) -> bool {
    &&& named_ok(t)
    &&& forall|i: int| 0 <= i < t.functions.len() ==> #[trigger] row_named(t, i, names)
}

/// Whether the key of each frame of a stack tells its name.
pub open spec fn keys_tell(stack: Seq<NamedFrameView>, names: spec_fn(Seq<char>) -> Seq<char>) -> bool {
    forall|j: int| 0 <= j < stack.len() ==> (#[trigger] stack[j]).name == names(stack[j].key)
}

proof fn lemma_frame(t: TablesView, f: NamedFrameView, names: spec_fn(Seq<char>) -> Seq<char>)
    requires
        rows_named(t, names),
        t.functions.len() < u64::MAX,
        f.name == names(f.key),
        frame_entered(t, f).strings.len() <= i64::MAX,
    ensures
        rows_named(frame_entered(t, f), names),
        extends(t.keys, frame_entered(t, f).keys),
        frame_entered(t, f).keys.contains(f.key),
{
    let r = frame_entered(t, f);
    lemma_frame_entered(t, f);
    law_entered(t.keys, f.key);
    if !t.keys.contains(f.key) {
        let none = Seq::<char>::empty();
        let u = with_function(t, f.key, f.name, f.system_name, none, 0);
        let n = t.functions.len() as int;
        lemma_function_texts(t, f.key, f.name, f.system_name, none, 0);
        crate::tables::lemma_with_function(t, f.key, f.name, f.system_name, none, 0);
        assert(u.keys[n] == f.key);
        lemma_position(u.keys, n);
        assert forall|i: int| 0 <= i < r.functions.len() implies #[trigger] row_named(r, i, names) by {
            if i < n {
                assert(row_named(t, i, names));
                assert(texts_kept(t, u, i));
                assert(r.locations[i] == t.locations[i]);
                assert(u.keys[i] == t.keys[i]);
            }
        }
    }
}

proof fn lemma_frame_grows(t: TablesView, f: NamedFrameView)
    ensures
        t.strings.len() <= frame_entered(t, f).strings.len(),
        t.functions.len() <= frame_entered(t, f).functions.len(),
{
}

proof fn lemma_stack_grows(t: TablesView, stack: Seq<NamedFrameView>)
    ensures
        t.strings.len() <= stack_entered(t, stack).strings.len(),
        t.functions.len() <= stack_entered(t, stack).functions.len(),
    decreases stack.len(),
{
    if stack.len() > 0 {
        lemma_stack_grows(t, stack.drop_last());
        lemma_frame_grows(stack_entered(t, stack.drop_last()), stack.last());
    }
}

proof fn lemma_known_kept(a: Seq<Seq<char>>, b: Seq<Seq<char>>, stack: Seq<NamedFrameView>)
    requires
        extends(a, b),
        b.no_duplicates(),
        stack_known(a, stack),
    ensures
        stack_known(b, stack),
{
    assert forall|j: int| 0 <= j < stack.len() implies b.contains((#[trigger] stack[j]).key) by {
        law_place_kept(a, b, stack[j].key);
    }
}

proof fn lemma_stack(t: TablesView, stack: Seq<NamedFrameView>, names: spec_fn(Seq<char>) -> Seq<char>)
    requires
        rows_named(t, names),
        keys_tell(stack, names),
        stack_entered(t, stack).functions.len() <= u64::MAX,
        stack_entered(t, stack).strings.len() <= i64::MAX,
    ensures
        rows_named(stack_entered(t, stack), names),
        extends(t.keys, stack_entered(t, stack).keys),
        stack_known(stack_entered(t, stack).keys, stack),
    decreases stack.len(),
{
    if stack.len() == 0 {
        assert(t.keys.take(t.keys.len() as int) =~= t.keys);
    } else {
        let front = stack.drop_last();
        let r = stack_entered(t, front);
        let q = stack_entered(t, stack);
        lemma_frame_grows(r, stack.last());
        assert(keys_tell(front, names)) by {
            assert forall|j: int| 0 <= j < front.len() implies (#[trigger] front[j]).name == names(front[j].key) by {
                assert(stack[j].name == names(stack[j].key));
            }
        }
        assert(stack[stack.len() - 1].name == names(stack.last().key));
        lemma_stack(t, front, names);
        if r.functions.len() < u64::MAX {
            lemma_frame(r, stack.last(), names);
        } else {
            assert(q == r);
            assert(r.keys.take(r.keys.len() as int) =~= r.keys);
        }
        lemma_extends_trans(t.keys, r.keys, q.keys);
        lemma_known_kept(r.keys, q.keys, front);
        assert forall|j: int| 0 <= j < stack.len() implies q.keys.contains((#[trigger] stack[j]).key) by {
            if j < front.len() {
                assert(q.keys.contains(front[j].key));
            }
        }
    }
}

proof fn lemma_stacks(t: TablesView, stacks: Seq<Seq<NamedFrameView>>, names: spec_fn(Seq<char>) -> Seq<char>)
    requires
        rows_named(t, names),
        forall|i: int| 0 <= i < stacks.len() ==> keys_tell(#[trigger] stacks[i], names),
        stacks_entered(t, stacks).functions.len() <= u64::MAX,
        stacks_entered(t, stacks).strings.len() <= i64::MAX,
    ensures
        rows_named(stacks_entered(t, stacks), names),
        forall|i: int| 0 <= i < stacks.len() ==> stack_known(stacks_entered(t, stacks).keys, #[trigger] stacks[i]),
    decreases stacks.len(),
{
    if stacks.len() > 0 {
        let front = stacks.drop_last();
        let r = stacks_entered(t, front);
        let q = stacks_entered(t, stacks);
        lemma_stack_grows(r, stacks.last());
        assert forall|i: int| 0 <= i < front.len() implies keys_tell(#[trigger] front[i], names) by {
            assert(keys_tell(stacks[i], names));
        }
        assert(keys_tell(stacks[stacks.len() - 1], names));
        lemma_stacks(t, front, names);
        lemma_stack(r, stacks.last(), names);
        assert forall|i: int| 0 <= i < stacks.len() implies stack_known(q.keys, #[trigger] stacks[i]) by {
            if i < front.len() {
                assert(stack_known(r.keys, front[i]));
                lemma_known_kept(r.keys, q.keys, stacks[i]);
            }
        }
    }
}

/// A sample has the locations of its stack in the same order, and each leads to the name of
/// its frame.
pub proof fn law_alloc_stack(
    stacks: Seq<Seq<NamedFrameView>>,
    values: Seq<(i64, i64)>,
    dropped: Seq<char>,
    names: spec_fn(Seq<char>) -> Seq<char>,
    i: int,
)
    requires
        0 <= i < stacks.len(),
        forall|k: int| 0 <= k < stacks.len() ==> keys_tell(#[trigger] stacks[k], names),
        alloc_profile(stacks, values, dropped).function.len() <= u64::MAX,
        alloc_profile(stacks, values, dropped).string_table.len() <= i64::MAX,
    ensures
        ({
            let out = alloc_profile(stacks, values, dropped);
            &&& out.sample[i].location_id.len() == stacks[i].len()
            &&& forall|j: int|
                0 <= j < stacks[i].len() ==> leads_to(
                    out,
                    #[trigger] out.sample[i].location_id[j],
                    stacks[i][j].name,
                    Seq::empty(),
                    0,
                )
            &&& out.sample[i].value == seq![values[i].0, values[i].1]
            &&& says(out, out.drop_frames, dropped)
        }),
{
    let out = alloc_profile(stacks, values, dropped);
    let start = start_tables("alloc_objects"@, "count"@, "alloc_space"@, "bytes"@, dropped);
    let t = alloc_tables(stacks, dropped);
    lemma_start_tables("alloc_objects"@, "count"@, "alloc_space"@, "bytes"@, dropped);
    lemma_stacks(start, stacks, names);
    let stack = stacks[i];
    assert(stack_known(t.keys, stacks[i]));
    assert(keys_tell(stacks[i], names));
    assert forall|j: int| 0 <= j < stack.len() implies leads_to(
        out,
        #[trigger] out.sample[i].location_id[j],
        stack[j].name,
        Seq::empty(),
        0,
    ) by {
        let k = t.keys.index_of(stack[j].key);
        assert(t.keys.contains(stack[j].key));
        assert(0 <= k < t.keys.len() && t.keys[k] == stack[j].key);
        lemma_position(t.keys, k);
        assert(row_named(t, k, names));
        assert(t.functions[k].id == k + 1);
        assert(t.locations[k].id == k + 1);
        assert(stack[j].name == names(stack[j].key));
    }
    lemma_strings_grow(start, stacks);
    let at = t.strings.index_of(dropped);
    law_place_kept(start.strings, t.strings, dropped);
    assert(0 <= at < t.strings.len() && t.strings[at] == dropped);
}

pub(crate) proof fn lemma_strings_grow(t: TablesView, stacks: Seq<Seq<NamedFrameView>>)
    requires
        named_ok(t),
        stacks_entered(t, stacks).functions.len() <= u64::MAX,
    ensures
        named_ok(stacks_entered(t, stacks)),
        extends(t.strings, stacks_entered(t, stacks).strings),
    decreases stacks.len(),
{
    if stacks.len() == 0 {
        assert(t.strings.take(t.strings.len() as int) =~= t.strings);
    } else {
        let r = stacks_entered(t, stacks.drop_last());
        lemma_stack_grows(r, stacks.last());
        lemma_strings_grow(t, stacks.drop_last());
        lemma_stack_strings(r, stacks.last());
        lemma_extends_trans(t.strings, r.strings, stacks_entered(t, stacks).strings);
    }
}

proof fn lemma_stack_strings(t: TablesView, stack: Seq<NamedFrameView>)
    requires
        named_ok(t),
        stack_entered(t, stack).functions.len() <= u64::MAX,
    ensures
        named_ok(stack_entered(t, stack)),
        extends(t.strings, stack_entered(t, stack).strings),
    decreases stack.len(),
{
    if stack.len() == 0 {
        assert(t.strings.take(t.strings.len() as int) =~= t.strings);
    } else {
        let r = stack_entered(t, stack.drop_last());
        let q = stack_entered(t, stack);
        lemma_frame_grows(r, stack.last());
        lemma_stack_strings(t, stack.drop_last());
        if r.functions.len() < u64::MAX {
            lemma_frame_entered(r, stack.last());
        } else {
            assert(q == r);
            assert(r.strings.take(r.strings.len() as int) =~= r.strings);
        }
        lemma_extends_trans(t.strings, r.strings, q.strings);
    }
}

/// The name that a recorded frame is shown under: that of its function, which is known by
/// number where it has none.
pub open spec fn recorded_name(f: FrameKeyView, no_demangle: bool) -> Seq<char> {
    let raw = match f.name {
        Some(s) => s,
        None => "func["@ + dec(f.func_index as nat) + "]"@,
    };
    if !no_demangle {
        demangled(raw)
    } else {
        raw
    }
}

/// Whether each number of a function goes with one name.
pub open spec fn numbers_tell(stacks: Seq<Seq<FrameKeyView>>) -> bool {
    forall|a: int, b: int, i: int, j: int|
        0 <= a < stacks.len() && 0 <= b < stacks.len() && 0 <= i < stacks[a].len() && 0 <= j < stacks[b].len() && (
        #[trigger] stacks[a][i]).func_index == (#[trigger] stacks[b][j]).func_index ==> stacks[a][i].name
            == stacks[b][j].name
}

/// How often a stack was recorded.
pub open spec fn times_recorded(stacks: Seq<Seq<FrameKeyView>>, stack: Seq<FrameKeyView>) -> int
    decreases stacks.len(),
{
    if stacks.len() == 0 {
        0
    } else if stacks.last() == stack {
        times_recorded(stacks.drop_last(), stack) + 1
    } else {
        times_recorded(stacks.drop_last(), stack)
    }
}

/// The bytes that were recorded with a stack.
pub open spec fn bytes_recorded(stacks: Seq<Seq<FrameKeyView>>, sizes: Seq<i64>, stack: Seq<FrameKeyView>) -> int
    decreases stacks.len(),
{
    if stacks.len() == 0 || sizes.len() != stacks.len() {
        0
    } else {
        bytes_recorded(stacks.drop_last(), sizes.drop_last(), stack) + if stacks.last() == stack {
            sizes.last() as int
        } else {
            0
        }
    }
}

proof fn lemma_texts_tell(a: Seq<FrameKeyView>, b: Seq<FrameKeyView>)
    requires
        stack_texts(a) == stack_texts(b),
    ensures
        a == b,
{
    assert(stack_texts(a).len() == a.len() && stack_texts(b).len() == b.len());
    assert forall|i: int| 0 <= i < a.len() implies a[i] == b[i] by {
        assert(stack_texts(a)[i] == stack_texts(b)[i]);
        crate::memprofile::law_key_text_injective(a[i], b[i]);
    }
    assert(a =~= b);
}

proof fn lemma_recorded(stacks: Seq<Seq<FrameKeyView>>, sizes: Seq<i64>, stack: Seq<FrameKeyView>)
    requires
        sizes.len() == stacks.len(),
    ensures
        count_of(all_texts(stacks), stack_texts(stack)) == times_recorded(stacks, stack),
        sum_of(all_texts(stacks), sizes, stack_texts(stack)) == bytes_recorded(stacks, sizes, stack),
    decreases stacks.len(),
{
    if stacks.len() > 0 {
        let front = stacks.drop_last();
        lemma_recorded(front, sizes.drop_last(), stack);
        assert(all_texts(stacks).drop_last() =~= all_texts(front));
        assert(all_texts(stacks).last() == stack_texts(stacks.last()));
        if stack_texts(stacks.last()) == stack_texts(stack) {
            lemma_texts_tell(stacks.last(), stack);
        }
    }
}

spec fn name_by_key(stacks: Seq<Seq<FrameKeyView>>, no_demangle: bool) -> spec_fn(Seq<char>) -> Seq<char> {
    |key: Seq<char>|
        {
            let (a, i) = choose|a: int, i: int|
                0 <= a < stacks.len() && 0 <= i < stacks[a].len() && dec((#[trigger] stacks[a][i]).func_index as nat)
                    == key;
            recorded_name(stacks[a][i], no_demangle)
        }
}

proof fn lemma_name_by_key(stacks: Seq<Seq<FrameKeyView>>, no_demangle: bool, a: int, i: int)
    requires
        numbers_tell(stacks),
        0 <= a < stacks.len(),
        0 <= i < stacks[a].len(),
    ensures
        name_by_key(stacks, no_demangle)(dec(stacks[a][i].func_index as nat)) == recorded_name(
            stacks[a][i],
            no_demangle,
        ),
{
    let key = dec(stacks[a][i].func_index as nat);
    let (b, j) = choose|b: int, j: int|
        0 <= b < stacks.len() && 0 <= j < stacks[b].len() && dec((#[trigger] stacks[b][j]).func_index as nat) == key;
    law_decimal_round_trip(stacks[a][i].func_index as nat);
    law_decimal_round_trip(stacks[b][j].func_index as nat);
    assert(stacks[a][i].func_index == stacks[b][j].func_index);
    assert(stacks[a][i].name == stacks[b][j].name);
}

/// Each recorded stack has a sample: its locations lead to the names of the frames, innermost
/// first, and each recorded allocation counts as many times as one was taken out of.
pub proof fn law_recorded_stack(stacks: Seq<Seq<FrameKeyView>>, sizes: Seq<i64>, rate: u32, no_demangle: bool, k: int)
    requires
        0 <= k < stacks.len(),
        sizes.len() == stacks.len(),
        numbers_tell(stacks),
        scaled_fits(all_texts(stacks), sizes, rate as int),
        recorded_profile(stacks, sizes, rate, no_demangle).function.len() <= u64::MAX,
        recorded_profile(stacks, sizes, rate, no_demangle).string_table.len() <= i64::MAX,
    ensures
        exists|m: int|
            0 <= m < recorded_profile(stacks, sizes, rate, no_demangle).sample.len() && #[trigger] sample_of_recorded(
                recorded_profile(stacks, sizes, rate, no_demangle),
                m,
                stacks,
                sizes,
                rate,
                no_demangle,
                stacks[k],
            ),
{
    let texts = all_texts(stacks);
    let keys = first_seen(texts);
    let all = distinct(stacks, no_demangle);
    let names = name_by_key(stacks, no_demangle);
    let out = recorded_profile(stacks, sizes, rate, no_demangle);
    lemma_first_seen(texts);
    assert forall|x: int| 0 <= x < all.len() implies keys_tell(#[trigger] all[x], names) by {
        lemma_stack_of_key(stacks, no_demangle, x);
        let a = texts.index_of(keys[x]);
        assert forall|j: int| 0 <= j < all[x].len() implies (#[trigger] all[x][j]).name == names(all[x][j].key) by {
            lemma_name_by_key(stacks, no_demangle, a, j);
        }
    }
    let key = stack_texts(stacks[k]);
    assert(texts[k] == key);
    assert(texts.contains(key));
    assert(keys.contains(key));
    let m = keys.index_of(key);
    assert(keys[m] == key);
    lemma_stack_of_key(stacks, no_demangle, m);
    lemma_texts_tell(stack_with(stacks, key), stacks[k]);
    law_alloc_stack(all, scaled_values(texts, sizes, rate as int), malloc_frames(), names, m);
    lemma_recorded(stacks, sizes, stacks[k]);
    assert(crate::num::is_i64(count_of(texts, first_seen(texts)[m]) * rate as int));
    assert(count_of(texts, key) * rate as int == rate * times_recorded(stacks, stacks[k])) by (nonlinear_arith)
        requires
            count_of(texts, key) == times_recorded(stacks, stacks[k]),
    ;
    assert(sum_of(texts, sizes, key) * rate as int == rate * bytes_recorded(stacks, sizes, stacks[k])) by (nonlinear_arith)
        requires
            sum_of(texts, sizes, key) == bytes_recorded(stacks, sizes, stacks[k]),
    ;
    assert forall|j: int| 0 <= j < stacks[k].len() implies leads_to(
        out,
        #[trigger] out.sample[m].location_id[j],
        recorded_name(stacks[k][j], no_demangle),
        Seq::empty(),
        0,
    ) by {
        assert(all[m][j].name == recorded_name(stacks[k][j], no_demangle));
    }
    assert(sample_of_recorded(out, m, stacks, sizes, rate, no_demangle, stacks[k]));
}

proof fn lemma_stack_of_key(stacks: Seq<Seq<FrameKeyView>>, no_demangle: bool, x: int)
    requires
        0 <= x < first_seen(all_texts(stacks)).len(),
    ensures
        ({
            let a = all_texts(stacks).index_of(first_seen(all_texts(stacks))[x]);
            &&& 0 <= a < stacks.len()
            &&& stack_texts(stacks[a]) == first_seen(all_texts(stacks))[x]
            &&& distinct(stacks, no_demangle)[x] == named_frames(stacks[a], no_demangle)
        }),
{
    let texts = all_texts(stacks);
    let keys = first_seen(texts);
    lemma_first_seen(texts);
    assert(keys.contains(keys[x]));
    assert(texts.contains(keys[x]));
    let a = texts.index_of(keys[x]);
    assert(texts[a] == keys[x]);
}

/// The profile of recorded stacks.
pub open spec fn recorded_profile(stacks: Seq<Seq<FrameKeyView>>, sizes: Seq<i64>, rate: u32, no_demangle: bool) -> ProfileView {
    alloc_profile(
        distinct(stacks, no_demangle),
        scaled_values(all_texts(stacks), sizes, rate as int),
        malloc_frames(),
    )
}

/// Whether a sample is that of a recorded stack.
pub open spec fn sample_of_recorded(
    out: ProfileView,
    m: int,
    stacks: Seq<Seq<FrameKeyView>>,
    sizes: Seq<i64>,
    rate: u32,
    no_demangle: bool,
    stack: Seq<FrameKeyView>,
) -> bool {
    let s = out.sample[m];
    &&& s.location_id.len() == stack.len()
    &&& forall|j: int|
        0 <= j < stack.len() ==> leads_to(
            out,
            #[trigger] s.location_id[j],
            recorded_name(stack[j], no_demangle),
            Seq::empty(),
            0,
        )
    &&& s.value.len() == 2
    &&& s.value[0] == rate * times_recorded(stacks, stack)
    &&& s.value[1] == rate * bytes_recorded(stacks, sizes, stack)
}

/// Underscores.
pub open spec fn underscores(n: nat) -> Seq<char> {
    Seq::new(n, |i: int| '_')
}

proof fn lemma_stripped(n: nat, rest: Seq<char>)
    requires
        rest.len() > 0,
        rest[0] != '_',
    ensures
        strip_leading(underscores(n) + rest, '_') == rest,
    decreases n,
{
    let s = underscores(n) + rest;
    if n == 0 {
        assert(s =~= rest);
    } else {
        assert(s[0] == '_');
        assert(s.drop_first() =~= underscores((n - 1) as nat) + rest);
        lemma_stripped((n - 1) as nat, rest);
    }
}

/// The allocator's own functions, and those of the hook, are passed over, with any number of
/// underscores before the name.
pub proof fn law_internal_frames(n: nat, more: Seq<char>)
    ensures
        is_internal(underscores(n) + "malloc"@),
        is_internal(underscores(n) + "calloc"@),
        is_internal(underscores(n) + "realloc"@),
        is_internal(underscores(n) + "mpprof_init"@),
        is_internal(underscores(n) + "mpprof_fini"@),
        is_internal(underscores(n) + ("moonbit_malloc"@ + more)),
        is_internal(underscores(n) + ("moonbit_realloc"@ + more)),
        is_internal(underscores(n) + ("moonbit_make_"@ + more)),
        is_internal(underscores(n) + ("mi_"@ + more)),
        is_internal(underscores(n) + ("moon_pprof_"@ + more)),
{
    reveal_strlit("malloc");
    reveal_strlit("calloc");
    reveal_strlit("realloc");
    reveal_strlit("mpprof_init");
    reveal_strlit("mpprof_fini");
    reveal_strlit("moonbit_malloc");
    reveal_strlit("moonbit_realloc");
    reveal_strlit("moonbit_make_");
    reveal_strlit("mi_");
    reveal_strlit("moon_pprof_");
    lemma_stripped(n, "malloc"@);
    lemma_stripped(n, "calloc"@);
    lemma_stripped(n, "realloc"@);
    lemma_stripped(n, "mpprof_init"@);
    lemma_stripped(n, "mpprof_fini"@);
    lemma_stripped(n, "moonbit_malloc"@ + more);
    lemma_stripped(n, "moonbit_realloc"@ + more);
    lemma_stripped(n, "moonbit_make_"@ + more);
    lemma_stripped(n, "mi_"@ + more);
    lemma_stripped(n, "moon_pprof_"@ + more);
    assert(("moonbit_malloc"@ + more).take("moonbit_malloc"@.len() as int) =~= "moonbit_malloc"@);
    assert(("moonbit_realloc"@ + more).take("moonbit_realloc"@.len() as int) =~= "moonbit_realloc"@);
    assert(("moonbit_make_"@ + more).take("moonbit_make_"@.len() as int) =~= "moonbit_make_"@);
    assert(("mi_"@ + more).take("mi_"@.len() as int) =~= "mi_"@);
    assert(("moon_pprof_"@ + more).take("moon_pprof_"@.len() as int) =~= "moon_pprof_"@);
}

/// A function of the program is not passed over: one whose name has another first letter, or
/// starts with one of the whole names and goes on.
pub proof fn law_own_frames(n: nat, name: Seq<char>, more: Seq<char>)
    requires
        name.len() > 0,
        name[0] != '_' && name[0] != 'm' && name[0] != 'c' && name[0] != 'r',
        more.len() > 0,
    ensures
        !is_internal(underscores(n) + name),
        !is_internal(underscores(n) + ("malloc"@ + more)),
        !is_internal(underscores(n) + ("calloc"@ + more)),
        !is_internal(underscores(n) + ("realloc"@ + more)),
{
    reveal_strlit("malloc");
    reveal_strlit("calloc");
    reveal_strlit("realloc");
    reveal_strlit("mpprof_init");
    reveal_strlit("mpprof_fini");
    reveal_strlit("moonbit_malloc");
    reveal_strlit("moonbit_realloc");
    reveal_strlit("moonbit_make_");
    reveal_strlit("mi_");
    reveal_strlit("moon_pprof_");
    lemma_stripped(n, name);
    lemma_own(name);
    let a = "malloc"@ + more;
    let b = "calloc"@ + more;
    let c = "realloc"@ + more;
    lemma_stripped(n, a);
    lemma_stripped(n, b);
    lemma_stripped(n, c);
    assert(a[0] == 'm' && a[1] == 'a' && b[0] == 'c' && c[0] == 'r');
    lemma_second(a);
    lemma_own_head(b);
    lemma_own_head(c);
    assert(a.len() > 6 && b.len() > 6 && c.len() > 7);
}

proof fn lemma_own(s: Seq<char>)
    requires
        s.len() > 0,
        s[0] != 'm' && s[0] != 'c' && s[0] != 'r',
    ensures
        s != "malloc"@,
        s != "calloc"@,
        s != "realloc"@,
        s != "mpprof_init"@,
        s != "mpprof_fini"@,
        !starts(s, "moonbit_malloc"@),
        !starts(s, "moonbit_realloc"@),
        !starts(s, "moonbit_make_"@),
        !starts(s, "mi_"@),
        !starts(s, "moon_pprof_"@),
{
    reveal_strlit("malloc");
    reveal_strlit("calloc");
    reveal_strlit("realloc");
    lemma_own_head(s);
    assert("malloc"@[0] == 'm' && "calloc"@[0] == 'c' && "realloc"@[0] == 'r');
}

proof fn lemma_own_head(s: Seq<char>)
    requires
        s.len() > 0,
        s[0] != 'm',
    ensures
        s != "malloc"@,
        s != "mpprof_init"@,
        s != "mpprof_fini"@,
        !starts(s, "moonbit_malloc"@),
        !starts(s, "moonbit_realloc"@),
        !starts(s, "moonbit_make_"@),
        !starts(s, "mi_"@),
        !starts(s, "moon_pprof_"@),
{
    reveal_strlit("malloc");
    reveal_strlit("mpprof_init");
    reveal_strlit("mpprof_fini");
    reveal_strlit("moonbit_malloc");
    reveal_strlit("moonbit_realloc");
    reveal_strlit("moonbit_make_");
    reveal_strlit("mi_");
    reveal_strlit("moon_pprof_");
    assert("malloc"@[0] == 'm' && "mpprof_init"@[0] == 'm' && "mpprof_fini"@[0] == 'm');
    lemma_head(s, "moonbit_malloc"@);
    lemma_head(s, "moonbit_realloc"@);
    lemma_head(s, "moonbit_make_"@);
    lemma_head(s, "mi_"@);
    lemma_head(s, "moon_pprof_"@);
}

proof fn lemma_head(s: Seq<char>, head: Seq<char>)
    requires
        s.len() > 0,
        head.len() > 0,
        s[0] != head[0],
    ensures
        !starts(s, head),
{
    if starts(s, head) {
        assert(s.take(head.len() as int)[0] == head[0]);
    }
}

proof fn lemma_second(s: Seq<char>)
    requires
        s.len() > 1,
        s[1] == 'a',
    ensures
        s != "realloc"@,
        s != "mpprof_init"@,
        s != "mpprof_fini"@,
        !starts(s, "moonbit_malloc"@),
        !starts(s, "moonbit_realloc"@),
        !starts(s, "moonbit_make_"@),
        !starts(s, "mi_"@),
        !starts(s, "moon_pprof_"@),
{
    reveal_strlit("realloc");
    reveal_strlit("mpprof_init");
    reveal_strlit("mpprof_fini");
    reveal_strlit("moonbit_malloc");
    reveal_strlit("moonbit_realloc");
    reveal_strlit("moonbit_make_");
    reveal_strlit("mi_");
    reveal_strlit("moon_pprof_");
    assert("realloc"@[1] == 'e' && "mpprof_init"@[1] == 'p' && "mpprof_fini"@[1] == 'p');
    lemma_head_second(s, "moonbit_malloc"@);
    lemma_head_second(s, "moonbit_realloc"@);
    lemma_head_second(s, "moonbit_make_"@);
    lemma_head_second(s, "mi_"@);
    lemma_head_second(s, "moon_pprof_"@);
}

proof fn lemma_head_second(s: Seq<char>, head: Seq<char>)
    requires
        s.len() > 1,
        head.len() > 1,
        s[1] != head[1],
    ensures
        !starts(s, head),
{
    if starts(s, head) {
        assert(s.take(head.len() as int)[1] == head[1]);
    }
}

/// Whether a stack is cut right: what is left out are the allocator's frames on top, and what
/// is left starts with one that is none.
pub open spec fn is_cut(frames: Seq<Seq<char>>, own: Seq<Seq<char>>) -> bool {
    &&& own.len() <= frames.len()
    &&& own == frames.skip(frames.len() - own.len())
    &&& forall|i: int| 0 <= i < frames.len() - own.len() ==> is_internal(#[trigger] frames[i])
    &&& own.len() > 0 ==> !is_internal(own[0])
}

/// The allocator's frames on top of a stack are left out, and no others.
pub proof fn law_stack_cut(frames: Seq<Seq<char>>)
    ensures
        is_cut(frames, user_frames(frames)),
    decreases frames.len(),
{
    if frames.len() > 0 && is_internal(frames[0]) {
        let rest = frames.drop_first();
        law_stack_cut(rest);
        let own = user_frames(rest);
        assert(own =~= frames.skip(frames.len() - own.len()));
        assert forall|i: int| 0 <= i < frames.len() - own.len() implies is_internal(#[trigger] frames[i]) by {
            if i > 0 {
                assert(rest[i - 1] == frames[i]);
            }
        }
    } else {
        assert(frames.skip(0) =~= frames);
    }
}

/// How many records have this stack of the program's own.
pub open spec fn times_allocated(r: Seq<AllocationView>, own: Seq<Seq<char>>) -> int
    decreases r.len(),
{
    if r.len() == 0 {
        0
    } else if is_cut(r.last().frames, own) {
        times_allocated(r.drop_last(), own) + 1
    } else {
        times_allocated(r.drop_last(), own)
    }
}

/// Their bytes.
pub open spec fn bytes_allocated(r: Seq<AllocationView>, own: Seq<Seq<char>>) -> int
    decreases r.len(),
{
    if r.len() == 0 {
        0
    } else if is_cut(r.last().frames, own) {
        bytes_allocated(r.drop_last(), own) + (#[verifier::truncate] (r.last().size as i64))
    } else {
        bytes_allocated(r.drop_last(), own)
    }
}

proof fn lemma_cut_once(frames: Seq<Seq<char>>, a: Seq<Seq<char>>, b: Seq<Seq<char>>)
    requires
        is_cut(frames, a),
        is_cut(frames, b),
    ensures
        a == b,
{
    let n = frames.len();
    if a.len() > b.len() {
        assert(a[0] == frames[n - a.len()]);
        assert(is_internal(frames[n - a.len()]));
    }
    if b.len() > a.len() {
        assert(b[0] == frames[n - b.len()]);
        assert(is_internal(frames[n - b.len()]));
    }
}

proof fn lemma_allocated(r: Seq<AllocationView>, own: Seq<Seq<char>>)
    requires
        own.len() > 0,
    ensures
        user_sizes(r).len() == user_stacks(r).len(),
        count_of(user_stacks(r), own) == times_allocated(r, own),
        sum_of(user_stacks(r), user_sizes(r), own) == bytes_allocated(r, own),
    decreases r.len(),
{
    if r.len() > 0 {
        let front = r.drop_last();
        let last = user_frames(r.last().frames);
        lemma_allocated(front, own);
        law_stack_cut(r.last().frames);
        if is_cut(r.last().frames, own) {
            lemma_cut_once(r.last().frames, own, last);
        }
        if last.len() > 0 {
            assert(user_stacks(r).drop_last() =~= user_stacks(front));
            assert(user_sizes(r).drop_last() =~= user_sizes(front));
        }
    }
}

proof fn lemma_kept(r: Seq<AllocationView>, k: int)
    requires
        0 <= k < r.len(),
        user_frames(r[k].frames).len() > 0,
    ensures
        user_stacks(r).contains(user_frames(r[k].frames)),
    decreases r.len(),
{
    let front = r.drop_last();
    let x = user_frames(r[k].frames);
    let all = user_stacks(r);
    if k == r.len() - 1 {
        assert(all[all.len() - 1] == x);
    } else {
        assert(front[k] == r[k]);
        lemma_kept(front, k);
        let j = user_stacks(front).index_of(x);
        assert(user_stacks(front)[j] == x);
        assert(all[j] == x);
    }
}

/// The profile of native allocations.
pub open spec fn native_profile(r: Seq<AllocationView>, scale: int, no_demangle: bool) -> ProfileView {
    alloc_profile(
        native_stacks(user_stacks(r), no_demangle),
        scaled_values(user_stacks(r), user_sizes(r), scale),
        allocator_frames(),
    )
}

/// Whether a sample is that of a stack of the program's own.
pub open spec fn sample_of_allocation(
    out: ProfileView,
    m: int,
    r: Seq<AllocationView>,
    scale: int,
    no_demangle: bool,
    own: Seq<Seq<char>>,
) -> bool {
    let s = out.sample[m];
    &&& s.location_id.len() == own.len()
    &&& forall|j: int|
        0 <= j < own.len() ==> leads_to(
            out,
            #[trigger] s.location_id[j],
            if no_demangle {
                own[j]
            } else {
                demangled(own[j])
            },
            Seq::empty(),
            0,
        )
    &&& s.value.len() == 2
    &&& s.value[0] == scale * times_allocated(r, own)
    &&& s.value[1] == scale * bytes_allocated(r, own)
}

/// Each allocation with a frame of the program's own has a sample: its locations lead to the
/// names of the frames that are left, innermost first.
pub proof fn law_allocated_stack(r: Seq<AllocationView>, scale: int, no_demangle: bool, k: int, own: Seq<Seq<char>>)
    requires
        0 <= k < r.len(),
        is_cut(r[k].frames, own),
        own.len() > 0,
        scaled_fits(user_stacks(r), user_sizes(r), scale),
        native_profile(r, scale, no_demangle).function.len() <= u64::MAX,
        native_profile(r, scale, no_demangle).string_table.len() <= i64::MAX,
    ensures
        exists|m: int|
            0 <= m < native_profile(r, scale, no_demangle).sample.len() && #[trigger] sample_of_allocation(
                native_profile(r, scale, no_demangle),
                m,
                r,
                scale,
                no_demangle,
                own,
            ),
{
    let stacks = user_stacks(r);
    let keys = first_seen(stacks);
    let all = native_stacks(stacks, no_demangle);
    let names = |key: Seq<char>| key;
    let out = native_profile(r, scale, no_demangle);
    law_stack_cut(r[k].frames);
    lemma_cut_once(r[k].frames, own, user_frames(r[k].frames));
    lemma_kept(r, k);
    lemma_first_seen(stacks);
    assert(keys.contains(own));
    let m = keys.index_of(own);
    assert(keys[m] == own);
    assert forall|x: int| 0 <= x < all.len() implies keys_tell(#[trigger] all[x], names) by {}
    law_alloc_stack(all, scaled_values(stacks, user_sizes(r), scale), allocator_frames(), names, m);
    lemma_allocated(r, own);
    assert(crate::num::is_i64(count_of(stacks, first_seen(stacks)[m]) * scale));
    assert(count_of(stacks, own) * scale == scale * times_allocated(r, own)) by (nonlinear_arith)
        requires
            count_of(stacks, own) == times_allocated(r, own),
    ;
    assert(sum_of(stacks, user_sizes(r), own) * scale == scale * bytes_allocated(r, own)) by (nonlinear_arith)
        requires
            sum_of(stacks, user_sizes(r), own) == bytes_allocated(r, own),
    ;
    assert forall|j: int| 0 <= j < own.len() implies leads_to(
        out,
        #[trigger] out.sample[m].location_id[j],
        if no_demangle {
            own[j]
        } else {
            demangled(own[j])
        },
        Seq::empty(),
        0,
    ) by {
        assert(all[m][j].name == if no_demangle {
            own[j]
        } else {
            demangled(own[j])
        });
    }
    assert(sample_of_allocation(out, m, r, scale, no_demangle, own));
}

} // verus!
