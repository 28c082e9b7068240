//! What a profile shows of the functions and locations that were entered in its tables.
use vstd::prelude::*;
use crate::pool::{entered, extends, law_entered, lemma_position, place, text_id};
use crate::proto::{LocationView, PprofFunction, ProfileView, SampleView};
use crate::resolve::{frame_at, function_frame, function_with, location_with, positive, sample_frames, FrameView};
use crate::tables::{
    lemma_function_grows, lemma_with_function, lemma_with_location, tables_ok, with_function,
    with_location, TablesView,
};

verus! {

/// The frame that a function with one location shows.
pub open spec fn entry_frame(
    name: Seq<char>,
    filename: Seq<char>,
    start_line: i64,
    line: i64,
    column: i64,
) -> FrameView {
    FrameView {
        name: if name.len() == 0 {
            "(unknown)"@
        } else {
            name
        },
        file: if filename.len() == 0 {
            None
        } else {
            Some(filename)
        },
        line: match positive(line) {
            Some(n) => Some(n),
            None => positive(start_line),
        },
        col: positive(column),
    }
}

/// Whether the indices of the strings fit in 64 bits, as do the numbers of functions.
pub open spec fn is_small(t: TablesView) -> bool {
    t.strings.len() <= i64::MAX && t.functions.len() <= i64::MAX
}

/// Whether the locations have one line each, of the function at the same place, and show
/// these frames.
pub open spec fn shows(t: TablesView, frames: Seq<FrameView>) -> bool {
    &&& tables_ok(t)
    &&& t.functions.len() == frames.len()
    &&& t.locations.len() == frames.len()
    &&& forall|i: int|
        0 <= i < frames.len() ==> {
            &&& (#[trigger] t.locations[i]).line.len() == 1
            &&& t.locations[i].line[0].function_id == i + 1
            &&& t.strings.len() <= i64::MAX ==> function_frame(t.strings, t.functions[i], t.locations[i].line[0])
                == frames[i]
        }
}

proof fn lemma_text_at(a: Seq<Seq<char>>, b: Seq<Seq<char>>, s: Seq<char>)
    requires
        extends(a, b),
        a.contains(s),
        a.no_duplicates(),
        b.len() <= i64::MAX,
    ensures
        0 <= text_id(a, s) < b.len(),
        b[text_id(a, s) as int] == s,
{
    let i = a.index_of(s);
    assert(0 <= i < a.len() && a[i] == s);
    assert(b.take(a.len() as int)[i] == b[i]);
}

/// One more function with its location shows one more frame.
pub proof fn lemma_shows_one_more(
    t: TablesView,
    frames: Seq<FrameView>,
    key: Seq<char>,
    texts: (Seq<char>, Seq<char>, Seq<char>),
    start_line: i64,
    line: i64,
    column: i64,
)
    requires
        shows(t, frames),
        !t.keys.contains(key),
        t.functions.len() < i64::MAX,
    ensures
        ({
            let u = with_function(t, key, texts.0, texts.1, texts.2, start_line);
            &&& shows(
                with_location(u, 1, place(u.keys, key), line, column),
                frames.push(entry_frame(texts.0, texts.2, start_line, line, column)),
            )
            &&& extends(t.strings, u.strings)
            &&& u.keys == t.keys.push(key)
            &&& place(u.keys, key) == frames.len() + 1
        }),
{
    let (name, system_name, filename) = texts;
    let u = with_function(t, key, name, system_name, filename, start_line);
    let n = frames.len() as int;
    lemma_with_function(t, key, name, system_name, filename, start_line);
    lemma_function_grows(t, key, name, system_name, filename, start_line);
    assert(u.keys[n] == key);
    law_entered(t.keys, key);
    lemma_position(u.keys, n);
    lemma_with_location(u, 1, place(u.keys, key), line, column);
    let r = with_location(u, 1, place(u.keys, key), line, column);
    let all = frames.push(entry_frame(name, filename, start_line, line, column));
    let s1 = entered(t.strings, name);
    let s2 = entered(s1, system_name);
    let s3 = entered(s2, filename);
    law_entered(t.strings, name);
    law_entered(s1, system_name);
    law_entered(s2, filename);
    assert forall|i: int| 0 <= i < all.len() implies {
        &&& (#[trigger] r.locations[i]).line.len() == 1
        &&& r.locations[i].line[0].function_id == i + 1
        &&& r.strings.len() <= i64::MAX ==> function_frame(r.strings, r.functions[i], r.locations[i].line[0]) == all[i]
    } by {
        if i < n {
            assert(r.locations[i] == t.locations[i]);
            assert(r.functions[i] == t.functions[i]);
            if r.strings.len() <= i64::MAX {
                let f = t.functions[i];
                assert(t.strings.len() <= r.strings.len());
                assert(r.strings.take(t.strings.len() as int)[f.name as int] == r.strings[f.name as int]);
                assert(r.strings.take(t.strings.len() as int)[f.filename as int] == r.strings[f.filename as int]);
            }
        } else if r.strings.len() <= i64::MAX {
            assert(s3.contains(name));
            assert(s3.take(s3.len() as int) =~= s3);
            lemma_text_at(s3, s3, name);
            lemma_text_at(s3, s3, filename);
        }
    }
}

proof fn lemma_location_at(locations: Seq<LocationView>, i: int)
    requires
        0 <= i < locations.len(),
        forall|k: int| 0 <= k < locations.len() ==> (#[trigger] locations[k]).id == k + 1,
    ensures
        location_with(locations, (i + 1) as u64) == Some(i),
    decreases locations.len(),
{
    let n = locations.len() - 1;
    assert(locations[n].id == n + 1);
    assert(locations[i].id == i + 1);
    if i < n {
        let front = locations.drop_last();
        assert forall|k: int| 0 <= k < front.len() implies (#[trigger] front[k]).id == k + 1 by {
            assert(locations[k].id == k + 1);
        }
        lemma_location_at(front, i);
    }
}

proof fn lemma_function_at(functions: Seq<PprofFunction>, i: int)
    requires
        0 <= i < functions.len(),
        forall|k: int| 0 <= k < functions.len() ==> (#[trigger] functions[k]).id == k + 1,
    ensures
        function_with(functions, (i + 1) as u64) == Some(i),
    decreases functions.len(),
{
    let n = functions.len() - 1;
    assert(functions[n].id == n + 1);
    assert(functions[i].id == i + 1);
    if i < n {
        let front = functions.drop_last();
        assert forall|k: int| 0 <= k < front.len() implies (#[trigger] front[k]).id == k + 1 by {
            assert(functions[k].id == k + 1);
        }
        lemma_function_at(front, i);
    }
}

/// A profile with these tables shows the frame at an id's place.
pub proof fn lemma_shown(p: ProfileView, t: TablesView, frames: Seq<FrameView>, id: u64)
    requires
        shows(t, frames),
        t.strings.len() <= i64::MAX,
        p.string_table == t.strings,
        p.function == t.functions,
        p.location == t.locations,
        1 <= id <= frames.len(),
    ensures
        frame_at(p, id) == frames[id - 1],
{
    let i = id - 1;
    lemma_location_at(p.location, i);
    lemma_function_at(p.function, i);
    assert(t.locations[i].line.len() == 1);
}

/// A sample shows the frames of its locations, root first.
pub proof fn lemma_sample_shown(p: ProfileView, t: TablesView, frames: Seq<FrameView>, s: SampleView)
    requires
        shows(t, frames),
        t.strings.len() <= i64::MAX,
        p.string_table == t.strings,
        p.function == t.functions,
        p.location == t.locations,
        forall|k: int| 0 <= k < s.location_id.len() ==> 1 <= #[trigger] s.location_id[k] <= frames.len(),
    ensures
        sample_frames(p, s) == Seq::new(
            s.location_id.len(),
            |k: int| frames[s.location_id[s.location_id.len() - 1 - k] - 1],
        ),
{
    let want = Seq::new(
        s.location_id.len(),
        |k: int| frames[s.location_id[s.location_id.len() - 1 - k] - 1],
    );
    assert forall|k: int| 0 <= k < want.len() implies sample_frames(p, s)[k] == want[k] by {
        lemma_shown(p, t, frames, s.location_id[s.location_id.len() - 1 - k]);
    }
    assert(sample_frames(p, s) =~= want);
}

} // verus!
