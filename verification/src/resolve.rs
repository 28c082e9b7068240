//! Looking up what a profile's samples refer to.
use vstd::prelude::*;
use std::collections::HashMap;
use crate::proto::{
    location_views, string_at, text_at, Line, PprofFunction, LocationView, Profile, ProfileView, Sample,
    SampleView,
};
use crate::text::{append_decimal, append_hex, dec, hex};

verus! {

broadcast use vstd::std_specs::hash::group_hash_axioms;

/// The location with this id, the last one where several have it.
pub open spec fn location_with(locations: Seq<LocationView>, id: u64) -> Option<int>
    decreases locations.len(),
{
    if locations.len() == 0 {
        None
    } else if locations.last().id == id {
        Some(locations.len() - 1)
    } else {
        location_with(locations.drop_last(), id)
    }
}

/// The function with this id, the last one where several have it.
pub open spec fn function_with(functions: Seq<PprofFunction>, id: u64) -> Option<int>
    decreases functions.len(),
{
    if functions.len() == 0 {
        None
    } else if functions.last().id == id {
        Some(functions.len() - 1)
    } else {
        function_with(functions.drop_last(), id)
    }
}

pub proof fn lemma_location_with(locations: Seq<LocationView>, id: u64)
    ensures
        location_with(locations, id) matches Some(i) ==> 0 <= i < locations.len() && locations[i].id == id,
    decreases locations.len(),
{
    if locations.len() > 0 {
        lemma_location_with(locations.drop_last(), id);
    }
}

pub proof fn lemma_function_with(functions: Seq<PprofFunction>, id: u64)
    ensures
        function_with(functions, id) matches Some(i) ==> 0 <= i < functions.len() && functions[i].id == id,
    decreases functions.len(),
{
    if functions.len() > 0 {
        lemma_function_with(functions.drop_last(), id);
    }
}

spec fn indexes_locations(m: Map<u64, usize>, v: Seq<LocationView>) -> bool {
    forall|id: u64|
        #![trigger m.contains_key(id)]
        m.contains_key(id) == (location_with(v, id) is Some) && (m.contains_key(id) ==> location_with(v, id) == Some(
            m[id] as int,
        ))
}

spec fn indexes_functions(m: Map<u64, usize>, v: Seq<PprofFunction>) -> bool {
    forall|id: u64|
        #![trigger m.contains_key(id)]
        m.contains_key(id) == (function_with(v, id) is Some) && (m.contains_key(id) ==> function_with(v, id) == Some(
            m[id] as int,
        ))
}

/// A profile with its locations and functions by id.
pub struct ProfileIndex<'a> {
    profile: &'a Profile,
    locations: HashMap<u64, usize>,
    functions: HashMap<u64, usize>,
}

impl<'a> ProfileIndex<'a> {
    /// The profile.
    pub closed spec fn of(&self) -> Profile {
        *self.profile
    }

    pub closed spec fn wf(&self) -> bool {
        &&& indexes_locations(self.locations@, self.profile@.location)
        &&& indexes_functions(self.functions@, self.profile@.function)
    }

    pub fn new(profile: &'a Profile) -> (r: ProfileIndex<'a>)
        ensures
            r.wf(),
            r.of() == *profile,
    {
        let ghost lv = profile@.location;
        let mut locations: HashMap<u64, usize> = HashMap::new();
        for i in 0..profile.location.len()
            invariant
                lv == location_views(profile.location@),
                indexes_locations(locations@, lv.take(i as int)),
        {
            let ghost before = locations@;
            locations.insert(profile.location[i].id, i);
            proof {
                assert(lv.take(i + 1).drop_last() =~= lv.take(i as int));
                assert forall|id: u64|
                    #![trigger locations@.contains_key(id)]
                    locations@.contains_key(id) == (location_with(lv.take(i + 1), id) is Some) && (
                    locations@.contains_key(id) ==> location_with(lv.take(i + 1), id) == Some(
                        locations@[id] as int,
                    )) by {
                    assert(before.contains_key(id) == (location_with(lv.take(i as int), id) is Some));
                }
            }
        }
        assert(lv.take(lv.len() as int) =~= lv);
        let ghost fv = profile@.function;
        let mut functions: HashMap<u64, usize> = HashMap::new();
        for i in 0..profile.function.len()
            invariant
                fv == profile.function@,
                indexes_functions(functions@, fv.take(i as int)),
        {
            let ghost before = functions@;
            functions.insert(profile.function[i].id, i);
            proof {
                assert(fv.take(i + 1).drop_last() =~= fv.take(i as int));
                assert forall|id: u64|
                    #![trigger functions@.contains_key(id)]
                    functions@.contains_key(id) == (function_with(fv.take(i + 1), id) is Some) && (
                    functions@.contains_key(id) ==> function_with(fv.take(i + 1), id) == Some(
                        functions@[id] as int,
                    )) by {
                    assert(before.contains_key(id) == (function_with(fv.take(i as int), id) is Some));
                }
            }
        }
        assert(fv.take(fv.len() as int) =~= fv);
        ProfileIndex { profile, locations, functions }
    }

    /// The profile.
    pub fn profile(&self) -> (p: &'a Profile)
        ensures
            *p == self.of(),
    {
        self.profile
    }

    /// The position of the location with this id.
    pub fn location(&self, id: u64) -> (r: Option<usize>)
        requires
            self.wf(),
        ensures
            match r {
                Some(i) => location_with(self.of()@.location, id) == Some(i as int) && i < self.of().location@.len(),
                None => location_with(self.of()@.location, id) is None,
            },
    {
        proof {
            lemma_location_with(self.profile@.location, id);
        }
        match self.locations.get(&id) {
            Some(i) => {
                assert(self.locations@.contains_key(id));
                Some(*i)
            },
            None => {
                assert(!self.locations@.contains_key(id));
                None
            },
        }
    }

    /// The position of the function with this id.
    pub fn function(&self, id: u64) -> (r: Option<usize>)
        requires
            self.wf(),
        ensures
            match r {
                Some(i) => function_with(self.of()@.function, id) == Some(i as int) && i < self.of().function@.len(),
                None => function_with(self.of()@.function, id) is None,
            },
    {
        proof {
            lemma_function_with(self.profile@.function, id);
        }
        match self.functions.get(&id) {
            Some(i) => {
                assert(self.functions@.contains_key(id));
                Some(*i)
            },
            None => {
                assert(!self.functions@.contains_key(id));
                None
            },
        }
    }
}

/// A frame of an exported stack.
#[derive(Debug)]
pub struct Frame {
    pub name: String,
    pub file: Option<String>,
    pub line: Option<i64>,
    pub col: Option<i64>,
}

/// The value of a [`Frame`].
#[verifier::ext_equal]
pub struct FrameView {
    pub name: Seq<char>,
    pub file: Option<Seq<char>>,
    pub line: Option<i64>,
    pub col: Option<i64>,
}

/// The text of an optional string.
pub open spec fn opt_text(s: Option<String>) -> Option<Seq<char>> {
    match s {
        Some(x) => Some(x@),
        None => None,
    }
}

impl View for Frame {
    type V = FrameView;

    open spec fn view(&self) -> FrameView {
        FrameView { name: self.name@, file: opt_text(self.file), line: self.line, col: self.col }
    }
}

pub open spec fn frame_views(s: Seq<Frame>) -> Seq<FrameView> {
    Seq::new(s.len(), |i: int| s[i]@)
}

/// A frame with a made-up name and nothing else.
pub open spec fn bare_frame(name: Seq<char>) -> FrameView {
    FrameView { name, file: None, line: None, col: None }
}

/// A number above zero.
pub open spec fn positive(n: i64) -> Option<i64> {
    if n > 0 {
        Some(n)
    } else {
        None
    }
}

/// The frame of a line of a function.
pub open spec fn function_frame(strings: Seq<Seq<char>>, func: PprofFunction, line: Line) -> FrameView {
    let name = text_at(strings, func.name);
    let file = text_at(strings, func.filename);
    FrameView {
        name: if name.len() == 0 {
            "(unknown)"@
        } else {
            name
        },
        file: if file.len() == 0 {
            None
        } else {
            Some(file)
        },
        line: match positive(line.line) {
            Some(n) => Some(n),
            None => positive(func.start_line),
        },
        col: positive(line.column),
    }
}

/// The frame of a location: that of its first line, or a made-up name where the
/// location, its line or its function is missing.
pub open spec fn frame_at(p: ProfileView, loc_id: u64) -> FrameView {
    match location_with(p.location, loc_id) {
        None => bare_frame("location:"@ + dec(loc_id as nat)),
        Some(i) => {
            let loc = p.location[i];
            if loc.line.len() == 0 {
                bare_frame("0x"@ + hex(loc.address as nat))
            } else {
                let line = loc.line[0];
                match function_with(p.function, line.function_id) {
                    None => bare_frame("function:"@ + dec(line.function_id as nat)),
                    Some(k) => function_frame(p.string_table, p.function[k], line),
                }
            }
        },
    }
}

/// The frames of a sample, root first.
pub open spec fn sample_frames(p: ProfileView, s: SampleView) -> Seq<FrameView> {
    Seq::new(s.location_id.len(), |i: int| frame_at(p, s.location_id[s.location_id.len() - 1 - i]))
}

fn bare(name: String) -> (r: Frame)
    ensures
        r@ == bare_frame(name@),
{
    Frame { name, file: None, line: None, col: None }
}

impl<'a> ProfileIndex<'a> {
    /// The frame of a location.
    pub fn frame_for_location(&self, loc_id: u64) -> (r: Frame)
        requires
            self.wf(),
        ensures
            r@ == frame_at(self.of()@, loc_id),
    {
        let profile = self.profile;
        let i: usize = match self.location(loc_id) {
            Some(i) => i,
            None => {
                let mut name = "location:".to_owned();
                append_decimal(&mut name, loc_id);
                return bare(name);
            },
        };
        let loc = &profile.location[i];
        if loc.line.len() == 0 {
            let mut name = "0x".to_owned();
            append_hex(&mut name, loc.address);
            return bare(name);
        }
        let line = loc.line[0];
        let k: usize = match self.function(line.function_id) {
            Some(k) => k,
            None => {
                let mut name = "function:".to_owned();
                append_decimal(&mut name, line.function_id);
                return bare(name);
            },
        };
        let func = profile.function[k];
        let name = string_at(profile, func.name);
        let file = string_at(profile, func.filename);
        Frame {
            name: if name.is_empty() {
                "(unknown)".to_owned()
            } else {
                name.to_owned()
            },
            file: if file.is_empty() {
                None
            } else {
                Some(file.to_owned())
            },
            line: if line.line > 0 {
                Some(line.line)
            } else if func.start_line > 0 {
                Some(func.start_line)
            } else {
                None
            },
            col: if line.column > 0 {
                Some(line.column)
            } else {
                None
            },
        }
    }

    /// The frames of a sample, root first.
    pub fn stack(&self, sample: &Sample) -> (r: Vec<Frame>)
        requires
            self.wf(),
        ensures
            frame_views(r@) == sample_frames(self.of()@, sample@),
    {
        let n: usize = sample.location_id.len();
        let ghost want = sample_frames(self.of()@, sample@);
        let mut r: Vec<Frame> = Vec::new();
        assert(frame_views(r@) =~= want.take(0));
        for i in 0..n
            invariant
                self.wf(),
                n == sample.location_id@.len(),
                want == sample_frames(self.of()@, sample@),
                frame_views(r@) == want.take(i as int),
        {
            let ghost before = r@;
            let f = self.frame_for_location(sample.location_id[n - 1 - i]);
            r.push(f);
            assert(frame_views(r@) =~= frame_views(before).push(f@));
            assert(frame_views(r@) =~= want.take(i + 1));
        }
        assert(want.take(n as int) =~= want);
        r
    }
}

} // verus!
