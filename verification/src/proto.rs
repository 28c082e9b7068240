//! The messages of the pprof `profile.proto` schema, and the values that stand for
//! them in contracts.
use vstd::prelude::*;

verus! {

/// What a sample value measures: two indices into the string table.
#[derive(Clone, Copy, Debug, PartialEq, Eq, Structural)]
pub struct ValueType {
    /// The schema's field `type`.
    pub ty: i64,
    pub unit: i64,
}

#[derive(Clone, Copy, Debug, PartialEq, Eq, Structural)]
pub struct Label {
    pub key: i64,
    /// The schema's field `str`.
    pub text: i64,
    pub num: i64,
    pub num_unit: i64,
}

#[derive(Clone, Copy, Debug, PartialEq, Eq, Structural)]
pub struct Mapping {
    pub id: u64,
    pub memory_start: u64,
    pub memory_limit: u64,
    pub file_offset: u64,
    pub filename: i64,
    pub build_id: i64,
    pub has_functions: bool,
    pub has_filenames: bool,
    pub has_line_numbers: bool,
    pub has_inline_frames: bool,
}

#[derive(Clone, Copy, Debug, PartialEq, Eq, Structural)]
pub struct Line {
    pub function_id: u64,
    pub line: i64,
    pub column: i64,
}

#[derive(Clone, Copy, Debug, PartialEq, Eq, Structural)]
pub struct PprofFunction {
    pub id: u64,
    pub name: i64,
    pub system_name: i64,
    pub filename: i64,
    pub start_line: i64,
}

/// One stack, leaf first, with a value per sample type.
#[derive(Clone, Debug, PartialEq, Eq)]
pub struct Sample {
    pub location_id: Vec<u64>,
    pub value: Vec<i64>,
    pub label: Vec<Label>,
}

#[derive(Clone, Debug, PartialEq, Eq)]
pub struct Location {
    pub id: u64,
    pub mapping_id: u64,
    pub address: u64,
    pub line: Vec<Line>,
    pub is_folded: bool,
}

#[derive(Clone, Debug, PartialEq, Eq)]
pub struct Profile {
    pub sample_type: Vec<ValueType>,
    pub sample: Vec<Sample>,
    pub mapping: Vec<Mapping>,
    pub location: Vec<Location>,
    pub function: Vec<PprofFunction>,
    pub string_table: Vec<String>,
    pub drop_frames: i64,
    pub keep_frames: i64,
    pub time_nanos: i64,
    pub duration_nanos: i64,
    pub period_type: Option<ValueType>,
    pub period: i64,
    pub comment: Vec<i64>,
    pub default_sample_type: i64,
    pub doc_url: i64,
}

/// The value of a [`Sample`].
#[verifier::ext_equal]
pub struct SampleView {
    pub location_id: Seq<u64>,
    pub value: Seq<i64>,
    pub label: Seq<Label>,
}

/// The value of a [`Location`].
#[verifier::ext_equal]
pub struct LocationView {
    pub id: u64,
    pub mapping_id: u64,
    pub address: u64,
    pub line: Seq<Line>,
    pub is_folded: bool,
}

/// The value of a [`Profile`].
#[verifier::ext_equal]
pub struct ProfileView {
    pub sample_type: Seq<ValueType>,
    pub sample: Seq<SampleView>,
    pub mapping: Seq<Mapping>,
    pub location: Seq<LocationView>,
    pub function: Seq<PprofFunction>,
    pub string_table: Seq<Seq<char>>,
    pub drop_frames: i64,
    pub keep_frames: i64,
    pub time_nanos: i64,
    pub duration_nanos: i64,
    pub period_type: Option<ValueType>,
    pub period: i64,
    pub comment: Seq<i64>,
    pub default_sample_type: i64,
    pub doc_url: i64,
}

/// The texts of a list of strings.
pub open spec fn texts(s: Seq<String>) -> Seq<Seq<char>> {
    Seq::new(s.len(), |i: int| s[i]@)
}

/// The values of a list of samples.
pub open spec fn sample_views(s: Seq<Sample>) -> Seq<SampleView> {
    Seq::new(s.len(), |i: int| s[i]@)
}

/// The values of a list of locations.
pub open spec fn location_views(s: Seq<Location>) -> Seq<LocationView> {
    Seq::new(s.len(), |i: int| s[i]@)
}

impl View for Sample {
    type V = SampleView;

    open spec fn view(&self) -> SampleView {
        SampleView { location_id: self.location_id@, value: self.value@, label: self.label@ }
    }
}

impl View for Location {
    type V = LocationView;

    open spec fn view(&self) -> LocationView {
        LocationView {
            id: self.id,
            mapping_id: self.mapping_id,
            address: self.address,
            line: self.line@,
            is_folded: self.is_folded,
        }
    }
}

impl View for Profile {
    type V = ProfileView;

    open spec fn view(&self) -> ProfileView {
        ProfileView {
            sample_type: self.sample_type@,
            sample: sample_views(self.sample@),
            mapping: self.mapping@,
            location: location_views(self.location@),
            function: self.function@,
            string_table: texts(self.string_table@),
            drop_frames: self.drop_frames,
            keep_frames: self.keep_frames,
            time_nanos: self.time_nanos,
            duration_nanos: self.duration_nanos,
            period_type: self.period_type,
            period: self.period,
            comment: self.comment@,
            default_sample_type: self.default_sample_type,
            doc_url: self.doc_url,
        }
    }
}

/// The value of a sample in which every field is unset.
pub open spec fn empty_sample() -> SampleView {
    SampleView { location_id: Seq::empty(), value: Seq::empty(), label: Seq::empty() }
}

/// The value of a location in which every field is unset.
pub open spec fn empty_location() -> LocationView {
    LocationView { id: 0, mapping_id: 0, address: 0, line: Seq::empty(), is_folded: false }
}

/// The value of a profile in which every field is unset.
pub open spec fn empty_profile() -> ProfileView {
    ProfileView {
        sample_type: Seq::empty(),
        sample: Seq::empty(),
        mapping: Seq::empty(),
        location: Seq::empty(),
        function: Seq::empty(),
        string_table: Seq::empty(),
        drop_frames: 0,
        keep_frames: 0,
        time_nanos: 0,
        duration_nanos: 0,
        period_type: None,
        period: 0,
        comment: Seq::empty(),
        default_sample_type: 0,
        doc_url: 0,
    }
}

/// The string at a table index: empty where the index is negative or past the end.
pub open spec fn text_at(strings: Seq<Seq<char>>, idx: i64) -> Seq<char> {
    if 0 <= idx < strings.len() {
        strings[idx as int]
    } else {
        Seq::empty()
    }
}

/// The string of `profile` at a table index.
pub fn string_at(profile: &Profile, idx: i64) -> (r: &str)
    ensures
        r@ == text_at(profile@.string_table, idx),
{
    proof {
        reveal_strlit("");
    }
    if idx < 0 || idx as u64 >= profile.string_table.len() as u64 {
        assert(""@ =~= Seq::<char>::empty());
        return "";
    }
    profile.string_table[idx as usize].as_str()
}

} // verus!
