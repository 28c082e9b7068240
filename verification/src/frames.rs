//! Frames that are known by text alone: how they are entered in the tables, and how
//! samples are gathered by stacks of them.
use vstd::prelude::*;
use vstd::string::StringExecFns;
use crate::pool::{
    entered, extends, key_of_pair, law_entered, law_pair_key_injective, law_place_kept,
    lemma_extends_trans, lemma_position, pair_key, place, TextIndex,
};
use crate::proto::texts;
use crate::tables::{
    lemma_function_grows, lemma_with_function, lemma_with_location, tables_ok, with_function,
    with_location, Tables, TablesView,
};
use crate::tally::{first_seen, lemma_first_seen, tally_fits, tally_values, Sums};

verus! {

/// A frame as it is entered in the tables.
pub struct NamedFrame {
    /// What tells frames apart.
    pub key: String,
    /// The name shown.
    pub name: String,
    /// The name as the profiler gave it.
    pub system_name: String,
}

/// The value of a [`NamedFrame`].
pub struct NamedFrameView {
    pub key: Seq<char>,
    pub name: Seq<char>,
    pub system_name: Seq<char>,
}

impl View for NamedFrame {
    type V = NamedFrameView;

    open spec fn view(&self) -> NamedFrameView {
        NamedFrameView { key: self.key@, name: self.name@, system_name: self.system_name@ }
    }
}

/// The values of a stack.
pub open spec fn named_stack(s: Seq<NamedFrame>) -> Seq<NamedFrameView> {
    Seq::new(s.len(), |i: int| s[i]@)
}

/// The values of a list of stacks.
pub open spec fn named_stacks(s: Seq<Vec<NamedFrame>>) -> Seq<Seq<NamedFrameView>> {
    Seq::new(s.len(), |i: int| named_stack(s[i]@))
}

/// The tables with a function and a location for the frame.
pub open spec fn frame_entered(t: TablesView, f: NamedFrameView) -> TablesView {
    if t.keys.contains(f.key) {
        t
    } else {
        let u = with_function(t, f.key, f.name, f.system_name, Seq::empty(), 0);
        with_location(u, 1, place(u.keys, f.key), 0, 0)
    }
}

/// The tables with every frame of a stack entered.
pub open spec fn stack_entered(t: TablesView, stack: Seq<NamedFrameView>) -> TablesView
    decreases stack.len(),
{
    if stack.len() == 0 {
        t
    } else {
        frame_entered(stack_entered(t, stack.drop_last()), stack.last())
    }
}

/// The tables with every stack entered.
pub open spec fn stacks_entered(t: TablesView, stacks: Seq<Seq<NamedFrameView>>) -> TablesView
    decreases stacks.len(),
{
    if stacks.len() == 0 {
        t
    } else {
        stack_entered(stacks_entered(t, stacks.drop_last()), stacks.last())
    }
}

/// A stack as location ids.
pub open spec fn stack_ids(keys: Seq<Seq<char>>, stack: Seq<NamedFrameView>) -> Seq<u64> {
    Seq::new(stack.len(), |i: int| place(keys, stack[i].key))
}

/// What holds of the tables at any time: each function has one location.
pub open spec fn named_ok(t: TablesView) -> bool {
    &&& tables_ok(t)
    &&& t.locations.len() == t.functions.len()
    &&& forall|i: int| 0 <= i < t.locations.len() ==> (#[trigger] t.locations[i]).mapping_id == 1
}

pub(crate) proof fn lemma_frame_entered(t: TablesView, f: NamedFrameView)
    requires
        named_ok(t),
        t.functions.len() < u64::MAX,
    ensures
        named_ok(frame_entered(t, f)),
        frame_entered(t, f).keys == entered(t.keys, f.key),
        extends(t.keys, frame_entered(t, f).keys),
        extends(t.strings, frame_entered(t, f).strings),
{
    law_entered(t.keys, f.key);
    if t.keys.contains(f.key) {
        assert(t.strings.take(t.strings.len() as int) =~= t.strings);
    } else {
        let none = Seq::<char>::empty();
        lemma_with_function(t, f.key, f.name, f.system_name, none, 0);
        lemma_function_grows(t, f.key, f.name, f.system_name, none, 0);
        let u = with_function(t, f.key, f.name, f.system_name, none, 0);
        lemma_with_location(u, 1, place(u.keys, f.key), 0, 0);
    }
}

/// Whether every frame of a stack has a location.
pub open spec fn stack_known(keys: Seq<Seq<char>>, stack: Seq<NamedFrameView>) -> bool {
    forall|j: int| 0 <= j < stack.len() ==> keys.contains((#[trigger] stack[j]).key)
}

/// Ids given out early stay right when the tables grow.
proof fn lemma_stack_ids_stable(a: Seq<Seq<char>>, b: Seq<Seq<char>>, stack: Seq<NamedFrameView>)
    requires
        extends(a, b),
        b.no_duplicates(),
        stack_known(a, stack),
    ensures
        stack_ids(a, stack) == stack_ids(b, stack),
        stack_known(b, stack),
{
    assert forall|j: int| 0 <= j < stack.len() implies b.contains((#[trigger] stack[j]).key) && place(
        a,
        stack[j].key,
    ) == place(b, stack[j].key) by {
        law_place_kept(a, b, stack[j].key);
    }
    assert(stack_ids(a, stack) =~= stack_ids(b, stack));
}

/// Enters a frame, and gives the id of its location.
fn enter_frame(t: &mut Tables, f: &NamedFrame) -> (id: u64)
    requires
        old(t).wf(),
        named_ok(old(t)@),
    ensures
        final(t).wf(),
        named_ok(final(t)@),
        final(t)@ == frame_entered(old(t)@, f@),
        id == place(final(t)@.keys, f@.key),
        final(t)@.keys.contains(f@.key),
        extends(old(t)@.keys, final(t)@.keys),
        extends(old(t)@.strings, final(t)@.strings),
{
    let ghost before = t@;
    if let Some(id) = t.function_with(f.key.as_str()) {
        proof {
            law_entered(before.keys, f@.key);
            assert(before.strings.take(before.strings.len() as int) =~= before.strings);
        }
        return id;
    }
    proof {
        reveal_strlit("");
        assert(""@ =~= Seq::<char>::empty());
    }
    let fid: u64 = t.function(f.key.clone(), f.name.as_str(), f.system_name.as_str(), "", 0);
    let id: u64 = t.location(1, fid, 0, 0);
    proof {
        lemma_frame_entered(before, f@);
        lemma_position(t@.keys, before.keys.len() as int);
    }
    id
}

/// Enters the frames of a stack, and gives their location ids.
fn enter_stack(t: &mut Tables, stack: &Vec<NamedFrame>) -> (ids: Vec<u64>)
    requires
        old(t).wf(),
        named_ok(old(t)@),
    ensures
        final(t).wf(),
        named_ok(final(t)@),
        final(t)@ == stack_entered(old(t)@, named_stack(stack@)),
        ids@ == stack_ids(final(t)@.keys, named_stack(stack@)),
        stack_known(final(t)@.keys, named_stack(stack@)),
        extends(old(t)@.keys, final(t)@.keys),
        extends(old(t)@.strings, final(t)@.strings),
{
    let ghost v = named_stack(stack@);
    let ghost t0 = t@;
    let mut ids: Vec<u64> = Vec::new();
    assert(t0.keys.take(t0.keys.len() as int) =~= t0.keys);
    assert(t0.strings.take(t0.strings.len() as int) =~= t0.strings);
    for i in 0..stack.len()
        invariant
            v == named_stack(stack@),
            t.wf(),
            named_ok(t@),
            t@ == stack_entered(t0, v.take(i as int)),
            ids@ == stack_ids(t@.keys, v.take(i as int)),
            stack_known(t@.keys, v.take(i as int)),
            extends(t0.keys, t@.keys),
            extends(t0.strings, t@.strings),
    {
        let ghost before = t@;
        let ghost done = v.take(i as int);
        let ghost next = v.take(i + 1);
        let id: u64 = enter_frame(t, &stack[i]);
        ids.push(id);
        proof {
            assert(next.drop_last() =~= done);
            lemma_extends_trans(t0.keys, before.keys, t@.keys);
            lemma_extends_trans(t0.strings, before.strings, t@.strings);
            lemma_stack_ids_stable(before.keys, t@.keys, done);
            assert forall|x: int| 0 <= x < next.len() implies t@.keys.contains((#[trigger] next[x]).key) by {
                if x < i {
                    assert(t@.keys.contains(done[x].key));
                }
            }
            assert(ids@ =~= stack_ids(t@.keys, next));
        }
    }
    assert(v.take(v.len() as int) =~= v);
    ids
}

/// Enters the frames of all stacks, and gives the stacks as location ids.
pub(crate) fn enter_stacks(t: &mut Tables, stacks: &Vec<Vec<NamedFrame>>) -> (r: Vec<Vec<u64>>)
    requires
        old(t).wf(),
        named_ok(old(t)@),
    ensures
        final(t).wf(),
        named_ok(final(t)@),
        final(t)@ == stacks_entered(old(t)@, named_stacks(stacks@)),
        r@.len() == stacks@.len(),
        forall|i: int|
            0 <= i < r@.len() ==> (#[trigger] r@[i])@ == stack_ids(final(t)@.keys, named_stack(stacks@[i]@)),
        forall|i: int, j: int|
            0 <= i < r@.len() && 0 <= j < r@[i]@.len() ==> 1 <= #[trigger] r@[i]@[j] <= final(t)@.locations.len(),
        extends(old(t)@.strings, final(t)@.strings),
{
    let ghost v = named_stacks(stacks@);
    let ghost t0 = t@;
    let mut r: Vec<Vec<u64>> = Vec::new();
    assert(t0.strings.take(t0.strings.len() as int) =~= t0.strings);
    for i in 0..stacks.len()
        invariant
            v == named_stacks(stacks@),
            t.wf(),
            named_ok(t@),
            t@ == stacks_entered(t0, v.take(i as int)),
            r@.len() == i,
            forall|k: int| 0 <= k < i ==> (#[trigger] r@[k])@ == stack_ids(t@.keys, v[k]),
            forall|k: int| 0 <= k < i ==> stack_known(t@.keys, #[trigger] v[k]),
            extends(t0.strings, t@.strings),
    {
        let ghost before = t@;
        let ghost done = r@;
        let ids = enter_stack(t, &stacks[i]);
        r.push(ids);
        proof {
            assert(v.take(i + 1).drop_last() =~= v.take(i as int));
            lemma_extends_trans(t0.strings, before.strings, t@.strings);
            assert forall|k: int| 0 <= k < i + 1 implies stack_known(t@.keys, #[trigger] v[k]) && r@[k]@
                == stack_ids(t@.keys, v[k]) by {
                if k < i {
                    assert(r@[k] == done[k]);
                    lemma_stack_ids_stable(before.keys, t@.keys, v[k]);
                }
            }
            assert forall|k: int| 0 <= k < i + 1 implies (#[trigger] r@[k])@ == stack_ids(t@.keys, v[k]) by {
                assert(stack_known(t@.keys, v[k]));
            }
        }
    }
    proof {
        assert(v.take(v.len() as int) =~= v);
        assert forall|i: int| 0 <= i < r@.len() implies (#[trigger] r@[i])@ == stack_ids(
            t@.keys,
            named_stack(stacks@[i]@),
        ) by {
            assert(v[i] == named_stack(stacks@[i]@));
        }
        assert forall|i: int, j: int| 0 <= i < r@.len() && 0 <= j < r@[i]@.len() implies 1
            <= #[trigger] r@[i]@[j] <= t@.locations.len() by {
            assert(stack_known(t@.keys, v[i]));
            assert(t@.keys.contains(v[i][j].key));
        }
    }
    r
}

/// A text that stands for a stack of texts.
pub open spec fn stack_key(stack: Seq<Seq<char>>) -> Seq<char>
    decreases stack.len(),
{
    if stack.len() == 0 {
        Seq::empty()
    } else {
        pair_key(stack.last(), stack_key(stack.drop_last()))
    }
}

/// Different stacks have different keys.
pub proof fn law_stack_key_injective(a: Seq<Seq<char>>, b: Seq<Seq<char>>)
    requires
        stack_key(a) == stack_key(b),
    ensures
        a == b,
    decreases a.len(),
{
    if a.len() == 0 {
        if b.len() > 0 {
            assert(stack_key(b)[b.last().len() as int] == '|');
        }
        assert(a =~= b);
    } else if b.len() == 0 {
        assert(stack_key(a)[a.last().len() as int] == '|');
    } else {
        law_pair_key_injective(
            a.last(),
            stack_key(a.drop_last()),
            b.last(),
            stack_key(b.drop_last()),
        );
        law_stack_key_injective(a.drop_last(), b.drop_last());
        assert(a =~= a.drop_last().push(a.last()));
        assert(b =~= b.drop_last().push(b.last()));
    }
}

pub(crate) fn key_of_stack(stack: &Vec<String>) -> (r: String)
    ensures
        r@ == stack_key(texts(stack@)),
{
    let ghost v = texts(stack@);
    let mut r = String::new();
    assert(r@ =~= stack_key(v.take(0)));
    for i in 0..stack.len()
        invariant
            v == texts(stack@),
            r@ == stack_key(v.take(i as int)),
    {
        assert(v.take(i + 1).drop_last() =~= v.take(i as int));
        r = key_of_pair(stack[i].as_str(), r.as_str());
    }
    assert(v.take(v.len() as int) =~= v);
    r
}

/// The keys of a list of stacks.
pub open spec fn stack_keys(s: Seq<Seq<Seq<char>>>) -> Seq<Seq<char>> {
    Seq::new(s.len(), |i: int| stack_key(s[i]))
}

proof fn lemma_key_contained(s: Seq<Seq<Seq<char>>>, k: Seq<Seq<char>>)
    ensures
        stack_keys(s).contains(stack_key(k)) <==> s.contains(k),
{
    if s.contains(k) {
        let i = s.index_of(k);
        assert(stack_keys(s)[i] == stack_key(k));
    }
    if stack_keys(s).contains(stack_key(k)) {
        let i = stack_keys(s).index_of(stack_key(k));
        law_stack_key_injective(s[i], k);
        assert(s[i] == k);
    }
}

/// Samples gathered by a stack of texts.
pub struct TextTally {
    index: TextIndex,
    sums: Sums<Seq<Seq<char>>>,
    len: usize,
}

impl TextTally {
    /// The stacks that came, in order.
    pub closed spec fn seen(&self) -> Seq<Seq<Seq<char>>> {
        self.sums.seen()
    }

    /// The weights that came with them.
    pub closed spec fn weights(&self) -> Seq<i64> {
        self.sums.weights()
    }

    pub closed spec fn wf(&self) -> bool {
        let keys = first_seen(self.sums.seen());
        &&& self.index.wf()
        &&& self.sums.wf()
        &&& self.index.table() == stack_keys(keys)
        &&& self.len == keys.len()
    }

    pub fn new() -> (r: TextTally)
        ensures
            r.wf(),
            r.seen() == Seq::<Seq<Seq<char>>>::empty(),
            r.weights() == Seq::<i64>::empty(),
    {
        let r = TextTally { index: TextIndex::new(), sums: Sums::new(), len: 0 };
        assert(stack_keys(first_seen(r.sums.seen())) =~= Seq::<Seq<char>>::empty());
        r
    }

    /// Takes in one sample, and says whether its stack is new.
    pub fn add(&mut self, stack: &Vec<String>, weight: i64) -> (r: bool)
        requires
            old(self).wf(),
            old(self).seen().len() < u64::MAX,
            first_seen(old(self).seen()).len() < usize::MAX,
        ensures
            final(self).wf(),
            final(self).seen() == old(self).seen().push(texts(stack@)),
            final(self).weights() == old(self).weights().push(weight),
            r == !first_seen(old(self).seen()).contains(texts(stack@)),
    {
        let ghost s0 = self.sums.seen();
        let ghost k = texts(stack@);
        let ghost keys = first_seen(s0);
        let key = key_of_stack(stack);
        proof {
            lemma_first_seen(s0);
            lemma_key_contained(keys, k);
            assert(s0.push(k).drop_last() =~= s0);
            law_entered(keys, k);
        }
        match self.index.get(key.as_str()) {
            Some(place) => {
                proof {
                    let j = keys.index_of(k);
                    self.index.lemma_table();
                    lemma_position(self.index.table(), j);
                    assert(self.index.table()[j] == stack_key(k));
                }
                let i: usize = (place - 1) as usize;
                self.sums.add_at(i, Ghost(k), weight);
                false
            },
            None => {
                let i: usize = self.len;
                self.len = i + 1;
                self.index.push(key, i as u64 + 1);
                self.sums.add_at(i, Ghost(k), weight);
                assert(self.index.table() =~= stack_keys(keys.push(k)));
                true
            },
        }
    }

    /// The count and the sum of each distinct stack, unless one of those does not fit in 64
    /// bits.
    pub fn finish(self) -> (r: Option<Vec<(i64, i64)>>)
        requires
            self.wf(),
        ensures
            match r {
                Some(values) => tally_fits(self.seen(), self.weights()) && values@ == tally_values(
                    self.seen(),
                    self.weights(),
                ),
                None => !tally_fits(self.seen(), self.weights()),
            },
    {
        self.sums.finish()
    }
}

} // verus!
