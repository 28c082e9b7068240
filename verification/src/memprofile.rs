//! Recording the allocations of an instrumented WebAssembly module.
use vstd::prelude::*;
use vstd::string::StringExecFns;
use crate::alloc_profile::{
    alloc_encoded, alloc_profile, encode_alloc_profile, lemma_unscaled_fits, scale_values,
    scaled_fits, scaled_values, AllocError,
};
use crate::demangle::{demangle, demangled};
use crate::frames::{named_stack, named_stacks, NamedFrame, NamedFrameView, TextTally};
use crate::pool::{key_of_pair, law_entered, law_pair_key_injective, pair_key};
use crate::proto::texts;
use crate::tally::{first_seen, lemma_first_seen};
use crate::text::{append_decimal, dec, law_decimal_round_trip};

verus! {

/// A frame of a recorded stack.
#[derive(Debug)]
pub struct FrameKey {
    /// The number of the function in its module.
    pub func_index: u32,
    pub name: Option<String>,
}

/// The value of a [`FrameKey`].
#[verifier::ext_equal]
pub struct FrameKeyView {
    pub func_index: u32,
    pub name: Option<Seq<char>>,
}

impl View for FrameKey {
    type V = FrameKeyView;

    open spec fn view(&self) -> FrameKeyView {
        FrameKeyView {
            func_index: self.func_index,
            name: match self.name {
                Some(s) => Some(s@),
                None => None,
            },
        }
    }
}

pub open spec fn key_views(s: Seq<FrameKey>) -> Seq<FrameKeyView> {
    Seq::new(s.len(), |i: int| s[i]@)
}

/// A text that stands for a frame.
pub open spec fn key_text(f: FrameKeyView) -> Seq<char> {
    pair_key(
        dec(f.func_index as nat),
        match f.name {
            Some(s) => "+"@ + s,
            None => Seq::empty(),
        },
    )
}

/// Different frames have different texts.
pub proof fn law_key_text_injective(a: FrameKeyView, b: FrameKeyView)
    requires
        key_text(a) == key_text(b),
    ensures
        a == b,
{
    let x = match a.name {
        Some(s) => "+"@ + s,
        None => Seq::<char>::empty(),
    };
    let y = match b.name {
        Some(s) => "+"@ + s,
        None => Seq::<char>::empty(),
    };
    law_pair_key_injective(dec(a.func_index as nat), x, dec(b.func_index as nat), y);
    law_decimal_round_trip(a.func_index as nat);
    law_decimal_round_trip(b.func_index as nat);
    reveal_strlit("+");
    assert("+"@.len() == 1);
    if let Some(s) = a.name {
        if let Some(t) = b.name {
            assert(s =~= x.skip(1));
            assert(t =~= y.skip(1));
        }
    }
    assert(a =~= b);
}

/// A stack as texts.
pub open spec fn stack_texts(s: Seq<FrameKeyView>) -> Seq<Seq<char>> {
    Seq::new(s.len(), |i: int| key_text(s[i]))
}

proof fn lemma_stack_texts_injective(a: Seq<FrameKeyView>, b: Seq<FrameKeyView>)
    requires
        stack_texts(a) == stack_texts(b),
    ensures
        a == b,
{
    assert(stack_texts(a).len() == a.len() && stack_texts(b).len() == b.len());
    assert forall|i: int| 0 <= i < a.len() implies a[i] == b[i] by {
        assert(stack_texts(a)[i] == stack_texts(b)[i]);
        law_key_text_injective(a[i], b[i]);
    }
    assert(a =~= b);
}

/// The name of a frame as it was recorded. A function without a name is known by number.
pub open spec fn raw_name(f: FrameKeyView) -> Seq<char> {
    match f.name {
        Some(s) => s,
        None => "func["@ + dec(f.func_index as nat) + "]"@,
    }
}

/// A frame as it is entered in the tables. The number of its function tells it apart.
pub open spec fn named_frame(f: FrameKeyView, no_demangle: bool) -> NamedFrameView {
    NamedFrameView {
        key: dec(f.func_index as nat),
        name: if no_demangle {
            raw_name(f)
        } else {
            demangled(raw_name(f))
        },
        system_name: raw_name(f),
    }
}

pub open spec fn named_frames(s: Seq<FrameKeyView>, no_demangle: bool) -> Seq<NamedFrameView> {
    Seq::new(s.len(), |i: int| named_frame(s[i], no_demangle))
}

/// The stacks as texts.
pub open spec fn all_texts(s: Seq<Seq<FrameKeyView>>) -> Seq<Seq<Seq<char>>> {
    Seq::new(s.len(), |i: int| stack_texts(s[i]))
}

/// A recorded stack with this text.
pub open spec fn stack_with(s: Seq<Seq<FrameKeyView>>, key: Seq<Seq<char>>) -> Seq<FrameKeyView> {
    s[all_texts(s).index_of(key)]
}

/// The distinct stacks in the order in which they first came.
pub open spec fn distinct(s: Seq<Seq<FrameKeyView>>, no_demangle: bool) -> Seq<Seq<NamedFrameView>> {
    let keys = first_seen(all_texts(s));
    Seq::new(keys.len(), |i: int| named_frames(stack_with(s, keys[i]), no_demangle))
}

/// Whether the `n`th allocation is recorded: every one, or the first of each `rate`.
pub open spec fn is_sampled(n: u64, rate: u32) -> bool {
    rate <= 1 || n % (rate as u64) == 0
}

/// The names of functions that are to be passed over.
pub open spec fn malloc_frames() -> Seq<char> {
    "^moonbit\\.(gc\\.)?malloc$"@
}

/// The allocations of a run.
pub struct AllocRecorder {
    sample_rate: u32,
    counter: u64,
    /// The distinct stacks.
    stacks: Vec<Vec<FrameKey>>,
    tally: TextTally,
    taken: u64,
    kept: Ghost<Seq<Seq<FrameKeyView>>>,
}

impl AllocRecorder {
    /// One allocation of this many is recorded.
    pub closed spec fn rate(&self) -> u32 {
        self.sample_rate
    }

    /// The number of allocations so far.
    pub closed spec fn count(&self) -> u64 {
        self.counter
    }

    /// The stacks of the recorded allocations, in order.
    pub closed spec fn recorded(&self) -> Seq<Seq<FrameKeyView>> {
        self.kept@
    }

    /// Their sizes.
    pub closed spec fn sizes(&self) -> Seq<i64> {
        self.tally.weights()
    }

    pub closed spec fn wf(&self) -> bool {
        let keys = first_seen(all_texts(self.kept@));
        &&& self.sample_rate >= 1
        &&& self.tally.wf()
        &&& self.tally.seen() == all_texts(self.kept@)
        &&& self.taken == self.kept@.len()
        &&& self.stacks@.len() == keys.len()
        &&& forall|i: int| 0 <= i < keys.len() ==> stack_texts(key_views((#[trigger] self.stacks@[i])@)) == keys[i]
    }

    /// A recorder that takes one allocation out of `sample_rate`. A rate of zero counts as
    /// one.
    pub fn new(sample_rate: u32) -> (r: AllocRecorder)
        ensures
            r.wf(),
            r.rate() == if sample_rate == 0 {
                1
            } else {
                sample_rate
            },
            r.count() == 0,
            r.recorded() == Seq::<Seq<FrameKeyView>>::empty(),
            r.sizes() == Seq::<i64>::empty(),
    {
        let r = AllocRecorder {
            sample_rate: if sample_rate == 0 {
                1
            } else {
                sample_rate
            },
            counter: 0,
            stacks: Vec::new(),
            tally: TextTally::new(),
            taken: 0,
            kept: Ghost(Seq::empty()),
        };
        assert(r.tally.seen() =~= all_texts(r.kept@));
        r
    }

    /// Takes note of an allocation, and says whether its stack is wanted. A size that is not
    /// above zero does not count.
    pub fn wants(&mut self, size: i32) -> (r: bool)
        requires
            old(self).wf(),
        ensures
            final(self).wf(),
            final(self).rate() == old(self).rate(),
            final(self).recorded() == old(self).recorded(),
            final(self).sizes() == old(self).sizes(),
            final(self).count() == if size <= 0 {
                old(self).count()
            } else {
                old(self).count().wrapping_add(1)
            },
            r == (size > 0 && is_sampled(old(self).count(), old(self).rate())),
    {
        if size <= 0 {
            return false;
        }
        let n: u64 = self.counter;
        self.counter = n.wrapping_add(1);
        self.sample_rate <= 1 || n % (self.sample_rate as u64) == 0
    }

    /// Records an allocation with its stack, innermost frame first. One without a stack is
    /// left out. The result says whether the recorder still had room.
    pub fn record(&mut self, frames: Vec<FrameKey>, size: i32) -> (r: bool)
        requires
            old(self).wf(),
        ensures
            final(self).wf(),
            final(self).rate() == old(self).rate(),
            final(self).count() == old(self).count(),
            old(self).recorded().len() < usize::MAX ==> r,
            final(self).recorded() == if frames@.len() == 0 || !r {
                old(self).recorded()
            } else {
                old(self).recorded().push(key_views(frames@))
            },
            final(self).sizes() == if frames@.len() == 0 || !r {
                old(self).sizes()
            } else {
                old(self).sizes().push(size as i64)
            },
    {
        if frames.len() == 0 {
            return true;
        }
        if self.taken >= usize::MAX as u64 {
            return false;
        }
        let key = texts_of(&frames);
        let ghost before = self.kept@;
        let ghost v = key_views(frames@);
        let ghost seen = self.tally.seen();
        let ghost old_stacks = self.stacks@;
        proof {
            lemma_first_seen(seen);
            assert(seen.push(texts(key@)).drop_last() =~= seen);
            law_entered(first_seen(seen), texts(key@));
        }
        let new: bool = self.tally.add(&key, size as i64);
        if new {
            self.stacks.push(frames);
        }
        self.taken = self.taken + 1;
        self.kept = Ghost(before.push(v));
        proof {
            assert(self.tally.seen() =~= all_texts(self.kept@));
            let keys = first_seen(all_texts(self.kept@));
            assert forall|i: int| 0 <= i < keys.len() implies stack_texts(key_views((#[trigger] self.stacks@[i])@))
                == keys[i] by {
                if i < old_stacks.len() {
                    assert(self.stacks@[i] == old_stacks[i]);
                }
            }
        }
        true
    }

    /// The profile of the recorded allocations.
    pub fn encode_pprof(self, no_demangle: bool) -> (r: Result<Vec<u8>, AllocError>)
        requires
            self.wf(),
        ensures
            ({
                let keys = all_texts(self.recorded());
                let scale = self.rate() as int;
                alloc_encoded(
                    scaled_fits(keys, self.sizes(), scale),
                    alloc_profile(
                        distinct(self.recorded(), no_demangle),
                        scaled_values(keys, self.sizes(), scale),
                        malloc_frames(),
                    ),
                    r,
                )
            }),
    {
        let ghost seen = self.tally.seen();
        let ghost weights = self.tally.weights();
        let ghost all = self.kept@;
        let ghost keys = first_seen(seen);
        let rate: u32 = self.sample_rate;
        proof {
            if scaled_fits(seen, weights, rate as int) {
                lemma_unscaled_fits(seen, weights, rate as int);
            }
            lemma_first_seen(seen);
            assert forall|i: int| 0 <= i < keys.len() implies seen.contains(#[trigger] keys[i]) by {
                assert(keys.contains(keys[i]));
            }
        }
        let values = match self.tally.finish() {
            Some(x) => x,
            None => {
                return Err(AllocError::Overflow);
            },
        };
        let scaled = match scale_values::<Seq<Seq<char>>>(&values, rate, Ghost(seen), Ghost(weights)) {
            Some(v) => v,
            None => {
                return Err(AllocError::Overflow);
            },
        };
        let stacks = &self.stacks;
        let mut named: Vec<Vec<NamedFrame>> = Vec::new();
        for i in 0..stacks.len()
            invariant
                keys == first_seen(seen),
                seen == all_texts(all),
                stacks@.len() == keys.len(),
                forall|i: int| 0 <= i < keys.len() ==> stack_texts(key_views((#[trigger] stacks@[i])@)) == keys[i],
                forall|i: int| 0 <= i < keys.len() ==> seen.contains(#[trigger] keys[i]),
                named@.len() == i,
                forall|k: int|
                    0 <= k < i ==> named_stack((#[trigger] named@[k])@) == named_frames(
                        stack_with(all, keys[k]),
                        no_demangle,
                    ),
        {
            let one = name_frames(&stacks[i], no_demangle);
            proof {
                let j = seen.index_of(keys[i as int]);
                assert(seen.contains(keys[i as int]));
                assert(0 <= j < seen.len() && seen[j] == keys[i as int]);
                assert(stack_texts(key_views(stacks@[i as int]@)) == keys[i as int]);
                lemma_stack_texts_injective(key_views(stacks@[i as int]@), all[j]);
            }
            named.push(one);
        }
        assert(named_stacks(named@) =~= distinct(all, no_demangle));
        encode_alloc_profile(&named, &scaled, "^moonbit\\.(gc\\.)?malloc$")
    }
}

fn texts_of(frames: &Vec<FrameKey>) -> (r: Vec<String>)
    ensures
        texts(r@) == stack_texts(key_views(frames@)),
{
    let mut r: Vec<String> = Vec::new();
    for i in 0..frames.len()
        invariant
            r@.len() == i,
            forall|k: int| 0 <= k < i ==> (#[trigger] r@[k])@ == key_text(frames@[k]@),
    {
        let mut number = String::new();
        append_decimal(&mut number, frames[i].func_index as u64);
        let mut name = String::new();
        if let Some(s) = &frames[i].name {
            name.append("+");
            name.append(s.as_str());
        }
        proof {
            assert(number@ =~= dec(frames@[i as int].func_index as nat));
            assert(name@ =~= match frames@[i as int].name {
                Some(s) => "+"@ + s@,
                None => Seq::empty(),
            });
        }
        r.push(key_of_pair(number.as_str(), name.as_str()));
    }
    assert(texts(r@) =~= stack_texts(key_views(frames@)));
    r
}

fn name_frames(frames: &Vec<FrameKey>, no_demangle: bool) -> (r: Vec<NamedFrame>)
    ensures
        named_stack(r@) == named_frames(key_views(frames@), no_demangle),
{
    let mut r: Vec<NamedFrame> = Vec::new();
    for i in 0..frames.len()
        invariant
            r@.len() == i,
            forall|k: int| 0 <= k < i ==> (#[trigger] r@[k])@ == named_frame(frames@[k]@, no_demangle),
    {
        let mut key = String::new();
        append_decimal(&mut key, frames[i].func_index as u64);
        let raw: String = match &frames[i].name {
            Some(s) => s.clone(),
            None => {
                let mut s = "func[".to_owned();
                append_decimal(&mut s, frames[i].func_index as u64);
                s.append("]");
                s
            },
        };
        let name: String = if no_demangle {
            raw.clone()
        } else {
            demangle(raw.as_str())
        };
        assert(key@ =~= dec(frames@[i as int].func_index as nat));
        assert(raw@ =~= raw_name(frames@[i as int]@));
        r.push(NamedFrame { key, name, system_name: raw });
    }
    assert(named_stack(r@) =~= named_frames(key_views(frames@), no_demangle));
    r
}

/// How many of the first `n` allocations are recorded.
pub open spec fn sampled_among(n: nat, rate: u32) -> nat
    decreases n,
{
    if n == 0 {
        0
    } else {
        sampled_among((n - 1) as nat, rate) + if is_sampled((n - 1) as u64, rate) {
            1nat
        } else {
            0
        }
    }
}

/// A recorder takes the first of every `rate` allocations: what it credits them with,
/// `rate` each, is the number of allocations to within one group.
pub proof fn law_sampling(n: nat, rate: u32)
    requires
        rate >= 1,
        n <= u64::MAX,
    ensures
        n <= sampled_among(n, rate) * rate < n + rate,
    decreases n,
{
    let r = rate as int;
    if n > 0 {
        let m = (n - 1) as nat;
        law_sampling(m, rate);
        let k = sampled_among(m, rate) as int;
        let q = m as int / r;
        let b = m as int % r;
        assert(m == q * r + b && 0 <= b < r) by (nonlinear_arith)
            requires
                r >= 1,
                q == m as int / r,
                b == m as int % r,
        ;
        assert(is_sampled(m as u64, rate) == (b == 0)) by {
            if rate == 1 {
                assert(b == 0);
            }
        }
        assert((k + 1) * r == k * r + r) by (nonlinear_arith);
        if b == 0 {
            // k * r is a multiple of r in m .. m + r, and so is m.
            assert(k == q) by (nonlinear_arith)
                requires
                    q * r <= k * r < q * r + r,
                    r >= 1,
            ;
        } else {
            assert(k == q + 1) by (nonlinear_arith)
                requires
                    q * r + b <= k * r < q * r + b + r,
                    0 < b < r,
            ;
            assert((q + 1) * r == q * r + r) by (nonlinear_arith);
        }
        let c = sampled_among(n, rate) as int;
        assert(c == if b == 0 {
            k + 1
        } else {
            k
        });
        assert(n <= c * r < n + r);
    } else {
        assert(0 * r == 0) by (nonlinear_arith);
    }
}

} // verus!
