//! What an instrumented module tells the hook: every allocation, with its bytes.
use vstd::prelude::*;
use crate::instrument::{
    added, are_added, elem_size, fields_size, first_named, function_rewritten, functions_rewritten,
    held_in, instrumented, instrumented_by, is_rewrite, is_walk, lemma_added_no_sites, lemma_same_sites,
    lemma_sites_joined, local_ids, seq_rewritten, seqs_rewritten, site, sites, InstrumentReport,
};
use crate::wasm::{
    added_op, alloc_op, given, held, is_added, nest_op, storage, AddedOp, AllocOp, FunctionEntryView,
    ModuleView, NestView, Placed, SeqKey, ShapeView, Storage,
};

verus! {

/// How many bits a field takes. A reference counts as 32.
pub open spec fn bits(s: Storage) -> nat {
    match s {
        Storage::I8 => 8,
        Storage::I16 => 16,
        Storage::I32 => 32,
        Storage::I64 => 64,
        Storage::F32 => 32,
        Storage::F64 => 64,
        Storage::V128 => 128,
        Storage::Ref => 32,
    }
}

/// How many bits fields take together.
pub open spec fn all_bits(f: Seq<walrus::FieldType>) -> nat
    decreases f.len(),
{
    if f.len() == 0 {
        0
    } else {
        bits(storage(f[0])) + all_bits(f.drop_first())
    }
}

/// Whether the instructions right before a place hand a number of bytes to the hook.
pub open spec fn tells_bytes(list: Seq<Placed>, at: int, bytes: int, hook: walrus::FunctionId) -> bool {
    &&& at >= 2
    &&& added_op(list[at - 2].0) == AddedOp::Const { value: bytes as i32 }
    &&& added_op(list[at - 1].0) == AddedOp::Call { func: hook }
}

/// Whether the instructions right before a place hand a number of bytes, times what is on top
/// of the stack, to the hook, and put that back.
pub open spec fn tells_bytes_each(list: Seq<Placed>, at: int, bytes: int, hook: walrus::FunctionId) -> bool {
    &&& at >= 6
    &&& added_op(list[at - 6].0) is LocalSet
    &&& added_op(list[at - 5].0) == AddedOp::Const { value: bytes as i32 }
    &&& added_op(list[at - 4].0) == AddedOp::LocalGet { local: added_op(list[at - 6].0)->LocalSet_local }
    &&& added_op(list[at - 3].0) is MulI32
    &&& added_op(list[at - 2].0) == AddedOp::Call { func: hook }
    &&& added_op(list[at - 1].0) == AddedOp::LocalGet { local: added_op(list[at - 6].0)->LocalSet_local }
}

/// Whether the hook is told of what an instruction allocates. A struct takes the bytes of its
/// fields, an array those of an element for each one. `array.new_fixed` says how many there
/// are, and the other ones have the number on top of the stack. What takes no byte, or more
/// than 31 bits can count, is left open.
pub open spec fn is_told(
    list: Seq<Placed>,
    at: int,
    types: Map<usize, ShapeView>,
    hook: walrus::FunctionId,
) -> bool {
    match alloc_op(list[at].0) {
        AllocOp::StructNew { ty } => types.contains_key(ty) ==> (types[ty] matches ShapeView::Struct(f) ==> (0
            < all_bits(f) <= 8 * 0x7fff_ffff ==> tells_bytes(list, at, all_bits(f) as int / 8, hook))),
        AllocOp::StructNewDefault { ty } => types.contains_key(ty) ==> (types[ty] matches ShapeView::Struct(f) ==> (0
            < all_bits(f) <= 8 * 0x7fff_ffff ==> tells_bytes(list, at, all_bits(f) as int / 8, hook))),
        AllocOp::ArrayNewFixed { ty, len } => types.contains_key(ty) ==> (types[ty] matches ShapeView::Array(f) ==> (0
            < len * bits(storage(f)) <= 8 * 0x7fff_ffff ==> tells_bytes(
            list,
            at,
            len * bits(storage(f)) / 8,
            hook,
        ))),
        AllocOp::ArrayNew { ty } => types.contains_key(ty) ==> (types[ty] matches ShapeView::Array(f)
            ==> tells_bytes_each(list, at, bits(storage(f)) as int / 8, hook)),
        AllocOp::ArrayNewDefault { ty } => types.contains_key(ty) ==> (types[ty] matches ShapeView::Array(f)
            ==> tells_bytes_each(list, at, bits(storage(f)) as int / 8, hook)),
        AllocOp::ArrayNewData { ty } => types.contains_key(ty) ==> (types[ty] matches ShapeView::Array(f)
            ==> tells_bytes_each(list, at, bits(storage(f)) as int / 8, hook)),
        AllocOp::ArrayNewElem { ty } => types.contains_key(ty) ==> (types[ty] matches ShapeView::Array(f)
            ==> tells_bytes_each(list, at, bits(storage(f)) as int / 8, hook)),
        AllocOp::Other => true,
    }
}

/// Whether the hook is told of everything that instructions allocate.
pub open spec fn all_told(list: Seq<Placed>, types: Map<usize, ShapeView>, hook: walrus::FunctionId) -> bool {
    forall|at: int| 0 <= at < list.len() ==> #[trigger] is_told(list, at, types, hook)
}

/// Whether instructions are among others, in their order.
pub open spec fn stay(old: Seq<Placed>, new: Seq<Placed>) -> bool
    decreases new.len(),
{
    ||| old.len() == 0
    ||| (new.len() > 0 && old.last() == new.last() && stay(old.drop_last(), new.drop_last()))
    ||| (new.len() > 0 && stay(old, new.drop_last()))
}

proof fn lemma_bits_front(f: Seq<walrus::FieldType>)
    requires
        f.len() > 0,
    ensures
        all_bits(f) == all_bits(f.drop_last()) + bits(storage(f.last())),
    decreases f.len(),
{
    if f.len() > 1 {
        lemma_bits_front(f.drop_first());
        assert(f.drop_first().drop_last() =~= f.drop_last().drop_first());
        assert(f.drop_first().last() == f.last());
        assert(f.drop_last()[0] == f[0]);
    } else {
        assert(f.drop_first() =~= Seq::empty());
        assert(f.drop_last() =~= Seq::empty());
    }
}

proof fn lemma_fields(f: Seq<walrus::FieldType>)
    requires
        all_bits(f) <= 8 * 0x7fff_ffff,
    ensures
        8 * fields_size(f) == all_bits(f),
        fields_size(f) >= 0,
    decreases f.len(),
{
    if f.len() > 0 {
        lemma_bits_front(f);
        lemma_fields(f.drop_last());
    }
}

proof fn lemma_product(a: i32, b: u32)
    requires
        0 < a,
        a * b <= 0x7fff_ffff,
    ensures
        a.wrapping_mul(b as i32) == a * b,
{
    assert(b <= 0x7fff_ffff) by (nonlinear_arith)
        requires
            a * b <= 0x7fff_ffff,
            a >= 1,
            b >= 0,
    ;
    assert(0 <= a * b) by (nonlinear_arith)
        requires
            a >= 1,
            b >= 0,
    ;
}

/// What is put in front of an instruction tells the hook.
proof fn lemma_added_tells(
    new: Seq<Placed>,
    n: int,
    types: Map<usize, ShapeView>,
    hook: walrus::FunctionId,
    scratch: walrus::LocalId,
)
    requires
        new.len() > 0,
        0 <= n,
        ({
            let ops = added(site(alloc_op(new.last().0), types), hook, scratch);
            &&& n == new.len() - 1 - ops.len()
            &&& are_added(new.subrange(n, new.len() - 1), ops)
        }),
    ensures
        is_told(new, new.len() - 1, types, hook),
{
    let at = new.len() - 1;
    let op = alloc_op(new.last().0);
    let s = site(op, types);
    let ops = added(s, hook, scratch);
    let mid = new.subrange(n, at);
    assert forall|i: int| 0 <= i < ops.len() implies added_op(new[n + i].0) == #[trigger] ops[i] by {
        assert(is_added(mid[i], ops[i]));
    }
    match op {
        AllocOp::StructNew { ty } | AllocOp::StructNewDefault { ty } => {
            if types.contains_key(ty) {
                if let ShapeView::Struct(f) = types[ty] {
                    if 0 < all_bits(f) <= 8 * 0x7fff_ffff {
                        lemma_fields(f);
                        assert(ops.len() == 2);
                        assert(added_op(new[n].0) == ops[0] && added_op(new[n + 1].0) == ops[1]);
                    }
                }
            }
        },
        AllocOp::ArrayNewFixed { ty, len } => {
            if types.contains_key(ty) {
                if let ShapeView::Array(f) = types[ty] {
                    let w = elem_size(types, ty).unwrap();
                    if 0 < len * bits(storage(f)) <= 8 * 0x7fff_ffff {
                        assert(8 * w == bits(storage(f)));
                        assert(len * bits(storage(f)) == 8 * (w * len)) by (nonlinear_arith)
                            requires
                                8 * w == bits(storage(f)),
                        ;
                        lemma_product(w, len);
                        assert(ops.len() == 2);
                        assert(added_op(new[n].0) == ops[0] && added_op(new[n + 1].0) == ops[1]);
                    }
                }
            }
        },
        AllocOp::ArrayNew { ty } | AllocOp::ArrayNewDefault { ty } | AllocOp::ArrayNewData { ty }
        | AllocOp::ArrayNewElem { ty } => {
            if types.contains_key(ty) {
                if let ShapeView::Array(f) = types[ty] {
                    assert(ops.len() == 6);
                    assert(added_op(new[n].0) == ops[0] && added_op(new[n + 1].0) == ops[1] && added_op(
                        new[n + 2].0,
                    ) == ops[2] && added_op(new[n + 3].0) == ops[3] && added_op(new[n + 4].0) == ops[4]
                        && added_op(new[n + 5].0) == ops[5]);
                }
            }
        },
        AllocOp::Other => {},
    }
}

/// In a rewritten sequence the hook is told of every allocation right before it, with its
/// bytes, and the instructions that were there stay in their order.
pub proof fn law_sequence_reported(
    old: Seq<Placed>,
    new: Seq<Placed>,
    types: Map<usize, ShapeView>,
    hook: walrus::FunctionId,
    scratch: walrus::LocalId,
)
    requires
        is_rewrite(old, new, types, hook, scratch),
    ensures
        all_told(new, types, hook),
        stay(old, new),
    decreases old.len(),
{
    if old.len() > 0 {
        let ops = added(site(alloc_op(old.last().0), types), hook, scratch);
        let n = new.len() - 1 - ops.len();
        let front = new.take(n);
        let mid = new.subrange(n, new.len() - 1);
        law_sequence_reported(old.drop_last(), front, types, hook, scratch);
        lemma_added_tells(new, n, types, hook, scratch);
        assert forall|at: int| 0 <= at < new.len() implies #[trigger] is_told(new, at, types, hook) by {
            if at < n {
                assert(is_told(front, at, types, hook));
                assert(front[at] == new[at]);
            } else if at < new.len() - 1 {
                assert(is_added(mid[at - n], ops[at - n]));
                assert(mid[at - n] == new[at]);
            }
        }
        lemma_stay_longer(old.drop_last(), front, mid);
        assert(front + mid =~= new.drop_last());
    }
}

proof fn lemma_stay_longer(old: Seq<Placed>, front: Seq<Placed>, more: Seq<Placed>)
    requires
        stay(old, front),
    ensures
        stay(old, front + more),
    decreases more.len(),
{
    if more.len() == 0 {
        assert(front + more =~= front);
    } else {
        lemma_stay_longer(old, front, more.drop_last());
        assert((front + more).drop_last() =~= front + more.drop_last());
    }
}

proof fn lemma_stay_contains(old: Seq<Placed>, new: Seq<Placed>, x: Placed)
    requires
        stay(old, new),
        old.contains(x),
    ensures
        new.contains(x),
    decreases new.len(),
{
    let k = choose|k: int| 0 <= k < old.len() && old[k] == x;
    if new.len() > 0 && old.last() == new.last() && stay(old.drop_last(), new.drop_last()) {
        if k == old.len() - 1 {
            assert(new[new.len() - 1] == x);
        } else {
            assert(old.drop_last()[k] == x);
            lemma_stay_contains(old.drop_last(), new.drop_last(), x);
            let j = choose|j: int| 0 <= j < new.drop_last().len() && new.drop_last()[j] == x;
            assert(new[j] == x);
        }
    } else {
        lemma_stay_contains(old, new.drop_last(), x);
        let j = choose|j: int| 0 <= j < new.drop_last().len() && new.drop_last()[j] == x;
        assert(new[j] == x);
    }
}

proof fn lemma_stay_itself(s: Seq<Placed>)
    ensures
        stay(s, s),
    decreases s.len(),
{
    if s.len() > 0 {
        lemma_stay_itself(s.drop_last());
    }
}

proof fn lemma_stay_trans(a: Seq<Placed>, b: Seq<Placed>, c: Seq<Placed>)
    requires
        stay(a, b),
        stay(b, c),
    ensures
        stay(a, c),
    decreases c.len(), b.len(),
{
    if a.len() > 0 {
        if c.len() > 0 && b.len() > 0 && b.last() == c.last() && stay(b.drop_last(), c.drop_last()) {
            if a.last() == b.last() && stay(a.drop_last(), b.drop_last()) {
                lemma_stay_trans(a.drop_last(), b.drop_last(), c.drop_last());
            } else {
                lemma_stay_trans(a, b.drop_last(), c.drop_last());
            }
        } else if b.len() > 0 {
            lemma_stay_trans(a, b, c.drop_last());
        }
    }
}

/// Whether a sequence stands in an instruction: in a block, a loop, a branch, the body of a
/// `try`, or one of its handlers.
pub open spec fn stands_in(i: walrus::ir::Instr, s: walrus::ir::InstrSeqId) -> bool {
    match nest_op(i) {
        NestView::Block { seq } => s == seq,
        NestView::Loop { seq } => s == seq,
        NestView::IfElse { consequent, alternative } => s == consequent || s == alternative,
        NestView::TryTable { seq } => s == seq,
        NestView::Try { seq, handlers } => s == seq || exists|h: int|
            0 <= h < handlers.len() && #[trigger] handlers[h] == Some(s),
        NestView::Other => false,
    }
}

proof fn lemma_given(handlers: Seq<Option<walrus::ir::InstrSeqId>>, h: int)
    requires
        0 <= h < handlers.len(),
        handlers[h] is Some,
    ensures
        given(handlers).contains(handlers[h].unwrap()),
    decreases handlers.len(),
{
    let n = handlers.len() - 1;
    let all = given(handlers);
    if h == n {
        assert(all[all.len() - 1] == handlers[h].unwrap());
    } else {
        let front = handlers.drop_last();
        assert(front[h] == handlers[h]);
        lemma_given(front, h);
        let j = choose|j: int| 0 <= j < given(front).len() && given(front)[j] == handlers[h].unwrap();
        assert(all[j] == handlers[h].unwrap());
    }
}

proof fn lemma_stands_held(i: walrus::ir::Instr, s: walrus::ir::InstrSeqId)
    requires
        stands_in(i, s),
    ensures
        held(i).contains(s),
{
    match nest_op(i) {
        NestView::IfElse { consequent, alternative } => {
            assert(held(i)[0] == consequent && held(i)[1] == alternative);
        },
        NestView::Try { seq, handlers } => {
            if s == seq {
                assert(held(i)[0] == s);
            } else {
                let h = choose|h: int| 0 <= h < handlers.len() && #[trigger] handlers[h] == Some(s);
                lemma_given(handlers, h);
                let g = given(handlers);
                let j = choose|j: int| 0 <= j < g.len() && g[j] == s;
                assert(held(i)[1 + j] == s);
            }
        },
        _ => {
            assert(held(i)[0] == s);
        },
    }
}

proof fn lemma_held_in_list(list: Seq<Placed>, k: int, s: walrus::ir::InstrSeqId)
    requires
        0 <= k < list.len(),
        held(list[k].0).contains(s),
    ensures
        held_in(list).contains(s),
    decreases list.len(),
{
    let front = list.drop_last();
    let a = held_in(front);
    let b = held(list.last().0);
    let all = held_in(list);
    if k == list.len() - 1 {
        let j = choose|j: int| 0 <= j < b.len() && b[j] == s;
        assert(all[a.len() + j] == s);
    } else {
        assert(front[k] == list[k]);
        lemma_held_in_list(front, k, s);
        let j = choose|j: int| 0 <= j < a.len() && a[j] == s;
        assert(all[j] == s);
    }
}

/// Whether a list of sequences misses none that stands in one of its own.
pub open spec fn is_closed(
    code: Map<SeqKey, Seq<Placed>>,
    f: walrus::FunctionId,
    list: Seq<walrus::ir::InstrSeqId>,
) -> bool {
    forall|s: walrus::ir::InstrSeqId, k: int, t: walrus::ir::InstrSeqId|
        list.contains(s) && 0 <= k < code[(f, s)].len() && #[trigger] stands_in(
            (#[trigger] code[(f, s)][k]).0,
            t,
        ) ==> list.contains(t)
}

/// A walk misses no sequence.
pub proof fn law_walk_is_closed(
    code: Map<SeqKey, Seq<Placed>>,
    f: walrus::FunctionId,
    stack: Seq<walrus::ir::InstrSeqId>,
    order: Seq<walrus::ir::InstrSeqId>,
)
    requires
        is_walk(code, f, stack, order),
    ensures
        forall|i: int| 0 <= i < stack.len() ==> order.contains(#[trigger] stack[i]),
        is_closed(code, f, order),
    decreases order.len(),
{
    if order.len() > 0 {
        let first = order[0];
        let more = held_in(code[(f, first)]);
        let rest = order.drop_first();
        let next = stack.drop_last() + more;
        law_walk_is_closed(code, f, next, rest);
        assert forall|s: walrus::ir::InstrSeqId| rest.contains(s) implies #[trigger] order.contains(s) by {
            let j = choose|j: int| 0 <= j < rest.len() && rest[j] == s;
            assert(order[j + 1] == s);
        }
        assert forall|i: int| 0 <= i < stack.len() implies order.contains(#[trigger] stack[i]) by {
            if i < stack.len() - 1 {
                assert(next[i] == stack[i]);
                assert(rest.contains(next[i]));
            } else {
                assert(order[0] == stack[i]);
            }
        }
        assert forall|s: walrus::ir::InstrSeqId, k: int, t: walrus::ir::InstrSeqId|
            order.contains(s) && 0 <= k < code[(f, s)].len() && #[trigger] stands_in(
                (#[trigger] code[(f, s)][k]).0,
                t,
            ) implies order.contains(t) by {
            let j = choose|j: int| 0 <= j < order.len() && order[j] == s;
            if j > 0 {
                assert(rest[j - 1] == s);
                assert(rest.contains(s));
                assert(rest.contains(t));
            } else {
                lemma_stands_held(code[(f, s)][k].0, t);
                lemma_held_in_list(code[(f, s)], k, t);
                let h = choose|h: int| 0 <= h < more.len() && more[h] == t;
                assert(next[stack.len() - 1 + h] == t);
                assert(rest.contains(next[stack.len() - 1 + h]));
            }
        }
    }
}

proof fn lemma_seqs(
    before: Map<SeqKey, Seq<Placed>>,
    after: Map<SeqKey, Seq<Placed>>,
    f: walrus::FunctionId,
    list: Seq<walrus::ir::InstrSeqId>,
    types: Map<usize, ShapeView>,
    hook: walrus::FunctionId,
    scratch: walrus::LocalId,
)
    requires
        seqs_rewritten(before, after, f, list, types, hook, scratch),
    ensures
        forall|key: SeqKey| stay(before[key], #[trigger] after[key]),
        forall|key: SeqKey| all_told(before[key], types, hook) ==> all_told(#[trigger] after[key], types, hook),
        forall|i: int| 0 <= i < list.len() ==> all_told(after[(f, #[trigger] list[i])], types, hook),
    decreases list.len(),
{
    if list.len() == 0 {
        assert forall|key: SeqKey| stay(before[key], #[trigger] after[key]) by {
            lemma_stay_itself(before[key]);
        }
    } else {
        let last = (f, list.last());
        let front = list.drop_last();
        let mid = choose|mid: Map<SeqKey, Seq<Placed>>| #[trigger]
            seq_rewritten(mid, after, last, types, hook, scratch) && seqs_rewritten(
                before,
                mid,
                f,
                front,
                types,
                hook,
                scratch,
            );
        lemma_seqs(before, mid, f, front, types, hook, scratch);
        law_sequence_reported(mid[last], after[last], types, hook, scratch);
        assert forall|key: SeqKey| stay(before[key], #[trigger] after[key]) by {
            assert(stay(before[key], mid[key]));
            if key == last {
                lemma_stay_trans(before[key], mid[key], after[key]);
            } else {
                assert(after[key] == mid[key]);
            }
        }
        assert forall|key: SeqKey| all_told(before[key], types, hook) implies all_told(
            #[trigger] after[key],
            types,
            hook,
        ) by {
            if key != last {
                assert(after[key] == mid[key]);
            }
        }
        assert forall|i: int| 0 <= i < list.len() implies all_told(after[(f, #[trigger] list[i])], types, hook) by {
            if (f, list[i]) != last {
                assert(front[i] == list[i]);
                assert(after[(f, list[i])] == mid[(f, list[i])]);
            }
        }
    }
}

/// Whether the hook is told of everything that a function allocates: in its outermost
/// sequence, and in every one that stands in it.
pub open spec fn function_reported(
    before: ModuleView,
    after: ModuleView,
    f: walrus::FunctionId,
    hook: walrus::FunctionId,
) -> bool {
    exists|list: Seq<walrus::ir::InstrSeqId>|
        {
            &&& list.contains(before.entry[f])
            &&& #[trigger] is_closed(before.code, f, list)
            &&& forall|i: int| 0 <= i < list.len() ==> all_told(after.code[(f, #[trigger] list[i])], after.types, hook)
        }
}

proof fn lemma_function(before: ModuleView, mid: ModuleView, after: ModuleView, f: walrus::FunctionId, hook: walrus::FunctionId, n: nat)
    requires
        function_rewritten(mid, after, f, hook, n),
        mid.entry == before.entry,
        forall|key: SeqKey| stay(before.code[key], #[trigger] mid.code[key]),
    ensures
        after.entry == mid.entry,
        after.types == mid.types,
        after.functions == mid.functions,
        after.imports == mid.imports,
        forall|key: SeqKey| stay(before.code[key], #[trigger] after.code[key]),
        forall|key: SeqKey|
            all_told(mid.code[key], mid.types, hook) ==> all_told(#[trigger] after.code[key], after.types, hook),
        function_reported(before, after, f, hook),
{
    let (list, scratch) = choose|list: Seq<walrus::ir::InstrSeqId>, scratch: walrus::LocalId|
        {
            &&& #[trigger] seqs_rewritten(mid.code, after.code, f, list, mid.types, hook, scratch)
            &&& is_walk(mid.code, f, seq![mid.entry[f]], list)
            &&& crate::wasm::is_new_local(mid, scratch)
            &&& after == (ModuleView {
                code: after.code,
                locals: mid.locals.insert(scratch, Storage::I32),
                ..mid
            })
            &&& n == crate::instrument::sites_in(mid.code, f, list, mid.types)
        };
    lemma_seqs(mid.code, after.code, f, list, mid.types, hook, scratch);
    assert forall|key: SeqKey| stay(before.code[key], #[trigger] after.code[key]) by {
        assert(stay(before.code[key], mid.code[key]));
        assert(stay(mid.code[key], after.code[key]));
        lemma_stay_trans(before.code[key], mid.code[key], after.code[key]);
    }
    let stack = seq![mid.entry[f]];
    law_walk_is_closed(mid.code, f, stack, list);
    assert(list.contains(stack[0]));
    assert(is_closed(before.code, f, list)) by {
        assert forall|s: walrus::ir::InstrSeqId, k: int, t: walrus::ir::InstrSeqId|
            list.contains(s) && 0 <= k < before.code[(f, s)].len() && #[trigger] stands_in(
                (#[trigger] before.code[(f, s)][k]).0,
                t,
            ) implies list.contains(t) by {
            let x = before.code[(f, s)][k];
            assert(stay(before.code[(f, s)], mid.code[(f, s)]));
            assert(before.code[(f, s)].contains(x));
            lemma_stay_contains(before.code[(f, s)], mid.code[(f, s)], x);
            let j = choose|j: int| 0 <= j < mid.code[(f, s)].len() && mid.code[(f, s)][j] == x;
            assert(stands_in(mid.code[(f, s)][j].0, t));
        }
    }
}

proof fn lemma_functions(
    origin: ModuleView,
    before: ModuleView,
    after: ModuleView,
    list: Seq<walrus::FunctionId>,
    hook: walrus::FunctionId,
    count: nat,
)
    requires
        functions_rewritten(before, after, list, hook, count),
        before.entry == origin.entry,
        forall|key: SeqKey| stay(origin.code[key], #[trigger] before.code[key]),
    ensures
        after.entry == before.entry,
        after.types == before.types,
        after.functions == before.functions,
        after.imports == before.imports,
        forall|key: SeqKey| stay(origin.code[key], #[trigger] after.code[key]),
        forall|i: int| 0 <= i < list.len() ==> function_reported(origin, after, #[trigger] list[i], hook),
    decreases list.len(),
{
    if list.len() > 0 {
        let front = list.drop_last();
        let (mid, n) = choose|mid: ModuleView, n: nat| #[trigger]
            function_rewritten(mid, after, list.last(), hook, n) && n <= count && functions_rewritten(
                before,
                mid,
                front,
                hook,
                (count - n) as nat,
            );
        lemma_functions(origin, before, mid, front, hook, (count - n) as nat);
        lemma_function(origin, mid, after, list.last(), hook, n);
        assert forall|i: int| 0 <= i < list.len() implies function_reported(origin, after, #[trigger] list[i], hook) by {
            if i < front.len() {
                let f = front[i];
                assert(f == list[i]);
                assert(function_reported(origin, mid, f, hook));
                let seqs = choose|seqs: Seq<walrus::ir::InstrSeqId>|
                    {
                        &&& seqs.contains(origin.entry[f])
                        &&& #[trigger] is_closed(origin.code, f, seqs)
                        &&& forall|i: int|
                            0 <= i < seqs.len() ==> all_told(mid.code[(f, #[trigger] seqs[i])], mid.types, hook)
                    };
                assert forall|j: int| 0 <= j < seqs.len() implies all_told(
                    after.code[(f, #[trigger] seqs[j])],
                    after.types,
                    hook,
                ) by {
                    assert(all_told(mid.code[(f, seqs[j])], mid.types, hook));
                }
                assert(is_closed(origin.code, f, seqs));
            }
        }
    }
}

proof fn lemma_local_ids(s: Seq<FunctionEntryView>, i: int)
    requires
        0 <= i < s.len(),
        s[i].is_local,
    ensures
        local_ids(s).contains(s[i].id),
    decreases s.len(),
{
    let front = s.drop_last();
    let a = local_ids(front);
    let all = local_ids(s);
    if i == s.len() - 1 {
        assert(all[a.len() as int] == s[i].id);
    } else {
        assert(front[i] == s[i]);
        lemma_local_ids(front, i);
        let j = choose|j: int| 0 <= j < a.len() && a[j] == s[i].id;
        assert(all[j] == s[i].id);
    }
}

/// The first function of a name.
proof fn lemma_first_named(s: Seq<FunctionEntryView>, name: Seq<char>)
    ensures
        match first_named(s, name) {
            Some(f) => exists|i: int|
                0 <= i < s.len() && #[trigger] s[i] == f && f.name == Some(name) && forall|j: int|
                    0 <= j < i ==> (#[trigger] s[j]).name != Some(name),
            None => forall|j: int| 0 <= j < s.len() ==> (#[trigger] s[j]).name != Some(name),
        },
    decreases s.len(),
{
    if s.len() > 0 {
        let front = s.drop_last();
        let n = s.len() - 1;
        lemma_first_named(front, name);
        match first_named(front, name) {
            Some(f) => {
                let i = choose|i: int|
                    0 <= i < front.len() && #[trigger] front[i] == f && f.name == Some(name) && forall|j: int|
                        0 <= j < i ==> (#[trigger] front[j]).name != Some(name);
                assert(s[i] == f);
                assert forall|j: int| 0 <= j < i implies (#[trigger] s[j]).name != Some(name) by {
                    assert(front[j] == s[j]);
                }
            },
            None => {
                assert forall|j: int| 0 <= j < n implies (#[trigger] s[j]).name != Some(name) by {
                    assert(front[j] == s[j]);
                }
                if s[n].name == Some(name) {
                    assert(s[n] == s.last());
                }
            },
        }
    }
}

/// Whether a function hands its first parameter to the hook before anything that it does.
pub open spec fn argument_told(before: ModuleView, after: ModuleView, f: walrus::FunctionId, hook: walrus::FunctionId) -> bool {
    exists|head: Seq<Placed>|
        {
            &&& head.len() == 2
            &&& added_op(head[0].0) == AddedOp::LocalGet { local: before.args[f][0] }
            &&& added_op(head[1].0) == AddedOp::Call { func: hook }
            &&& stay(
                #[trigger] (head + before.code[(f, before.entry[f])]),
                after.code[(f, before.entry[f])],
            )
        }
}

/// Whether the hook is told of everything that a module allocates: it is imported under its
/// name, it is told right before each allocation of every function with a body, and where
/// there is a `moonbit.malloc`, that function hands it its first parameter before anything
/// that it does.
pub open spec fn module_reported(before: ModuleView, after: ModuleView, hook: walrus::FunctionId, wrapped: bool) -> bool {
    &&& after.imports == before.imports.push(("moonbit_profile"@, "alloc_hook"@, hook))
    &&& forall|i: int|
        0 <= i < before.functions.len() && (#[trigger] before.functions[i]).is_local ==> function_reported(
            before,
            after,
            before.functions[i].id,
            hook,
        )
    &&& forall|key: SeqKey| stay(before.code[key], #[trigger] after.code[key])
    &&& forall|ty: usize| #[trigger]
        before.types.contains_key(ty) ==> after.types.contains_key(ty) && after.types[ty] == before.types[ty]
    &&& wrapped == (exists|i: int|
        0 <= i < before.functions.len() && (#[trigger] before.functions[i]).name == Some("moonbit.malloc"@))
    &&& wrapped ==> exists|i: int|
        {
            &&& 0 <= i < before.functions.len()
            &&& (#[trigger] before.functions[i]).name == Some("moonbit.malloc"@)
            &&& forall|j: int| 0 <= j < i ==> (#[trigger] before.functions[j]).name != Some("moonbit.malloc"@)
            &&& argument_told(before, after, before.functions[i].id, hook)
        }
}

/// An instrumented module tells the hook of everything that it allocates.
pub proof fn law_module_reported(before: ModuleView, after: ModuleView, report: InstrumentReport)
    requires
        instrumented(before, after, report),
    ensures
        exists|hook: walrus::FunctionId| #[trigger] module_reported(before, after, hook, report.moonbit_malloc_wrapped),
{
    let (hook, hooked, wrapped, count) = choose|
        hook: walrus::FunctionId,
        hooked: ModuleView,
        wrapped: ModuleView,
        count: nat,
    | #[trigger] instrumented_by(before, hooked, wrapped, after, hook, count, report);
    let name = "moonbit.malloc"@;
    lemma_first_named(hooked.functions, name);
    lemma_first_named(before.functions, name);
    assert(hooked.functions.drop_last() =~= before.functions);
    assert(first_named(hooked.functions, name) == first_named(before.functions, name));
    assert forall|key: SeqKey| stay(before.code[key], #[trigger] wrapped.code[key]) by {
        lemma_stay_itself(before.code[key]);
        if let Some(f) = first_named(before.functions, name) {
            let at = (f.id, before.entry[f.id]);
            let new = wrapped.code[at];
            if key == at {
                lemma_stay_tail(new, 2);
            }
        }
    }
    let ids = local_ids(wrapped.functions);
    lemma_functions(before, wrapped, after, ids, hook, count);
    assert forall|i: int| 0 <= i < before.functions.len() && (#[trigger] before.functions[i]).is_local implies function_reported(
        before,
        after,
        before.functions[i].id,
        hook,
    ) by {
        assert(hooked.functions[i] == before.functions[i]);
        lemma_local_ids(wrapped.functions, i);
        let j = choose|j: int| 0 <= j < ids.len() && ids[j] == before.functions[i].id;
        assert(function_reported(before, after, ids[j], hook));
    }
    if let Some(f) = first_named(before.functions, name) {
        let i = choose|i: int|
            0 <= i < before.functions.len() && #[trigger] before.functions[i] == f && f.name == Some(name) && forall|j: int|
                0 <= j < i ==> (#[trigger] before.functions[j]).name != Some(name);
        let key = (f.id, before.entry[f.id]);
        let new = wrapped.code[key];
        let head = new.take(2);
        assert(head + before.code[key] =~= new);
        assert forall|key: SeqKey| stay(wrapped.code[key], #[trigger] wrapped.code[key]) by {
            lemma_stay_itself(wrapped.code[key]);
        }
        lemma_functions(wrapped, wrapped, after, ids, hook, count);
        assert(stay(wrapped.code[key], after.code[key]));
        assert(stay(head + before.code[key], after.code[key]));
        assert(before.functions[i].name == Some(name));
    }
    assert(module_reported(before, after, hook, report.moonbit_malloc_wrapped));
}

proof fn lemma_stay_tail(s: Seq<Placed>, n: int)
    requires
        0 <= n <= s.len(),
    ensures
        stay(s.skip(n), s),
    decreases s.len() - n,
{
    let t = s.skip(n);
    if t.len() > 0 {
        lemma_stay_tail(s.drop_last(), n);
        assert(s.drop_last().skip(n) =~= t.drop_last());
    }
}

/// Whether the hook is told of an instruction: it allocates something of a known type, which
/// takes some bytes.
pub open spec fn is_worth_telling(i: walrus::ir::Instr, types: Map<usize, ShapeView>) -> bool {
    match alloc_op(i) {
        AllocOp::StructNew { ty } | AllocOp::StructNewDefault { ty } => types.contains_key(ty) && types[ty] is Struct
            && all_bits(types[ty]->Struct_0) > 0,
        AllocOp::ArrayNewFixed { ty, len } => types.contains_key(ty) && types[ty] is Array && len > 0,
        AllocOp::ArrayNew { ty } | AllocOp::ArrayNewDefault { ty } | AllocOp::ArrayNewData { ty }
        | AllocOp::ArrayNewElem { ty } => types.contains_key(ty) && types[ty] is Array,
        AllocOp::Other => false,
    }
}

/// Whether 31 bits can count the bytes of what an instruction allocates.
pub open spec fn is_countable(i: walrus::ir::Instr, types: Map<usize, ShapeView>) -> bool {
    match alloc_op(i) {
        AllocOp::StructNew { ty } | AllocOp::StructNewDefault { ty } => types.contains_key(ty) && types[ty] is Struct
            ==> all_bits(types[ty]->Struct_0) <= 8 * 0x7fff_ffff,
        AllocOp::ArrayNewFixed { ty, len } => types.contains_key(ty) && types[ty] is Array ==> len * bits(
            storage(types[ty]->Array_0),
        ) <= 8 * 0x7fff_ffff,
        _ => true,
    }
}

/// How many places have a property.
pub open spec fn tellings(list: Seq<Placed>, types: Map<usize, ShapeView>) -> nat
    decreases list.len(),
{
    if list.len() == 0 {
        0
    } else {
        tellings(list.drop_first(), types) + if is_worth_telling(list[0].0, types) {
            1nat
        } else {
            0
        }
    }
}

proof fn lemma_tellings_last(list: Seq<Placed>, types: Map<usize, ShapeView>)
    requires
        list.len() > 0,
    ensures
        tellings(list, types) == tellings(list.drop_last(), types) + if is_worth_telling(list.last().0, types) {
            1nat
        } else {
            0
        },
    decreases list.len(),
{
    if list.len() > 1 {
        lemma_tellings_last(list.drop_first(), types);
        assert(list.drop_first().drop_last() =~= list.drop_last().drop_first());
        assert(list.drop_first().last() == list.last());
    } else {
        assert(list.drop_first() =~= Seq::empty());
        assert(list.drop_last() =~= Seq::empty());
    }
}

/// What is counted are the allocations of a known type that take some bytes.
pub proof fn law_tellings_counted(list: Seq<Placed>, types: Map<usize, ShapeView>)
    requires
        forall|i: int| 0 <= i < list.len() ==> is_countable((#[trigger] list[i]).0, types),
    ensures
        sites(list, types) == tellings(list, types),
    decreases list.len(),
{
    if list.len() > 0 {
        let front = list.drop_last();
        assert forall|i: int| 0 <= i < front.len() implies is_countable((#[trigger] front[i]).0, types) by {
            assert(is_countable(list[i].0, types));
        }
        law_tellings_counted(front, types);
        lemma_tellings_last(list, types);
        let i = list.last().0;
        assert(is_countable(list[list.len() - 1].0, types));
        match alloc_op(i) {
            AllocOp::StructNew { ty } | AllocOp::StructNewDefault { ty } => {
                if types.contains_key(ty) {
                    if let ShapeView::Struct(f) = types[ty] {
                        lemma_fields(f);
                    }
                }
            },
            AllocOp::ArrayNewFixed { ty, len } => {
                if types.contains_key(ty) {
                    if let ShapeView::Array(f) = types[ty] {
                        let w = elem_size(types, ty).unwrap();
                        assert(8 * w == bits(storage(f)));
                        assert(len * bits(storage(f)) == 8 * (w * len)) by (nonlinear_arith)
                            requires
                                8 * w == bits(storage(f)),
                        ;
                        lemma_product(w, len);
                        assert(w * len > 0 <==> len > 0) by (nonlinear_arith)
                            requires
                                w > 0,
                        ;
                    }
                }
            },
            _ => {},
        }
    }
}

/// The allocations of a function of which the hook is told: those of its sequences.
pub open spec fn told_in(
    m: ModuleView,
    f: walrus::FunctionId,
    list: Seq<walrus::ir::InstrSeqId>,
    types: Map<usize, ShapeView>,
) -> nat
    decreases list.len(),
{
    if list.len() == 0 {
        0
    } else {
        told_in(m, f, list.drop_last(), types) + tellings(m.code[(f, list.last())], types)
    }
}

/// The allocations of functions of which the hook is told.
pub open spec fn told_in_all(
    m: ModuleView,
    ids: Seq<walrus::FunctionId>,
    lists: Seq<Seq<walrus::ir::InstrSeqId>>,
    types: Map<usize, ShapeView>,
) -> nat
    decreases ids.len(),
{
    if ids.len() == 0 || lists.len() != ids.len() {
        0
    } else {
        told_in_all(m, ids.drop_last(), lists.drop_last(), types) + told_in(m, ids.last(), lists.last(), types)
    }
}

/// Whether a list of sequences is that of a function: it has the outermost one, and misses
/// none that stands in one of its own.
pub open spec fn is_all_of(m: ModuleView, f: walrus::FunctionId, list: Seq<walrus::ir::InstrSeqId>) -> bool {
    list.contains(m.entry[f]) && is_closed(m.code, f, list)
}

spec fn lists_all(m: ModuleView, ids: Seq<walrus::FunctionId>, lists: Seq<Seq<walrus::ir::InstrSeqId>>) -> bool {
    lists.len() == ids.len() && forall|i: int| 0 <= i < ids.len() ==> is_all_of(m, #[trigger] ids[i], lists[i])
}

spec fn same_sites(a: ModuleView, b: ModuleView, types: Map<usize, ShapeView>) -> bool {
    forall|key: SeqKey| sites(#[trigger] b.code[key], types) == sites(a.code[key], types)
}

proof fn lemma_told_in(origin: ModuleView, mid: ModuleView, f: walrus::FunctionId, list: Seq<walrus::ir::InstrSeqId>, types: Map<usize, ShapeView>)
    requires
        same_sites(origin, mid, types),
        forall|key: SeqKey, i: int|
            0 <= i < origin.code[key].len() ==> is_countable((#[trigger] origin.code[key][i]).0, types),
    ensures
        crate::instrument::sites_in(mid.code, f, list, types) == told_in(origin, f, list, types),
    decreases list.len(),
{
    if list.len() > 0 {
        lemma_told_in(origin, mid, f, list.drop_last(), types);
        let key = (f, list.last());
        assert(sites(mid.code[key], types) == sites(origin.code[key], types));
        assert forall|i: int| 0 <= i < origin.code[key].len() implies is_countable((#[trigger] origin.code[key][i]).0, types) by {}
        law_tellings_counted(origin.code[key], types);
    }
}

proof fn lemma_function_list(
    origin: ModuleView,
    mid: ModuleView,
    after: ModuleView,
    f: walrus::FunctionId,
    hook: walrus::FunctionId,
    n: nat,
) -> (list: Seq<walrus::ir::InstrSeqId>)
    requires
        function_rewritten(mid, after, f, hook, n),
        mid.entry == origin.entry,
        forall|key: SeqKey| stay(origin.code[key], #[trigger] mid.code[key]),
        same_sites(origin, mid, mid.types),
        forall|key: SeqKey, i: int|
            0 <= i < origin.code[key].len() ==> is_countable((#[trigger] origin.code[key][i]).0, mid.types),
    ensures
        is_all_of(origin, f, list),
        n == told_in(origin, f, list, mid.types),
        same_sites(origin, after, mid.types),
{
    let (list, scratch) = choose|list: Seq<walrus::ir::InstrSeqId>, scratch: walrus::LocalId|
        {
            &&& #[trigger] seqs_rewritten(mid.code, after.code, f, list, mid.types, hook, scratch)
            &&& is_walk(mid.code, f, seq![mid.entry[f]], list)
            &&& crate::wasm::is_new_local(mid, scratch)
            &&& after == (ModuleView {
                code: after.code,
                locals: mid.locals.insert(scratch, Storage::I32),
                ..mid
            })
            &&& n == crate::instrument::sites_in(mid.code, f, list, mid.types)
        };
    let stack = seq![mid.entry[f]];
    law_walk_is_closed(mid.code, f, stack, list);
    assert(list.contains(stack[0]));
    assert(is_closed(origin.code, f, list)) by {
        assert forall|s: walrus::ir::InstrSeqId, k: int, t: walrus::ir::InstrSeqId|
            list.contains(s) && 0 <= k < origin.code[(f, s)].len() && #[trigger] stands_in(
                (#[trigger] origin.code[(f, s)][k]).0,
                t,
            ) implies list.contains(t) by {
            let x = origin.code[(f, s)][k];
            assert(stay(origin.code[(f, s)], mid.code[(f, s)]));
            assert(origin.code[(f, s)].contains(x));
            lemma_stay_contains(origin.code[(f, s)], mid.code[(f, s)], x);
            let j = choose|j: int| 0 <= j < mid.code[(f, s)].len() && mid.code[(f, s)][j] == x;
            assert(stands_in(mid.code[(f, s)][j].0, t));
        }
    }
    lemma_told_in(origin, mid, f, list, mid.types);
    assert forall|key: SeqKey| sites(#[trigger] after.code[key], mid.types) == sites(origin.code[key], mid.types) by {
        lemma_same_sites(mid.code, after.code, f, list, mid.types, hook, scratch, key);
        assert(sites(mid.code[key], mid.types) == sites(origin.code[key], mid.types));
    }
    list
}

proof fn lemma_function_lists(
    origin: ModuleView,
    before: ModuleView,
    after: ModuleView,
    ids: Seq<walrus::FunctionId>,
    hook: walrus::FunctionId,
    count: nat,
) -> (lists: Seq<Seq<walrus::ir::InstrSeqId>>)
    requires
        functions_rewritten(before, after, ids, hook, count),
        before.entry == origin.entry,
        forall|key: SeqKey| stay(origin.code[key], #[trigger] before.code[key]),
        same_sites(origin, before, before.types),
        forall|key: SeqKey, i: int|
            0 <= i < origin.code[key].len() ==> is_countable((#[trigger] origin.code[key][i]).0, before.types),
    ensures
        lists_all(origin, ids, lists),
        count == told_in_all(origin, ids, lists, before.types),
        same_sites(origin, after, before.types),
    decreases ids.len(),
{
    if ids.len() == 0 {
        Seq::empty()
    } else {
        let front = ids.drop_last();
        let (mid, n) = choose|mid: ModuleView, n: nat| #[trigger]
            function_rewritten(mid, after, ids.last(), hook, n) && n <= count && functions_rewritten(
                before,
                mid,
                front,
                hook,
                (count - n) as nat,
            );
        lemma_functions(origin, before, mid, front, hook, (count - n) as nat);
        let some = lemma_function_lists(origin, before, mid, front, hook, (count - n) as nat);
        let last = lemma_function_list(origin, mid, after, ids.last(), hook, n);
        let lists = some.push(last);
        assert(lists.drop_last() =~= some);
        assert forall|i: int| 0 <= i < ids.len() implies is_all_of(origin, #[trigger] ids[i], lists[i]) by {
            if i < front.len() {
                assert(is_all_of(origin, front[i], some[i]));
            }
        }
        lists
    }
}

/// The report counts the allocations of which the hook is told: those of every function with a
/// body, in all its sequences.
pub proof fn law_reports_counted(before: ModuleView, after: ModuleView, report: InstrumentReport)
    requires
        instrumented(before, after, report),
        forall|key: SeqKey, i: int|
            0 <= i < before.code[key].len() ==> is_countable((#[trigger] before.code[key][i]).0, after.types),
    ensures
        exists|ids: Seq<walrus::FunctionId>, lists: Seq<Seq<walrus::ir::InstrSeqId>>|
            {
                &&& lists.len() == ids.len()
                &&& forall|i: int| 0 <= i < ids.len() ==> is_all_of(before, #[trigger] ids[i], lists[i])
                &&& forall|i: int|
                    0 <= i < before.functions.len() && (#[trigger] before.functions[i]).is_local ==> ids.contains(
                        before.functions[i].id,
                    )
                &&& report.gc_alloc_sites == crate::instrument::capped(
                    #[trigger] told_in_all(before, ids, lists, after.types),
                )
            },
{
    let (hook, hooked, wrapped, count) = choose|
        hook: walrus::FunctionId,
        hooked: ModuleView,
        wrapped: ModuleView,
        count: nat,
    | #[trigger] instrumented_by(before, hooked, wrapped, after, hook, count, report);
    let name = "moonbit.malloc"@;
    let types = wrapped.types;
    lemma_first_named(hooked.functions, name);
    lemma_first_named(before.functions, name);
    assert(hooked.functions.drop_last() =~= before.functions);
    assert forall|key: SeqKey| stay(before.code[key], #[trigger] wrapped.code[key]) && sites(wrapped.code[key], types)
        == sites(before.code[key], types) by {
        lemma_stay_itself(before.code[key]);
        if let Some(f) = first_named(hooked.functions, name) {
            let at = (f.id, before.entry[f.id]);
            let new = wrapped.code[at];
            if key == at {
                lemma_stay_tail(new, 2);
                let head = new.take(2);
                let ops = seq![AddedOp::LocalGet { local: before.args[f.id][0] }, AddedOp::Call { func: hook }];
                assert(are_added(head, ops)) by {
                    assert(is_added(head[0], ops[0]) && is_added(head[1], ops[1]));
                }
                lemma_added_no_sites(head, ops, types);
                assert(head + new.skip(2) =~= new);
                lemma_sites_joined(head, new.skip(2), types);
            }
        }
    }
    let ids = local_ids(wrapped.functions);
    lemma_functions(before, wrapped, after, ids, hook, count);
    let lists = lemma_function_lists(before, wrapped, after, ids, hook, count);
    assert forall|i: int| 0 <= i < before.functions.len() && (#[trigger] before.functions[i]).is_local implies ids.contains(
        before.functions[i].id,
    ) by {
        assert(hooked.functions[i] == before.functions[i]);
        lemma_local_ids(wrapped.functions, i);
    }
    assert(count == told_in_all(before, ids, lists, after.types));
}

} // verus!
