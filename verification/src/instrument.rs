//! Putting calls of an allocation hook into a WebAssembly module.
use vstd::prelude::*;
use std::collections::HashMap;
use crate::wasm::{
    add_local, added_op, alloc_of, alloc_op, block_instrs, bodies_ok, call_instr, code_nests,
    const_instr, contents, entry_block, entry_views, first_arg, get_instr, given, held, hook_imported,
    import_hook, is_added, is_new_local, list_functions, list_types, mul_instr, nest_of, nests_well, read_as,
    read_module, replace_instrs, seq_number, set_instr, storage, storage_of, wasm_valid,
    write_module, written_as, AddedOp, AllocOp, FunctionEntry, FunctionEntryView, ModuleView,
    NestOp, Placed, SeqKey, Shape, ShapeView, Storage,
};

verus! {

broadcast use vstd::std_specs::hash::group_hash_axioms;

/// How many bytes a field takes. A reference counts as four bytes.
pub open spec fn storage_size(s: Storage) -> i32 {
    match s {
        Storage::I8 => 1,
        Storage::I16 => 2,
        Storage::I32 | Storage::F32 => 4,
        Storage::I64 | Storage::F64 => 8,
        Storage::V128 => 16,
        Storage::Ref => 4,
    }
}

/// How many bytes the fields of a struct take together, modulo 32 bits.
pub open spec fn fields_size(f: Seq<walrus::FieldType>) -> i32
    decreases f.len(),
{
    if f.len() == 0 {
        0
    } else {
        fields_size(f.drop_last()).wrapping_add(storage_size(storage(f.last())))
    }
}

/// The size of a struct type.
pub open spec fn struct_size(types: Map<usize, ShapeView>, ty: usize) -> Option<i32> {
    if types.contains_key(ty) {
        match types[ty] {
            ShapeView::Struct(f) => Some(fields_size(f)),
            _ => None,
        }
    } else {
        None
    }
}

/// The size of an element of an array type.
pub open spec fn elem_size(types: Map<usize, ShapeView>, ty: usize) -> Option<i32> {
    if types.contains_key(ty) {
        match types[ty] {
            ShapeView::Array(f) => Some(storage_size(storage(f))),
            _ => None,
        }
    } else {
        None
    }
}

/// What is known of the size of an allocation.
pub enum Site {
    /// The number of bytes.
    Fixed(i32),
    /// The bytes of an element. How many there are is on top of the stack.
    PerElement(i32),
}

/// The size of what an instruction allocates, if it allocates anything of a known type.
pub open spec fn site(op: AllocOp, types: Map<usize, ShapeView>) -> Option<Site> {
    match op {
        AllocOp::StructNew { ty } | AllocOp::StructNewDefault { ty } => match struct_size(types, ty) {
            Some(n) => Some(Site::Fixed(n)),
            None => None,
        },
        AllocOp::ArrayNewFixed { ty, len } => match elem_size(types, ty) {
            Some(n) => Some(Site::Fixed(n.wrapping_mul(len as i32))),
            None => None,
        },
        AllocOp::ArrayNew { ty } | AllocOp::ArrayNewDefault { ty } | AllocOp::ArrayNewData { ty }
        | AllocOp::ArrayNewElem { ty } => match elem_size(types, ty) {
            Some(n) => Some(Site::PerElement(n)),
            None => None,
        },
        AllocOp::Other => None,
    }
}

/// What is put in front of an allocation: the size goes to the hook, and the operands on
/// the stack stay as they were.
pub open spec fn added(s: Option<Site>, hook: walrus::FunctionId, scratch: walrus::LocalId) -> Seq<AddedOp> {
    match s {
        Some(Site::Fixed(n)) => if n > 0 {
            seq![AddedOp::Const { value: n }, AddedOp::Call { func: hook }]
        } else {
            Seq::empty()
        },
        Some(Site::PerElement(n)) => if n > 0 {
            seq![
                AddedOp::LocalSet { local: scratch },
                AddedOp::Const { value: n },
                AddedOp::LocalGet { local: scratch },
                AddedOp::MulI32,
                AddedOp::Call { func: hook },
                AddedOp::LocalGet { local: scratch },
            ]
        } else {
            Seq::empty()
        },
        None => Seq::empty(),
    }
}

/// Whether instructions are those that were to be put in.
pub open spec fn are_added(list: Seq<Placed>, ops: Seq<AddedOp>) -> bool {
    list.len() == ops.len() && forall|i: int| 0 <= i < ops.len() ==> is_added(#[trigger] list[i], ops[i])
}

/// Whether `new` is `old` with a report in front of each allocation.
pub open spec fn is_rewrite(
    old: Seq<Placed>,
    new: Seq<Placed>,
    types: Map<usize, ShapeView>,
    hook: walrus::FunctionId,
    scratch: walrus::LocalId,
) -> bool
    decreases old.len(),
{
    if old.len() == 0 {
        new.len() == 0
    } else {
        let ops = added(site(alloc_op(old.last().0), types), hook, scratch);
        let n = new.len() - 1 - ops.len();
        &&& n >= 0
        &&& new.last() == old.last()
        &&& are_added(new.subrange(n, new.len() - 1), ops)
        &&& is_rewrite(old.drop_last(), new.take(n), types, hook, scratch)
    }
}

/// Whether an allocation is reported. One of no size is not.
pub open spec fn is_reported(s: Option<Site>) -> bool {
    match s {
        Some(Site::Fixed(n)) => n > 0,
        Some(Site::PerElement(n)) => n > 0,
        None => false,
    }
}

/// How many of the instructions get a report in front of them.
pub open spec fn sites(list: Seq<Placed>, types: Map<usize, ShapeView>) -> nat
    decreases list.len(),
{
    if list.len() == 0 {
        0
    } else {
        sites(list.drop_last(), types) + if is_reported(site(alloc_op(list.last().0), types)) {
            1nat
        } else {
            0
        }
    }
}

/// The sequences that instructions hold, in their order.
pub open spec fn held_in(list: Seq<Placed>) -> Seq<walrus::ir::InstrSeqId>
    decreases list.len(),
{
    if list.len() == 0 {
        Seq::empty()
    } else {
        held_in(list.drop_last()) + held(list.last().0)
    }
}

/// Whether `order` goes through the sequences of a function: from `stack`, the last one
/// first, each followed by what it holds.
pub open spec fn is_walk(
    code: Map<SeqKey, Seq<Placed>>,
    f: walrus::FunctionId,
    stack: Seq<walrus::ir::InstrSeqId>,
    order: Seq<walrus::ir::InstrSeqId>,
) -> bool
    decreases order.len(),
{
    if order.len() == 0 {
        stack.len() == 0
    } else {
        &&& stack.len() > 0
        &&& order[0] == stack.last()
        &&& is_walk(code, f, stack.drop_last() + held_in(code[(f, order[0])]), order.drop_first())
    }
}

fn field_size(f: &walrus::FieldType) -> (r: i32)
    ensures
        r == storage_size(storage(*f)),
{
    match storage_of(f) {
        Storage::I8 => 1,
        Storage::I16 => 2,
        Storage::I32 | Storage::F32 => 4,
        Storage::I64 | Storage::F64 => 8,
        Storage::V128 => 16,
        Storage::Ref => 4,
    }
}

fn fields_total(f: &Vec<walrus::FieldType>) -> (r: i32)
    ensures
        r == fields_size(f@),
{
    let mut total: i32 = 0;
    for i in 0..f.len()
        invariant
            total == fields_size(f@.take(i as int)),
    {
        assert(f@.take(i + 1).drop_last() =~= f@.take(i as int));
        total = total.wrapping_add(field_size(&f[i]));
    }
    assert(f@.take(f@.len() as int) =~= f@);
    total
}

/// The sizes of a module's types. They leave out what an engine adds for headers and
/// alignment.
struct TypeSizes {
    struct_size: HashMap<usize, i32>,
    array_elem_size: HashMap<usize, i32>,
}

impl TypeSizes {
    spec fn is_of(&self, types: Map<usize, ShapeView>) -> bool {
        &&& forall|ty: usize|
            #![trigger self.struct_size@.contains_key(ty)]
            self.struct_size@.contains_key(ty) == (struct_size(types, ty) is Some) && (
            self.struct_size@.contains_key(ty) ==> struct_size(types, ty) == Some(self.struct_size@[ty]))
        &&& forall|ty: usize|
            #![trigger self.array_elem_size@.contains_key(ty)]
            self.array_elem_size@.contains_key(ty) == (elem_size(types, ty) is Some) && (
            self.array_elem_size@.contains_key(ty) ==> elem_size(types, ty) == Some(self.array_elem_size@[ty]))
    }

    fn build(m: &walrus::Module) -> (r: TypeSizes)
        ensures
            r.is_of(contents(*m).types),
    {
        let ghost types = contents(*m).types;
        let list = list_types(m);
        let mut structs: HashMap<usize, i32> = HashMap::new();
        let mut arrays: HashMap<usize, i32> = HashMap::new();
        for i in 0..list.len()
            invariant
                types == contents(*m).types,
                forall|i: int|
                    0 <= i < list@.len() ==> types.contains_key((#[trigger] list@[i]).0) && types[list@[i].0]
                        == list@[i].1@,
                forall|ty: usize| #[trigger]
                    structs@.contains_key(ty) ==> struct_size(types, ty) == Some(structs@[ty]),
                forall|ty: usize| #[trigger] arrays@.contains_key(ty) ==> elem_size(types, ty) == Some(arrays@[ty]),
                forall|k: int|
                    0 <= k < i ==> {
                        let ty = (#[trigger] list@[k]).0;
                        &&& struct_size(types, ty) is Some ==> structs@.contains_key(ty)
                        &&& elem_size(types, ty) is Some ==> arrays@.contains_key(ty)
                    },
        {
            let ty: usize = list[i].0;
            assert(types[list@[i as int].0] == list@[i as int].1@);
            match &list[i].1 {
                Shape::Struct(f) => {
                    structs.insert(ty, fields_total(f));
                },
                Shape::Array(f) => {
                    arrays.insert(ty, field_size(f));
                },
                Shape::Other => {},
            }
        }
        let r = TypeSizes { struct_size: structs, array_elem_size: arrays };
        proof {
            assert forall|ty: usize|
                #![trigger r.struct_size@.contains_key(ty)]
                r.struct_size@.contains_key(ty) == (struct_size(types, ty) is Some) && (r.struct_size@.contains_key(ty)
                    ==> struct_size(types, ty) == Some(r.struct_size@[ty])) by {
                if struct_size(types, ty) is Some {
                    assert(types.contains_key(ty));
                    let k = choose|k: int| 0 <= k < list@.len() && (#[trigger] list@[k]).0 == ty;
                    assert(list@[k].0 == ty);
                }
            }
            assert forall|ty: usize|
                #![trigger r.array_elem_size@.contains_key(ty)]
                r.array_elem_size@.contains_key(ty) == (elem_size(types, ty) is Some) && (
                r.array_elem_size@.contains_key(ty) ==> elem_size(types, ty) == Some(r.array_elem_size@[ty])) by {
                if elem_size(types, ty) is Some {
                    assert(types.contains_key(ty));
                    let k = choose|k: int| 0 <= k < list@.len() && (#[trigger] list@[k]).0 == ty;
                    assert(list@[k].0 == ty);
                }
            }
        }
        r
    }

    fn get_struct(&self, ty: usize, types: Ghost<Map<usize, ShapeView>>) -> (r: Option<i32>)
        requires
            self.is_of(types@),
        ensures
            r == struct_size(types@, ty),
    {
        match self.struct_size.get(&ty) {
            Some(n) => {
                assert(self.struct_size@.contains_key(ty));
                Some(*n)
            },
            None => {
                assert(!self.struct_size@.contains_key(ty));
                None
            },
        }
    }

    fn get_array_elem(&self, ty: usize, types: Ghost<Map<usize, ShapeView>>) -> (r: Option<i32>)
        requires
            self.is_of(types@),
        ensures
            r == elem_size(types@, ty),
    {
        match self.array_elem_size.get(&ty) {
            Some(n) => {
                assert(self.array_elem_size@.contains_key(ty));
                Some(*n)
            },
            None => {
                assert(!self.array_elem_size@.contains_key(ty));
                None
            },
        }
    }

    fn site(&self, op: AllocOp, types: Ghost<Map<usize, ShapeView>>) -> (r: Option<Site>)
        requires
            self.is_of(types@),
        ensures
            r == site(op, types@),
    {
        match op {
            AllocOp::StructNew { ty } | AllocOp::StructNewDefault { ty } => match self.get_struct(ty, types) {
                Some(n) => Some(Site::Fixed(n)),
                None => None,
            },
            AllocOp::ArrayNewFixed { ty, len } => match self.get_array_elem(ty, types) {
                Some(n) => Some(Site::Fixed(n.wrapping_mul(#[verifier::truncate] (len as i32)))),
                None => None,
            },
            AllocOp::ArrayNew { ty } | AllocOp::ArrayNewDefault { ty } | AllocOp::ArrayNewData { ty }
            | AllocOp::ArrayNewElem { ty } => match self.get_array_elem(ty, types) {
                Some(n) => Some(Site::PerElement(n)),
                None => None,
            },
            AllocOp::Other => None,
        }
    }
}

/// Puts a report behind the instructions of `new`.
fn push_added(new: &mut Vec<Placed>, s: Option<Site>, hook: walrus::FunctionId, scratch: walrus::LocalId)
    ensures
        final(new)@.len() == old(new)@.len() + added(s, hook, scratch).len(),
        final(new)@.take(old(new)@.len() as int) == old(new)@,
        are_added(final(new)@.skip(old(new)@.len() as int), added(s, hook, scratch)),
{
    let ghost n = new@.len() as int;
    let ghost before = new@;
    match s {
        Some(Site::Fixed(size)) => {
            if size > 0 {
                new.push(const_instr(size));
                new.push(call_instr(hook));
            }
        },
        Some(Site::PerElement(size)) => {
            if size > 0 {
                new.push(set_instr(scratch));
                new.push(const_instr(size));
                new.push(get_instr(scratch));
                new.push(mul_instr());
                new.push(call_instr(hook));
                new.push(get_instr(scratch));
            }
        },
        None => {},
    }
    assert(new@.take(n) =~= before);
    assert(new@.skip(n).len() == added(s, hook, scratch).len());
}

/// Puts a report in front of each allocation among instructions.
fn rewrite_instrs(
    list: Vec<Placed>,
    sizes: &TypeSizes,
    hook: walrus::FunctionId,
    scratch: walrus::LocalId,
    types: Ghost<Map<usize, ShapeView>>,
) -> (r: (Vec<Placed>, usize))
    requires
        sizes.is_of(types@),
    ensures
        is_rewrite(list@, r.0@, types@, hook, scratch),
        r.1 == sites(list@, types@),
{
    let ghost all = list@;
    let n: usize = list.len();
    let mut new: Vec<Placed> = Vec::new();
    let mut count: usize = 0;
    for x in it: list
        invariant
            it.seq() == all,
            n == all.len(),
            sizes.is_of(types@),
            is_rewrite(all.take(it.index() as int), new@, types@, hook, scratch),
            count == sites(all.take(it.index() as int), types@),
            count <= it.index() <= n,
    {
        let ghost i = it.index() as int;
        let ghost before = new@;
        let op = alloc_of(&x.0);
        let s = sizes.site(op, types);
        let reported: bool = match &s {
            Some(Site::Fixed(n)) => *n > 0,
            Some(Site::PerElement(n)) => *n > 0,
            None => false,
        };
        let ghost ops = added(s, hook, scratch);
        push_added(&mut new, s, hook, scratch);
        let ghost between = new@;
        new.push(x);
        proof {
            let next = all.take(i + 1);
            assert(next.drop_last() =~= all.take(i));
            assert(next.last() == x);
            assert(new@.take(before.len() as int) =~= before);
            assert(new@.subrange(before.len() as int, new@.len() - 1) =~= between.skip(before.len() as int));
            assert(new@.len() - 1 - ops.len() == before.len());
        }
        if reported {
            count += 1;
        }
    }
    assert(all.take(all.len() as int) =~= all);
    (new, count)
}

/// An upper bound of the number of sequences that are reached from one, as far as `depth`
/// goes.
spec fn weight(code: Map<SeqKey, Seq<Placed>>, f: walrus::FunctionId, s: walrus::ir::InstrSeqId, depth: nat) -> nat
    decreases depth, 0nat,
{
    if depth == 0 {
        1
    } else {
        1 + weights(code, f, held_in(code[(f, s)]), (depth - 1) as nat)
    }
}

spec fn weights(
    code: Map<SeqKey, Seq<Placed>>,
    f: walrus::FunctionId,
    stack: Seq<walrus::ir::InstrSeqId>,
    depth: nat,
) -> nat
    decreases depth, stack.len() + 1,
{
    if stack.len() == 0 {
        0
    } else {
        weights(code, f, stack.drop_last(), depth) + weight(code, f, stack.last(), depth)
    }
}

proof fn lemma_weight_grows(
    code: Map<SeqKey, Seq<Placed>>,
    f: walrus::FunctionId,
    s: walrus::ir::InstrSeqId,
    a: nat,
    b: nat,
)
    requires
        a <= b,
    ensures
        weight(code, f, s, a) <= weight(code, f, s, b),
    decreases a, 0nat,
{
    if a > 0 {
        lemma_weights_grow(code, f, held_in(code[(f, s)]), (a - 1) as nat, (b - 1) as nat);
    }
}

proof fn lemma_weights_grow(
    code: Map<SeqKey, Seq<Placed>>,
    f: walrus::FunctionId,
    stack: Seq<walrus::ir::InstrSeqId>,
    a: nat,
    b: nat,
)
    requires
        a <= b,
    ensures
        weights(code, f, stack, a) <= weights(code, f, stack, b),
    decreases a, stack.len() + 1,
{
    if stack.len() > 0 {
        lemma_weights_grow(code, f, stack.drop_last(), a, b);
        lemma_weight_grows(code, f, stack.last(), a, b);
    }
}

/// How far the sequences below one can go.
spec fn depth(s: walrus::ir::InstrSeqId, limit: nat) -> nat {
    if seq_number(s) <= limit {
        (limit + 1 - seq_number(s)) as nat
    } else {
        0
    }
}

/// What is left of a walk: it goes down with each sequence that is gone through.
spec fn pending(
    code: Map<SeqKey, Seq<Placed>>,
    f: walrus::FunctionId,
    stack: Seq<walrus::ir::InstrSeqId>,
    limit: nat,
) -> nat
    decreases stack.len(),
{
    if stack.len() == 0 {
        0
    } else {
        pending(code, f, stack.drop_last(), limit) + weight(code, f, stack.last(), depth(stack.last(), limit))
    }
}

proof fn lemma_pending_joined(
    code: Map<SeqKey, Seq<Placed>>,
    f: walrus::FunctionId,
    a: Seq<walrus::ir::InstrSeqId>,
    b: Seq<walrus::ir::InstrSeqId>,
    limit: nat,
)
    ensures
        pending(code, f, a + b, limit) == pending(code, f, a, limit) + pending(code, f, b, limit),
    decreases b.len(),
{
    if b.len() == 0 {
        assert(a + b =~= a);
    } else {
        assert((a + b).drop_last() =~= a + b.drop_last());
        lemma_pending_joined(code, f, a, b.drop_last(), limit);
    }
}

proof fn lemma_pending_bounded(
    code: Map<SeqKey, Seq<Placed>>,
    f: walrus::FunctionId,
    stack: Seq<walrus::ir::InstrSeqId>,
    limit: nat,
    d: nat,
)
    requires
        forall|i: int| 0 <= i < stack.len() ==> depth(#[trigger] stack[i], limit) <= d,
    ensures
        pending(code, f, stack, limit) <= weights(code, f, stack, d),
    decreases stack.len(),
{
    if stack.len() > 0 {
        let front = stack.drop_last();
        assert forall|i: int| 0 <= i < front.len() implies depth(#[trigger] front[i], limit) <= d by {
            assert(front[i] == stack[i]);
        }
        lemma_pending_bounded(code, f, front, limit, d);
        assert(depth(stack[stack.len() - 1], limit) <= d);
        lemma_weight_grows(code, f, stack.last(), depth(stack.last(), limit), d);
    }
}

/// Whether all sequences of a list are there.
spec fn are_there(code: Map<SeqKey, Seq<Placed>>, f: walrus::FunctionId, list: Seq<walrus::ir::InstrSeqId>) -> bool {
    forall|i: int| 0 <= i < list.len() ==> code.contains_key((f, #[trigger] list[i]))
}

proof fn lemma_held_in(
    code: Map<SeqKey, Seq<Placed>>,
    f: walrus::FunctionId,
    list: Seq<Placed>,
    number: int,
)
    requires
        nests_well(code, f, list, number),
    ensures
        are_there(code, f, held_in(list)),
        forall|i: int| 0 <= i < held_in(list).len() ==> number < seq_number(#[trigger] held_in(list)[i]),
    decreases list.len(),
{
    if list.len() > 0 {
        let front = list.drop_last();
        assert forall|k: int, c: int| 0 <= k < front.len() && 0 <= c < held(front[k].0).len() implies ({
            let s = #[trigger] held(front[k].0)[c];
            code.contains_key((f, s)) && number < seq_number(s)
        }) by {
            assert(front[k] == list[k]);
            let s = held(list[k].0)[c];
        }
        lemma_held_in(code, f, front, number);
        let a = held_in(front);
        let b = held(list.last().0);
        assert forall|i: int| 0 <= i < (a + b).len() implies code.contains_key((f, #[trigger] (a + b)[i])) && number
            < seq_number((a + b)[i]) by {
            if i < a.len() {
                assert((a + b)[i] == a[i]);
            } else {
                assert((a + b)[i] == held(list[list.len() - 1].0)[i - a.len()]);
            }
        }
    }
}

/// Puts the sequences of clauses on a stack.
fn push_given(stack: &mut Vec<walrus::ir::InstrSeqId>, handlers: &Vec<Option<walrus::ir::InstrSeqId>>)
    ensures
        final(stack)@ == old(stack)@ + given(handlers@),
{
    let ghost before = stack@;
    assert(before + given(handlers@.take(0)) =~= before);
    for i in 0..handlers.len()
        invariant
            stack@ == before + given(handlers@.take(i as int)),
    {
        let ghost now = stack@;
        proof {
            assert(handlers@.take(i + 1).drop_last() =~= handlers@.take(i as int));
            assert(handlers@.take(i + 1).last() == handlers@[i as int]);
        }
        if let Some(s) = handlers[i] {
            stack.push(s);
            assert(stack@ =~= before + given(handlers@.take(i + 1)));
        }
    }
    assert(handlers@.take(handlers@.len() as int) =~= handlers@);
}

/// Puts the sequences that instructions hold on a stack.
fn push_held(stack: &mut Vec<walrus::ir::InstrSeqId>, list: &Vec<Placed>)
    ensures
        final(stack)@ == old(stack)@ + held_in(list@),
{
    let ghost before = stack@;
    assert(before + held_in(list@.take(0)) =~= before);
    for i in 0..list.len()
        invariant
            stack@ == before + held_in(list@.take(i as int)),
    {
        let ghost now = stack@;
        proof {
            assert(list@.take(i + 1).drop_last() =~= list@.take(i as int));
            assert(list@.take(i + 1).last() == list@[i as int]);
        }
        match nest_of(&list[i].0) {
            NestOp::Block { seq } => {
                stack.push(seq);
            },
            NestOp::Loop { seq } => {
                stack.push(seq);
            },
            NestOp::IfElse { consequent, alternative } => {
                stack.push(consequent);
                stack.push(alternative);
            },
            NestOp::TryTable { seq } => {
                stack.push(seq);
            },
            NestOp::Try { seq, handlers } => {
                stack.push(seq);
                push_given(stack, &handlers);
            },
            NestOp::Other => {},
        }
        assert(stack@ =~= now + held(list@[i as int].0));
        assert(stack@ =~= before + held_in(list@.take(i + 1)));
    }
    assert(list@.take(list@.len() as int) =~= list@);
}

/// All sequences of a function.
fn collect_seq_ids(m: &walrus::Module, f: walrus::FunctionId, limit: Ghost<nat>) -> (r: Vec<walrus::ir::InstrSeqId>)
    requires
        code_nests(contents(*m).code, limit@),
        contents(*m).entry.contains_key(f),
        contents(*m).code.contains_key((f, contents(*m).entry[f])),
    ensures
        is_walk(contents(*m).code, f, seq![contents(*m).entry[f]], r@),
        are_there(contents(*m).code, f, r@),
{
    let ghost code = contents(*m).code;
    let ghost first = seq![contents(*m).entry[f]];
    let mut out: Vec<walrus::ir::InstrSeqId> = Vec::new();
    let mut stack: Vec<walrus::ir::InstrSeqId> = Vec::new();
    stack.push(entry_block(m, f));
    assert(stack@ =~= first);
    assert forall|rest: Seq<walrus::ir::InstrSeqId>| #[trigger] is_walk(code, f, stack@, rest) implies is_walk(
        code,
        f,
        first,
        out@ + rest,
    ) by {
        assert(out@ + rest =~= rest);
    }
    while stack.len() > 0
        invariant
            code == contents(*m).code,
            code_nests(code, limit@),
            are_there(code, f, out@),
            are_there(code, f, stack@),
            forall|rest: Seq<walrus::ir::InstrSeqId>| #[trigger]
                is_walk(code, f, stack@, rest) ==> is_walk(code, f, first, out@ + rest),
        decreases pending(code, f, stack@, limit@),
    {
        let ghost before = stack@;
        let ghost done = out@;
        if let Some(id) = stack.pop() {
            let ghost left = stack@;
            assert(left =~= before.drop_last());
            assert(code.contains_key((f, before[before.len() - 1])));
            out.push(id);
            let list = block_instrs(m, f, id);
            push_held(&mut stack, list);
            proof {
                let more = held_in(code[(f, id)]);
                lemma_held_in(code, f, code[(f, id)], seq_number(id) as int);
                assert forall|i: int| 0 <= i < stack@.len() implies code.contains_key((f, #[trigger] stack@[i])) by {
                    if i < left.len() {
                        assert(stack@[i] == before[i]);
                    } else {
                        assert(stack@[i] == more[i - left.len()]);
                    }
                }
                assert forall|i: int| 0 <= i < out@.len() implies code.contains_key((f, #[trigger] out@[i])) by {
                    if i < done.len() {
                        assert(out@[i] == done[i]);
                    }
                }
                let d = (depth(id, limit@) - 1) as nat;
                assert forall|i: int| 0 <= i < more.len() implies depth(#[trigger] more[i], limit@) <= d by {
                    assert(code.contains_key((f, more[i])));
                }
                lemma_pending_joined(code, f, left, more, limit@);
                lemma_pending_bounded(code, f, more, limit@, d);
                assert forall|rest: Seq<walrus::ir::InstrSeqId>| #[trigger]
                    is_walk(code, f, stack@, rest) implies is_walk(code, f, first, out@ + rest) by {
                    let longer = seq![id] + rest;
                    assert(longer.drop_first() =~= rest);
                    assert(longer[0] == id);
                    assert(is_walk(code, f, before, longer));
                    assert(out@ + rest =~= done + longer);
                }
            }
        }
    }
    proof {
        let none = Seq::<walrus::ir::InstrSeqId>::empty();
        assert(is_walk(code, f, stack@, none));
        assert(out@ + none =~= out@);
    }
    out
}

/// Whether `after` is `before` with the sequences of `list` rewritten one after the other.
pub open spec fn seqs_rewritten(
    before: Map<SeqKey, Seq<Placed>>,
    after: Map<SeqKey, Seq<Placed>>,
    f: walrus::FunctionId,
    list: Seq<walrus::ir::InstrSeqId>,
    types: Map<usize, ShapeView>,
    hook: walrus::FunctionId,
    scratch: walrus::LocalId,
) -> bool
    decreases list.len(),
{
    if list.len() == 0 {
        after == before
    } else {
        exists|mid: Map<SeqKey, Seq<Placed>>| #[trigger]
            seq_rewritten(mid, after, (f, list.last()), types, hook, scratch) && seqs_rewritten(
                before,
                mid,
                f,
                list.drop_last(),
                types,
                hook,
                scratch,
            )
    }
}

/// Whether `after` is `before` with one sequence rewritten.
pub open spec fn seq_rewritten(
    before: Map<SeqKey, Seq<Placed>>,
    after: Map<SeqKey, Seq<Placed>>,
    key: SeqKey,
    types: Map<usize, ShapeView>,
    hook: walrus::FunctionId,
    scratch: walrus::LocalId,
) -> bool {
    after == before.insert(key, after[key]) && is_rewrite(before[key], after[key], types, hook, scratch)
}

/// How many instructions of the sequences of a list get a report.
pub open spec fn sites_in(
    code: Map<SeqKey, Seq<Placed>>,
    f: walrus::FunctionId,
    list: Seq<walrus::ir::InstrSeqId>,
    types: Map<usize, ShapeView>,
) -> nat
    decreases list.len(),
{
    if list.len() == 0 {
        0
    } else {
        sites_in(code, f, list.drop_last(), types) + sites(code[(f, list.last())], types)
    }
}

pub(crate) proof fn lemma_sites_joined(a: Seq<Placed>, b: Seq<Placed>, types: Map<usize, ShapeView>)
    ensures
        sites(a + b, types) == sites(a, types) + sites(b, types),
    decreases b.len(),
{
    if b.len() == 0 {
        assert(a + b =~= a);
    } else {
        assert((a + b).drop_last() =~= a + b.drop_last());
        lemma_sites_joined(a, b.drop_last(), types);
    }
}

pub(crate) proof fn lemma_added_no_sites(list: Seq<Placed>, ops: Seq<AddedOp>, types: Map<usize, ShapeView>)
    requires
        are_added(list, ops),
    ensures
        sites(list, types) == 0,
    decreases list.len(),
{
    if list.len() > 0 {
        assert(is_added(list[list.len() - 1], ops[list.len() - 1]));
        let front = list.drop_last();
        assert forall|i: int| 0 <= i < ops.drop_last().len() implies is_added(
            #[trigger] front[i],
            ops.drop_last()[i],
        ) by {
            assert(is_added(list[i], ops[i]));
        }
        lemma_added_no_sites(front, ops.drop_last(), types);
    }
}

/// What is put in allocates nothing: a rewritten sequence has as many allocations to report
/// as it had.
pub proof fn law_sites_kept(
    old: Seq<Placed>,
    new: Seq<Placed>,
    types: Map<usize, ShapeView>,
    hook: walrus::FunctionId,
    scratch: walrus::LocalId,
)
    requires
        is_rewrite(old, new, types, hook, scratch),
    ensures
        sites(new, types) == sites(old, types),
    decreases old.len(),
{
    if old.len() > 0 {
        let ops = added(site(alloc_op(old.last().0), types), hook, scratch);
        let n = new.len() - 1 - ops.len();
        let front = new.take(n);
        let mid = new.subrange(n, new.len() - 1);
        law_sites_kept(old.drop_last(), front, types, hook, scratch);
        lemma_added_no_sites(mid, ops, types);
        lemma_sites_joined(front, mid, types);
        assert(new.drop_last() =~= front + mid);
    }
}

/// The instructions of a sequence that are not put in stay as they are and in their order.
pub open spec fn without_added(new: Seq<Placed>, kept: Seq<Placed>) -> bool
    decreases new.len(),
{
    if new.len() == 0 {
        kept.len() == 0
    } else {
        ||| (kept.len() > 0 && kept.last() == new.last() && without_added(new.drop_last(), kept.drop_last()))
        ||| (!(added_op(new.last().0) is Other) && without_added(new.drop_last(), kept))
    }
}

proof fn lemma_without_added(list: Seq<Placed>, ops: Seq<AddedOp>, front: Seq<Placed>, kept: Seq<Placed>)
    requires
        are_added(list, ops),
        forall|i: int| 0 <= i < ops.len() ==> !((#[trigger] ops[i]) is Other),
        without_added(front, kept),
    ensures
        without_added(front + list, kept),
    decreases list.len(),
{
    if list.len() == 0 {
        assert(front + list =~= front);
    } else {
        let l = list.drop_last();
        let o = ops.drop_last();
        assert(is_added(list[list.len() - 1], ops[list.len() - 1]));
        assert forall|i: int| 0 <= i < o.len() implies is_added(#[trigger] l[i], o[i]) by {
            assert(is_added(list[i], ops[i]));
        }
        assert forall|i: int| 0 <= i < o.len() implies !((#[trigger] o[i]) is Other) by {
            assert(o[i] == ops[i]);
        }
        lemma_without_added(l, o, front, kept);
        assert((front + list).drop_last() =~= front + l);
    }
}

/// Taking out what was put in gives back the sequence.
pub proof fn law_instructions_kept(
    old: Seq<Placed>,
    new: Seq<Placed>,
    types: Map<usize, ShapeView>,
    hook: walrus::FunctionId,
    scratch: walrus::LocalId,
)
    requires
        is_rewrite(old, new, types, hook, scratch),
    ensures
        without_added(new, old),
    decreases old.len(),
{
    if old.len() > 0 {
        let ops = added(site(alloc_op(old.last().0), types), hook, scratch);
        let n = new.len() - 1 - ops.len();
        let front = new.take(n);
        let mid = new.subrange(n, new.len() - 1);
        law_instructions_kept(old.drop_last(), front, types, hook, scratch);
        lemma_without_added(mid, ops, front, old.drop_last());
        assert(new.drop_last() =~= front + mid);
    }
}

/// Each instruction of a rewritten sequence was there, or holds no sequence.
proof fn lemma_rewrite_nests(
    code: Map<SeqKey, Seq<Placed>>,
    f: walrus::FunctionId,
    old: Seq<Placed>,
    new: Seq<Placed>,
    number: int,
    types: Map<usize, ShapeView>,
    hook: walrus::FunctionId,
    scratch: walrus::LocalId,
)
    requires
        nests_well(code, f, old, number),
        is_rewrite(old, new, types, hook, scratch),
    ensures
        nests_well(code, f, new, number),
    decreases old.len(),
{
    if old.len() > 0 {
        let ops = added(site(alloc_op(old.last().0), types), hook, scratch);
        let n = new.len() - 1 - ops.len();
        let front = new.take(n);
        let o = old.drop_last();
        assert forall|k: int, c: int| 0 <= k < o.len() && 0 <= c < held(o[k].0).len() implies ({
            let s = #[trigger] held(o[k].0)[c];
            code.contains_key((f, s)) && number < seq_number(s)
        }) by {
            let s = held(old[k].0)[c];
        }
        lemma_rewrite_nests(code, f, o, front, number, types, hook, scratch);
        assert forall|k: int, c: int| 0 <= k < new.len() && 0 <= c < held(new[k].0).len() implies ({
            let s = #[trigger] held(new[k].0)[c];
            code.contains_key((f, s)) && number < seq_number(s)
        }) by {
            if k < n {
                let s = held(front[k].0)[c];
            } else if k < new.len() - 1 {
                assert(is_added(new.subrange(n, new.len() - 1)[k - n], ops[k - n]));
            } else {
                let s = held(old[old.len() - 1].0)[c];
            }
        }
    }
}

proof fn lemma_nests_insert(
    code: Map<SeqKey, Seq<Placed>>,
    key: SeqKey,
    new: Seq<Placed>,
    limit: nat,
)
    requires
        code_nests(code, limit),
        code.contains_key(key),
        nests_well(code, key.0, new, seq_number(key.1) as int),
    ensures
        code_nests(code.insert(key, new), limit),
{
    let after = code.insert(key, new);
    assert forall|k: SeqKey| #[trigger] after.contains_key(k) implies seq_number(k.1) <= limit && nests_well(
        after,
        k.0,
        after[k],
        seq_number(k.1) as int,
    ) by {
        assert(code.contains_key(k));
        let list = after[k];
        assert(nests_well(code, k.0, list, seq_number(k.1) as int));
        assert forall|i: int, c: int| 0 <= i < list.len() && 0 <= c < held(list[i].0).len() implies ({
            let s = #[trigger] held(list[i].0)[c];
            after.contains_key((k.0, s)) && seq_number(k.1) < seq_number(s)
        }) by {
            let s = held(list[i].0)[c];
            assert(code.contains_key((k.0, s)));
        }
    }
}

/// A count that stops at what a `usize` holds.
pub open spec fn capped(n: nat) -> usize {
    if n <= usize::MAX {
        n as usize
    } else {
        usize::MAX
    }
}

/// Whether a function of a module has been rewritten, with `count` reports put in. They keep
/// the number of elements in a new local variable that holds a 32-bit integer.
pub open spec fn function_rewritten(
    before: ModuleView,
    after: ModuleView,
    f: walrus::FunctionId,
    hook: walrus::FunctionId,
    count: nat,
) -> bool {
    exists|list: Seq<walrus::ir::InstrSeqId>, scratch: walrus::LocalId|
        {
            &&& #[trigger] seqs_rewritten(before.code, after.code, f, list, before.types, hook, scratch)
            &&& is_walk(before.code, f, seq![before.entry[f]], list)
            &&& is_new_local(before, scratch)
            &&& after == (ModuleView {
                code: after.code,
                locals: before.locals.insert(scratch, Storage::I32),
                ..before
            })
            &&& count == sites_in(before.code, f, list, before.types)
        }
}

/// Whether the functions of a list have been rewritten one after the other, with `count`
/// reports put in.
pub open spec fn functions_rewritten(
    before: ModuleView,
    after: ModuleView,
    list: Seq<walrus::FunctionId>,
    hook: walrus::FunctionId,
    count: nat,
) -> bool
    decreases list.len(),
{
    if list.len() == 0 {
        after == before && count == 0
    } else {
        exists|mid: ModuleView, n: nat| #[trigger]
            function_rewritten(mid, after, list.last(), hook, n) && n <= count && functions_rewritten(
                before,
                mid,
                list.drop_last(),
                hook,
                (count - n) as nat,
            )
    }
}

/// The functions that have a body.
pub open spec fn local_ids(s: Seq<FunctionEntryView>) -> Seq<walrus::FunctionId>
    decreases s.len(),
{
    if s.len() == 0 {
        Seq::empty()
    } else if s.last().is_local {
        local_ids(s.drop_last()).push(s.last().id)
    } else {
        local_ids(s.drop_last())
    }
}

/// The first function of this name.
pub open spec fn first_named(s: Seq<FunctionEntryView>, name: Seq<char>) -> Option<FunctionEntryView>
    decreases s.len(),
{
    if s.len() == 0 {
        None
    } else {
        match first_named(s.drop_last(), name) {
            Some(f) => Some(f),
            None => if s.last().name == Some(name) {
                Some(s.last())
            } else {
                None
            },
        }
    }
}

/// Whether the allocator passes its first parameter to the hook before anything else.
/// A module without an allocator stays as it is.
pub open spec fn malloc_wrapped(before: ModuleView, after: ModuleView, hook: walrus::FunctionId, wrapped: bool) -> bool {
    match first_named(before.functions, "moonbit.malloc"@) {
        None => !wrapped && after == before,
        Some(f) => {
            let key = (f.id, before.entry[f.id]);
            let new = after.code[key];
            &&& wrapped
            &&& after == (ModuleView { code: before.code.insert(key, new), ..before })
            &&& new.len() == before.code[key].len() + 2
            &&& is_added(new[0], AddedOp::LocalGet { local: before.args[f.id][0] })
            &&& is_added(new[1], AddedOp::Call { func: hook })
            &&& new.skip(2) == before.code[key]
        },
    }
}

/// Whether the allocator is one that cannot be wrapped: it is imported, or takes nothing.
pub open spec fn malloc_unfit(m: ModuleView) -> bool {
    first_named(m.functions, "moonbit.malloc"@) matches Some(f) && (!f.is_local || m.args[f.id].len() == 0)
}

/// What was found in a module.
#[derive(Clone, Copy, Debug, PartialEq, Eq, Structural)]
pub struct InstrumentReport {
    /// Whether there was an allocator to wrap.
    pub moonbit_malloc_wrapped: bool,
    /// The number of allocating instructions that got a call of the hook in front of them.
    pub gc_alloc_sites: usize,
}

/// Whether `after` is `before` with an imported hook that is told of every allocation.
pub open spec fn instrumented(before: ModuleView, after: ModuleView, report: InstrumentReport) -> bool {
    exists|hook: walrus::FunctionId, hooked: ModuleView, wrapped: ModuleView, count: nat|
        #![trigger instrumented_by(before, hooked, wrapped, after, hook, count, report)]
        instrumented_by(before, hooked, wrapped, after, hook, count, report)
}

/// The steps of instrumenting a module: the hook, the allocator, the other functions.
pub open spec fn instrumented_by(
    before: ModuleView,
    hooked: ModuleView,
    wrapped: ModuleView,
    after: ModuleView,
    hook: walrus::FunctionId,
    count: nat,
    report: InstrumentReport,
) -> bool {
    &&& hook_imported(before, hooked, "moonbit_profile"@, "alloc_hook"@, hook)
    &&& malloc_wrapped(hooked, wrapped, hook, report.moonbit_malloc_wrapped)
    &&& functions_rewritten(wrapped, after, local_ids(wrapped.functions), hook, count)
    &&& report.gc_alloc_sites == capped(count)
}

/// Why a module cannot be instrumented.
#[derive(Clone, Copy, Debug, PartialEq, Eq, Structural)]
pub enum InstrumentError {
    /// It cannot be read.
    Read,
    /// Its allocator is imported, or takes nothing.
    Malloc,
    /// It has no allocator and allocates nothing of any size.
    NoSites,
}

pub(crate) proof fn lemma_same_sites(
    before: Map<SeqKey, Seq<Placed>>,
    after: Map<SeqKey, Seq<Placed>>,
    f: walrus::FunctionId,
    list: Seq<walrus::ir::InstrSeqId>,
    types: Map<usize, ShapeView>,
    hook: walrus::FunctionId,
    scratch: walrus::LocalId,
    key: SeqKey,
)
    requires
        seqs_rewritten(before, after, f, list, types, hook, scratch),
    ensures
        sites(after[key], types) == sites(before[key], types),
    decreases list.len(),
{
    if list.len() > 0 {
        let last = (f, list.last());
        let mid = choose|mid: Map<SeqKey, Seq<Placed>>| #[trigger]
            seq_rewritten(mid, after, last, types, hook, scratch) && seqs_rewritten(
                before,
                mid,
                f,
                list.drop_last(),
                types,
                hook,
                scratch,
            );
        lemma_same_sites(before, mid, f, list.drop_last(), types, hook, scratch, key);
        if key == last {
            law_sites_kept(mid[last], after[last], types, hook, scratch);
        }
    }
}

/// Rewrites a function.
fn instrument_function(
    m: &mut walrus::Module,
    f: walrus::FunctionId,
    hook: walrus::FunctionId,
    sizes: &TypeSizes,
    limit: Ghost<nat>,
) -> (r: (usize, Ghost<nat>))
    requires
        code_nests(contents(*old(m)).code, limit@),
        contents(*old(m)).entry.contains_key(f),
        contents(*old(m)).code.contains_key((f, contents(*old(m)).entry[f])),
        sizes.is_of(contents(*old(m)).types),
    ensures
        function_rewritten(contents(*old(m)), contents(*final(m)), f, hook, r.1@),
        r.0 == capped(r.1@),
        code_nests(contents(*final(m)).code, limit@),
        contents(*final(m)).code.dom() == contents(*old(m)).code.dom(),
{
    let ghost before = contents(*m);
    let ghost types = before.types;
    let seqs = collect_seq_ids(m, f, limit);
    let scratch = add_local(m);
    let mut count: usize = 0;
    let ghost mut exact: nat = 0;
    assert(before.code == contents(*m).code);
    assert(seqs_rewritten(before.code, before.code, f, seqs@.take(0), types, hook, scratch));
    for i in 0..seqs.len()
        invariant
            types == before.types,
            sizes.is_of(types),
            are_there(before.code, f, seqs@),
            contents(*m) == (ModuleView {
                code: contents(*m).code,
                locals: before.locals.insert(scratch, Storage::I32),
                ..before
            }),
            contents(*m).code.dom() == before.code.dom(),
            code_nests(contents(*m).code, limit@),
            seqs_rewritten(before.code, contents(*m).code, f, seqs@.take(i as int), types, hook, scratch),
            exact == sites_in(before.code, f, seqs@.take(i as int), types),
            count == capped(exact),
    {
        let s = seqs[i];
        let ghost key = (f, s);
        let ghost mid = contents(*m).code;
        proof {
            assert(before.code.contains_key((f, seqs@[i as int])));
            assert(before.code.dom().contains(key));
            assert(mid.contains_key(key));
            lemma_same_sites(before.code, mid, f, seqs@.take(i as int), types, hook, scratch, key);
        }
        let list = replace_instrs(m, f, s, Vec::new());
        let ghost old_list = list@;
        let (new, n) = rewrite_instrs(list, sizes, hook, scratch, Ghost(types));
        let ghost new_list = new@;
        let _ = replace_instrs(m, f, s, new);
        proof {
            let after = contents(*m).code;
            assert(mid.insert(key, Seq::<Placed>::empty()).insert(key, new_list) =~= mid.insert(key, new_list));
            assert(after == mid.insert(key, new_list));
            assert(after.dom() =~= before.code.dom());
            lemma_rewrite_nests(
                mid,
                f,
                old_list,
                new_list,
                seq_number(s) as int,
                types,
                hook,
                scratch,
            );
            lemma_nests_insert(mid, key, new_list, limit@);
            let upto = seqs@.take(i + 1);
            assert(upto.drop_last() =~= seqs@.take(i as int));
            assert(upto.last() == s);
            assert(seq_rewritten(mid, after, (f, upto.last()), types, hook, scratch));
            exact = exact + sites(old_list, types);
        }
        count = if n > usize::MAX - count {
            usize::MAX
        } else {
            count + n
        };
    }
    assert(seqs@.take(seqs@.len() as int) =~= seqs@);
    (count, Ghost(exact))
}

/// Whether a function with a body has this id.
spec fn is_local_id(s: Seq<FunctionEntryView>, id: walrus::FunctionId) -> bool {
    exists|i: int| 0 <= i < s.len() && (#[trigger] s[i]).is_local && s[i].id == id
}

/// The functions that have a body.
fn local_functions(list: &Vec<FunctionEntry>) -> (r: Vec<walrus::FunctionId>)
    ensures
        r@ == local_ids(entry_views(list@)),
        forall|k: int| 0 <= k < r@.len() ==> is_local_id(entry_views(list@), #[trigger] r@[k]),
{
    let ghost all = entry_views(list@);
    let mut r: Vec<walrus::FunctionId> = Vec::new();
    assert(r@ =~= local_ids(all.take(0)));
    for i in 0..list.len()
        invariant
            all == entry_views(list@),
            r@ == local_ids(all.take(i as int)),
            forall|k: int| 0 <= k < r@.len() ==> is_local_id(all, #[trigger] r@[k]),
    {
        let ghost before = r@;
        proof {
            assert(all.take(i + 1).drop_last() =~= all.take(i as int));
            assert(all.take(i + 1).last() == all[i as int]);
        }
        if list[i].is_local {
            r.push(list[i].id);
            proof {
                assert forall|k: int| 0 <= k < r@.len() implies is_local_id(all, #[trigger] r@[k]) by {
                    if k < before.len() {
                        assert(r@[k] == before[k]);
                    } else {
                        assert(all[i as int].is_local && all[i as int].id == r@[k]);
                    }
                }
            }
        }
    }
    assert(all.take(all.len() as int) =~= all);
    r
}

/// The first function of this name.
fn find_func_by_name(list: &Vec<FunctionEntry>, name: &str) -> (r: Option<usize>)
    ensures
        match r {
            Some(i) => i < list@.len() && first_named(entry_views(list@), name@) == Some(list@[i as int]@),
            None => first_named(entry_views(list@), name@) is None,
        },
{
    let ghost all = entry_views(list@);
    let mut found: Option<usize> = None;
    for i in 0..list.len()
        invariant
            all == entry_views(list@),
            match found {
                Some(k) => k < list@.len() && first_named(all.take(i as int), name@) == Some(list@[k as int]@),
                None => first_named(all.take(i as int), name@) is None,
            },
    {
        proof {
            assert(all.take(i + 1).drop_last() =~= all.take(i as int));
            assert(all.take(i + 1).last() == list@[i as int]@);
        }
        if found.is_none() {
            if let Some(n) = &list[i].name {
                if n.as_str().eq(name) {
                    found = Some(i);
                }
            }
        }
    }
    assert(all.take(all.len() as int) =~= all);
    found
}

/// Passes the allocator's first parameter to the hook.
fn wrap_moonbit_malloc(
    m: &mut walrus::Module,
    target: walrus::FunctionId,
    size_arg: walrus::LocalId,
    hook: walrus::FunctionId,
    limit: Ghost<nat>,
)
    requires
        code_nests(contents(*old(m)).code, limit@),
        contents(*old(m)).entry.contains_key(target),
        contents(*old(m)).code.contains_key((target, contents(*old(m)).entry[target])),
    ensures
        ({
            let before = contents(*old(m));
            let after = contents(*final(m));
            let key = (target, before.entry[target]);
            let new = after.code[key];
            &&& after == (ModuleView { code: before.code.insert(key, new), ..before })
            &&& new.len() == before.code[key].len() + 2
            &&& is_added(new[0], AddedOp::LocalGet { local: size_arg })
            &&& is_added(new[1], AddedOp::Call { func: hook })
            &&& new.skip(2) == before.code[key]
            &&& code_nests(after.code, limit@)
            &&& after.code.dom() == before.code.dom()
        }),
{
    let ghost before = contents(*m);
    let entry = entry_block(m, target);
    let ghost key = (target, entry);
    let original = replace_instrs(m, target, entry, Vec::new());
    let ghost old_list = original@;
    let mut new: Vec<Placed> = Vec::new();
    new.push(get_instr(size_arg));
    new.push(call_instr(hook));
    let ghost head = new@;
    let mut rest = original;
    new.append(&mut rest);
    let ghost new_list = new@;
    assert(new_list =~= head + old_list);
    let _ = replace_instrs(m, target, entry, new);
    proof {
        assert(before.code.insert(key, Seq::<Placed>::empty()).insert(key, new_list) =~= before.code.insert(
            key,
            new_list,
        ));
        assert(new_list.skip(2) =~= old_list);
        assert(contents(*m).code.dom() =~= before.code.dom());
        let number = seq_number(entry) as int;
        assert(nests_well(before.code, target, old_list, number));
        assert forall|k: int, c: int| 0 <= k < new_list.len() && 0 <= c < held(new_list[k].0).len() implies ({
            let s = #[trigger] held(new_list[k].0)[c];
            before.code.contains_key((target, s)) && number < seq_number(s)
        }) by {
            if k >= 2 {
                assert(new_list[k] == old_list[k - 2]);
                let s = held(old_list[k - 2].0)[c];
            }
        }
        lemma_nests_insert(before.code, key, new_list, limit@);
    }
}

/// Rewrites the functions of a list.
fn instrument_gc_allocs(
    m: &mut walrus::Module,
    fids: &Vec<walrus::FunctionId>,
    hook: walrus::FunctionId,
    sizes: &TypeSizes,
    limit: Ghost<nat>,
) -> (r: (usize, Ghost<nat>))
    requires
        code_nests(contents(*old(m)).code, limit@),
        forall|k: int|
            0 <= k < fids@.len() ==> contents(*old(m)).entry.contains_key(#[trigger] fids@[k]) && contents(
                *old(m),
            ).code.contains_key((fids@[k], contents(*old(m)).entry[fids@[k]])),
        sizes.is_of(contents(*old(m)).types),
    ensures
        functions_rewritten(contents(*old(m)), contents(*final(m)), fids@, hook, r.1@),
        r.0 == capped(r.1@),
{
    let ghost before = contents(*m);
    let mut total: usize = 0;
    let ghost mut exact: nat = 0;
    assert(functions_rewritten(before, before, fids@.take(0), hook, 0));
    for i in 0..fids.len()
        invariant
            code_nests(contents(*m).code, limit@),
            contents(*m) == (ModuleView { code: contents(*m).code, locals: contents(*m).locals, ..before }),
            contents(*m).code.dom() == before.code.dom(),
            forall|k: int|
                0 <= k < fids@.len() ==> before.entry.contains_key(#[trigger] fids@[k]) && before.code.contains_key(
                    (fids@[k], before.entry[fids@[k]]),
                ),
            sizes.is_of(before.types),
            functions_rewritten(before, contents(*m), fids@.take(i as int), hook, exact),
            total == capped(exact),
    {
        let ghost mid = contents(*m);
        let f = fids[i];
        assert(before.code.dom().contains((fids@[i as int], before.entry[fids@[i as int]])));
        let (n, Ghost(more)) = instrument_function(m, f, hook, sizes, limit);
        proof {
            let upto = fids@.take(i + 1);
            assert(upto.drop_last() =~= fids@.take(i as int));
            assert(upto.last() == f);
            assert(function_rewritten(mid, contents(*m), upto.last(), hook, more));
            assert((exact + more - more) as nat == exact);
            exact = exact + more;
        }
        total = if n > usize::MAX - total {
            usize::MAX
        } else {
            total + n
        };
    }
    assert(fids@.take(fids@.len() as int) =~= fids@);
    (total, Ghost(exact))
}

/// Puts the hook into a module.
fn instrument_module(m: &mut walrus::Module, limit: Ghost<nat>) -> (r: Result<InstrumentReport, InstrumentError>)
    requires
        bodies_ok(contents(*old(m))),
        code_nests(contents(*old(m)).code, limit@),
    ensures
        match r {
            Ok(report) => {
                &&& !malloc_unfit(contents(*old(m)))
                &&& instrumented(contents(*old(m)), contents(*final(m)), report)
                &&& report.moonbit_malloc_wrapped || report.gc_alloc_sites > 0
            },
            Err(e) => if malloc_unfit(contents(*old(m))) {
                e == InstrumentError::Malloc
            } else {
                &&& e == InstrumentError::NoSites
                &&& instrumented(
                    contents(*old(m)),
                    contents(*final(m)),
                    InstrumentReport { moonbit_malloc_wrapped: false, gc_alloc_sites: 0 },
                )
            },
        },
{
    let ghost before = contents(*m);
    let hook = import_hook(m, "moonbit_profile", "alloc_hook");
    let ghost hooked = contents(*m);
    let list = list_functions(m);
    proof {
        assert(hooked.functions.drop_last() =~= before.functions);
        assert(first_named(hooked.functions, "moonbit.malloc"@) == first_named(before.functions, "moonbit.malloc"@));
        assert forall|i: int| 0 <= i < hooked.functions.len() && (#[trigger] hooked.functions[i]).is_local implies ({
            let f = hooked.functions[i].id;
            hooked.args.contains_key(f) && hooked.entry.contains_key(f) && hooked.code.contains_key(
                (f, hooked.entry[f]),
            )
        }) by {
            assert(i < before.functions.len());
            assert(hooked.functions[i] == before.functions[i]);
        }
    }
    let moonbit_malloc_wrapped: bool = match find_func_by_name(&list, "moonbit.malloc") {
        Some(i) => {
            if !list[i].is_local {
                return Err(InstrumentError::Malloc);
            }
            let f = list[i].id;
            assert(hooked.functions[i as int] == list@[i as int]@);
            match first_arg(m, f) {
                Some(size_arg) => {
                    wrap_moonbit_malloc(m, f, size_arg, hook, limit);
                },
                None => {
                    return Err(InstrumentError::Malloc);
                },
            }
            true
        },
        None => false,
    };
    let ghost wrapped = contents(*m);
    assert(malloc_wrapped(hooked, wrapped, hook, moonbit_malloc_wrapped));
    let sizes = TypeSizes::build(m);
    let fids = local_functions(&list);
    proof {
        assert(wrapped.functions == entry_views(list@));
        assert(wrapped.code.dom() =~= hooked.code.dom());
        assert forall|k: int| 0 <= k < fids@.len() implies wrapped.entry.contains_key(#[trigger] fids@[k])
            && wrapped.code.contains_key((fids@[k], wrapped.entry[fids@[k]])) by {
            let all = entry_views(list@);
            assert(is_local_id(all, fids@[k]));
            let i = choose|i: int| 0 <= i < all.len() && (#[trigger] all[i]).is_local && all[i].id == fids@[k];
            assert(hooked.functions[i].is_local);
            assert(hooked.code.dom().contains((fids@[k], hooked.entry[fids@[k]])));
        }
    }
    let (gc_alloc_sites, Ghost(count)) = instrument_gc_allocs(m, &fids, hook, &sizes, limit);
    let report = InstrumentReport { moonbit_malloc_wrapped, gc_alloc_sites };
    proof {
        assert(functions_rewritten(wrapped, contents(*m), local_ids(wrapped.functions), hook, count));
        assert(instrumented_by(before, hooked, wrapped, contents(*m), hook, count, report));
    }
    if !moonbit_malloc_wrapped && gc_alloc_sites == 0 {
        return Err(InstrumentError::NoSites);
    }
    Ok(report)
}

/// Puts calls of an imported `moonbit_profile.alloc_hook` into a module: at the head of
/// MoonBit's allocator, and in front of every instruction that allocates. The hook is told
/// the number of bytes.
pub fn instrument(wasm_bytes: &[u8]) -> (r: Result<(Vec<u8>, InstrumentReport), InstrumentError>)
    ensures
        (r == Err::<(Vec<u8>, InstrumentReport), InstrumentError>(InstrumentError::Read)) == !wasm_valid(wasm_bytes@),
        wasm_valid(wasm_bytes@) ==> exists|m: walrus::Module, out: walrus::Module|
            #![trigger read_as(wasm_bytes@, m), contents(out)]
            read_as(wasm_bytes@, m) && match r {
                Ok((bytes, report)) => {
                    &&& !malloc_unfit(contents(m))
                    &&& instrumented(contents(m), contents(out), report)
                    &&& report.moonbit_malloc_wrapped || report.gc_alloc_sites > 0
                    &&& written_as(out, bytes@)
                },
                Err(e) => if malloc_unfit(contents(m)) {
                    e == InstrumentError::Malloc
                } else {
                    &&& e == InstrumentError::NoSites
                    &&& instrumented(
                        contents(m),
                        contents(out),
                        InstrumentReport { moonbit_malloc_wrapped: false, gc_alloc_sites: 0 },
                    )
                },
            },
{
    let mut m = match read_module(wasm_bytes) {
        Ok(m) => m,
        Err(_) => {
            return Err(InstrumentError::Read);
        },
    };
    let ghost first = m;
    let result = instrument_module(&mut m, Ghost(wasm_bytes@.len()));
    let ghost out = m;
    assert(read_as(wasm_bytes@, first) && contents(out) == contents(out));
    match result {
        Ok(report) => {
            let bytes = write_module(m);
            Ok((bytes, report))
        },
        Err(e) => Err(e),
    }
}

/// The operands of a function, as far as a report goes: the stack of 32-bit integers, the
/// local variable that a report uses, and what the hook was told.
#[verifier::ext_equal]
pub struct Operands {
    pub stack: Seq<i32>,
    pub scratch: i32,
    pub told: Seq<i32>,
}

/// What an instruction of a report does.
pub open spec fn run_added(o: Operands, op: AddedOp) -> Operands {
    let top = o.stack.last();
    let below = o.stack.drop_last();
    match op {
        AddedOp::Const { value } => Operands { stack: o.stack.push(value), ..o },
        AddedOp::Call { .. } => Operands { stack: below, told: o.told.push(top), ..o },
        AddedOp::LocalGet { .. } => Operands { stack: o.stack.push(o.scratch), ..o },
        AddedOp::LocalSet { .. } => Operands { stack: below, scratch: top, ..o },
        AddedOp::MulI32 => Operands {
            stack: below.drop_last().push(below.last().wrapping_mul(top)),
            ..o
        },
        AddedOp::Other => o,
    }
}

/// What the instructions of a report do.
pub open spec fn run_all(o: Operands, ops: Seq<AddedOp>) -> Operands
    decreases ops.len(),
{
    if ops.len() == 0 {
        o
    } else {
        run_added(run_all(o, ops.drop_last()), ops.last())
    }
}

/// A report leaves the operands of the allocation as they are. The hook is told the size: a
/// fixed one, or the number of elements on top of the stack times their size.
pub proof fn law_operands_kept(s: Site, hook: walrus::FunctionId, scratch: walrus::LocalId, o: Operands)
    requires
        s matches Site::PerElement(n) ==> o.stack.len() > 0,
    ensures
        ({
            let after = run_all(o, added(Some(s), hook, scratch));
            &&& after.stack == o.stack
            &&& match s {
                Site::Fixed(n) => after.told == if n > 0 {
                    o.told.push(n)
                } else {
                    o.told
                },
                Site::PerElement(n) => after.told == if n > 0 {
                    o.told.push(n.wrapping_mul(o.stack.last()))
                } else {
                    o.told
                },
            }
        }),
{
    let ops = added(Some(s), hook, scratch);
    match s {
        Site::Fixed(n) => {
            if n > 0 {
                let a = run_added(o, ops[0]);
                let b = run_added(a, ops[1]);
                assert(ops.drop_last() =~= seq![ops[0]]);
                assert(seq![ops[0]].drop_last() =~= Seq::empty());
                reveal_with_fuel(run_all, 3);
                assert(run_all(o, ops) == b);
                assert(b.stack =~= o.stack);
            }
        },
        Site::PerElement(n) => {
            if n > 0 {
                let a = run_added(o, ops[0]);
                let b = run_added(a, ops[1]);
                let c = run_added(b, ops[2]);
                let d = run_added(c, ops[3]);
                let e = run_added(d, ops[4]);
                let f = run_added(e, ops[5]);
                let o5 = ops.drop_last();
                let o4 = o5.drop_last();
                let o3 = o4.drop_last();
                let o2 = o3.drop_last();
                let o1 = o2.drop_last();
                assert(o1.drop_last() =~= Seq::empty());
                assert(o5.last() == ops[4] && o4.last() == ops[3] && o3.last() == ops[2] && o2.last() == ops[1]
                    && o1.last() == ops[0]);
                assert(run_all(o, o1.drop_last()) == o);
                assert(run_all(o, o1) == a);
                assert(run_all(o, o2) == b);
                assert(run_all(o, o3) == c);
                assert(run_all(o, o4) == d);
                assert(run_all(o, o5) == e);
                assert(run_all(o, ops) == f);
                assert(a.stack.push(n).push(a.scratch).drop_last() =~= a.stack.push(n));
                assert(a.stack.push(n).drop_last() =~= a.stack);
                assert(d.stack =~= a.stack.push(n.wrapping_mul(a.scratch)));
                assert(e.stack =~= a.stack);
                assert(f.stack =~= o.stack);
            }
        },
    }
}

} // verus!
