//! WebAssembly modules, as far as instrumenting them goes. The `walrus` crate reads, holds
//! and writes them.
use vstd::prelude::*;
use walrus::ir::{Instr, LegacyCatch};

verus! {

/// A module.
#[verifier::external_type_specification]
#[verifier::external_body]
pub struct ExModule(walrus::Module);

/// What went wrong while a module was read.
#[verifier::external_type_specification]
#[verifier::external_body]
pub struct ExAnyhowError(anyhow::Error);

/// A reference to a part of a module.
#[verifier::external_type_specification]
#[verifier::external_body]
#[verifier::reject_recursive_types(T)]
pub struct ExId<T>(id_arena::Id<T>);

/// A function of a module.
#[verifier::external_type_specification]
#[verifier::external_body]
pub struct ExFunction(walrus::Function);

/// A local variable of a function.
#[verifier::external_type_specification]
#[verifier::external_body]
pub struct ExLocal(walrus::Local);

/// The type of a field.
#[verifier::external_type_specification]
#[verifier::external_body]
pub struct ExFieldType(walrus::FieldType);

/// A sequence of instructions.
#[verifier::external_type_specification]
#[verifier::external_body]
pub struct ExInstrSeq(walrus::ir::InstrSeq);

/// An instruction.
#[verifier::external_type_specification]
#[verifier::external_body]
pub struct ExInstr(walrus::ir::Instr);

/// Where an instruction came from.
#[verifier::external_type_specification]
#[verifier::external_body]
pub struct ExInstrLocId(walrus::ir::InstrLocId);

/// How a field is stored.
#[derive(Clone, Copy, Debug, PartialEq, Eq, Structural)]
pub enum Storage {
    I8,
    I16,
    I32,
    I64,
    F32,
    F64,
    V128,
    Ref,
}

/// What a type describes.
pub enum Shape {
    Struct(Vec<walrus::FieldType>),
    Array(walrus::FieldType),
    Other,
}

/// The value of a [`Shape`].
#[verifier::ext_equal]
pub enum ShapeView {
    Struct(Seq<walrus::FieldType>),
    Array(walrus::FieldType),
    Other,
}

impl View for Shape {
    type V = ShapeView;

    open spec fn view(&self) -> ShapeView {
        match self {
            Shape::Struct(f) => ShapeView::Struct(f@),
            Shape::Array(f) => ShapeView::Array(*f),
            Shape::Other => ShapeView::Other,
        }
    }
}

/// A function of a module.
pub struct FunctionEntry {
    pub id: walrus::FunctionId,
    pub name: Option<String>,
    /// Whether it has a body. The others are imported.
    pub is_local: bool,
}

/// The value of a [`FunctionEntry`].
#[verifier::ext_equal]
pub struct FunctionEntryView {
    pub id: walrus::FunctionId,
    pub name: Option<Seq<char>>,
    pub is_local: bool,
}

impl View for FunctionEntry {
    type V = FunctionEntryView;

    open spec fn view(&self) -> FunctionEntryView {
        FunctionEntryView {
            id: self.id,
            name: match self.name {
                Some(s) => Some(s@),
                None => None,
            },
            is_local: self.is_local,
        }
    }
}

pub open spec fn entry_views(s: Seq<FunctionEntry>) -> Seq<FunctionEntryView> {
    Seq::new(s.len(), |i: int| s[i]@)
}

/// An instruction and where it came from.
pub type Placed = (walrus::ir::Instr, walrus::ir::InstrLocId);

/// A sequence of instructions by its function.
pub type SeqKey = (walrus::FunctionId, walrus::ir::InstrSeqId);

/// What a module holds, as far as instrumenting it goes.
#[verifier::ext_equal]
pub struct ModuleView {
    /// All functions in their order.
    pub functions: Seq<FunctionEntryView>,
    /// The parameters of the functions that have a body.
    pub args: Map<walrus::FunctionId, Seq<walrus::LocalId>>,
    /// The outermost sequences of the functions that have a body.
    pub entry: Map<walrus::FunctionId, walrus::ir::InstrSeqId>,
    /// The instructions.
    pub code: Map<SeqKey, Seq<Placed>>,
    /// The types by number.
    pub types: Map<usize, ShapeView>,
    /// The imported functions, with the module and the name that they are imported by.
    pub imports: Seq<(Seq<char>, Seq<char>, walrus::FunctionId)>,
    /// The parameters and the results of functions.
    pub signatures: Map<walrus::FunctionId, (Seq<Storage>, Seq<Storage>)>,
    /// What the local variables hold.
    pub locals: Map<walrus::LocalId, Storage>,
}

/// What a module holds.
pub uninterp spec fn contents(m: walrus::Module) -> ModuleView;

/// Whether bytes are a module that the `walrus` crate reads.
pub uninterp spec fn wasm_valid(bytes: Seq<u8>) -> bool;

/// Whether a module is what is read out of bytes.
pub uninterp spec fn read_as(bytes: Seq<u8>, m: walrus::Module) -> bool;

/// Whether bytes are what a module is written as.
pub uninterp spec fn written_as(m: walrus::Module, bytes: Seq<u8>) -> bool;

/// The number of a sequence within its function.
pub uninterp spec fn seq_number(s: walrus::ir::InstrSeqId) -> nat;

/// Instructions that allocate.
pub enum AllocOp {
    StructNew { ty: usize },
    StructNewDefault { ty: usize },
    ArrayNewFixed { ty: usize, len: u32 },
    ArrayNew { ty: usize },
    ArrayNewDefault { ty: usize },
    ArrayNewData { ty: usize },
    ArrayNewElem { ty: usize },
    Other,
}

/// Instructions that hold sequences of instructions.
pub enum NestOp {
    Block { seq: walrus::ir::InstrSeqId },
    Loop { seq: walrus::ir::InstrSeqId },
    IfElse { consequent: walrus::ir::InstrSeqId, alternative: walrus::ir::InstrSeqId },
    TryTable { seq: walrus::ir::InstrSeqId },
    /// A clause without a sequence of its own hands on what it catches.
    Try { seq: walrus::ir::InstrSeqId, handlers: Vec<Option<walrus::ir::InstrSeqId>> },
    Other,
}

/// The value of a [`NestOp`].
#[verifier::ext_equal]
pub enum NestView {
    Block { seq: walrus::ir::InstrSeqId },
    Loop { seq: walrus::ir::InstrSeqId },
    IfElse { consequent: walrus::ir::InstrSeqId, alternative: walrus::ir::InstrSeqId },
    TryTable { seq: walrus::ir::InstrSeqId },
    Try { seq: walrus::ir::InstrSeqId, handlers: Seq<Option<walrus::ir::InstrSeqId>> },
    Other,
}

impl View for NestOp {
    type V = NestView;

    open spec fn view(&self) -> NestView {
        match self {
            NestOp::Block { seq } => NestView::Block { seq: *seq },
            NestOp::Loop { seq } => NestView::Loop { seq: *seq },
            NestOp::IfElse { consequent, alternative } => NestView::IfElse {
                consequent: *consequent,
                alternative: *alternative,
            },
            NestOp::TryTable { seq } => NestView::TryTable { seq: *seq },
            NestOp::Try { seq, handlers } => NestView::Try { seq: *seq, handlers: handlers@ },
            NestOp::Other => NestView::Other,
        }
    }
}

/// Instructions that are put in.
#[verifier::ext_equal]
pub enum AddedOp {
    Const { value: i32 },
    Call { func: walrus::FunctionId },
    LocalGet { local: walrus::LocalId },
    LocalSet { local: walrus::LocalId },
    MulI32,
    Other,
}

/// How a field is stored.
pub uninterp spec fn storage(f: walrus::FieldType) -> Storage;

/// What an instruction allocates.
pub uninterp spec fn alloc_op(i: walrus::ir::Instr) -> AllocOp;

/// The sequences that an instruction holds.
pub uninterp spec fn nest_op(i: walrus::ir::Instr) -> NestView;

/// The local variable that an instruction reads or sets.
pub uninterp spec fn local_of(i: walrus::ir::Instr) -> Option<walrus::LocalId>;

/// Which of the instructions that are put in an instruction is.
pub uninterp spec fn added_op(i: walrus::ir::Instr) -> AddedOp;

/// The sequences of the clauses that have one.
pub open spec fn given(handlers: Seq<Option<walrus::ir::InstrSeqId>>) -> Seq<walrus::ir::InstrSeqId>
    decreases handlers.len(),
{
    if handlers.len() == 0 {
        Seq::empty()
    } else {
        match handlers.last() {
            Some(s) => given(handlers.drop_last()).push(s),
            None => given(handlers.drop_last()),
        }
    }
}

/// The sequences that an instruction holds, in their order.
pub open spec fn held(i: walrus::ir::Instr) -> Seq<walrus::ir::InstrSeqId> {
    match nest_op(i) {
        NestView::Block { seq } => seq![seq],
        NestView::Loop { seq } => seq![seq],
        NestView::IfElse { consequent, alternative } => seq![consequent, alternative],
        NestView::TryTable { seq } => seq![seq],
        NestView::Try { seq, handlers } => seq![seq] + given(handlers),
        NestView::Other => Seq::empty(),
    }
}

/// Whether the sequences that stand in a list of instructions are there and are numbered
/// after `number`.
pub open spec fn nests_well(
    code: Map<SeqKey, Seq<Placed>>,
    f: walrus::FunctionId,
    list: Seq<Placed>,
    number: int,
) -> bool {
    forall|k: int, c: int|
        0 <= k < list.len() && 0 <= c < held(list[k].0).len() ==> {
            let s = #[trigger] held(list[k].0)[c];
            code.contains_key((f, s)) && number < seq_number(s)
        }
}

/// Whether the functions with a body have parameters and an outermost sequence.
pub open spec fn bodies_ok(m: ModuleView) -> bool {
    forall|i: int|
        0 <= i < m.functions.len() && (#[trigger] m.functions[i]).is_local ==> {
            let f = m.functions[i].id;
            m.args.contains_key(f) && m.entry.contains_key(f) && m.code.contains_key((f, m.entry[f]))
        }
}

/// Whether the sequences nest: each holds only sequences that are numbered after it, and no
/// number is above `limit`.
pub open spec fn code_nests(code: Map<SeqKey, Seq<Placed>>, limit: nat) -> bool {
    forall|key: SeqKey| #[trigger]
        code.contains_key(key) ==> seq_number(key.1) <= limit && nests_well(
            code,
            key.0,
            code[key],
            seq_number(key.1) as int,
        )
}

/// `walrus::Module::from_buffer`: reads a module. Each function with a body has an outermost
/// sequence. A sequence is numbered when it is opened, so after the one that holds it, and
/// there are no more of them than bytes.
#[verifier::external_body]
pub(crate) fn read_module(bytes: &[u8]) -> (r: Result<walrus::Module, anyhow::Error>)
    ensures
        match r {
            Ok(m) => {
                &&& wasm_valid(bytes@)
                &&& read_as(bytes@, m)
                &&& bodies_ok(contents(m))
                &&& forall|key: SeqKey| #[trigger]
                    contents(m).code.contains_key(key) ==> seq_number(key.1) <= bytes@.len() && nests_well(
                        contents(m).code,
                        key.0,
                        contents(m).code[key],
                        seq_number(key.1) as int,
                    )
            },
            Err(_) => !wasm_valid(bytes@),
        },
{
    walrus::Module::from_buffer(bytes)
}

/// `walrus::Module::emit_wasm`: writes a module.
#[verifier::external_body]
pub(crate) fn write_module(mut m: walrus::Module) -> (r: Vec<u8>)
    ensures
        written_as(m, r@),
{
    m.emit_wasm()
}

/// `walrus::Module::add_import_func`, with a signature from `walrus::ModuleTypes::add`: adds
/// an imported function of one 32-bit integer, without a result, behind the other functions. The signature may
/// be new among the types.
#[verifier::external_body]
pub(crate) fn import_hook(m: &mut walrus::Module, module: &str, name: &str) -> (id: walrus::FunctionId)
    ensures
        hook_imported(contents(*old(m)), contents(*final(m)), module@, name@, id),
{
    let ty = m.types.add(&[walrus::ValType::I32], &[]);
    m.add_import_func(module, name, ty).0
}

/// Whether an imported function has been put behind the others, under an id of its own.
pub open spec fn hook_imported(
    before: ModuleView,
    after: ModuleView,
    module: Seq<char>,
    name: Seq<char>,
    id: walrus::FunctionId,
) -> bool {
    &&& after.imports == before.imports.push((module, name, id))
    &&& after.functions == before.functions.push(FunctionEntryView { id, name: None, is_local: false })
    &&& forall|i: int| 0 <= i < before.functions.len() ==> (#[trigger] before.functions[i]).id != id
    &&& after.args == before.args
    &&& after.entry == before.entry
    &&& after.code == before.code
    &&& after.locals == before.locals
    &&& after.signatures == before.signatures.insert(id, (seq![Storage::I32], Seq::empty()))
    &&& forall|ty: usize| #[trigger] before.types.contains_key(ty) ==> after.types.contains_key(ty) && after.types[ty] == before.types[ty]
    &&& forall|ty: usize| #[trigger] after.types.contains_key(ty) && !before.types.contains_key(ty) ==> after.types[ty] == ShapeView::Other
}

/// `walrus::ModuleFunctions::iter`: the functions in their order.
#[verifier::external_body]
pub(crate) fn list_functions(m: &walrus::Module) -> (r: Vec<FunctionEntry>)
    ensures
        entry_views(r@) == contents(*m).functions,
{
    m.funcs.iter().map(
        |f| FunctionEntry {
            id: f.id(),
            name: f.name.clone(),
            is_local: matches!(f.kind, walrus::FunctionKind::Local(_)),
        },
    ).collect()
}

/// `walrus::LocalFunction::args`: the first parameter of a function with a body.
#[verifier::external_body]
pub(crate) fn first_arg(m: &walrus::Module, f: walrus::FunctionId) -> (r: Option<walrus::LocalId>)
    requires
        contents(*m).args.contains_key(f),
    ensures
        r == if contents(*m).args[f].len() > 0 {
            Some(contents(*m).args[f][0])
        } else {
            None
        },
{
    m.funcs.get(f).kind.unwrap_local().args.first().copied()
}

/// `walrus::LocalFunction::entry_block`: the outermost sequence of a function with a body.
#[verifier::external_body]
pub(crate) fn entry_block(m: &walrus::Module, f: walrus::FunctionId) -> (r: walrus::ir::InstrSeqId)
    requires
        contents(*m).entry.contains_key(f),
    ensures
        r == contents(*m).entry[f],
{
    m.funcs.get(f).kind.unwrap_local().entry_block()
}

/// `walrus::LocalFunction::block`: the instructions of a sequence.
#[verifier::external_body]
pub(crate) fn block_instrs(m: &walrus::Module, f: walrus::FunctionId, s: walrus::ir::InstrSeqId) -> (r: &Vec<Placed>)
    requires
        contents(*m).code.contains_key((f, s)),
    ensures
        r@ == contents(*m).code[(f, s)],
{
    &m.funcs.get(f).kind.unwrap_local().block(s).instrs
}

/// `walrus::LocalFunction::block_mut`: puts other instructions into a sequence, and hands
/// out those that it held.
#[verifier::external_body]
pub(crate) fn replace_instrs(
    m: &mut walrus::Module,
    f: walrus::FunctionId,
    s: walrus::ir::InstrSeqId,
    new: Vec<Placed>,
) -> (r: Vec<Placed>)
    requires
        contents(*old(m)).code.contains_key((f, s)),
    ensures
        r@ == contents(*old(m)).code[(f, s)],
        contents(*final(m)) == (ModuleView {
            code: contents(*old(m)).code.insert((f, s), new@),
            ..contents(*old(m))
        }),
{
    let block = m.funcs.get_mut(f).kind.unwrap_local_mut().block_mut(s);
    std::mem::replace(&mut block.instrs, new)
}

/// Whether a local variable is new: it is no parameter, and no instruction uses it.
pub open spec fn is_new_local(m: ModuleView, local: walrus::LocalId) -> bool {
    &&& !m.locals.contains_key(local)
    &&& forall|f: walrus::FunctionId, i: int|
        m.args.contains_key(f) && 0 <= i < m.args[f].len() ==> #[trigger] m.args[f][i] != local
    &&& forall|key: SeqKey, i: int|
        m.code.contains_key(key) && 0 <= i < m.code[key].len() ==> local_of((#[trigger] m.code[key][i]).0) != Some(local)
}

/// `walrus::ModuleLocals::add`: a new local variable that holds a 32-bit integer.
#[verifier::external_body]
pub(crate) fn add_local(m: &mut walrus::Module) -> (r: walrus::LocalId)
    ensures
        is_new_local(contents(*old(m)), r),
        contents(*final(m)) == (ModuleView {
            locals: contents(*old(m)).locals.insert(r, Storage::I32),
            ..contents(*old(m))
        }),
{
    m.locals.add(walrus::ValType::I32)
}

/// The storage of a `walrus::FieldType`.
#[verifier::external_body]
pub(crate) fn storage_of(f: &walrus::FieldType) -> (r: Storage)
    ensures
        r == storage(*f),
{
    match f.element_type {
        walrus::StorageType::I8 => Storage::I8,
        walrus::StorageType::I16 => Storage::I16,
        walrus::StorageType::Val(walrus::ValType::I32) => Storage::I32,
        walrus::StorageType::Val(walrus::ValType::I64) => Storage::I64,
        walrus::StorageType::Val(walrus::ValType::F32) => Storage::F32,
        walrus::StorageType::Val(walrus::ValType::F64) => Storage::F64,
        walrus::StorageType::Val(walrus::ValType::V128) => Storage::V128,
        walrus::StorageType::Val(walrus::ValType::Ref(_)) => Storage::Ref,
    }
}

/// `walrus::ModuleTypes::iter`: the types with their numbers.
#[verifier::external_body]
pub(crate) fn list_types(m: &walrus::Module) -> (r: Vec<(usize, Shape)>)
    ensures
        forall|i: int|
            0 <= i < r@.len() ==> contents(*m).types.contains_key((#[trigger] r@[i]).0) && contents(*m).types[r@[i].0]
                == r@[i].1@,
        forall|ty: usize| #[trigger]
            contents(*m).types.contains_key(ty) ==> exists|i: int| 0 <= i < r@.len() && (#[trigger] r@[i]).0 == ty,
{
    m.types.iter().map(
        |t| (t.id().index(), match (t.as_struct(), t.as_array()) {
            (Some(s), _) => Shape::Struct(s.fields.to_vec()),
            (None, Some(a)) => Shape::Array(a.field),
            (None, None) => Shape::Other,
        }),
    ).collect()
}

/// What a `walrus::ir::Instr` allocates.
#[verifier::external_body]
pub(crate) fn alloc_of(i: &walrus::ir::Instr) -> (r: AllocOp)
    ensures
        r == alloc_op(*i),
{
    match i {
        walrus::ir::Instr::StructNew(x) => AllocOp::StructNew { ty: x.ty.index() },
        walrus::ir::Instr::StructNewDefault(x) => AllocOp::StructNewDefault { ty: x.ty.index() },
        walrus::ir::Instr::ArrayNewFixed(x) => AllocOp::ArrayNewFixed { ty: x.ty.index(), len: x.len },
        walrus::ir::Instr::ArrayNew(x) => AllocOp::ArrayNew { ty: x.ty.index() },
        walrus::ir::Instr::ArrayNewDefault(x) => AllocOp::ArrayNewDefault { ty: x.ty.index() },
        walrus::ir::Instr::ArrayNewData(x) => AllocOp::ArrayNewData { ty: x.ty.index() },
        walrus::ir::Instr::ArrayNewElem(x) => AllocOp::ArrayNewElem { ty: x.ty.index() },
        _ => AllocOp::Other,
    }
}

/// The sequences that a `walrus::ir::Instr` holds. Of the clauses of a `try`, the one that
/// delegates has none.
#[verifier::external_body]
pub(crate) fn nest_of(i: &walrus::ir::Instr) -> (r: NestOp)
    ensures
        r@ == nest_op(*i),
{
    match i {
        Instr::Block(b) => NestOp::Block { seq: b.seq },
        Instr::Loop(l) => NestOp::Loop { seq: l.seq },
        Instr::IfElse(x) => NestOp::IfElse { consequent: x.consequent, alternative: x.alternative },
        Instr::TryTable(t) => NestOp::TryTable { seq: t.seq },
        Instr::Try(t) => NestOp::Try {
            seq: t.seq,
            handlers: t.catches.iter().map(|c| match c {
                LegacyCatch::Catch { handler, .. } | LegacyCatch::CatchAll { handler } => Some(*handler),
                LegacyCatch::Delegate { .. } => None,
            }).collect(),
        },
        _ => NestOp::Other,
    }
}

/// A `walrus::ir::Const` of a 32-bit integer.
#[verifier::external_body]
pub(crate) fn const_instr(value: i32) -> (r: Placed)
    ensures
        added_op(r.0) == (AddedOp::Const { value }) && nest_op(r.0) is Other && alloc_op(r.0) is Other,
        local_of(r.0) == None::<walrus::LocalId>,
{
    (walrus::ir::Const { value: walrus::ir::Value::I32(value) }.into(), Default::default())
}

/// A `walrus::ir::Call`.
#[verifier::external_body]
pub(crate) fn call_instr(func: walrus::FunctionId) -> (r: Placed)
    ensures
        added_op(r.0) == (AddedOp::Call { func }) && nest_op(r.0) is Other && alloc_op(r.0) is Other,
        local_of(r.0) == None::<walrus::LocalId>,
{
    (walrus::ir::Call { func }.into(), Default::default())
}

/// A `walrus::ir::LocalGet`.
#[verifier::external_body]
pub(crate) fn get_instr(local: walrus::LocalId) -> (r: Placed)
    ensures
        added_op(r.0) == (AddedOp::LocalGet { local }) && nest_op(r.0) is Other && alloc_op(r.0) is Other,
        local_of(r.0) == Some(local),
{
    (walrus::ir::LocalGet { local }.into(), Default::default())
}

/// A `walrus::ir::LocalSet`.
#[verifier::external_body]
pub(crate) fn set_instr(local: walrus::LocalId) -> (r: Placed)
    ensures
        added_op(r.0) == (AddedOp::LocalSet { local }) && nest_op(r.0) is Other && alloc_op(r.0) is Other,
        local_of(r.0) == Some(local),
{
    (walrus::ir::LocalSet { local }.into(), Default::default())
}

/// A `walrus::ir::Binop` that multiplies 32-bit integers.
#[verifier::external_body]
pub(crate) fn mul_instr() -> (r: Placed)
    ensures
        added_op(r.0) == (AddedOp::MulI32) && nest_op(r.0) is Other && alloc_op(r.0) is Other,
        local_of(r.0) == None::<walrus::LocalId>,
{
    (walrus::ir::Binop { op: walrus::ir::BinaryOp::I32Mul }.into(), Default::default())
}

/// Whether an instruction is the one that was put in. Such an instruction allocates nothing
/// and holds no sequence.
pub open spec fn is_added(p: Placed, op: AddedOp) -> bool {
    added_op(p.0) == op && nest_op(p.0) is Other && alloc_op(p.0) is Other
}

} // verus!
