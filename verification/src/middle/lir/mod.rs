//! LIR (Low-level Intermediate Representation). In this form, many abstract
//! concepts like loops and conditionals are simplified to labels and jumps,
//! expression trees are flattened into ordered post fix operations, etc.

use crate::collections::share;
use crate::frontend::ast::{BinaryOperatorKind, UnaryOperatorKind};
use crate::frontend::intern::InternedSymbol;
use crate::index::{low_word, Index};
use crate::middle::primitive::{FloatKind, IntKind, UIntKind};
use std::collections::{BTreeMap, BTreeSet};
use std::rc::Rc;
use vstd::prelude::*;
use vstd::std_specs::convert::FromSpecImpl;

pub mod hir_lowering;
pub mod pretty_print;
pub mod running;

verus! {

broadcast use vstd::std_specs::btree::group_btree_axioms;

/// The code of a module. Definitions are found by the number of their
/// definition id, strings by the number of their label.
pub struct Module {
    pub function_definitions: BTreeMap<u32, FunctionDefinition>,
    pub static_definitions: BTreeMap<u32, StaticDefinition>,
    pub static_strings: BTreeMap<u32, InternedSymbol>,
    pub static_c_strings: BTreeMap<u32, InternedSymbol>,
}

pub struct FunctionDefinition {
    pub symbol_name: InternedSymbol,
    /// Allocated virtual registers used to store temporary data, by number
    pub registers: BTreeMap<u32, Register>,
    /// The register argument used to return a struct from the function by value
    pub struct_return: Option<RegisterId>,
    /// The registers holding the arguments to the function (implicitly defined)
    pub arguments: Vec<RegisterId>,
    /// The blocks of the body, by number
    pub blocks: BTreeMap<u32, Block>,
}

pub struct StaticDefinition {
    pub symbol_name: InternedSymbol,
    pub layout: Layout,
}

/// A run of instructions. Its predecessors are the numbers of the blocks that
/// control can come from.
pub struct Block {
    pub id: BlockId,
    pub instructions: Vec<Instruction>,
    pub predecessors: BTreeSet<u32>,
}

/// Identifies an LIR block
#[derive(Clone, Copy, Debug, PartialEq, Eq, Structural, PartialOrd, Ord, Hash)]
pub struct BlockId(pub u32);

impl Index for BlockId {
    open spec fn ix(self) -> int {
        self.0 as int
    }

    fn new(idx: usize) -> (r: Self) {
        BlockId(low_word(idx))
    }

    fn index(self) -> (r: usize) {
        self.0 as usize
    }
}

/// A temporary virtual register of some size and alignment
pub struct Register {
    pub id: RegisterId,
    pub ty: Type,
}

/// Identifies a virtual LIR register which holds a temporary value
#[derive(Clone, Copy, Debug, PartialEq, Eq, Structural, PartialOrd, Ord, Hash)]
pub struct RegisterId(pub u32);

impl Index for RegisterId {
    open spec fn ix(self) -> int {
        self.0 as int
    }

    fn new(idx: usize) -> (r: Self) {
        RegisterId(low_word(idx))
    }

    fn index(self) -> (r: usize) {
        self.0 as usize
    }
}

/// Represents a pointer to a piece of data to be later allocated in static
/// memory during program assembly
#[derive(Clone, Copy, Debug, PartialEq, Eq, Structural, PartialOrd, Ord, Hash)]
pub struct StaticLabelId(pub u32);

impl Index for StaticLabelId {
    open spec fn ix(self) -> int {
        self.0 as int
    }

    fn new(idx: usize) -> (r: Self) {
        StaticLabelId(low_word(idx))
    }

    fn index(self) -> (r: usize) {
        self.0 as usize
    }
}

/// A representation of types within the LIR. This is significantly simplified
/// compared to the types coming from the HIR since we dont need as much rich
/// type information at this stage.
pub enum Type {
    Integer(IntegerWidth),
    Float(FloatWidth),
    Pointer,
    Struct(Struct),
    Array(Rc<Type>, usize),
}

#[derive(Debug, Clone, Copy, PartialEq, Eq, Structural, PartialOrd, Ord, Hash)]
pub enum IntegerWidth {
    I8,
    I16,
    I32,
    I64,
}

/// The width of a signed integer type.
pub open spec fn signed_width(value: IntKind) -> IntegerWidth {
    match value {
        IntKind::I8 => IntegerWidth::I8,
        IntKind::I16 => IntegerWidth::I16,
        IntKind::I32 => IntegerWidth::I32,
        IntKind::I64 | IntKind::ISize => IntegerWidth::I64,
    }
}

/// The width of an unsigned integer type.
pub open spec fn unsigned_width(value: UIntKind) -> IntegerWidth {
    match value {
        UIntKind::U8 => IntegerWidth::I8,
        UIntKind::U16 => IntegerWidth::I16,
        UIntKind::U32 => IntegerWidth::I32,
        UIntKind::U64 | UIntKind::USize => IntegerWidth::I64,
    }
}

/// The width of a float type.
pub open spec fn float_width(value: FloatKind) -> FloatWidth {
    match value {
        FloatKind::F32 => FloatWidth::F32,
        FloatKind::F64 => FloatWidth::F64,
    }
}

impl From<IntKind> for IntegerWidth {
    fn from(value: IntKind) -> (r: Self) {
        match value {
            IntKind::I8 => IntegerWidth::I8,
            IntKind::I16 => IntegerWidth::I16,
            IntKind::I32 => IntegerWidth::I32,
            IntKind::I64 | IntKind::ISize => IntegerWidth::I64,
        }
    }
}

impl FromSpecImpl<IntKind> for IntegerWidth {
    open spec fn obeys_from_spec() -> bool {
        true
    }

    open spec fn from_spec(value: IntKind) -> Self {
        signed_width(value)
    }
}

impl From<UIntKind> for IntegerWidth {
    fn from(value: UIntKind) -> (r: Self) {
        match value {
            UIntKind::U8 => IntegerWidth::I8,
            UIntKind::U16 => IntegerWidth::I16,
            UIntKind::U32 => IntegerWidth::I32,
            UIntKind::U64 | UIntKind::USize => IntegerWidth::I64,
        }
    }
}

impl FromSpecImpl<UIntKind> for IntegerWidth {
    open spec fn obeys_from_spec() -> bool {
        true
    }

    open spec fn from_spec(value: UIntKind) -> Self {
        unsigned_width(value)
    }
}

#[derive(Debug, Clone, Copy, PartialEq, Eq, Structural, Hash)]
pub enum FloatWidth {
    F32,
    F64,
}

impl From<FloatKind> for FloatWidth {
    fn from(value: FloatKind) -> (r: Self) {
        match value {
            FloatKind::F32 => FloatWidth::F32,
            FloatKind::F64 => FloatWidth::F64,
        }
    }
}

impl FromSpecImpl<FloatKind> for FloatWidth {
    open spec fn obeys_from_spec() -> bool {
        true
    }

    open spec fn from_spec(value: FloatKind) -> Self {
        float_width(value)
    }
}

/// Represents an anonymous structure made up of some list of types. This is a
/// separate structure to more easily allow computing of struct field layouts.
pub struct Struct(pub Rc<Vec<Type>>);

#[allow(inconsistent_fields)]
pub enum Instruction {
    LoadMem {
        /// Register type size determines the number of bytes to copy. Must be 8
        /// bytes or less.
        destination: RegisterId,
        /// Must be a pointer type
        source: Operand,
    },
    StoreMem {
        /// Must be a pointer type
        destination: Operand,
        /// Type size must be less than or equal to 8 bytes. For larger stores,
        /// use memcpy.
        source: Operand,
    },
    /// Allocates room for a type on the stack. The destination register will
    /// store a pointer to the allocated space. Type size may be zero, but
    /// pointers are not guaranteed to be unique in this case.
    AllocStack {
        /// Must have pointer type
        destination: RegisterId,
        /// Determines the and size and alignment of the allocation
        ty: Type,
    },
    /// Stores a pointer in the destination register to a particular field of a
    /// structure. Effectively computes `destination = source + offset_of(ty, index)` and
    /// stores the result.
    GetStructElementPointer {
        /// Must be a pointer type
        destination: RegisterId,
        /// Must be a pointer type
        source: Operand,
        /// The structure layout to use for the computation
        ty: Struct,
        /// Must be a valid index into the structure
        index: usize,
    },
    /// Stores a pointer in the destination register to a particular element of
    /// an array. Effectively computes `destination = source + size_of(ty) *
    /// index`
    GetArrayElementPointer {
        /// Must be a pointer type
        destination: RegisterId,
        /// Must be a pointer type
        source: Operand,
        /// The inner type which composes the array
        ty: Type,
        /// Must be a valid index into the array (UB otherwise)
        index: Operand,
    },
    IntegerCast { kind: IntegerCastKind, destination: RegisterId, operand: Operand },
    UnaryOperation { operator: UnaryOperatorKind, destination: RegisterId, operand: Operand },
    BinaryOperation {
        operator: BinaryOperatorKind,
        destination: RegisterId,
        lhs: Operand,
        rhs: Operand,
    },
    Branch { condition: Operand, positive: BlockId, negative: BlockId },
    Jump { destination: BlockId },
    Return { value: Option<Operand> },
    FunctionCall {
        target: Operand,
        arguments: Vec<Operand>,
        destination: Option<RegisterId>,
    },
    /// Selects a value by the number of the block that control came from.
    Phi { destination: RegisterId, sources: BTreeMap<u32, Operand> },
    Copy { destination: RegisterId, source: Operand },
    Comment(String),
}

#[derive(Debug, Clone, Copy, PartialEq, Eq, Structural)]
pub enum Immediate {
    Int(u64, IntegerWidth),
    /// The bits of a double precision number.
    Float(u64, FloatWidth),
    Bool(bool),
    AnonymousStaticLabel(StaticLabelId),
    NamedStaticLabel(InternedSymbol),
    FunctionLabel(InternedSymbol),
}

#[derive(Debug, Clone, Copy, PartialEq, Eq, Structural)]
pub enum Operand {
    Immediate(Immediate),
    Register(RegisterId),
}

#[derive(Debug, Clone, Copy, PartialEq, Eq, Structural)]
pub enum IntegerCastKind {
    SignExtension,
    ZeroExtension,
    Truncate,
}

#[derive(Debug, Clone, Copy, PartialEq, Eq, Structural)]
pub struct Layout {
    pub size: usize,
    pub alignment: usize,
}

/// What a [`Type`] is.
pub enum TypeView {
    Integer(IntegerWidth),
    Float(FloatWidth),
    Pointer,
    Struct(Seq<TypeView>),
    Array(Box<TypeView>, usize),
}

impl Type {
    /// What the type is.
    pub open spec fn model(self) -> TypeView
        decreases self,
    {
        match self {
            Type::Integer(width) => TypeView::Integer(width),
            Type::Float(width) => TypeView::Float(width),
            Type::Pointer => TypeView::Pointer,
            Type::Struct(fields) => TypeView::Struct(
                Seq::new(
                    (*fields.0)@.len(),
                    |i: int|
                        if 0 <= i < (*fields.0)@.len() {
                            (*fields.0)@[i].model()
                        } else {
                            TypeView::Pointer
                        },
                ),
            ),
            Type::Array(ty, length) => TypeView::Array(Box::new((*ty).model()), length),
        }
    }
}

impl View for Type {
    type V = TypeView;

    open spec fn view(&self) -> TypeView {
        self.model()
    }
}

impl View for Struct {
    type V = Seq<TypeView>;

    open spec fn view(&self) -> Seq<TypeView> {
        Seq::new((*self.0)@.len(), |i: int| (*self.0)@[i]@)
    }
}

/// What an [`Instruction`] is.
#[allow(inconsistent_fields)]
pub enum InstructionView {
    LoadMem { destination: RegisterId, source: Operand },
    StoreMem { destination: Operand, source: Operand },
    AllocStack { destination: RegisterId, ty: TypeView },
    GetStructElementPointer {
        destination: RegisterId,
        source: Operand,
        ty: Seq<TypeView>,
        index: usize,
    },
    GetArrayElementPointer {
        destination: RegisterId,
        source: Operand,
        ty: TypeView,
        index: Operand,
    },
    IntegerCast { kind: IntegerCastKind, destination: RegisterId, operand: Operand },
    UnaryOperation { operator: UnaryOperatorKind, destination: RegisterId, operand: Operand },
    BinaryOperation {
        operator: BinaryOperatorKind,
        destination: RegisterId,
        lhs: Operand,
        rhs: Operand,
    },
    Branch { condition: Operand, positive: BlockId, negative: BlockId },
    Jump { destination: BlockId },
    Return { value: Option<Operand> },
    FunctionCall { target: Operand, arguments: Seq<Operand>, destination: Option<RegisterId> },
    Phi { destination: RegisterId, sources: Map<u32, Operand> },
    Copy { destination: RegisterId, source: Operand },
    Comment(Seq<char>),
}

impl View for Instruction {
    type V = InstructionView;

    open spec fn view(&self) -> InstructionView {
        match *self {
            Instruction::LoadMem { destination, source } => InstructionView::LoadMem {
                destination,
                source,
            },
            Instruction::StoreMem { destination, source } => InstructionView::StoreMem {
                destination,
                source,
            },
            Instruction::AllocStack { destination, ty } => InstructionView::AllocStack {
                destination,
                ty: ty@,
            },
            Instruction::GetStructElementPointer {
                destination,
                source,
                ty,
                index,
            } => InstructionView::GetStructElementPointer { destination, source, ty: ty@, index },
            Instruction::GetArrayElementPointer {
                destination,
                source,
                ty,
                index,
            } => InstructionView::GetArrayElementPointer { destination, source, ty: ty@, index },
            Instruction::IntegerCast {
                kind,
                destination,
                operand,
            } => InstructionView::IntegerCast { kind, destination, operand },
            Instruction::UnaryOperation {
                operator,
                destination,
                operand,
            } => InstructionView::UnaryOperation { operator, destination, operand },
            Instruction::BinaryOperation {
                operator,
                destination,
                lhs,
                rhs,
            } => InstructionView::BinaryOperation { operator, destination, lhs, rhs },
            Instruction::Branch {
                condition,
                positive,
                negative,
            } => InstructionView::Branch { condition, positive, negative },
            Instruction::Jump { destination } => InstructionView::Jump { destination },
            Instruction::Return { value } => InstructionView::Return { value },
            Instruction::FunctionCall {
                target,
                arguments,
                destination,
            } => InstructionView::FunctionCall { target, arguments: arguments@, destination },
            Instruction::Phi { destination, sources } => InstructionView::Phi {
                destination,
                sources: sources@,
            },
            Instruction::Copy { destination, source } => InstructionView::Copy {
                destination,
                source,
            },
            Instruction::Comment(text) => InstructionView::Comment(text@),
        }
    }
}

/// What a [`Block`] is.
pub struct BlockView {
    pub id: BlockId,
    pub instructions: Seq<InstructionView>,
    pub predecessors: Set<u32>,
}

/// What a run of instructions is.
pub open spec fn code(instructions: Seq<Instruction>) -> Seq<InstructionView> {
    Seq::new(instructions.len(), |i: int| instructions[i]@)
}

impl View for Block {
    type V = BlockView;

    open spec fn view(&self) -> BlockView {
        BlockView {
            id: self.id,
            instructions: code(self.instructions@),
            predecessors: self.predecessors@,
        }
    }
}

/// What a [`Register`] is.
pub struct RegisterView {
    pub id: RegisterId,
    pub ty: TypeView,
}

impl View for Register {
    type V = RegisterView;

    open spec fn view(&self) -> RegisterView {
        RegisterView { id: self.id, ty: self.ty@ }
    }
}

/// What a [`FunctionDefinition`] is.
pub struct FunctionView {
    pub symbol_name: InternedSymbol,
    pub registers: Map<u32, RegisterView>,
    pub struct_return: Option<RegisterId>,
    pub arguments: Seq<RegisterId>,
    pub blocks: Map<u32, BlockView>,
}

/// What the blocks of a body are.
pub open spec fn block_views(blocks: Map<u32, Block>) -> Map<u32, BlockView> {
    blocks.map_values(|block: Block| block@)
}

/// What the registers of a body are.
pub open spec fn register_views(registers: Map<u32, Register>) -> Map<u32, RegisterView> {
    registers.map_values(|register: Register| register@)
}

impl View for FunctionDefinition {
    type V = FunctionView;

    open spec fn view(&self) -> FunctionView {
        FunctionView {
            symbol_name: self.symbol_name,
            registers: register_views(self.registers@),
            struct_return: self.struct_return,
            arguments: self.arguments@,
            blocks: block_views(self.blocks@),
        }
    }
}

/// The type of a value that stands in the code itself.
pub open spec fn immediate_type(immediate: Immediate) -> TypeView {
    match immediate {
        Immediate::Int(_, width) => TypeView::Integer(width),
        Immediate::Float(_, width) => TypeView::Float(width),
        Immediate::Bool(_) => TypeView::Integer(IntegerWidth::I8),
        _ => TypeView::Pointer,
    }
}

impl FunctionView {
    /// Whether an operand has a type: an immediate has, and a register that
    /// was allocated.
    pub open spec fn has_operand(self, operand: Operand) -> bool {
        match operand {
            Operand::Immediate(_) => true,
            Operand::Register(id) => self.registers.contains_key(id.0),
        }
    }

    /// The type of an operand.
    pub open spec fn operand_type(self, operand: Operand) -> TypeView {
        match operand {
            Operand::Immediate(immediate) => immediate_type(immediate),
            Operand::Register(id) => self.registers[id.0].ty,
        }
    }
}

impl FunctionDefinition {
    /// The type of an operand.
    pub fn type_of_operand(&self, operand: Operand) -> (r: Type)
        requires
            self@.has_operand(operand),
        ensures
            r@ == self@.operand_type(operand),
    {
        match operand {
            Operand::Immediate(immediate) => match immediate {
                Immediate::Int(_, width) => Type::Integer(width),
                Immediate::Float(_, width) => Type::Float(width),
                Immediate::Bool(_) => Type::Integer(IntegerWidth::I8),
                Immediate::AnonymousStaticLabel(_)
                | Immediate::NamedStaticLabel(_)
                | Immediate::FunctionLabel(_) => Type::Pointer,
            },
            Operand::Register(register_id) => {
                match self.registers.get(&register_id.0) {
                    Some(register) => register.ty.duplicate(),
                    None => vstd::pervasive::unreached(),
                }
            }
        }
    }
}

/// Whether a run of instructions ends in a return.
pub open spec fn ends_in_return(instructions: Seq<InstructionView>) -> bool {
    instructions.len() > 0 && instructions.last() is Return
}

/// Whether control leaves a run of instructions at its end without a jump.
pub open spec fn ends_open(instructions: Seq<InstructionView>) -> bool {
    instructions.len() == 0 || !(instructions.last() is Branch || instructions.last() is Jump
        || instructions.last() is Return)
}

impl Block {
    /// Whether the block ends in a return.
    pub fn is_returning(&self) -> (r: bool)
        ensures
            r == ends_in_return(self@.instructions),
    {
        let n: usize = self.instructions.len();
        if n == 0 {
            false
        } else {
            assert(self@.instructions.last() == self.instructions@[n - 1]@);
            match &self.instructions[n - 1] {
                Instruction::Return { .. } => true,
                _ => false,
            }
        }
    }

    /// Whether control leaves the block at its end without a jump.
    pub fn falls_through(&self) -> (r: bool)
        ensures
            r == ends_open(self@.instructions),
    {
        let n: usize = self.instructions.len();
        if n == 0 {
            true
        } else {
            assert(self@.instructions.last() == self.instructions@[n - 1]@);
            match &self.instructions[n - 1] {
                Instruction::Branch { .. }
                | Instruction::Jump { .. }
                | Instruction::Return { .. } => false,
                _ => true,
            }
        }
    }
}

impl TypeView {
    /// Whether values of the type are made up of several.
    pub open spec fn is_aggregate(self) -> bool {
        self is Struct || self is Array
    }

    /// Whether values of the type fit in a register.
    pub open spec fn is_scalar(self) -> bool {
        !self.is_aggregate()
    }
}

impl Type {
    /// Whether values of the type are made up of several.
    pub fn is_aggregate(&self) -> (r: bool)
        ensures
            r == self@.is_aggregate(),
    {
        matches!(self, Type::Struct(_) | Type::Array(_, _))
    }

    /// Whether values of the type fit in a register.
    pub fn is_scalar(&self) -> (r: bool)
        ensures
            r == self@.is_scalar(),
    {
        !self.is_aggregate()
    }
}

impl Struct {
    /// Another handle on the same structure.
    pub fn duplicate(&self) -> (r: Struct)
        ensures
            r == *self,
    {
        Struct(share(&self.0))
    }

    /// The structure of a slice: a pointer and a length.
    pub fn slice() -> (r: Struct)
        ensures
            r@ == seq![TypeView::Pointer, TypeView::Integer(IntegerWidth::I64)],
    {
        let mut fields: Vec<Type> = Vec::new();
        fields.push(Type::Pointer);
        fields.push(Type::Integer(IntegerWidth::I64));
        let r = Struct(Rc::new(fields));
        assert(r@ =~= seq![TypeView::Pointer, TypeView::Integer(IntegerWidth::I64)]);
        r
    }
}

impl Type {
    /// The same type again.
    pub fn duplicate(&self) -> (r: Type)
        ensures
            r == *self,
    {
        match self {
            Type::Integer(width) => Type::Integer(*width),
            Type::Float(width) => Type::Float(*width),
            Type::Pointer => Type::Pointer,
            Type::Struct(fields) => Type::Struct(fields.duplicate()),
            Type::Array(ty, length) => Type::Array(share(ty), *length),
        }
    }
}

/// The size and alignment of a type in bytes, without a bound.
pub struct Extent {
    pub size: int,
    pub alignment: int,
}

/// The next multiple of `align` at or behind `offset`.
pub open spec fn aligned(offset: int, align: int) -> int {
    if offset % align == 0 {
        offset
    } else {
        offset + align - offset % align
    }
}

/// Where the first `n` fields of a structure end, each aligned for itself.
pub open spec fn fields_end(fields: Seq<TypeView>, n: nat) -> int
    decreases fields, n,
{
    if n == 0 || n > fields.len() {
        0
    } else {
        let field = extent(fields[n - 1]);
        aligned(fields_end(fields, (n - 1) as nat), field.alignment) + field.size
    }
}

/// The largest alignment of the first `n` fields of a structure.
pub open spec fn fields_alignment(fields: Seq<TypeView>, n: nat) -> int
    decreases fields, n,
{
    if n == 0 || n > fields.len() {
        1
    } else {
        let before = fields_alignment(fields, (n - 1) as nat);
        let field = extent(fields[n - 1]).alignment;
        if field > before {
            field
        } else {
            before
        }
    }
}

/// The size and alignment of a type in bytes.
pub open spec fn extent(ty: TypeView) -> Extent
    decreases ty, 0nat,
{
    match ty {
        TypeView::Integer(IntegerWidth::I8) => Extent { size: 1, alignment: 1 },
        TypeView::Integer(IntegerWidth::I16) => Extent { size: 2, alignment: 2 },
        TypeView::Integer(IntegerWidth::I32) => Extent { size: 4, alignment: 4 },
        TypeView::Integer(IntegerWidth::I64) => Extent { size: 8, alignment: 8 },
        TypeView::Float(FloatWidth::F32) => Extent { size: 4, alignment: 4 },
        TypeView::Float(FloatWidth::F64) => Extent { size: 8, alignment: 8 },
        TypeView::Pointer => Extent { size: 8, alignment: 8 },
        TypeView::Array(inner, length) => {
            let item = extent(*inner);
            Extent { size: item.size * length as int, alignment: item.alignment }
        },
        TypeView::Struct(fields) => {
            let alignment = fields_alignment(fields, fields.len());
            Extent { size: aligned(fields_end(fields, fields.len()), alignment), alignment }
        },
    }
}

/// Whether the sizes of a type and of all the types in it can be computed in a
/// machine word.
pub open spec fn fits(ty: TypeView) -> bool
    decreases ty, 0nat,
{
    match ty {
        TypeView::Array(inner, _) => fits(*inner) && extent(ty).size <= usize::MAX,
        TypeView::Struct(fields) => fields_fit(fields, fields.len()) && fields_end(
            fields,
            fields.len(),
        ) + extent(ty).alignment - 1 <= usize::MAX,
        _ => true,
    }
}

/// Whether the sizes of the first `n` fields of a structure, and where they
/// end, can be computed in a machine word.
pub open spec fn fields_fit(fields: Seq<TypeView>, n: nat) -> bool
    decreases fields, n,
{
    n == 0 || n > fields.len() || (fields_fit(fields, (n - 1) as nat) && fits(fields[n - 1])
        && fields_end(fields, (n - 1) as nat) + extent(fields[n - 1]).alignment - 1 <= usize::MAX
        && fields_end(fields, n) <= usize::MAX)
}

/// Alignments of types are one, two, four or eight.
pub proof fn lemma_alignments(ty: TypeView)
    ensures
        extent(ty).alignment == 1 || extent(ty).alignment == 2 || extent(ty).alignment == 4
            || extent(ty).alignment == 8,
        extent(ty).size >= 0,
    decreases ty, 0nat,
{
    match ty {
        TypeView::Array(inner, length) => {
            lemma_alignments(*inner);
            let item = extent(*inner).size;
            assert(item * length as int >= 0) by (nonlinear_arith)
                requires
                    item >= 0,
                    length as int >= 0,
            ;
        },
        TypeView::Struct(fields) => {
            lemma_field_alignments(fields, fields.len());
        },
        _ => {},
    }
}

pub(crate) proof fn lemma_field_alignments(fields: Seq<TypeView>, n: nat)
    ensures
        fields_alignment(fields, n) == 1 || fields_alignment(fields, n) == 2 || fields_alignment(
            fields,
            n,
        ) == 4 || fields_alignment(fields, n) == 8,
        fields_end(fields, n) >= 0,
    decreases fields, n,
{
    if n > 0 && n <= fields.len() {
        lemma_field_alignments(fields, (n - 1) as nat);
        lemma_alignments(fields[n - 1]);
    }
}

/// Whether a number is a power of two.
pub open spec fn is_power_of_two(n: int) -> bool {
    exists|k: nat| k < 64 && n == #[trigger] vstd::arithmetic::power2::pow2(k)
}

/// The next multiple of `align`, which is a power of two, at or behind
/// `offset`.
pub fn align_to(offset: usize, align: usize) -> (r: usize)
    requires
        align >= 1,
        offset + align - 1 <= usize::MAX,
    ensures
        r as u64 == ((offset + align - 1) as u64) & !((align - 1) as u64),
        is_power_of_two(align as int) ==> r as int == aligned(offset as int, align as int),
{
    let sum: u64 = offset as u64 + (align as u64 - 1);
    let low: u64 = align as u64 - 1;
    let r: u64 = sum & !low;
    assert(r <= sum && r == sum - (sum & low)) by (bit_vector)
        requires
            r == sum & !low,
    ;
    proof {
        if is_power_of_two(align as int) {
            let k = choose|k: nat|
                k < 64 && align as int == #[trigger] vstd::arithmetic::power2::pow2(k);
            vstd::bits::lemma_u64_low_bits_mask_is_mod(sum, k);
            assert(vstd::bits::low_bits_mask(k) == align as int - 1) by {
                vstd::arithmetic::power2::lemma_pow2_pos(k);
            }
            assert(sum & low == sum % (align as u64));
            lemma_round_up(offset as int, align as int);
        }
    }
    r as usize
}

proof fn lemma_round_up(offset: int, align: int)
    requires
        align >= 1,
        offset >= 0,
    ensures
        aligned(offset, align) == (offset + align - 1) - (offset + align - 1) % align,
{
    let q = offset / align;
    let m = offset % align;
    vstd::arithmetic::div_mod::lemma_fundamental_div_mod(offset, align);
    let x = offset + align - 1;
    if m == 0 {
        assert(x == align * q + (align - 1));
        vstd::arithmetic::div_mod::lemma_fundamental_div_mod_converse(x, align, q, align - 1);
    } else {
        assert(x == align * (q + 1) + (m - 1)) by (nonlinear_arith)
            requires
                offset == align * q + m,
                x == offset + align - 1,
        ;
        vstd::arithmetic::div_mod::lemma_fundamental_div_mod_converse(x, align, q + 1, m - 1);
    }
}

/// Aligning moves an offset forward by less than the alignment, to a multiple
/// of it.
pub proof fn law_aligned(offset: int, align: int)
    requires
        offset >= 0,
        align >= 1,
    ensures
        offset <= aligned(offset, align) < offset + align,
        aligned(offset, align) % align == 0,
        aligned(aligned(offset, align), align) == aligned(offset, align),
{
    let q = offset / align;
    let m = offset % align;
    vstd::arithmetic::div_mod::lemma_fundamental_div_mod(offset, align);
    vstd::arithmetic::div_mod::lemma_mod_bound(offset, align);
    let a = aligned(offset, align);
    if m != 0 {
        assert(a == align * (q + 1)) by (nonlinear_arith)
            requires
                offset == align * q + m,
                a == offset + align - m,
        ;
        vstd::arithmetic::div_mod::lemma_fundamental_div_mod_converse(a, align, q + 1, 0);
    }
}

pub proof fn lemma_powers(align: int)
    requires
        align == 1 || align == 2 || align == 4 || align == 8,
    ensures
        is_power_of_two(align),
{
    vstd::arithmetic::power2::lemma2_to64();
    assert(align == vstd::arithmetic::power2::pow2(0) || align == vstd::arithmetic::power2::pow2(1)
        || align == vstd::arithmetic::power2::pow2(2) || align == vstd::arithmetic::power2::pow2(
        3,
    ));
}

/// The fields of a structure that fits end within it.
proof fn lemma_fields_fit(fields: Seq<TypeView>, n: nat)
    requires
        n <= fields.len(),
        fields_fit(fields, fields.len()),
    ensures
        fields_end(fields, n) <= usize::MAX,
        n > 0 ==> fits(fields[n - 1]) && fields_end(fields, (n - 1) as nat) + extent(
            fields[n - 1],
        ).alignment - 1 <= usize::MAX,
    decreases fields.len() - n,
{
    lemma_fields_fit_prefix(fields, n, fields.len());
}

proof fn lemma_fields_fit_prefix(fields: Seq<TypeView>, n: nat, m: nat)
    requires
        n <= m <= fields.len(),
        fields_fit(fields, m),
    ensures
        fields_fit(fields, n),
        fields_end(fields, n) <= usize::MAX,
        n > 0 ==> fits(fields[n - 1]) && fields_end(fields, (n - 1) as nat) + extent(
            fields[n - 1],
        ).alignment - 1 <= usize::MAX,
    decreases m,
{
    if n < m {
        lemma_fields_fit_prefix(fields, n, (m - 1) as nat);
    }
}

impl Type {
    /// Returns the size and alignment of the type in bytes
    pub fn layout(&self) -> (r: Layout)
        requires
            fits(self@),
        ensures
            r.size as int == extent(self@).size,
            r.alignment as int == extent(self@).alignment,
        decreases self,
    {
        match self {
            Type::Integer(IntegerWidth::I8) => Layout { size: 1, alignment: 1 },
            Type::Integer(IntegerWidth::I16) => Layout { size: 2, alignment: 2 },
            Type::Integer(IntegerWidth::I32) => Layout { size: 4, alignment: 4 },
            Type::Integer(IntegerWidth::I64) => Layout { size: 8, alignment: 8 },
            Type::Float(FloatWidth::F32) => Layout { size: 4, alignment: 4 },
            Type::Float(FloatWidth::F64) => Layout { size: 8, alignment: 8 },
            Type::Pointer => Layout { size: 8, alignment: 8 },
            Type::Array(ty, length) => {
                let item = ty.layout();
                Layout { size: item.size * *length, alignment: item.alignment }
            }
            Type::Struct(s) => {
                assert(self@->Struct_0 =~= s@);
                s.layout()
            }
        }
    }
}

impl Struct {
    /// The size and alignment of a field.
    pub fn layout_of(&self, index: usize) -> (r: Layout)
        requires
            index < self@.len(),
            fits(self@[index as int]),
        ensures
            r.size as int == extent(self@[index as int]).size,
            r.alignment as int == extent(self@[index as int]).alignment,
    {
        assert(self@[index as int] == self.0@[index as int]@);
        self.0[index].layout()
    }

    /// Where the fields before a field end.
    pub fn offset_of(&self, index: usize) -> (r: usize)
        requires
            index < self@.len(),
            fields_fit(self@, index as nat),
        ensures
            r as int == fields_end(self@, index as nat),
    {
        let mut offset: usize = 0;
        let mut i: usize = 0;
        while i < index
            invariant
                i <= index < self@.len(),
                fields_fit(self@, index as nat),
                offset as int == fields_end(self@, i as nat),
            decreases index - i,
        {
            proof {
                lemma_fields_fit_prefix(self@, i as nat, index as nat);
                lemma_fields_fit_prefix(self@, i as nat + 1, index as nat);
                lemma_alignments(self@[i as int]);
                lemma_powers(extent(self@[i as int]).alignment);
                lemma_field_alignments(self@, i as nat);
                law_aligned(offset as int, extent(self@[i as int]).alignment);
            }
            let layout = self.layout_of(i);
            offset = align_to(offset, layout.alignment);
            offset = offset + layout.size;
            i = i + 1;
        }
        offset
    }

    /// Returns the size and alignment of the structure in bytes
    pub fn layout(&self) -> (r: Layout)
        requires
            fits(TypeView::Struct(self@)),
        ensures
            r.size as int == extent(TypeView::Struct(self@)).size,
            r.alignment as int == extent(TypeView::Struct(self@)).alignment,
        decreases self,
    {
        let mut offset: usize = 0;
        let mut max_align: usize = 1;
        let mut i: usize = 0;
        while i < self.0.len()
            invariant
                0 <= i <= self@.len(),
                self@.len() == self.0@.len(),
                fits(TypeView::Struct(self@)),
                offset as int == fields_end(self@, i as nat),
                max_align as int == fields_alignment(self@, i as nat),
            decreases self.0@.len() - i,
        {
            proof {
                lemma_fields_fit(self@, i as nat);
                lemma_fields_fit(self@, i as nat + 1);
                lemma_alignments(self@[i as int]);
                lemma_powers(extent(self@[i as int]).alignment);
                lemma_field_alignments(self@, i as nat);
                law_aligned(offset as int, extent(self@[i as int]).alignment);
                assert(self@[i as int] == self.0@[i as int]@);
            }
            let layout = self.0[i].layout();
            offset = align_to(offset, layout.alignment);
            offset = offset + layout.size;
            if layout.alignment > max_align {
                max_align = layout.alignment;
            }
            i = i + 1;
        }
        proof {
            lemma_field_alignments(self@, self@.len());
            lemma_fields_fit(self@, self@.len());
            lemma_powers(max_align as int);
        }
        let total_size: usize = align_to(offset, max_align);
        Layout { size: total_size, alignment: max_align }
    }

    /// Returns the number of integer fields in this struct including those in
    /// all recursive sub-fields
    pub fn num_integer_fields(&self) -> (r: usize)
        requires
            integer_fields(self@, self@.len()) <= usize::MAX,
        ensures
            r as nat == integer_fields(self@, self@.len()),
        decreases self,
    {
        let mut count: usize = 0;
        let mut i: usize = 0;
        while i < self.0.len()
            invariant
                0 <= i <= self@.len(),
                self@.len() == self.0@.len(),
                integer_fields(self@, self@.len()) <= usize::MAX,
                count as nat == integer_fields(self@, i as nat),
            decreases self.0@.len() - i,
        {
            proof {
                lemma_integer_fields_grow(self@, i as nat + 1, self@.len());
                assert(self@[i as int] == self.0@[i as int]@);
            }
            match &self.0[i] {
                Type::Integer(_) | Type::Pointer => {
                    count = count + 1;
                }
                Type::Float(_) | Type::Array(_, _) => {}
                Type::Struct(s) => {
                    assert(self@[i as int]->Struct_0 =~= s@);
                    count = count + s.num_integer_fields();
                }
            }
            i = i + 1;
        }
        count
    }

    /// Returns the number of other fields in this struct including those in
    /// all recursive sub-fields
    pub fn num_non_integer_fields(&self) -> (r: usize)
        requires
            other_fields(self@, self@.len()) <= usize::MAX,
        ensures
            r as nat == other_fields(self@, self@.len()),
        decreases self,
    {
        let mut count: usize = 0;
        let mut i: usize = 0;
        while i < self.0.len()
            invariant
                0 <= i <= self@.len(),
                self@.len() == self.0@.len(),
                other_fields(self@, self@.len()) <= usize::MAX,
                count as nat == other_fields(self@, i as nat),
            decreases self.0@.len() - i,
        {
            proof {
                lemma_other_fields_grow(self@, i as nat + 1, self@.len());
                assert(self@[i as int] == self.0@[i as int]@);
            }
            match &self.0[i] {
                Type::Integer(_) | Type::Pointer => {}
                Type::Float(_) | Type::Array(_, _) => {
                    count = count + 1;
                }
                Type::Struct(s) => {
                    assert(self@[i as int]->Struct_0 =~= s@);
                    count = count + s.num_non_integer_fields();
                }
            }
            i = i + 1;
        }
        count
    }
}

/// The number of integers and pointers among the first `n` fields of a
/// structure and in the structures within them. An array counts as none.
pub open spec fn integer_fields(fields: Seq<TypeView>, n: nat) -> nat
    decreases fields, n,
{
    if n == 0 || n > fields.len() {
        0
    } else {
        integer_fields(fields, (n - 1) as nat) + (match fields[n - 1] {
            TypeView::Integer(_) | TypeView::Pointer => 1,
            TypeView::Float(_) | TypeView::Array(_, _) => 0,
            TypeView::Struct(inner) => integer_fields(inner, inner.len()),
        })
    }
}

/// The number of floats and arrays among the first `n` fields of a structure
/// and in the structures within them.
pub open spec fn other_fields(fields: Seq<TypeView>, n: nat) -> nat
    decreases fields, n,
{
    if n == 0 || n > fields.len() {
        0
    } else {
        other_fields(fields, (n - 1) as nat) + (match fields[n - 1] {
            TypeView::Integer(_) | TypeView::Pointer => 0,
            TypeView::Float(_) | TypeView::Array(_, _) => 1,
            TypeView::Struct(inner) => other_fields(inner, inner.len()),
        })
    }
}

proof fn lemma_integer_fields_grow(fields: Seq<TypeView>, i: nat, j: nat)
    requires
        i <= j <= fields.len(),
    ensures
        integer_fields(fields, i) <= integer_fields(fields, j),
    decreases j - i,
{
    if i < j {
        lemma_integer_fields_grow(fields, i, (j - 1) as nat);
    }
}

proof fn lemma_other_fields_grow(fields: Seq<TypeView>, i: nat, j: nat)
    requires
        i <= j <= fields.len(),
    ensures
        other_fields(fields, i) <= other_fields(fields, j),
    decreases j - i,
{
    if i < j {
        lemma_other_fields_grow(fields, i, (j - 1) as nat);
    }
}

/// The size of a structure reaches as far as its last field.
pub proof fn law_struct_size(fields: Seq<TypeView>)
    ensures
        fields_end(fields, fields.len()) <= extent(TypeView::Struct(fields)).size,
{
    lemma_field_alignments(fields, fields.len());
    law_aligned(fields_end(fields, fields.len()), fields_alignment(fields, fields.len()));
}

proof fn lemma_multiple(d: int, q: int, n: int)
    requires
        d > 0,
    ensures
        ((d * q) * n) % d == 0,
{
    assert((d * q) * n == (q * n) * d) by (nonlinear_arith);
    vstd::arithmetic::div_mod::lemma_mod_multiples_basic(q * n, d);
}

/// The size of every type is a multiple of its alignment.
pub proof fn law_size_keeps_alignment(ty: TypeView)
    ensures
        extent(ty).size % extent(ty).alignment == 0,
    decreases ty,
{
    match ty {
        TypeView::Array(inner, length) => {
            law_size_keeps_alignment(*inner);
            lemma_alignments(*inner);
            let (size, alignment) = (extent(*inner).size, extent(*inner).alignment);
            vstd::arithmetic::div_mod::lemma_fundamental_div_mod(size, alignment);
            lemma_multiple(alignment, size / alignment, length as int);
            assert(alignment * (size / alignment) == size);
        },
        TypeView::Struct(fields) => {
            lemma_field_alignments(fields, fields.len());
            law_aligned(fields_end(fields, fields.len()), fields_alignment(fields, fields.len()));
        },
        _ => {
            lemma_alignments(ty);
            assert(extent(ty).size == extent(ty).alignment);
            vstd::arithmetic::div_mod::lemma_mod_self_0(extent(ty).alignment);
        },
    }
}

/// The room for a field starts where the fields before it end, or a little
/// later, and later fields lie behind it.
pub proof fn law_fields_do_not_overlap(fields: Seq<TypeView>, i: nat, j: nat)
    requires
        i < j <= fields.len(),
    ensures
        fields_end(fields, i) + extent(fields[i as int]).size <= fields_end(fields, j),
    decreases j,
{
    if i + 1 == j {
        lemma_field_alignments(fields, i);
        lemma_alignments(fields[i as int]);
        law_aligned(fields_end(fields, i), extent(fields[i as int]).alignment);
    } else {
        law_fields_do_not_overlap(fields, i, (j - 1) as nat);
        let last = fields[j - 1];
        lemma_field_alignments(fields, (j - 1) as nat);
        lemma_alignments(last);
        law_aligned(fields_end(fields, (j - 1) as nat), extent(last).alignment);
    }
}

pub proof fn lemma_block_views_insert(blocks: Map<u32, Block>, id: u32, block: Block)
    ensures
        block_views(blocks.insert(id, block)) == block_views(blocks).insert(id, block@),
{
    assert(block_views(blocks.insert(id, block)) =~= block_views(blocks).insert(id, block@));
}

pub proof fn lemma_block_views_remove(blocks: Map<u32, Block>, id: u32)
    ensures
        block_views(blocks.remove(id)) == block_views(blocks).remove(id),
{
    assert(block_views(blocks.remove(id)) =~= block_views(blocks).remove(id));
}

pub proof fn lemma_register_views_insert(registers: Map<u32, Register>, id: u32, register: Register)
    ensures
        register_views(registers.insert(id, register)) == register_views(registers).insert(
            id,
            register@,
        ),
{
    assert(register_views(registers.insert(id, register)) =~= register_views(registers).insert(
        id,
        register@,
    ));
}

/// Takes a block out to be changed.
pub(crate) fn take_block(blocks: &mut BTreeMap<u32, Block>, id: u32) -> (r: Block)
    requires
        old(blocks)@.contains_key(id),
    ensures
        r == old(blocks)@[id],
        final(blocks)@ == old(blocks)@.remove(id),
        block_views(final(blocks)@) == block_views(old(blocks)@).remove(id),
{
    proof {
        lemma_block_views_remove(blocks@, id);
    }
    match blocks.remove(&id) {
        Some(block) => block,
        None => vstd::pervasive::unreached(),
    }
}

/// Puts a changed block back.
pub(crate) fn put_block(blocks: &mut BTreeMap<u32, Block>, id: u32, block: Block)
    ensures
        final(blocks)@ == old(blocks)@.insert(id, block),
        block_views(final(blocks)@) == block_views(old(blocks)@).insert(id, block@),
{
    proof {
        lemma_block_views_insert(blocks@, id, block);
    }
    blocks.insert(id, block);
}

/// The block with a number.
pub(crate) fn block_at(blocks: &BTreeMap<u32, Block>, id: u32) -> (r: &Block)
    requires
        blocks@.contains_key(id),
    ensures
        *r == blocks@[id],
        r@ == block_views(blocks@)[id],
{
    match blocks.get(&id) {
        Some(block) => block,
        None => vstd::pervasive::unreached(),
    }
}

pub proof fn lemma_code_push(instructions: Seq<Instruction>, instruction: Instruction)
    ensures
        code(instructions.push(instruction)) == code(instructions).push(instruction@),
{
    assert(code(instructions.push(instruction)) =~= code(instructions).push(instruction@));
}

} // verus!
