//! The syntax tree of a module.

use crate::frontend::intern::InternedSymbol;
use crate::frontend::lexer::Span;
use crate::frontend::SourceFileId;
use crate::index::{low_word, Index};
use vstd::prelude::*;

pub mod order;
pub mod visit;

verus! {

/// The number of a module within a crate. The root of the crate is number
/// zero.
#[derive(Clone, Copy, Debug, PartialEq, Eq, Structural, PartialOrd, Ord, Hash)]
pub struct ModuleId(pub u32);

impl Index for ModuleId {
    open spec fn ix(self) -> int {
        self.0 as int
    }

    fn new(idx: usize) -> (r: Self) {
        ModuleId(low_word(idx))
    }

    fn index(self) -> (r: usize) {
        self.0 as usize
    }
}

#[derive(Debug)]
pub struct Module {
    pub id: ModuleId,
    pub source_file: SourceFileId,
    /// Top level items in the module (nested items are in the tree and not in
    /// this list)
    pub items: Vec<Item>,
    /// The modules declared in this one, by name
    pub children: Vec<(InternedSymbol, ModuleId)>,
}

#[derive(Debug, Clone, Copy, PartialEq, Eq, Structural, PartialOrd, Ord)]
pub struct NodeId(pub u32);

#[derive(Debug)]
pub struct Item {
    pub id: NodeId,
    pub span: Span,
    pub kind: ItemKind,
}

#[derive(Debug)]
pub enum ItemKind {
    FunctionDefinition(Box<FunctionDefinition>),
    StructDefinition(Box<StructDefinition>),
    EnumDefinition(Box<EnumDefinition>),
    TypeAlias(Box<TypeAlias>),
    Static(Box<Static>),
    /// A submodule, which is held apart
    Module(Identifier),
    Import(Box<Import>),
}

#[derive(Debug, Clone, Copy, PartialEq, Eq, Structural, Hash)]
pub enum Visibility {
    Private,
    Public,
}

#[derive(Debug)]
pub struct FunctionDefinition {
    pub id: NodeId,
    pub span: Span,
    pub visibility: Visibility,
    pub signature: FunctionSignature,
    pub body: Block,
}

#[derive(Debug)]
pub struct FunctionSignature {
    pub id: NodeId,
    pub span: Span,
    pub name: QualifiedIdentifier,
    pub parameters: FunctionParameterList,
    pub return_type: Option<Box<Type>>,
}

#[derive(Debug)]
pub struct FunctionParameterList {
    pub id: NodeId,
    pub span: Span,
    pub self_parameter: Option<SelfParameter>,
    pub parameters: Vec<FunctionParameter>,
}

#[derive(Debug, Clone, Copy, PartialEq, Eq, Structural)]
pub enum SelfParameter {
    Owned,
    Pointer { is_mutable: bool },
}

#[derive(Debug)]
pub struct FunctionParameter {
    pub id: NodeId,
    pub span: Span,
    /// Whether it is declared with `mut`
    pub is_mutable: bool,
    pub name: Identifier,
    pub ty: Box<Type>,
}

#[derive(Debug)]
pub struct StructDefinition {
    pub id: NodeId,
    pub span: Span,
    pub visibility: Visibility,
    pub name: Identifier,
    pub fields: Vec<StructField>,
}

#[derive(Debug)]
pub struct StructField {
    pub id: NodeId,
    pub span: Span,
    pub visibility: Visibility,
    pub name: Identifier,
    pub ty: Box<Type>,
}

#[derive(Debug)]
pub struct EnumDefinition {
    pub id: NodeId,
    pub span: Span,
    pub visibility: Visibility,
    pub name: Identifier,
    pub variants: Vec<EnumVariant>,
}

#[derive(Debug)]
pub struct EnumVariant {
    pub id: NodeId,
    pub span: Span,
    pub name: Identifier,
}

#[derive(Debug)]
pub struct TypeAlias {
    pub id: NodeId,
    pub span: Span,
    pub visibility: Visibility,
    pub name: Identifier,
    pub ty: Box<Type>,
}

#[derive(Debug)]
pub struct Static {
    pub id: NodeId,
    pub span: Span,
    pub visibility: Visibility,
    pub is_mutable: bool,
    pub name: Identifier,
    pub ty: Box<Type>,
    /// must be a constant or simplify to a constant
    pub initializer: Box<Expression>,
}

#[derive(Debug)]
pub struct Import {
    pub id: NodeId,
    pub span: Span,
    pub name: QualifiedIdentifier,
}

#[derive(Debug)]
pub struct Type {
    pub id: NodeId,
    pub span: Span,
    pub kind: TypeKind,
}

#[derive(Debug)]
pub enum TypeKind {
    Unit,
    QualifiedIdentifier(QualifiedIdentifier),
    Pointer(Box<Type>),
    Slice(Box<Type>),
    Array { ty: Box<Type>, length: Box<Literal> },
    Tuple(Vec<Type>),
    Any,
}

#[derive(Debug)]
pub struct QualifiedIdentifier {
    pub id: NodeId,
    pub span: Span,
    pub segments: Vec<Identifier>,
}

impl QualifiedIdentifier {
    /// The last segment.
    pub fn last(&self) -> (r: &Identifier)
        requires
            self.segments@.len() > 0,
        ensures
            *r == self.segments@.last(),
    {
        &self.segments[self.segments.len() - 1]
    }

    /// The number of segments, which is never zero.
    pub fn len(&self) -> (r: usize)
        requires
            self.segments@.len() > 0,
        ensures
            r == self.segments@.len(),
    {
        self.segments.len()
    }
}

#[derive(Debug)]
pub struct Identifier {
    pub id: NodeId,
    pub span: Span,
    pub symbol: InternedSymbol,
}

#[derive(Debug)]
pub enum ArrayInitializer {
    Repeated { value: Box<Expression>, length: Box<Literal> },
    Specific(Vec<Expression>),
}

#[derive(Debug)]
pub struct StructInitializerField {
    pub id: NodeId,
    pub span: Span,
    pub name: Identifier,
    pub value: Box<Expression>,
}

#[derive(Debug)]
pub struct Block {
    pub id: NodeId,
    pub span: Span,
    pub statements: Vec<Statement>,
}

#[derive(Debug)]
pub struct Statement {
    pub id: NodeId,
    pub span: Span,
    pub kind: StatementKind,
}

#[derive(Debug)]
pub enum StatementKind {
    /// Local (let) binding or declaration
    Local(Box<Local>),
    /// Expression without a trailing semicolon
    BareExpr(Box<Expression>),
    /// Expression terminated with a semicolon
    SemiExpr(Box<Expression>),
    /// Empty statement (just a semicolon)
    Empty,
}

#[derive(Debug)]
pub struct Local {
    pub id: NodeId,
    pub span: Span,
    pub is_mutable: bool,
    pub name: Identifier,
    pub ty: Option<Type>,
    pub kind: LocalKind,
}

#[derive(Debug)]
pub enum LocalKind {
    Declaration,
    Initialization(Box<Expression>),
}

#[derive(Debug)]
pub struct Expression {
    pub id: NodeId,
    pub span: Span,
    pub kind: ExpressionKind,
}

#[allow(inconsistent_fields)]
#[derive(Debug)]
pub enum ExpressionKind {
    Literal(Box<Literal>),
    QualifiedIdentifier(Box<QualifiedIdentifier>),
    /// local self reference
    This,
    Grouping(Box<Expression>),
    Tuple(Vec<Expression>),
    Array(Box<ArrayInitializer>),
    Struct { name: QualifiedIdentifier, fields: Vec<StructInitializerField> },
    Block(Box<Block>),
    FieldAccess { target: Box<Expression>, name: Identifier, is_method_call: bool },
    FunctionCall { target: Box<Expression>, arguments: Box<FunctionCallArgumentList> },
    Subscript { target: Box<Expression>, index: Box<Expression> },
    Binary { lhs: Box<Expression>, operator: BinaryOperator, rhs: Box<Expression> },
    Unary { operator: UnaryOperator, operand: Box<Expression> },
    Cast { expression: Box<Expression>, ty: Box<Type> },
    If {
        condition: Box<Expression>,
        positive: Box<Block>,
        /// must be a block expression or an if expression
        negative: Option<Box<Expression>>,
    },
    While { condition: Box<Expression>, block: Box<Block> },
    Assignment { lhs: Box<Expression>, rhs: Box<Expression> },
    OperatorAssignment {
        operator: AssignmentOperator,
        lhs: Box<Expression>,
        rhs: Box<Expression>,
    },
    Break,
    Continue,
    // Least priority
    Return(Option<Box<Expression>>),
}

#[derive(Debug)]
pub struct FunctionCallArgumentList {
    pub id: NodeId,
    pub span: Span,
    pub arguments: Vec<Expression>,
}

#[derive(Debug)]
pub struct BinaryOperator {
    pub id: NodeId,
    pub span: Span,
    pub kind: BinaryOperatorKind,
}

#[derive(Debug, Clone, Copy, PartialEq, Eq, Structural, Hash)]
pub enum BinaryOperatorKind {
    Add,
    Subtract,
    Multiply,
    Divide,
    Modulus,
    Equals,
    NotEquals,
    LessThan,
    LessThanOrEqualTo,
    GreaterThan,
    GreaterThanOrEqualTo,
    LogicalAnd,
    LogicalOr,
    BitwiseAnd,
    BitwiseOr,
    BitwiseXor,
    ShiftLeft,
    ShiftRight,
}

#[derive(Debug, Clone, Copy, PartialEq, Eq, Structural)]
pub enum BinaryOperatorClass {
    Arithmetic,
    Logical,
    Comparison,
}

impl BinaryOperatorKind {
    /// What the operator works on and gives.
    pub open spec fn class_spec(self) -> BinaryOperatorClass {
        if self is LogicalAnd || self is LogicalOr {
            BinaryOperatorClass::Logical
        } else if self is Equals || self is NotEquals || self is LessThan
            || self is LessThanOrEqualTo || self is GreaterThan || self is GreaterThanOrEqualTo {
            BinaryOperatorClass::Comparison
        } else {
            BinaryOperatorClass::Arithmetic
        }
    }

    /// What the operator works on and gives.
    pub fn class(self) -> (r: BinaryOperatorClass)
        ensures
            r == self.class_spec(),
    {
        match self {
            BinaryOperatorKind::Add
            | BinaryOperatorKind::Subtract
            | BinaryOperatorKind::Multiply
            | BinaryOperatorKind::Divide
            | BinaryOperatorKind::Modulus
            | BinaryOperatorKind::BitwiseAnd
            | BinaryOperatorKind::BitwiseOr
            | BinaryOperatorKind::BitwiseXor
            | BinaryOperatorKind::ShiftLeft
            | BinaryOperatorKind::ShiftRight => BinaryOperatorClass::Arithmetic,
            BinaryOperatorKind::LogicalAnd | BinaryOperatorKind::LogicalOr => {
                BinaryOperatorClass::Logical
            }
            BinaryOperatorKind::Equals
            | BinaryOperatorKind::NotEquals
            | BinaryOperatorKind::LessThan
            | BinaryOperatorKind::LessThanOrEqualTo
            | BinaryOperatorKind::GreaterThan
            | BinaryOperatorKind::GreaterThanOrEqualTo => BinaryOperatorClass::Comparison,
        }
    }

    /// How the operator is written in listings.
    pub open spec fn shown(self) -> Seq<char> {
        match self {
            BinaryOperatorKind::Add => "+"@,
            BinaryOperatorKind::Subtract => "-"@,
            BinaryOperatorKind::Multiply => "*"@,
            BinaryOperatorKind::Divide => "/"@,
            BinaryOperatorKind::Modulus => "%"@,
            BinaryOperatorKind::Equals => "=="@,
            BinaryOperatorKind::NotEquals => "!="@,
            BinaryOperatorKind::LessThan => "<"@,
            BinaryOperatorKind::LessThanOrEqualTo => "<="@,
            BinaryOperatorKind::GreaterThan => ">"@,
            BinaryOperatorKind::GreaterThanOrEqualTo => ">="@,
            BinaryOperatorKind::LogicalAnd => "&&"@,
            BinaryOperatorKind::LogicalOr => "||"@,
            BinaryOperatorKind::BitwiseAnd => "&"@,
            BinaryOperatorKind::BitwiseOr => "|"@,
            BinaryOperatorKind::BitwiseXor => "^"@,
            BinaryOperatorKind::ShiftLeft => "<<"@,
            BinaryOperatorKind::ShiftRight => ">"@,
        }
    }

    /// How the operator is written in listings.
    pub fn display(self) -> (r: &'static str)
        ensures
            r@ == self.shown(),
    {
        match self {
            BinaryOperatorKind::Add => "+",
            BinaryOperatorKind::Subtract => "-",
            BinaryOperatorKind::Multiply => "*",
            BinaryOperatorKind::Divide => "/",
            BinaryOperatorKind::Modulus => "%",
            BinaryOperatorKind::Equals => "==",
            BinaryOperatorKind::NotEquals => "!=",
            BinaryOperatorKind::LessThan => "<",
            BinaryOperatorKind::LessThanOrEqualTo => "<=",
            BinaryOperatorKind::GreaterThan => ">",
            BinaryOperatorKind::GreaterThanOrEqualTo => ">=",
            BinaryOperatorKind::LogicalAnd => "&&",
            BinaryOperatorKind::LogicalOr => "||",
            BinaryOperatorKind::BitwiseAnd => "&",
            BinaryOperatorKind::BitwiseOr => "|",
            BinaryOperatorKind::BitwiseXor => "^",
            BinaryOperatorKind::ShiftLeft => "<<",
            BinaryOperatorKind::ShiftRight => ">",
        }
    }
}

#[derive(Debug)]
pub struct UnaryOperator {
    pub id: NodeId,
    pub span: Span,
    pub kind: UnaryOperatorKind,
}

#[derive(Debug, Clone, Copy, PartialEq, Eq, Structural, Hash)]
pub enum UnaryOperatorKind {
    /// `*`
    Deref,
    /// `&` or `&mut`
    AddressOf { is_mutable: bool },
    /// `!`
    LogicalNot,
    /// `~`
    BitwiseNot,
    /// `-`
    Negate,
}

impl UnaryOperatorKind {
    /// How the operator is written.
    pub open spec fn shown(self) -> Seq<char> {
        match self {
            UnaryOperatorKind::Deref => "*"@,
            UnaryOperatorKind::AddressOf { is_mutable } => if is_mutable {
                "&mut"@
            } else {
                "&"@
            },
            UnaryOperatorKind::LogicalNot => "!"@,
            UnaryOperatorKind::BitwiseNot => "~"@,
            UnaryOperatorKind::Negate => "-"@,
        }
    }

    /// How the operator is written.
    pub fn display(self) -> (r: &'static str)
        ensures
            r@ == self.shown(),
    {
        match self {
            UnaryOperatorKind::Deref => "*",
            UnaryOperatorKind::AddressOf { is_mutable } => {
                if is_mutable {
                    "&mut"
                } else {
                    "&"
                }
            }
            UnaryOperatorKind::LogicalNot => "!",
            UnaryOperatorKind::BitwiseNot => "~",
            UnaryOperatorKind::Negate => "-",
        }
    }
}

#[derive(Debug)]
pub struct Literal {
    pub id: NodeId,
    pub span: Span,
    pub kind: LiteralKind,
    pub symbol: InternedSymbol,
}

#[derive(Debug, Clone, Copy, PartialEq, Eq, Structural)]
pub enum LiteralKind {
    /// `true`
    Boolean,
    /// `b'A'`
    Byte,
    /// `'A'`
    Char,
    /// `1` or `1u32`
    Integer,
    /// `1.0` or `1.0f32`
    Float,
    /// `"hello, world"`
    String,
    /// `b"hello, world"`
    ByteString,
    /// `c"hello, world"`
    CString,
}

#[derive(Debug)]
pub struct AssignmentOperator {
    pub id: NodeId,
    pub span: Span,
    pub kind: AssignmentOperatorKind,
}

#[derive(Debug, Clone, Copy, PartialEq, Eq, Structural)]
pub enum AssignmentOperatorKind {
    Add,
    Subtract,
    Multiply,
    Divide,
    Modulus,
    LogicalAnd,
    LogicalOr,
    BitwiseAnd,
    BitwiseOr,
    BitwiseXor,
    ShiftLeft,
    ShiftRight,
}

#[derive(Debug, Clone, Copy, PartialEq, Eq, Structural)]
pub enum AssignmentOperatorClass {
    Arithmetic,
    Logical,
}

impl AssignmentOperatorKind {
    /// What the operator works on.
    pub open spec fn class_spec(self) -> AssignmentOperatorClass {
        if self is LogicalAnd || self is LogicalOr {
            AssignmentOperatorClass::Logical
        } else {
            AssignmentOperatorClass::Arithmetic
        }
    }

    /// What the operator works on.
    pub fn class(self) -> (r: AssignmentOperatorClass)
        ensures
            r == self.class_spec(),
    {
        match self {
            AssignmentOperatorKind::Add
            | AssignmentOperatorKind::Subtract
            | AssignmentOperatorKind::Multiply
            | AssignmentOperatorKind::Divide
            | AssignmentOperatorKind::Modulus
            | AssignmentOperatorKind::BitwiseAnd
            | AssignmentOperatorKind::BitwiseOr
            | AssignmentOperatorKind::BitwiseXor
            | AssignmentOperatorKind::ShiftLeft
            | AssignmentOperatorKind::ShiftRight => AssignmentOperatorClass::Arithmetic,
            AssignmentOperatorKind::LogicalAnd | AssignmentOperatorKind::LogicalOr => {
                AssignmentOperatorClass::Logical
            }
        }
    }
}

} // verus!
