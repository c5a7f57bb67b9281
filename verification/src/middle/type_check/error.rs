//! What can be wrong with the types of a program.

use crate::frontend::intern::InternedSymbol;
use crate::frontend::lexer::Span;
use crate::middle::ty::{Ty, Type, TypeVariable};
use vstd::prelude::*;

verus! {

#[derive(Debug, Clone, Copy, PartialEq, Eq, Structural)]
pub struct TypeConstraintOrigin {
    /// The span enclosing the entire node which generated the constraint in the
    /// original traversal
    pub span: Span,
    /// Used to format error messages better
    pub kind: TypeBoundary,
}

/// A kind of place in the source code where a constraint may be generated
#[derive(Debug, Clone, Copy, PartialEq, Eq, Structural)]
pub enum TypeBoundary {
    /// If an explicit type is specified for a let binding, the expression must
    /// have that type
    LetStatement,
    /// If a field is accessed, it must exist on the target type
    FieldAccess,
    /// Function arguments must match the expected number
    FunctionCall,
    /// Function argument type must match function parameter type
    FunctionArgument,
    /// Cast operand must match target type
    Cast,
    /// If conditions must be the bool type
    IfCondition,
    /// Blocks of an if statement must have the same type
    IfBlock,
    /// While conditions must be the bool type
    WhileCondition,
    /// Bare expressions in a block which are not the last in the block must
    /// have be unit type
    BareExpression,
    /// Dereferencing can only be done on pointer types
    Deref,
    /// Cannot use non-boolean types in a logical context
    LogicalOp,
    /// Cannot use non-arithmetic types in arithmetic contexts
    ArithmeticOp,
    /// Sides of binary op must have the same type
    BinaryOp,
    /// Sides of assignment must have the same type
    Assignment,
    /// Sides of op assignment must have the same type
    OpAssignment,
    /// Break or continue statement
    LoopControlFlow,
    /// Return value type must match body return type
    ExplicitReturn,
    /// Implicit return type must match function signature type
    ImplicitReturn,
    /// All elements of an array initializer must be of the same type
    ArrayInitializer,
    /// All fields in a struct must be present, all fields must be of the
    /// expected type, and there must not be any extra fields
    StructInitializer,
    /// Self expression is only valid in functions with a self parameter
    SelfExpression,
}

pub struct TypeError {
    pub origin: TypeConstraintOrigin,
    pub kind: TypeErrorKind,
}

#[allow(inconsistent_fields)]
pub enum TypeErrorKind {
    /// The expected type did not match the actual type we found in that
    /// position (semantics depend a lot on the constraint origin which caused
    /// this error). This only applies when we know exactly what the target type
    /// should be, not for generic requirements like "binary ops should have
    /// arithmetic types". For that, we use
    /// [`InvalidOperation`](`Self::InvalidOperation`)
    TypeMismatch { expected: Type, actual: Type },
    /// The provided type does not support the operation it is used in. For
    /// example, using a str in an arithmetic expression, or using an int as the
    /// target of a function call expression.
    InvalidOperation { attempted_usage: TypeUsage, provided: Type },
    /// A type variable whose type contains itself. Not sure if this is actually
    /// possible to happen in our type system, but maybe it could happen in the
    /// future depending on the features we add so its good to implement it
    /// early on
    InfinitelyRecursiveType { variable: TypeVariable, ty: Type },
    /// Number of args provided to function do not match its call signature
    ArgumentLengthMismatch { expected: usize, actual: usize },
    /// Local binding declared with no explicit type and no initializer
    CannotInfer,
    /// Tried to use break or continue outside loop context
    IllegalLoopControlFlow(LoopControlFlowKind),
    /// If function's return type is not `()`, return expressions must contain a
    /// value
    MissingReturnValue { expected: Type },
    /// Tried to perform non-trivial cast
    InvalidCast { from: Type, to: Type },
    /// Tuples that should compare equal had different arity
    TupleLengthMismatch { expected: usize, actual: usize },
    /// Arrays that should compare equal need to be of the same length
    ArrayLengthMismatch { expected: usize, actual: usize },
    /// Only mutable values can be mutated
    IllegalMutation,
    /// Only certain types of values may be on the lhs of an assignment
    InvalidAssignment,
    /// Accessed fields must exist
    UnknownFieldAccess { target: Type, name: InternedSymbol },
    /// All struct fields must be present
    MissingStructField { name: InternedSymbol },
    /// No extra struct fields may be specified
    ExtraStructField { name: InternedSymbol },
    /// The "self" expression ay only be used in functions with a self parameter
    IllegalSelfUsage,
}

#[derive(Debug, Clone, Copy, PartialEq, Eq, Structural)]
pub enum TypeUsage {
    ArithmeticOperation,
    LogicalOperation,
    FieldAccess,
    FunctionCall,
    Deref,
}

#[derive(Debug, Clone, Copy, PartialEq, Eq, Structural)]
pub enum LoopControlFlowKind {
    Continue,
    Break,
}

/// What a [`TypeErrorKind`] is.
#[allow(inconsistent_fields)]
pub enum Fault {
    TypeMismatch { expected: Ty, actual: Ty },
    InvalidOperation { attempted_usage: TypeUsage, provided: Ty },
    InfinitelyRecursiveType { variable: TypeVariable, ty: Ty },
    ArgumentLengthMismatch { expected: usize, actual: usize },
    CannotInfer,
    IllegalLoopControlFlow(LoopControlFlowKind),
    MissingReturnValue { expected: Ty },
    InvalidCast { from: Ty, to: Ty },
    TupleLengthMismatch { expected: usize, actual: usize },
    ArrayLengthMismatch { expected: usize, actual: usize },
    IllegalMutation,
    InvalidAssignment,
    UnknownFieldAccess { target: Ty, name: InternedSymbol },
    MissingStructField { name: InternedSymbol },
    ExtraStructField { name: InternedSymbol },
    IllegalSelfUsage,
}

impl View for TypeErrorKind {
    type V = Fault;

    open spec fn view(&self) -> Fault {
        match *self {
            TypeErrorKind::TypeMismatch { expected, actual } => Fault::TypeMismatch {
                expected: expected@,
                actual: actual@,
            },
            TypeErrorKind::InvalidOperation {
                attempted_usage,
                provided,
            } => Fault::InvalidOperation { attempted_usage, provided: provided@ },
            TypeErrorKind::InfinitelyRecursiveType {
                variable,
                ty,
            } => Fault::InfinitelyRecursiveType { variable, ty: ty@ },
            TypeErrorKind::ArgumentLengthMismatch {
                expected,
                actual,
            } => Fault::ArgumentLengthMismatch { expected, actual },
            TypeErrorKind::CannotInfer => Fault::CannotInfer,
            TypeErrorKind::IllegalLoopControlFlow(kind) => Fault::IllegalLoopControlFlow(kind),
            TypeErrorKind::MissingReturnValue { expected } => Fault::MissingReturnValue {
                expected: expected@,
            },
            TypeErrorKind::InvalidCast { from, to } => Fault::InvalidCast { from: from@, to: to@ },
            TypeErrorKind::TupleLengthMismatch {
                expected,
                actual,
            } => Fault::TupleLengthMismatch { expected, actual },
            TypeErrorKind::ArrayLengthMismatch {
                expected,
                actual,
            } => Fault::ArrayLengthMismatch { expected, actual },
            TypeErrorKind::IllegalMutation => Fault::IllegalMutation,
            TypeErrorKind::InvalidAssignment => Fault::InvalidAssignment,
            TypeErrorKind::UnknownFieldAccess { target, name } => Fault::UnknownFieldAccess {
                target: target@,
                name,
            },
            TypeErrorKind::MissingStructField { name } => Fault::MissingStructField { name },
            TypeErrorKind::ExtraStructField { name } => Fault::ExtraStructField { name },
            TypeErrorKind::IllegalSelfUsage => Fault::IllegalSelfUsage,
        }
    }
}

/// What a [`TypeError`] is.
pub struct Mistake {
    pub origin: TypeConstraintOrigin,
    pub kind: Fault,
}

impl View for TypeError {
    type V = Mistake;

    open spec fn view(&self) -> Mistake {
        Mistake { origin: self.origin, kind: self.kind@ }
    }
}

/// What a list of errors is.
pub open spec fn mistakes(errors: Seq<TypeError>) -> Seq<Mistake> {
    Seq::new(errors.len(), |i: int| errors[i]@)
}

pub proof fn lemma_mistakes_push(errors: Seq<TypeError>, error: TypeError)
    ensures
        mistakes(errors.push(error)) == mistakes(errors).push(error@),
{
    assert(mistakes(errors.push(error)) =~= mistakes(errors).push(error@));
}

} // verus!
