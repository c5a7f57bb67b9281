//! Says in words what is wrong with the types of a program.

use crate::frontend::intern::{InternedSymbol, Interner};
use crate::middle::ty::{names_known, shown_type, Ty, Type, TypeVariable};
use crate::middle::type_check::error::{
    Fault, LoopControlFlowKind, Mistake, TypeBoundary, TypeError, TypeErrorKind, TypeUsage,
};
use crate::style::{doc, push_str, push_text, Styled, StyledView};
use crate::text::{decimal, push_decimal};
use vstd::prelude::*;

verus! {

/// What is said of a type that is not the expected one.
pub open spec fn mismatch_text(
    names: Seq<Seq<char>>,
    place: TypeBoundary,
    expected: Ty,
    actual: Ty,
) -> Seq<StyledView> {
    match place {
        TypeBoundary::LetStatement => seq![
            StyledView::Text("let binding initializer type "@),
            shown_type(names, actual),
            StyledView::Text(" does not match explicit type "@),
            shown_type(names, expected),
        ],
        TypeBoundary::FunctionArgument => seq![
            StyledView::Text("expected function argument to be "@),
            shown_type(names, expected),
            StyledView::Text(" but found "@),
            shown_type(names, actual),
        ],
        TypeBoundary::Cast => seq![
            StyledView::Text(""@),
            shown_type(names, actual),
            StyledView::Text(" cannot be trivially cast to "@),
            shown_type(names, expected),
        ],
        TypeBoundary::IfCondition => seq![
            StyledView::Text("expected if condition type to be "@),
            shown_type(names, expected),
            StyledView::Text(" but found "@),
            shown_type(names, actual),
        ],
        TypeBoundary::IfBlock => seq![
            StyledView::Text("expected positive type of if condition "@),
            shown_type(names, expected),
            StyledView::Text(" to match negative type "@),
            shown_type(names, actual),
        ],
        TypeBoundary::WhileCondition => seq![
            StyledView::Text("expected while condition type to be "@),
            shown_type(names, expected),
            StyledView::Text(" but found "@),
            shown_type(names, actual),
        ],
        TypeBoundary::BareExpression => seq![
            StyledView::Text("expected bare expression type to be "@),
            shown_type(names, expected),
            StyledView::Text(" but found "@),
            shown_type(names, actual),
        ],
        TypeBoundary::BinaryOp => seq![
            StyledView::Text("expected left-hand side of binary op "@),
            shown_type(names, expected),
            StyledView::Text(" to match right-hand side "@),
            shown_type(names, actual),
        ],
        TypeBoundary::Assignment => seq![
            StyledView::Text("cannot assign "@),
            shown_type(names, actual),
            StyledView::Text(" to variable with type "@),
            shown_type(names, expected),
        ],
        TypeBoundary::OpAssignment => seq![
            StyledView::Text("cannot use "@),
            shown_type(names, actual),
            StyledView::Text(" in operator assignment to variable with type "@),
            shown_type(names, expected),
        ],
        TypeBoundary::ExplicitReturn => seq![
            StyledView::Text("explicit return type "@),
            shown_type(names, actual),
            StyledView::Text(" does not match the function signature's return type "@),
            shown_type(names, expected),
        ],
        TypeBoundary::ImplicitReturn => seq![
            StyledView::Text("implicit return type "@),
            shown_type(names, actual),
            StyledView::Text(" does not match the function signature's return type "@),
            shown_type(names, expected),
        ],
        TypeBoundary::ArrayInitializer => seq![
            StyledView::Text("array element type "@),
            shown_type(names, actual),
            StyledView::Text(" does not match the expected type "@),
            shown_type(names, expected),
        ],
        TypeBoundary::StructInitializer => seq![
            StyledView::Text("field type "@),
            shown_type(names, actual),
            StyledView::Text(" does not match the expected type "@),
            shown_type(names, expected),
        ],
        _ => Seq::empty(),
    }
}

/// What is said of a type that cannot be used in some way.
pub open spec fn usage_text(names: Seq<Seq<char>>, usage: TypeUsage, provided: Ty) -> Seq<
    StyledView,
> {
    match usage {
        TypeUsage::ArithmeticOperation => seq![
            StyledView::Text("cannot use type "@),
            shown_type(names, provided),
            StyledView::Text(" in an arithmetic context"@),
        ],
        TypeUsage::LogicalOperation => seq![
            StyledView::Text("cannot use type "@),
            shown_type(names, provided),
            StyledView::Text(" in a logical context"@),
        ],
        TypeUsage::FieldAccess => seq![
            StyledView::Text(""@),
            shown_type(names, provided),
            StyledView::Text(" does not support field access"@),
        ],
        TypeUsage::FunctionCall => seq![
            StyledView::Text("cannot use type "@),
            shown_type(names, provided),
            StyledView::Text(" as the target of a function call"@),
        ],
        TypeUsage::Deref => seq![
            StyledView::Text("type "@),
            shown_type(names, provided),
            StyledView::Text(" cannot be dereferenced"@),
        ],
    }
}

/// A text about two numbers.
pub open spec fn count_text(
    before: Seq<char>,
    expected: usize,
    between: Seq<char>,
    actual: usize,
) -> Seq<StyledView> {
    seq![StyledView::Text(before + decimal(expected as nat) + between + decimal(actual as nat))]
}

/// How a type variable is written for those who work on the compiler.
pub open spec fn variable_text(variable: TypeVariable) -> Seq<char> {
    match variable {
        TypeVariable::Int(id) => "Int(IntVariableId("@ + decimal(id.0 as nat) + "))"@,
        TypeVariable::Float(id) => "Float(FloatVariableId("@ + decimal(id.0 as nat) + "))"@,
    }
}

/// Whether there are words for an error: its names are known, and its kind
/// fits the place that it is found in.
pub open spec fn can_say(names: Seq<Seq<char>>, mistake: Mistake) -> bool {
    match mistake.kind {
        Fault::TypeMismatch { expected, actual } => {
            &&& names_known(names, expected)
            &&& names_known(names, actual)
            &&& !(mistake.origin.kind is FieldAccess || mistake.origin.kind is FunctionCall
                || mistake.origin.kind is Deref || mistake.origin.kind is LogicalOp
                || mistake.origin.kind is ArithmeticOp || mistake.origin.kind is LoopControlFlow
                || mistake.origin.kind is SelfExpression)
        },
        Fault::InvalidOperation { provided, .. } => names_known(names, provided),
        Fault::InfinitelyRecursiveType { ty, .. } => names_known(names, ty),
        Fault::CannotInfer => mistake.origin.kind is LetStatement,
        Fault::MissingReturnValue { expected } => {
            &&& names_known(names, expected)
            &&& mistake.origin.kind is ExplicitReturn || mistake.origin.kind is ImplicitReturn
        },
        Fault::InvalidCast { from, to } => names_known(names, from) && names_known(names, to),
        Fault::UnknownFieldAccess { target, name } => names_known(names, target) && (name.0 as int)
            < names.len(),
        Fault::MissingStructField { name } => (name.0 as int) < names.len(),
        Fault::ExtraStructField { name } => (name.0 as int) < names.len(),
        _ => true,
    }
}

/// What is said of an error.
pub open spec fn message_of(names: Seq<Seq<char>>, mistake: Mistake) -> Seq<StyledView> {
    match mistake.kind {
        Fault::TypeMismatch { expected, actual } => mismatch_text(
            names,
            mistake.origin.kind,
            expected,
            actual,
        ),
        Fault::InvalidOperation { attempted_usage, provided } => usage_text(
            names,
            attempted_usage,
            provided,
        ),
        Fault::InfinitelyRecursiveType { variable, ty } => seq![
            StyledView::Text("type "@),
            shown_type(names, ty),
            StyledView::Text(
                " is infinitely recursive (variable = "@ + variable_text(variable) + ")"@,
            ),
        ],
        Fault::ArgumentLengthMismatch { expected, actual } => count_text(
            "expected "@,
            expected,
            " argument(s) to this function but found "@,
            actual,
        ),
        Fault::CannotInfer => seq![
            StyledView::Text(
                "cannot infer the type of this binding without an explicit type or initializer expression"@,
            ),
        ],
        Fault::IllegalLoopControlFlow(LoopControlFlowKind::Break) => seq![
            StyledView::Text("`break` statement can only be used within loops"@),
        ],
        Fault::IllegalLoopControlFlow(LoopControlFlowKind::Continue) => seq![
            StyledView::Text("`continue` statement can only be used within loops"@),
        ],
        Fault::MissingReturnValue { expected } => if mistake.origin.kind is ExplicitReturn {
            seq![
                StyledView::Text("explicit return type does not match the expected type "@),
                shown_type(names, expected),
            ]
        } else {
            seq![
                StyledView::Text("expected function to return type "@),
                shown_type(names, expected),
                StyledView::Text(" but no implicit or explicit returns found"@),
            ]
        },
        Fault::InvalidCast { from, to } => seq![
            StyledView::Text("non-trivial cast from "@),
            shown_type(names, from),
            StyledView::Text(" to "@),
            shown_type(names, to),
        ],
        Fault::TupleLengthMismatch { expected, actual } => seq![
            StyledView::Text(
                "tuples have different arity, expected "@ + decimal(expected as nat)
                    + " parameters but found "@ + decimal(actual as nat),
            ),
        ],
        Fault::ArrayLengthMismatch { expected, actual } => seq![
            StyledView::Text(
                "arrays have different length, expected "@ + decimal(expected as nat)
                    + " parameters but found "@ + decimal(actual as nat),
            ),
        ],
        Fault::IllegalMutation => seq![StyledView::Text("cannot mutate immutable variable"@)],
        Fault::InvalidAssignment => seq![
            StyledView::Text("invalid left-hand side of assignment"@),
        ],
        Fault::UnknownFieldAccess { target, name } => seq![
            StyledView::Text("field `"@ + names[name.0 as int] + "` does not exist on type "@),
            shown_type(names, target),
        ],
        Fault::MissingStructField { name } => seq![
            StyledView::Text("missing field `"@ + names[name.0 as int] + "`"@),
        ],
        Fault::ExtraStructField { name } => seq![
            StyledView::Text("unexpected field `"@ + names[name.0 as int] + "`"@),
        ],
        Fault::IllegalSelfUsage => seq![
            StyledView::Text(
                "`self` may only not be used in functions without a `self` parameter"@,
            ),
        ],
    }
}

/// Appends what is said of a type that is not the expected one.
fn push_mismatch(
    parts: &mut Vec<Styled>,
    place: TypeBoundary,
    expected: &Type,
    actual: &Type,
    names: &Interner,
)
    requires
        names_known(names@, expected@),
        names_known(names@, actual@),
    ensures
        doc(final(parts)@) == doc(old(parts)@) + mismatch_text(
            names@,
            place,
            expected@,
            actual@,
        ),
{
    let ghost start = doc(parts@);
    match place {
        TypeBoundary::LetStatement => {
            push_str(parts, "let binding initializer type ");
            actual.push_to(parts, names);
            push_str(parts, " does not match explicit type ");
            expected.push_to(parts, names);
        }
        TypeBoundary::FunctionArgument => {
            push_str(parts, "expected function argument to be ");
            expected.push_to(parts, names);
            push_str(parts, " but found ");
            actual.push_to(parts, names);
        }
        TypeBoundary::Cast => {
            push_str(parts, "");
            actual.push_to(parts, names);
            push_str(parts, " cannot be trivially cast to ");
            expected.push_to(parts, names);
        }
        TypeBoundary::IfCondition => {
            push_str(parts, "expected if condition type to be ");
            expected.push_to(parts, names);
            push_str(parts, " but found ");
            actual.push_to(parts, names);
        }
        TypeBoundary::IfBlock => {
            push_str(parts, "expected positive type of if condition ");
            expected.push_to(parts, names);
            push_str(parts, " to match negative type ");
            actual.push_to(parts, names);
        }
        TypeBoundary::WhileCondition => {
            push_str(parts, "expected while condition type to be ");
            expected.push_to(parts, names);
            push_str(parts, " but found ");
            actual.push_to(parts, names);
        }
        TypeBoundary::BareExpression => {
            push_str(parts, "expected bare expression type to be ");
            expected.push_to(parts, names);
            push_str(parts, " but found ");
            actual.push_to(parts, names);
        }
        TypeBoundary::BinaryOp => {
            push_str(parts, "expected left-hand side of binary op ");
            expected.push_to(parts, names);
            push_str(parts, " to match right-hand side ");
            actual.push_to(parts, names);
        }
        TypeBoundary::Assignment => {
            push_str(parts, "cannot assign ");
            actual.push_to(parts, names);
            push_str(parts, " to variable with type ");
            expected.push_to(parts, names);
        }
        TypeBoundary::OpAssignment => {
            push_str(parts, "cannot use ");
            actual.push_to(parts, names);
            push_str(parts, " in operator assignment to variable with type ");
            expected.push_to(parts, names);
        }
        TypeBoundary::ExplicitReturn => {
            push_str(parts, "explicit return type ");
            actual.push_to(parts, names);
            push_str(parts, " does not match the function signature's return type ");
            expected.push_to(parts, names);
        }
        TypeBoundary::ImplicitReturn => {
            push_str(parts, "implicit return type ");
            actual.push_to(parts, names);
            push_str(parts, " does not match the function signature's return type ");
            expected.push_to(parts, names);
        }
        TypeBoundary::ArrayInitializer => {
            push_str(parts, "array element type ");
            actual.push_to(parts, names);
            push_str(parts, " does not match the expected type ");
            expected.push_to(parts, names);
        }
        TypeBoundary::StructInitializer => {
            push_str(parts, "field type ");
            actual.push_to(parts, names);
            push_str(parts, " does not match the expected type ");
            expected.push_to(parts, names);
        }
        _ => {}
    }
    assert(doc(parts@) =~= start + mismatch_text(names@, place, expected@, actual@));
}

/// Appends what is said of a type that cannot be used in some way.
fn push_usage(parts: &mut Vec<Styled>, usage: TypeUsage, provided: &Type, names: &Interner)
    requires
        names_known(names@, provided@),
    ensures
        doc(final(parts)@) == doc(old(parts)@) + usage_text(names@, usage, provided@),
{
    let ghost start = doc(parts@);
    match usage {
        TypeUsage::ArithmeticOperation => {
            push_str(parts, "cannot use type ");
            provided.push_to(parts, names);
            push_str(parts, " in an arithmetic context");
        }
        TypeUsage::LogicalOperation => {
            push_str(parts, "cannot use type ");
            provided.push_to(parts, names);
            push_str(parts, " in a logical context");
        }
        TypeUsage::FieldAccess => {
            push_str(parts, "");
            provided.push_to(parts, names);
            push_str(parts, " does not support field access");
        }
        TypeUsage::FunctionCall => {
            push_str(parts, "cannot use type ");
            provided.push_to(parts, names);
            push_str(parts, " as the target of a function call");
        }
        TypeUsage::Deref => {
            push_str(parts, "type ");
            provided.push_to(parts, names);
            push_str(parts, " cannot be dereferenced");
        }
    }
    assert(doc(parts@) =~= start + usage_text(names@, usage, provided@));
}

/// Appends a text about two numbers.
fn push_count(
    parts: &mut Vec<Styled>,
    before: &str,
    expected: usize,
    between: &str,
    actual: usize,
)
    ensures
        doc(final(parts)@) == doc(old(parts)@) + count_text(before@, expected, between@, actual),
{
    let ghost start = doc(parts@);
    let mut text = before.to_owned();
    push_decimal(&mut text, expected as u64);
    text.append(between);
    push_decimal(&mut text, actual as u64);
    push_text(parts, text);
    assert(doc(parts@) =~= start + count_text(before@, expected, between@, actual));
}

/// Appends a text with a name in it.
fn push_named(
    parts: &mut Vec<Styled>,
    before: &str,
    name: InternedSymbol,
    behind: &str,
    names: &Interner,
)
    requires
        names.knows(name),
    ensures
        doc(final(parts)@) == doc(old(parts)@).push(
            StyledView::Text(before@ + names.text(name) + behind@),
        ),
{
    let mut text = before.to_owned();
    text.append(names.value(name));
    text.append(behind);
    push_text(parts, text);
}

fn variable_name(variable: TypeVariable) -> (r: String)
    ensures
        r@ == variable_text(variable),
{
    match variable {
        TypeVariable::Int(id) => {
            let mut out = "Int(IntVariableId(".to_owned();
            push_decimal(&mut out, id.0 as u64);
            out.append("))");
            out
        }
        TypeVariable::Float(id) => {
            let mut out = "Float(FloatVariableId(".to_owned();
            push_decimal(&mut out, id.0 as u64);
            out.append("))");
            out
        }
    }
}

impl TypeError {
    /// What is said of the error.
    #[verifier::rlimit(40)]
    pub fn message(&self, names: &Interner) -> (r: Vec<Styled>)
        requires
            can_say(names@, self@),
        ensures
            doc(r@) == message_of(names@, self@),
    {
        let mut parts: Vec<Styled> = Vec::new();
        assert(doc(parts@) =~= Seq::<StyledView>::empty());
        match &self.kind {
            TypeErrorKind::TypeMismatch { expected, actual } => {
                push_mismatch(&mut parts, self.origin.kind, expected, actual, names);
            }
            TypeErrorKind::InvalidOperation { attempted_usage, provided } => {
                push_usage(&mut parts, *attempted_usage, provided, names);
            }
            TypeErrorKind::InfinitelyRecursiveType { variable, ty } => {
                // I'm fairly certain that this is impossible, so if we catch it
                // in the wild then I will be impressed
                push_str(&mut parts, "type ");
                ty.push_to(&mut parts, names);
                let mut text = " is infinitely recursive (variable = ".to_owned();
                text.append(variable_name(*variable).as_str());
                text.append(")");
                push_text(&mut parts, text);
            }
            TypeErrorKind::ArgumentLengthMismatch { expected, actual } => {
                push_count(
                    &mut parts,
                    "expected ",
                    *expected,
                    " argument(s) to this function but found ",
                    *actual,
                );
            }
            TypeErrorKind::CannotInfer => {
                push_str(
                    &mut parts,
                    "cannot infer the type of this binding without an explicit type or initializer expression",
                );
            }
            TypeErrorKind::IllegalLoopControlFlow(LoopControlFlowKind::Break) => {
                push_str(&mut parts, "`break` statement can only be used within loops");
            }
            TypeErrorKind::IllegalLoopControlFlow(LoopControlFlowKind::Continue) => {
                push_str(&mut parts, "`continue` statement can only be used within loops");
            }
            TypeErrorKind::MissingReturnValue { expected } => {
                if let TypeBoundary::ExplicitReturn = self.origin.kind {
                    push_str(
                        &mut parts,
                        "explicit return type does not match the expected type ",
                    );
                    expected.push_to(&mut parts, names);
                } else {
                    push_str(&mut parts, "expected function to return type ");
                    expected.push_to(&mut parts, names);
                    push_str(&mut parts, " but no implicit or explicit returns found");
                }
            }
            TypeErrorKind::InvalidCast { from, to } => {
                push_str(&mut parts, "non-trivial cast from ");
                from.push_to(&mut parts, names);
                push_str(&mut parts, " to ");
                to.push_to(&mut parts, names);
            }
            TypeErrorKind::TupleLengthMismatch { expected, actual } => {
                push_count(
                    &mut parts,
                    "tuples have different arity, expected ",
                    *expected,
                    " parameters but found ",
                    *actual,
                );
            }
            TypeErrorKind::ArrayLengthMismatch { expected, actual } => {
                push_count(
                    &mut parts,
                    "arrays have different length, expected ",
                    *expected,
                    " parameters but found ",
                    *actual,
                );
            }
            TypeErrorKind::IllegalMutation => {
                push_str(&mut parts, "cannot mutate immutable variable");
            }
            TypeErrorKind::InvalidAssignment => {
                push_str(&mut parts, "invalid left-hand side of assignment");
            }
            TypeErrorKind::UnknownFieldAccess { target, name } => {
                push_named(&mut parts, "field `", *name, "` does not exist on type ", names);
                target.push_to(&mut parts, names);
            }
            TypeErrorKind::MissingStructField { name } => {
                push_named(&mut parts, "missing field `", *name, "`", names);
            }
            TypeErrorKind::ExtraStructField { name } => {
                push_named(&mut parts, "unexpected field `", *name, "`", names);
            }
            TypeErrorKind::IllegalSelfUsage => {
                push_str(
                    &mut parts,
                    "`self` may only not be used in functions without a `self` parameter",
                );
            }
        }
        assert(doc(parts@) =~= message_of(names@, self@));
        parts
    }
}

} // verus!
