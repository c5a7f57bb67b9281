use drip::frontend::intern::{InternedSymbol, Interner};
use drip::frontend::lexer::Span;
use drip::middle::hir::LocalDefId;
use drip::middle::primitive::{FloatKind, IntKind, PrimitiveKind, UIntKind};
use drip::middle::ty::{
    same_type, FloatVariableId, IntVariableId, StructField, Type, TypeKind, TypeVariable,
    VariableSet,
};
use drip::middle::type_check::error::{
    LoopControlFlowKind, TypeBoundary, TypeConstraintOrigin, TypeError, TypeErrorKind, TypeUsage,
};
use drip::middle::type_check::solve::{
    apply_substitution, solve_cast, solve_constraints, unify, SubstitutionMap, TypeConstraint,
    TypeConstraintKind,
};
use drip::middle::type_check::table::TypeTable;
use drip::style::Styled;
use std::rc::Rc;

fn plain(parts: &Vec<Styled>) -> String {
    let mut out = String::new();
    for part in parts {
        match part {
            Styled::Text(text) => out.push_str(text),
            Styled::Paint(_, inner) => out.push_str(&plain(inner)),
        }
    }
    out
}

fn shown(ty: &Type, names: &Interner) -> String {
    plain(&ty.colored(names))
}

fn infer_int(table: &mut TypeTable, n: u32) -> Type {
    table.intern_type(TypeKind::Infer(TypeVariable::Int(IntVariableId(n))))
}

#[test]
fn types_are_interned_once() {
    let mut table = TypeTable::new();
    let a = table.get_primitive_type(PrimitiveKind::Int(IntKind::I32));
    let b = table.get_primitive_type(PrimitiveKind::Int(IntKind::I32));
    assert!(Rc::ptr_eq(&a.0, &b.0));
    let pa = table.intern_type(TypeKind::Pointer(a.duplicate()));
    let pb = table.intern_type(TypeKind::Pointer(b));
    assert!(Rc::ptr_eq(&pa.0, &pb.0));
    let c = table.get_primitive_type(PrimitiveKind::Int(IntKind::I64));
    assert!(!same_type(&a, &c));
    assert!(same_type(&pa, &pb));
}

#[test]
fn types_are_written_out() {
    let mut names = Interner::new();
    let point = names.intern("Point");
    let mut table = TypeTable::new();
    let i = table.get_primitive_type(PrimitiveKind::Int(IntKind::I32));
    let s = table.get_primitive_type(PrimitiveKind::Str);
    let unit = table.get_unit_type();
    let list = [
        (TypeKind::Pointer(i.duplicate()), "*i32"),
        (TypeKind::Slice(s.duplicate()), "[str]"),
        (TypeKind::Array { ty: i.duplicate(), length: 4 }, "[i32; 4]"),
        (TypeKind::Tuple(vec![i.duplicate(), s.duplicate()]), "(i32, str)"),
        (TypeKind::Any, "*any"),
        (TypeKind::Never, "!"),
        (TypeKind::Struct { def_id: LocalDefId(1), name: point, fields: vec![] }, "Point"),
        (
            TypeKind::FunctionPointer {
                parameters: vec![i.duplicate()],
                return_type: unit.duplicate(),
                is_variadic: false,
            },
            "fn (i32) -> ()",
        ),
        (TypeKind::Infer(TypeVariable::Int(IntVariableId(3))), "{integer@3}"),
        (TypeKind::Infer(TypeVariable::Float(FloatVariableId(2))), "{float@2}"),
        (TypeKind::Error, "{unknown}"),
    ];
    for (kind, text) in list {
        let ty = table.intern_type(kind);
        assert_eq!(shown(&ty, &names), text);
    }
}

#[test]
fn kinds_are_told_apart() {
    let mut table = TypeTable::new();
    let u = table.get_primitive_type(PrimitiveKind::UInt(UIntKind::USize));
    assert!(u.kind().is_arithmetic());
    assert!(u.kind().is_integer_like());
    assert!(!u.kind().is_float_like());
    let f = table.get_primitive_type(PrimitiveKind::Float(FloatKind::F64));
    assert!(f.kind().is_float_like());
    let b = table.get_primitive_type(PrimitiveKind::Bool);
    assert!(b.kind().is_bool());
    assert!(!b.kind().is_aggregate());
    assert!(table.get_unit_type().kind().is_unit());
    assert!(table.get_error_type().kind().is_error());
    let s = table.get_primitive_type(PrimitiveKind::Str);
    assert!(s.kind().is_aggregate());
    let never = table.get_primitive_type(PrimitiveKind::Never);
    assert!(never.kind().is_never());
}

#[test]
fn free_variables_are_collected_once() {
    let mut table = TypeTable::new();
    let v = infer_int(&mut table, 1);
    let w = infer_int(&mut table, 2);
    let t = table.intern_type(TypeKind::Tuple(vec![v.duplicate(), w, v]));
    let free = t.kind().free_type_variables();
    assert_eq!(free.as_list().len(), 2);
    assert!(free.contains(TypeVariable::Int(IntVariableId(1))));
    assert!(!free.contains(TypeVariable::Float(FloatVariableId(1))));
    assert!(VariableSet::new().is_empty());
}

#[test]
fn variables_are_bound_by_unification() {
    let mut table = TypeTable::new();
    let mut map = SubstitutionMap::new();
    let v = infer_int(&mut table, 0);
    let u8_ty = table.get_primitive_type(PrimitiveKind::UInt(UIntKind::U8));
    assert!(unify(&mut table, &v, &u8_ty, &mut map).is_ok());
    assert!(map.contains(TypeVariable::Int(IntVariableId(0))));
    let pv = table.intern_type(TypeKind::Pointer(v));
    let applied = apply_substitution(&mut table, &map, &pv);
    let names = Interner::new();
    assert_eq!(shown(&applied, &names), "*u8");
    let again = apply_substitution(&mut table, &map, &applied);
    assert!(same_type(&applied, &again));
}

#[test]
fn different_types_do_not_unify() {
    let mut table = TypeTable::new();
    let mut map = SubstitutionMap::new();
    let a = table.get_primitive_type(PrimitiveKind::Bool);
    let b = table.get_primitive_type(PrimitiveKind::Char);
    assert!(matches!(
        unify(&mut table, &a, &b, &mut map),
        Err(TypeErrorKind::TypeMismatch { .. })
    ));
    let one = table.intern_type(TypeKind::Tuple(vec![a.duplicate()]));
    let two = table.intern_type(TypeKind::Tuple(vec![a.duplicate(), b.duplicate()]));
    assert!(matches!(
        unify(&mut table, &one, &two, &mut map),
        Err(TypeErrorKind::TupleLengthMismatch { expected: 1, actual: 2 })
    ));
    let three = table.intern_type(TypeKind::Array { ty: a.duplicate(), length: 3 });
    let four = table.intern_type(TypeKind::Array { ty: a.duplicate(), length: 4 });
    assert!(matches!(
        unify(&mut table, &three, &four, &mut map),
        Err(TypeErrorKind::ArrayLengthMismatch { expected: 3, actual: 4 })
    ));
    let v = infer_int(&mut table, 0);
    assert!(unify(&mut table, &v, &a, &mut map).is_err());
}

#[test]
fn casts_are_between_integers() {
    let mut table = TypeTable::new();
    let mut map = SubstitutionMap::new();
    let a = table.get_primitive_type(PrimitiveKind::Int(IntKind::I8));
    let b = table.get_primitive_type(PrimitiveKind::UInt(UIntKind::U64));
    let s = table.get_primitive_type(PrimitiveKind::Str);
    assert!(solve_cast(&mut table, &a, &b, &mut map, true).is_ok());
    assert!(matches!(
        solve_cast(&mut table, &s, &b, &mut map, true),
        Err(TypeErrorKind::InvalidCast { .. })
    ));
}

#[test]
fn constraints_are_solved_in_order() {
    let mut table = TypeTable::new();
    let origin = TypeConstraintOrigin { span: Span::new(0, 1), kind: TypeBoundary::LetStatement };
    let v = infer_int(&mut table, 0);
    let i = table.get_primitive_type(PrimitiveKind::Int(IntKind::I16));
    let b = table.get_primitive_type(PrimitiveKind::Bool);
    let constraints = vec![
        TypeConstraint {
            kind: TypeConstraintKind::Equal { left: v.duplicate(), right: i },
            origin,
        },
        TypeConstraint { kind: TypeConstraintKind::Equal { left: v, right: b }, origin },
    ];
    let (map, errors) = solve_constraints(&mut table, &constraints);
    assert!(map.contains(TypeVariable::Int(IntVariableId(0))));
    assert_eq!(errors.len(), 1);
}

fn said(kind: TypeErrorKind, place: TypeBoundary, names: &Interner) -> String {
    plain(
        &TypeError { origin: TypeConstraintOrigin { span: Span::new(0, 1), kind: place }, kind }
            .message(names),
    )
}

#[test]
fn errors_are_put_into_words() {
    let mut names = Interner::new();
    let field: InternedSymbol = names.intern("len");
    let mut table = TypeTable::new();
    let i = table.get_primitive_type(PrimitiveKind::Int(IntKind::I32));
    let s = table.get_primitive_type(PrimitiveKind::Str);
    let list = vec![
        (
            TypeErrorKind::TypeMismatch { expected: i.duplicate(), actual: s.duplicate() },
            TypeBoundary::IfCondition,
            "expected if condition type to be i32 but found str",
        ),
        (
            TypeErrorKind::TypeMismatch { expected: i.duplicate(), actual: s.duplicate() },
            TypeBoundary::Assignment,
            "cannot assign str to variable with type i32",
        ),
        (
            TypeErrorKind::InvalidOperation {
                attempted_usage: TypeUsage::ArithmeticOperation,
                provided: s.duplicate(),
            },
            TypeBoundary::ArithmeticOp,
            "cannot use type str in an arithmetic context",
        ),
        (
            TypeErrorKind::InfinitelyRecursiveType {
                variable: TypeVariable::Int(IntVariableId(4)),
                ty: i.duplicate(),
            },
            TypeBoundary::BinaryOp,
            "type i32 is infinitely recursive (variable = Int(IntVariableId(4)))",
        ),
        (
            TypeErrorKind::ArgumentLengthMismatch { expected: 2, actual: 3 },
            TypeBoundary::FunctionCall,
            "expected 2 argument(s) to this function but found 3",
        ),
        (
            TypeErrorKind::IllegalLoopControlFlow(LoopControlFlowKind::Break),
            TypeBoundary::LoopControlFlow,
            "`break` statement can only be used within loops",
        ),
        (
            TypeErrorKind::MissingReturnValue { expected: i.duplicate() },
            TypeBoundary::ExplicitReturn,
            "explicit return type does not match the expected type i32",
        ),
        (
            TypeErrorKind::MissingReturnValue { expected: i.duplicate() },
            TypeBoundary::ImplicitReturn,
            "expected function to return type i32 but no implicit or explicit returns found",
        ),
        (
            TypeErrorKind::InvalidCast { from: s.duplicate(), to: i.duplicate() },
            TypeBoundary::Cast,
            "non-trivial cast from str to i32",
        ),
        (
            TypeErrorKind::TupleLengthMismatch { expected: 1, actual: 2 },
            TypeBoundary::BinaryOp,
            "tuples have different arity, expected 1 parameters but found 2",
        ),
        (
            TypeErrorKind::ArrayLengthMismatch { expected: 1, actual: 2 },
            TypeBoundary::BinaryOp,
            "arrays have different length, expected 1 parameters but found 2",
        ),
        (
            TypeErrorKind::IllegalMutation,
            TypeBoundary::Assignment,
            "cannot mutate immutable variable",
        ),
        (
            TypeErrorKind::InvalidAssignment,
            TypeBoundary::Assignment,
            "invalid left-hand side of assignment",
        ),
        (
            TypeErrorKind::UnknownFieldAccess { target: s.duplicate(), name: field },
            TypeBoundary::FieldAccess,
            "field `len` does not exist on type str",
        ),
        (
            TypeErrorKind::MissingStructField { name: field },
            TypeBoundary::StructInitializer,
            "missing field `len`",
        ),
        (
            TypeErrorKind::ExtraStructField { name: field },
            TypeBoundary::StructInitializer,
            "unexpected field `len`",
        ),
        (
            TypeErrorKind::IllegalSelfUsage,
            TypeBoundary::SelfExpression,
            "`self` may only not be used in functions without a `self` parameter",
        ),
    ];
    for (kind, place, text) in list {
        assert_eq!(said(kind, place, &names), text);
    }
}

#[test]
fn structures_compare_by_their_fields() {
    let mut names = Interner::new();
    let point = names.intern("Point");
    let x = names.intern("x");
    let mut table = TypeTable::new();
    let i = table.get_primitive_type(PrimitiveKind::Int(IntKind::I32));
    let b = table.get_primitive_type(PrimitiveKind::Bool);
    let one = table.intern_type(TypeKind::Struct {
        def_id: LocalDefId(0),
        name: point,
        fields: vec![StructField { name: x, ty: i }],
    });
    let two = table.intern_type(TypeKind::Struct {
        def_id: LocalDefId(0),
        name: point,
        fields: vec![StructField { name: x, ty: b }],
    });
    assert!(!same_type(&one, &two));
    assert!(one.kind().is_struct());
}
