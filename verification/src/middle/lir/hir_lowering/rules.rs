//! What the parts of a body are lowered to.

use crate::frontend::ast::UnaryOperatorKind;
use crate::frontend::intern::InternedSymbol;
use crate::middle::hir;
use crate::middle::hir::{
    Definition, DefinitionKind, EnumVariant, Expression, FunctionSignature, HirId, Identifier, Item,
    ItemKind, Literal, LiteralIntegerKind, LocalDefId, Module, Path, Resolution, SelfParameter,
};
use crate::middle::lir::hir_lowering::state::{
    call_named, constant_string, copied_value, emit, emit_call, emit_cast, emit_element, emit_field,
    emit_load, emit_phi, emit_store, emit_unary, function_label, loaded_from, lowered_fields,
    lowered_ty, place_for, print_string, slice_fields, with_name, Called, Emitted, LoopView,
    Lowering, Source, Valued,
};
use crate::middle::lir::{
    ends_in_return, signed_width, unsigned_width, BlockId, BlockView, Immediate, InstructionView,
    IntegerCastKind, IntegerWidth, Operand, RegisterId, TypeView,
};
use crate::middle::primitive::{IntKind, UIntKind};
use crate::middle::ty::Ty;
use std::rc::Rc;
use vstd::prelude::*;

verus! {

/// The width of an integer literal.
pub open spec fn literal_width(src: Source, id: HirId, kind: LiteralIntegerKind) -> Option<
    IntegerWidth,
> {
    match kind {
        LiteralIntegerKind::Signed(k) => Some(signed_width(k)),
        LiteralIntegerKind::Unsigned(k) => Some(unsigned_width(k)),
        LiteralIntegerKind::Unsuffixed => if !src.types.has(id) {
            None
        } else {
            match src.types.at(id) {
                Ty::Integer(k) => Some(signed_width(k)),
                Ty::UnsignedInteger(k) => Some(unsigned_width(k)),
                Ty::Pointer(_) | Ty::Any => Some(IntegerWidth::I64),
                _ => None,
            }
        },
    }
}

/// A literal is a value in the code; a string is built on the stack.
#[verifier::opaque]
pub open spec fn literal_rule(src: Source, st: Lowering, id: HirId, literal: Literal) -> Option<
    Lowering,
> {
    match literal {
        Literal::Boolean(v) => Some(st.with_operand(id, Operand::Immediate(Immediate::Bool(v)))),
        Literal::Char(v) => Some(
            st.with_operand(
                id,
                Operand::Immediate(Immediate::Int(v as u64, IntegerWidth::I32)),
            ),
        ),
        Literal::Integer(v, kind) => match literal_width(src, id, kind) {
            Some(width) => Some(
                st.with_operand(id, Operand::Immediate(Immediate::Int(v, width))),
            ),
            None => None,
        },
        Literal::String(symbol) => match constant_string(st, symbol) {
            Some(made) => Some(made.st.with_operand(id, Operand::Register(made.reg))),
            None => None,
        },
        Literal::Float(_, _) | Literal::ByteString(_) | Literal::CString(_) => None,
    }
}

/// The item with a number.
pub open spec fn item_at(module: Module, id: LocalDefId) -> Option<Item> {
    if module.has_owner(id) && module.owner(id).is_item() {
        Some(module.owner(id).item())
    } else {
        None
    }
}

/// With the value of an expression, once it has been computed.
pub open spec fn valued_as(id: HirId, valued: Option<Valued>) -> Option<Lowering> {
    match valued {
        Some(v) => Some(v.st.with_operand(id, v.value)),
        None => None,
    }
}

/// With the register that holds the value of an expression.
pub open spec fn emitted_as(id: HirId, emitted: Option<Emitted>) -> Option<Lowering> {
    match emitted {
        Some(e) => Some(e.st.with_operand(id, Operand::Register(e.reg))),
        None => None,
    }
}

/// A local variable: its place, or its value.
#[verifier::opaque]
pub open spec fn local_rule(src: Source, st: Lowering, id: HirId, local: u32) -> Option<Lowering> {
    if !st.locals.contains_key(local) || !src.types.has(id) {
        None
    } else {
        let reg = st.locals[local];
        let ty = src.types.at(id);
        if st.place {
            if st.arguments.contains(reg) && !ty.is_aggregate() {
                None
            } else {
                Some(st.with_operand(id, Operand::Register(reg)))
            }
        } else {
            match lowered_ty(ty) {
                None => None,
                Some(lir) => if st.arguments.contains(reg) {
                    valued_as(id, copied_value(st, st.dest, Operand::Register(reg), lir))
                } else {
                    emitted_as(id, loaded_from(st, st.dest, Operand::Register(reg), lir))
                },
            }
        }
    }
}

/// A static variable: its place, or its value.
#[verifier::opaque]
pub open spec fn static_rule(src: Source, st: Lowering, id: HirId, def_id: LocalDefId) -> Option<
    Lowering,
> {
    match item_at(src.module, def_id) {
        Some(Item { kind: ItemKind::Static { name, ty, .. }, .. }) => if !src.types.has(
            ty.hir_id,
        ) {
            None
        } else {
            let source = Operand::Immediate(Immediate::NamedStaticLabel(name.symbol));
            if st.place {
                Some(st.with_operand(id, source))
            } else {
                match lowered_ty(src.types.at(ty.hir_id)) {
                    Some(lir) => emitted_as(id, loaded_from(st, st.dest, source, lir)),
                    None => None,
                }
            }
        },
        _ => None,
    }
}

/// The place of a variant among those of its enum, from `k` on.
pub open spec fn find_variant(
    variants: Seq<Rc<EnumVariant>>,
    def_id: LocalDefId,
    k: nat,
) -> Option<nat>
    decreases variants.len() - k,
{
    if k >= variants.len() {
        None
    } else if variants[k as int].def_id == def_id {
        Some(k)
    } else {
        find_variant(variants, def_id, k + 1)
    }
}

/// A variant of an enum is the number of its place.
#[verifier::opaque]
pub open spec fn variant_rule(src: Source, st: Lowering, id: HirId, def_id: LocalDefId) -> Option<
    Lowering,
> {
    if !src.module.definitions@.contains_key(def_id.0) {
        None
    } else {
        match src.module.definitions@[def_id.0] {
            Definition::Owner => None,
            Definition::NonOwner(node) => match item_at(src.module, node.owner) {
                Some(Item { kind: ItemKind::Enum { variants, .. }, .. }) => match find_variant(
                    variants@,
                    def_id,
                    0,
                ) {
                    Some(k) => Some(
                        st.with_operand(
                            id,
                            Operand::Immediate(Immediate::Int(k as u64, IntegerWidth::I32)),
                        ),
                    ),
                    None => None,
                },
                _ => None,
            },
        }
    }
}

/// A state once the symbol of a function is known.
pub open spec fn with_symbol(src: Source, st: Lowering, name: Path) -> Option<
    (Lowering, InternedSymbol),
> {
    if name.is_known(st.names) {
        with_name(st, name.shown(st.names))
    } else {
        None
    }
}

/// A function is its label.
#[verifier::opaque]
pub open spec fn function_rule(src: Source, st: Lowering, id: HirId, def_id: LocalDefId) -> Option<
    Lowering,
> {
    match item_at(src.module, def_id) {
        Some(Item { kind: ItemKind::Function { name, .. }, .. }) => match with_symbol(
            src,
            st,
            name,
        ) {
            Some((named, symbol)) => Some(named.with_operand(id, function_label(symbol))),
            None => None,
        },
        _ => None,
    }
}

/// A name: a variable, a variant or a function. Other names have no value.
#[verifier::opaque]
pub open spec fn path_rule(src: Source, st: Lowering, id: HirId, path: Path) -> Option<Lowering> {
    if path.segments@.len() == 0 {
        None
    } else {
        match path.segments@.last().resolution {
            Resolution::Local(local) => local_rule(src, st, id, local.0),
            Resolution::Definition(DefinitionKind::Static, def_id) => static_rule(
                src,
                st,
                id,
                def_id,
            ),
            Resolution::Definition(DefinitionKind::EnumVariant, def_id) => variant_rule(
                src,
                st,
                id,
                def_id,
            ),
            Resolution::Definition(DefinitionKind::Function, def_id) => function_rule(
                src,
                st,
                id,
                def_id,
            ),
            Resolution::Definition(DefinitionKind::AssociatedFunction, def_id) => function_rule(
                src,
                st,
                id,
                def_id,
            ),
            _ => Some(st),
        }
    }
}

/// `self` is the first argument.
#[verifier::opaque]
pub open spec fn this_rule(src: Source, st: Lowering, id: HirId) -> Option<Lowering> {
    if st.arguments.len() == 0 {
        None
    } else {
        let reg = st.arguments[0];
        if st.place {
            Some(st.with_operand(id, Operand::Register(reg)))
        } else if !src.types.has(id) {
            None
        } else {
            match lowered_ty(src.types.at(id)) {
                Some(lir) => valued_as(
                    id,
                    copied_value(st, st.dest, Operand::Register(reg), lir),
                ),
                None => None,
            }
        }
    }
}

/// Adds a remark to the code.
pub open spec fn comment(st: Lowering, text: Seq<char>) -> Option<Lowering> {
    emit(st, InstructionView::Comment(text))
}

/// Where the value of an aggregate goes, and nowhere in particular for others.
pub open spec fn dest_for(ty: TypeView, reg: RegisterId) -> Option<RegisterId> {
    if ty.is_aggregate() {
        Some(reg)
    } else {
        None
    }
}

/// Stores the value of an expression at an address unless it was built there.
#[verifier::opaque]
pub open spec fn stored(st: Lowering, id: HirId, at: RegisterId, ty: TypeView) -> Option<Lowering> {
    if !st.has_operand(id) {
        None
    } else if ty.is_scalar() {
        emit_store(st, Operand::Register(at), st.operand(id), ty)
    } else {
        Some(st)
    }
}

/// The value of the digits of a text, from the last one back.
pub open spec fn digits_value(text: Seq<char>) -> nat
    decreases text.len(),
{
    if text.len() == 0 {
        0
    } else {
        digits_value(text.drop_last()) * 10 + ((text.last() as u32) - 48) as nat
    }
}

/// Whether a text consists of digits alone.
pub open spec fn all_digits(text: Seq<char>) -> bool {
    forall|i: int| 0 <= i < text.len() ==> crate::frontend::lexer::is_digit(#[trigger] text[i])
}

/// The number of the field of a tuple with a name: a `v` and digits.
pub open spec fn tuple_index(name: Seq<char>) -> Option<nat> {
    if name.len() == 0 || name[0] != 'v' {
        None
    } else {
        let rest = name.drop_first();
        let digits = if rest.len() > 0 && rest[0] == '+' {
            rest.drop_first()
        } else {
            rest
        };
        if digits.len() > 0 && all_digits(digits) && digits_value(digits) <= usize::MAX {
            Some(digits_value(digits))
        } else {
            None
        }
    }
}

/// The place of the last field with a name among the first `n`.
pub open spec fn last_field(fields: Seq<(InternedSymbol, Ty)>, name: InternedSymbol, n: nat) -> Option<
    nat,
>
    decreases n,
{
    if n == 0 {
        None
    } else if fields[n - 1].0 == name {
        Some((n - 1) as nat)
    } else {
        last_field(fields, name, (n - 1) as nat)
    }
}

/// A field of a structure in memory.
pub struct FieldPlace {
    pub fields: Seq<TypeView>,
    pub index: nat,
}

/// Where a field of a type lies.
pub open spec fn field_place(names: Seq<Seq<char>>, ty: Ty, name: InternedSymbol) -> Option<
    FieldPlace,
> {
    match ty {
        Ty::Str | Ty::Slice(_) => if (name.0 as int) >= names.len() {
            None
        } else if names[name.0 as int] == "ptr"@ {
            Some(FieldPlace { fields: slice_fields(), index: 0 })
        } else if names[name.0 as int] == "len"@ {
            Some(FieldPlace { fields: slice_fields(), index: 1 })
        } else {
            None
        },
        Ty::Tuple(_) => if (name.0 as int) >= names.len() {
            None
        } else {
            match (tuple_index(names[name.0 as int]), lowered_ty(ty)) {
                (Some(index), Some(TypeView::Struct(fields))) => if index < fields.len() {
                    Some(FieldPlace { fields, index })
                } else {
                    None
                },
                _ => None,
            }
        },
        Ty::Struct { fields, .. } => match (
            lowered_fields(fields, fields.len()),
            last_field(fields, name, fields.len()),
        ) {
            (Some(list), Some(index)) => Some(FieldPlace { fields: list, index }),
            _ => None,
        },
        _ => None,
    }
}

/// The type that a field is looked for in: a pointer is followed.
pub open spec fn field_target(ty: Ty, dereference: bool) -> Option<Ty> {
    match ty {
        Ty::Pointer(inner) => if dereference {
            Some(*inner)
        } else {
            None
        },
        _ => Some(ty),
    }
}

/// A field, once the place of its structure is known: its place, or its value.
#[verifier::opaque]
pub open spec fn field_rule(
    src: Source,
    st: Lowering,
    id: HirId,
    target: Expression,
    name: Identifier,
    dereference: bool,
) -> Option<Lowering> {
    if !st.has_operand(target.hir_id) || !src.types.has(target.hir_id) {
        None
    } else {
        match field_target(src.types.at(target.hir_id), dereference) {
            None => None,
            Some(ty) => match field_place(st.names, ty, name.symbol) {
                None => None,
                Some(field) => match emit_field(
                    st,
                    st.operand(target.hir_id),
                    field.fields,
                    field.index as usize,
                ) {
                    None => None,
                    Some(pointer) => if st.place {
                        emitted_as(id, Some(pointer))
                    } else {
                        emitted_as(
                            id,
                            loaded_from(
                                pointer.st,
                                st.dest,
                                Operand::Register(pointer.reg),
                                field.fields[field.index as int],
                            ),
                        )
                    },
                },
            },
        }
    }
}

/// The values of the first `n` expressions of a list.
pub open spec fn operand_list(st: Lowering, list: Seq<Rc<Expression>>, n: nat) -> Option<
    Seq<Operand>,
>
    decreases n,
{
    if n == 0 {
        Some(Seq::empty())
    } else {
        match operand_list(st, list, (n - 1) as nat) {
            None => None,
            Some(before) => if st.has_operand(list[n - 1].hir_id) {
                Some(before.push(st.operand(list[n - 1].hir_id)))
            } else {
                None
            },
        }
    }
}

/// A piece of a format string: a text, or the number of an argument.
pub enum FormatPiece {
    Text(Seq<char>),
    Argument(nat),
}

/// The pieces of a format string from the character with number `i` on, where
/// the current text starts at `start` and `arguments` arguments came before.
pub open spec fn format_pieces(text: Seq<char>, start: nat, i: nat, arguments: nat) -> Seq<
    FormatPiece,
>
    decreases text.len() - i,
{
    if i + 1 < text.len() && text[i as int] == '{' && text[i as int + 1] == '}' {
        (if start < i {
            seq![FormatPiece::Text(text.subrange(start as int, i as int))]
        } else {
            Seq::empty()
        }) + seq![FormatPiece::Argument(arguments)] + format_pieces(
            text,
            i + 2,
            i + 2,
            arguments + 1,
        )
    } else if i < text.len() {
        format_pieces(text, start, i + 1, arguments)
    } else if start < text.len() {
        seq![FormatPiece::Text(text.subrange(start as int, text.len() as int))]
    } else {
        Seq::empty()
    }
}

/// The pieces of a format string.
pub open spec fn format_of(text: Seq<char>) -> Seq<FormatPiece> {
    format_pieces(text, 0, 0, 0)
}

/// The number of arguments among the first `n` pieces.
pub open spec fn argument_count(pieces: Seq<FormatPiece>, n: nat) -> nat
    decreases n,
{
    if n == 0 {
        0
    } else {
        argument_count(pieces, (n - 1) as nat) + (if pieces[n - 1] is Argument {
            1nat
        } else {
            0nat
        })
    }
}

/// A piece of a format string: the symbol of a text, or the number of an
/// argument.
#[derive(Debug, Clone, Copy, PartialEq, Eq, Structural)]
pub enum FormatStringItem {
    String(InternedSymbol),
    Argument(usize),
}

/// Pieces of a format string, and the state in which their texts are known.
pub struct Parsed {
    pub st: Lowering,
    pub items: Seq<FormatStringItem>,
}

/// The first `n` pieces with their texts interned.
pub open spec fn interned_pieces(st: Lowering, pieces: Seq<FormatPiece>, n: nat) -> Option<Parsed>
    decreases n,
{
    if n == 0 {
        Some(Parsed { st, items: Seq::empty() })
    } else {
        match interned_pieces(st, pieces, (n - 1) as nat) {
            None => None,
            Some(before) => match pieces[n - 1] {
                FormatPiece::Argument(k) => Some(
                    Parsed {
                        st: before.st,
                        items: before.items.push(FormatStringItem::Argument(k as usize)),
                    },
                ),
                FormatPiece::Text(text) => match with_name(before.st, text) {
                    None => None,
                    Some((named, symbol)) => Some(
                        Parsed {
                            st: named,
                            items: before.items.push(FormatStringItem::String(symbol)),
                        },
                    ),
                },
            },
        }
    }
}

/// The name of the function of the runtime that prints values of a type.
pub open spec fn printer_of(ty: Ty) -> Option<Seq<char>> {
    match ty {
        Ty::Integer(IntKind::I8) => Some("__$print_i8"@),
        Ty::Integer(IntKind::I16) => Some("__$print_i16"@),
        Ty::Integer(IntKind::I32) => Some("__$print_i32"@),
        Ty::Integer(IntKind::I64) | Ty::Integer(IntKind::ISize) => Some("__$print_i64"@),
        Ty::UnsignedInteger(UIntKind::U8) => Some("__$print_u8"@),
        Ty::UnsignedInteger(UIntKind::U16) => Some("__$print_u16"@),
        Ty::UnsignedInteger(UIntKind::U32) => Some("__$print_u32"@),
        Ty::UnsignedInteger(UIntKind::U64) | Ty::UnsignedInteger(UIntKind::USize) => Some(
            "__$print_u64"@,
        ),
        Ty::Pointer(_) => Some("__$print_i64_hex"@),
        Ty::Enum { .. } => Some("__$print_i32"@),
        _ => None,
    }
}

/// Prints a piece of a format string.
#[verifier::opaque]
pub open spec fn piece_printed(
    src: Source,
    st: Lowering,
    id: HirId,
    item: FormatStringItem,
    arguments: Seq<Rc<Expression>>,
) -> Option<Lowering> {
    match item {
        FormatStringItem::String(symbol) => match constant_string(st, symbol) {
            None => None,
            Some(made) => emitted_as(
                id,
                print_string(made.st, Operand::Register(made.reg)),
            ),
        },
        FormatStringItem::Argument(k) => {
            let argument = arguments[k + 1];
            if k + 1 >= arguments.len() || !st.has_operand(argument.hir_id) || !src.types.has(
                argument.hir_id,
            ) {
                None
            } else {
                let value = st.operand(argument.hir_id);
                match src.types.at(argument.hir_id) {
                    Ty::Str => emitted_as(id, print_string(st, value)),
                    ty => match printer_of(ty) {
                        None => None,
                        Some(name) => emitted_as(id, call_named(st, name, seq![value])),
                    },
                }
            }
        },
    }
}

/// Prints the first `n` pieces of a format string.
pub open spec fn pieces_printed(
    src: Source,
    st: Lowering,
    id: HirId,
    items: Seq<FormatStringItem>,
    arguments: Seq<Rc<Expression>>,
    n: nat,
) -> Option<Lowering>
    decreases n,
{
    if n == 0 {
        Some(st)
    } else {
        match pieces_printed(src, st, id, items, arguments, (n - 1) as nat) {
            None => None,
            Some(before) => piece_printed(src, before, id, items[n - 1], arguments),
        }
    }
}

/// Builds a string from an address and a length, which are known.
#[verifier::opaque]
pub open spec fn string_built(
    st: Lowering,
    id: HirId,
    pointer: Operand,
    length: Operand,
) -> Option<Lowering> {
    match place_for(st, st.dest, TypeView::Struct(slice_fields())) {
        None => None,
        Some(base) => match emit_field(base.st, Operand::Register(base.reg), slice_fields(), 0) {
            None => None,
            Some(pointer_at) => match emit_store(
                pointer_at.st,
                Operand::Register(pointer_at.reg),
                pointer,
                TypeView::Pointer,
            ) {
                None => None,
                Some(pointed) => match emit_field(
                    pointed,
                    Operand::Register(base.reg),
                    slice_fields(),
                    1,
                ) {
                    None => None,
                    Some(length_at) => match emit_store(
                        length_at.st,
                        Operand::Register(length_at.reg),
                        length,
                        TypeView::Integer(IntegerWidth::I64),
                    ) {
                        None => None,
                        Some(done) => Some(
                            done.with_operand(id, Operand::Register(base.reg)),
                        ),
                    },
                },
            },
        },
    }
}

/// Calls a function whose arguments are known. Where it returns an aggregate,
/// the place for that is passed first.
#[verifier::opaque]
pub open spec fn function_called(
    st: Lowering,
    symbol: InternedSymbol,
    own: Option<Operand>,
    values: Seq<Operand>,
    returned: Option<Ty>,
) -> Option<Called> {
    let lowered = match returned {
        Some(ty) => match lowered_ty(ty) {
            Some(lir) => Some(Some(lir)),
            None => None,
        },
        None => Some(None),
    };
    let rest = (match own {
        Some(value) => seq![value],
        None => Seq::empty(),
    }) + values;
    match lowered {
        None => None,
        Some(None) => emit_call(st, function_label(symbol), rest, None),
        Some(Some(lir)) => if lir.is_scalar() {
            emit_call(st, function_label(symbol), rest, Some(lir))
        } else {
            match place_for(st, st.dest, lir) {
                None => None,
                Some(base) => match emit_call(
                    base.st,
                    function_label(symbol),
                    seq![Operand::Register(base.reg)] + rest,
                    None,
                ) {
                    None => None,
                    Some(called) => Some(Called { st: called.st, reg: Some(base.reg) }),
                },
            }
        },
    }
}

/// With the value that a call returned, if any.
pub open spec fn called_as(id: HirId, called: Option<Called>) -> Option<Lowering> {
    match called {
        None => None,
        Some(c) => match c.reg {
            Some(reg) => Some(c.st.with_operand(id, Operand::Register(reg))),
            None => Some(c.st),
        },
    }
}

/// The type that a function returns, if any.
pub open spec fn return_ty(src: Source, signature: FunctionSignature) -> Option<Option<Ty>> {
    match signature.return_type {
        None => Some(None),
        Some(ty) => if src.types.has(ty.hir_id) {
            Some(Some(src.types.at(ty.hir_id)))
        } else {
            None
        },
    }
}

/// What is passed as `self`: the address of the structure.
#[verifier::opaque]
pub open spec fn self_value(
    src: Source,
    st: Lowering,
    parameter: SelfParameter,
    target: Expression,
) -> Option<Operand> {
    if !src.types.has(target.hir_id) || !st.has_operand(target.hir_id) {
        None
    } else {
        match (parameter, src.types.at(target.hir_id)) {
            (SelfParameter::Pointer { .. }, Ty::Pointer(_)) => Some(st.operand(target.hir_id)),
            (SelfParameter::Pointer { .. }, Ty::Struct { .. }) => Some(st.operand(target.hir_id)),
            _ => None,
        }
    }
}

/// An element, once the place of its container and its index are known: its
/// place, or its value.
#[verifier::opaque]
pub open spec fn subscript_rule(
    src: Source,
    st: Lowering,
    id: HirId,
    target: Expression,
    index: Expression,
) -> Option<Lowering> {
    if !src.types.has(target.hir_id) || !st.has_operand(target.hir_id) || !st.has_operand(
        index.hir_id,
    ) {
        None
    } else {
        let base = st.operand(target.hir_id);
        let at = st.operand(index.hir_id);
        match src.types.at(target.hir_id) {
            Ty::Str => match emit_field(st, base, slice_fields(), 0) {
                None => None,
                Some(pointer_at) => match emit_load(
                    pointer_at.st,
                    Operand::Register(pointer_at.reg),
                    TypeView::Pointer,
                ) {
                    None => None,
                    Some(pointer) => match emit_element(
                        pointer.st,
                        Operand::Register(pointer.reg),
                        TypeView::Integer(IntegerWidth::I8),
                        at,
                    ) {
                        None => None,
                        Some(element) => if st.place {
                            emitted_as(id, Some(element))
                        } else {
                            match emit_load(
                                element.st,
                                Operand::Register(element.reg),
                                TypeView::Integer(IntegerWidth::I8),
                            ) {
                                None => None,
                                Some(byte) => emitted_as(
                                    id,
                                    emit_cast(
                                        byte.st,
                                        IntegerCastKind::ZeroExtension,
                                        Operand::Register(byte.reg),
                                        TypeView::Integer(IntegerWidth::I32),
                                    ),
                                ),
                            }
                        },
                    },
                },
            },
            Ty::Array { ty, .. } => match lowered_ty(*ty) {
                None => None,
                Some(item) => match emit_element(st, base, item, at) {
                    None => None,
                    Some(element) => if st.place {
                        emitted_as(id, Some(element))
                    } else {
                        emitted_as(
                            id,
                            loaded_from(
                                element.st,
                                st.dest,
                                Operand::Register(element.reg),
                                item,
                            ),
                        )
                    },
                },
            },
            _ => None,
        }
    }
}

/// The blocks of a logical operator: the one in which its first operand is
/// known, the first and the last one of its second operand, and those behind.
pub struct LogicalBlocks {
    pub lhs_last: BlockId,
    pub rhs_first: BlockId,
    pub rhs_last: BlockId,
    pub fallthrough: BlockId,
    pub merge: BlockId,
}

/// Where the value of a logical operator comes from.
pub open spec fn logical_sources(b: LogicalBlocks, is_and: bool) -> Map<u32, Operand> {
    Map::<u32, Operand>::empty().insert(
        b.lhs_last.0,
        Operand::Immediate(Immediate::Bool(!is_and)),
    ).insert(b.rhs_last.0, Operand::Immediate(Immediate::Bool(!is_and))).insert(
        b.fallthrough.0,
        Operand::Immediate(Immediate::Bool(is_and)),
    )
}

/// Joins the blocks of a logical operator: the second operand is skipped where
/// the first one decides.
#[verifier::opaque]
pub open spec fn logical_joined(
    st: Lowering,
    b: LogicalBlocks,
    is_and: bool,
    lhs: Operand,
    rhs: Operand,
) -> Option<Emitted> {
    let first = InstructionView::Branch {
        condition: lhs,
        positive: if is_and {
            b.rhs_first
        } else {
            b.merge
        },
        negative: if is_and {
            b.merge
        } else {
            b.rhs_first
        },
    };
    let second = InstructionView::Branch {
        condition: rhs,
        positive: if is_and {
            b.fallthrough
        } else {
            b.merge
        },
        negative: if is_and {
            b.merge
        } else {
            b.fallthrough
        },
    };
    if !st.has_block(b.lhs_last) || !st.has_block(b.rhs_first) || !st.has_block(b.rhs_last)
        || !st.has_block(b.fallthrough) || !st.has_block(b.merge) {
        None
    } else {
        let branched = st.with_instruction(b.lhs_last, first).with_instruction(
            b.rhs_last,
            second,
        ).with_instruction(b.fallthrough, InstructionView::Jump { destination: b.merge });
        let linked = branched.with_predecessor(b.rhs_first, b.lhs_last).with_predecessor(
            b.fallthrough,
            b.rhs_last,
        ).with_predecessor(b.merge, b.lhs_last).with_predecessor(
            b.merge,
            b.rhs_last,
        ).with_predecessor(b.merge, b.fallthrough);
        emit_phi(
            linked.popped().pushed(b.merge),
            logical_sources(b, is_and),
            TypeView::Integer(IntegerWidth::I8),
        )
    }
}

/// How an integer is cast from one type to another: to one that is no wider
/// its upper bits are dropped.
pub open spec fn cast_kind(from: Ty, to: Ty) -> Option<IntegerCastKind> {
    let width = |ty: Ty|
        match ty {
            Ty::Integer(k) => Some(width_rank(signed_width(k))),
            Ty::UnsignedInteger(k) => Some(width_rank(unsigned_width(k))),
            _ => None,
        };
    match (width(from), width(to)) {
        (Some(a), Some(b)) => Some(
            if a >= b {
                IntegerCastKind::Truncate
            } else if from is UnsignedInteger {
                IntegerCastKind::ZeroExtension
            } else {
                IntegerCastKind::SignExtension
            },
        ),
        _ => None,
    }
}

/// Widths from the narrowest to the widest.
pub open spec fn width_rank(width: IntegerWidth) -> int {
    match width {
        IntegerWidth::I8 => 0,
        IntegerWidth::I16 => 1,
        IntegerWidth::I32 => 2,
        IntegerWidth::I64 => 3,
    }
}

/// Whether a cast leaves a value as it is.
pub open spec fn is_trivial_cast(from: Ty, to: Ty) -> bool {
    ||| from == to
    ||| from == Ty::UnsignedInteger(UIntKind::USize) && to.is_pointer_like()
    ||| from.is_pointer_like() && to.is_pointer_like()
    ||| from == Ty::Char && to == Ty::UnsignedInteger(UIntKind::U32)
}

/// A cast of a value that is known.
#[verifier::opaque]
pub open spec fn cast_rule(
    src: Source,
    st: Lowering,
    id: HirId,
    castee: Expression,
    ty: hir::Type,
) -> Option<Lowering> {
    if !src.types.has(castee.hir_id) || !src.types.has(ty.hir_id) || !st.has_operand(
        castee.hir_id,
    ) {
        None
    } else {
        let from = src.types.at(castee.hir_id);
        let to = src.types.at(ty.hir_id);
        match lowered_ty(to) {
            None => None,
            Some(lir) => if is_trivial_cast(from, to) {
                valued_as(id, copied_value(st, st.dest, st.operand(castee.hir_id), lir))
            } else {
                match cast_kind(from, to) {
                    None => None,
                    Some(kind) => emitted_as(
                        id,
                        emit_cast(st, kind, st.operand(castee.hir_id), lir),
                    ),
                }
            },
        }
    }
}

/// What follows a pointer, once it is known: the place that it points to, or
/// the value there.
#[verifier::opaque]
pub open spec fn deref_rule(src: Source, st: Lowering, id: HirId, operand: Expression) -> Option<
    Lowering,
> {
    if !st.has_operand(operand.hir_id) {
        None
    } else if st.place {
        Some(st.with_operand(id, st.operand(operand.hir_id)))
    } else if !src.types.has(id) {
        None
    } else {
        match lowered_ty(src.types.at(id)) {
            None => None,
            Some(lir) => emitted_as(
                id,
                loaded_from(st, st.dest, st.operand(operand.hir_id), lir),
            ),
        }
    }
}

/// A unary operator on a value that is known.
#[verifier::opaque]
pub open spec fn unary_value_rule(
    src: Source,
    st: Lowering,
    id: HirId,
    operator: UnaryOperatorKind,
    operand: Expression,
) -> Option<Lowering> {
    if !src.types.has(id) || !st.has_operand(operand.hir_id) {
        None
    } else {
        match lowered_ty(src.types.at(id)) {
            None => None,
            Some(lir) => emitted_as(
                id,
                emit_unary(st, operator, st.operand(operand.hir_id), lir),
            ),
        }
    }
}

/// The text of the name of the function.
pub open spec fn is_main(src: Source, st: Lowering) -> bool {
    st.names[src.local_symbol.0 as int] == "main"@
}

/// What the main function returns if nothing else is said.
pub open spec fn zero() -> Operand {
    Operand::Immediate(Immediate::Int(0, IntegerWidth::I8))
}

/// Returns from the function with a value that is known.
#[verifier::opaque]
pub open spec fn return_rule(src: Source, st: Lowering, value: Option<Rc<Expression>>) -> Option<
    Lowering,
> {
    if st.struct_return is Some {
        match value {
            Some(e) => if src.types.has(e.hir_id) && src.types.at(e.hir_id).is_aggregate() {
                emit(st, InstructionView::Return { value: None })
            } else {
                None
            },
            None => None,
        }
    } else if (value matches Some(e) && !st.has_operand(e.hir_id)) || (src.local_symbol.0 as int)
        >= st.names.len() {
        None
    } else {
        let given = match value {
            Some(e) => Some(st.operand(e.hir_id)),
            None => if is_main(src, st) {
                Some(zero())
            } else {
                None
            },
        };
        emit(st, InstructionView::Return { value: given })
    }
}

/// Jumps out of the innermost loop, to a place that is known later.
#[verifier::opaque]
pub open spec fn break_rule(st: Lowering) -> Option<Lowering> {
    if !st.has_current() || st.loops.len() == 0 {
        None
    } else {
        let current = st.stack.last();
        let at = st.block(current).instructions.len();
        let inner = st.loops.last();
        let jumped = st.with_instruction(
            current,
            InstructionView::Jump { destination: BlockId(u32::MAX) },
        );
        Some(
            Lowering {
                loops: st.loops.update(
                    st.loops.len() - 1,
                    LoopView {
                        break_instructions: inner.break_instructions.push((current, at as usize)),
                        ..inner
                    },
                ),
                ..jumped
            },
        )
    }
}

/// Jumps to the start of the innermost loop.
#[verifier::opaque]
pub open spec fn continue_rule(st: Lowering) -> Option<Lowering> {
    if st.loops.len() == 0 || st.blocks.len() == 0 || !st.has_block(st.loops.last().start_block) {
        None
    } else {
        let start = st.loops.last().start_block;
        emit(
            st.with_predecessor(start, st.last_block()),
            InstructionView::Jump { destination: start },
        )
    }
}

/// Jumps out of a loop, up to the first `n`, once its end is known.
pub open spec fn breaks_patched(
    st: Lowering,
    breaks: Seq<(BlockId, usize)>,
    end: BlockId,
    n: nat,
) -> Option<Lowering>
    decreases n,
{
    if n == 0 {
        Some(st)
    } else {
        match breaks_patched(st, breaks, end, (n - 1) as nat) {
            None => None,
            Some(before) => {
                let (id, at) = breaks[n - 1];
                if !before.has_block(id) || at >= before.block(id).instructions.len()
                    || !before.has_block(end) || !(before.block(
                    id,
                ).instructions[at as int] is Jump) {
                    None
                } else {
                    let block = before.block(id);
                    Some(
                        Lowering {
                            blocks: before.blocks.update(
                                id.0 as int,
                                BlockView {
                                    instructions: block.instructions.update(
                                        at as int,
                                        InstructionView::Jump { destination: end },
                                    ),
                                    ..block
                                },
                            ),
                            ..before
                        }.with_predecessor(end, id),
                    )
                }
            },
        }
    }
}

/// The blocks of a loop.
pub struct LoopBlocks {
    pub condition: BlockId,
    pub condition_last: BlockId,
    pub body: BlockId,
    pub body_last: BlockId,
}

/// Joins the blocks of a loop whose condition and body have been lowered.
#[verifier::opaque]
pub open spec fn loop_joined(st: Lowering, b: LoopBlocks, condition: Expression) -> Option<
    Lowering,
> {
    if !st.has_block(b.body_last) || !st.has_block(b.condition) {
        None
    } else {
        let jumped = st.with_instruction(
            b.body_last,
            InstructionView::Jump { destination: b.condition },
        ).with_predecessor(b.condition, b.body_last);
        let ended = jumped.with_block();
        if !ended.st.has_operand(condition.hir_id) || !ended.st.has_block(b.condition_last)
            || !ended.st.has_block(b.body) || !ended.st.has_block(ended.id)
            || ended.st.loops.len() == 0 {
            None
        } else {
            let branched = ended.st.with_instruction(
                b.condition_last,
                InstructionView::Branch {
                    condition: ended.st.operand(condition.hir_id),
                    positive: b.body,
                    negative: ended.id,
                },
            ).with_predecessor(b.body, b.condition_last).with_predecessor(
                ended.id,
                b.condition_last,
            );
            let breaks = branched.loops.last().break_instructions;
            let left = Lowering { loops: branched.loops.drop_last(), ..branched };
            match breaks_patched(left, breaks, ended.id, breaks.len()) {
                None => None,
                Some(patched) => Some(patched.popped().pushed(ended.id)),
            }
        }
    }
}

/// Whether the value of a conditional is selected by where control came from.
pub open spec fn selects(ty: Ty) -> bool {
    !ty.is_aggregate() && !ty.is_unit() && !ty.is_never()
}

/// The state of lowering a conditional, and the values to select from.
pub struct Branching {
    pub st: Lowering,
    pub sources: Map<u32, Operand>,
}

/// Lets a branch of a conditional go on behind it, unless it returns.
#[verifier::opaque]
pub open spec fn branch_merged(
    st: Lowering,
    sources: Map<u32, Operand>,
    last: BlockId,
    merge: BlockId,
    value: HirId,
    is_selected: bool,
) -> Option<Branching> {
    if !st.has_block(last) || !st.has_block(merge) {
        None
    } else if ends_in_return(st.block(last).instructions) {
        Some(Branching { st, sources })
    } else {
        let jumped = st.with_instruction(
            last,
            InstructionView::Jump { destination: merge },
        ).with_predecessor(merge, last);
        if !is_selected {
            Some(Branching { st: jumped, sources })
        } else if jumped.has_operand(value) {
            Some(
                Branching {
                    st: jumped,
                    sources: sources.insert(last.0, jumped.operand(value)),
                },
            )
        } else {
            None
        }
    }
}

/// The blocks of a conditional.
pub struct ConditionalBlocks {
    pub start: BlockId,
    pub positive: BlockId,
    pub negative: BlockId,
    pub merge: BlockId,
}

/// Joins the blocks of a conditional whose branches have been lowered.
#[verifier::opaque]
pub open spec fn conditional_joined(
    branching: Branching,
    b: ConditionalBlocks,
    id: HirId,
    ty: Ty,
    condition: Operand,
    aggregate: Option<RegisterId>,
) -> Option<Lowering> {
    if !branching.st.has_block(b.start) {
        None
    } else {
        let joined = branching.st.with_instruction(
            b.start,
            InstructionView::Branch { condition, positive: b.positive, negative: b.negative },
        ).popped().pushed(b.merge);
        match aggregate {
            Some(reg) => Some(joined.with_operand(id, Operand::Register(reg))),
            None => if selects(ty) {
                match lowered_ty(ty) {
                    None => None,
                    Some(lir) => emitted_as(id, emit_phi(joined, branching.sources, lir)),
                }
            } else {
                Some(joined)
            },
        }
    }
}

/// The address that is assigned to, in a register.
#[verifier::opaque]
pub open spec fn assigned_place(st: Lowering, lhs: Expression) -> Option<Emitted> {
    if !st.has_operand(lhs.hir_id) {
        None
    } else {
        match st.operand(lhs.hir_id) {
            Operand::Register(reg) => Some(Emitted { st, reg }),
            source => {
                let made = st.with_register(TypeView::Pointer);
                match emit(
                    made.st,
                    InstructionView::Copy { destination: made.reg, source },
                ) {
                    None => None,
                    Some(done) => Some(Emitted { st: done, reg: made.reg }),
                }
            },
        }
    }
}

/// Pieces of a format string put together again.
pub open spec fn rejoined(pieces: Seq<FormatPiece>) -> Seq<char>
    decreases pieces.len(),
{
    if pieces.len() == 0 {
        Seq::empty()
    } else {
        (match pieces[0] {
            FormatPiece::Text(text) => text,
            FormatPiece::Argument(_) => seq!['{', '}'],
        }) + rejoined(pieces.drop_first())
    }
}

proof fn lemma_rejoined(text: Seq<char>, start: nat, i: nat, arguments: nat)
    requires
        start <= i <= text.len(),
    ensures
        rejoined(format_pieces(text, start, i, arguments)) == text.skip(start as int),
    decreases text.len() - i,
{
    let pieces = format_pieces(text, start, i, arguments);
    if i + 1 < text.len() && text[i as int] == '{' && text[i as int + 1] == '}' {
        lemma_rejoined(text, i + 2, i + 2, arguments + 1);
        let rest = format_pieces(text, i + 2, i + 2, arguments + 1);
        let tail = seq![FormatPiece::Argument(arguments)] + rest;
        assert(tail.drop_first() =~= rest);
        assert(rejoined(tail) =~= text.skip(i as int));
        if start < i {
            assert(pieces.drop_first() =~= tail);
            assert(rejoined(pieces) =~= text.skip(start as int));
        } else {
            assert(pieces =~= tail);
        }
    } else if i < text.len() {
        lemma_rejoined(text, start, i + 1, arguments);
    } else if start < text.len() {
        assert(pieces.drop_first() =~= Seq::<FormatPiece>::empty());
        assert(rejoined(pieces.drop_first()) =~= Seq::<char>::empty());
        assert(rejoined(pieces) =~= text.skip(start as int));
    } else {
        assert(rejoined(pieces) =~= text.skip(start as int));
    }
}

/// The pieces of a format string make it up, with `{}` for each argument.
pub proof fn law_format_rejoined(text: Seq<char>)
    ensures
        rejoined(format_of(text)) == text,
{
    lemma_rejoined(text, 0, 0, 0);
    assert(text.skip(0) =~= text);
}

proof fn lemma_argument_numbers(text: Seq<char>, start: nat, i: nat, arguments: nat, k: int)
    requires
        start <= i <= text.len(),
        0 <= k < format_pieces(text, start, i, arguments).len(),
    ensures
        format_pieces(text, start, i, arguments)[k] matches FormatPiece::Argument(number)
            ==> number == arguments + argument_count(
            format_pieces(text, start, i, arguments),
            k as nat,
        ),
    decreases text.len() - i,
{
    let pieces = format_pieces(text, start, i, arguments);
    if i + 1 < text.len() && text[i as int] == '{' && text[i as int + 1] == '}' {
        let head = (if start < i {
            seq![FormatPiece::Text(text.subrange(start as int, i as int))]
        } else {
            Seq::empty()
        }) + seq![FormatPiece::Argument(arguments)];
        let rest = format_pieces(text, i + 2, i + 2, arguments + 1);
        assert(pieces =~= head + rest);
        if k < head.len() {
            reveal_with_fuel(argument_count, 3);
        } else {
            lemma_argument_numbers(text, i + 2, i + 2, arguments + 1, k - head.len());
            lemma_argument_count(head, rest, (k - head.len()) as nat);
            reveal_with_fuel(argument_count, 3);
            assert(argument_count(head, head.len()) == 1);
        }
    } else if i < text.len() {
        lemma_argument_numbers(text, start, i + 1, arguments, k);
    }
}

proof fn lemma_argument_count(head: Seq<FormatPiece>, rest: Seq<FormatPiece>, n: nat)
    requires
        n <= rest.len(),
    ensures
        argument_count(head + rest, head.len() + n) == argument_count(head, head.len())
            + argument_count(rest, n),
    decreases n,
{
    if n > 0 {
        lemma_argument_count(head, rest, (n - 1) as nat);
        assert((head + rest)[head.len() + n - 1] == rest[n - 1]);
    } else {
        lemma_argument_count_same(head + rest, head, head.len());
    }
}

proof fn lemma_argument_count_same(a: Seq<FormatPiece>, b: Seq<FormatPiece>, n: nat)
    requires
        n <= a.len(),
        n <= b.len(),
        forall|i: int| 0 <= i < n ==> a[i] == b[i],
    ensures
        argument_count(a, n) == argument_count(b, n),
    decreases n,
{
    if n > 0 {
        lemma_argument_count_same(a, b, (n - 1) as nat);
    }
}

/// Arguments of a format string are numbered in the order in which they come.
pub proof fn law_arguments_in_order(text: Seq<char>, k: int)
    requires
        0 <= k < format_of(text).len(),
    ensures
        format_of(text)[k] matches FormatPiece::Argument(number) ==> number == argument_count(
            format_of(text),
            k as nat,
        ),
{
    lemma_argument_numbers(text, 0, 0, 0, k);
}

} // verus!
