//! What the code for aggregates and for printing is.

use crate::frontend::intern::{interned, symbol_of, InternedSymbol};
use crate::middle::hir::{Expression, HirId, StructInitializerField};
use crate::middle::lir::hir_lowering::branching::valued;
use crate::middle::lir::hir_lowering::copies::{added, written};
use crate::middle::lir::hir_lowering::lowered::{
    elements_lowered, fields_lowered, tuple_lowered, within,
};
use crate::middle::lir::hir_lowering::meaning::{bits_of, integer_of};
use crate::middle::lir::hir_lowering::rules::{
    comment, dest_for, piece_printed, printer_of, stored, string_built, subscript_rule,
    FormatStringItem,
};
use crate::middle::lir::hir_lowering::state::{
    constant_string, emit_element, emit_field, lowered_ty, print_string, slice_fields, word,
    Lowering, Source,
};
use crate::middle::lir::{
    Immediate, InstructionView, IntegerCastKind, IntegerWidth, Operand, RegisterId, StaticLabelId,
    TypeView,
};
use crate::middle::ty::Ty;
use crate::text::decimal;
use std::rc::Rc;
use vstd::prelude::*;
use vstd::utf8::encode_utf8;

verus! {

/// Whether the value of an expression is computed, and then put to an address. A
/// value that is no single one is built there.
pub open spec fn is_put(
    src: Source,
    st: Lowering,
    at: RegisterId,
    ty: TypeView,
    e: &Expression,
    after: Lowering,
) -> bool {
    if ty.is_scalar() {
        &&& valued(src, st, e) is Some
        &&& written(after) == written(valued(src, st, e)->0).push(
            InstructionView::StoreMem {
                destination: Operand::Register(at),
                source: valued(src, st, e)->0.operand(e.hir_id),
            },
        )
    } else {
        within(src, st, Some(at), false, *e) == Some(after)
    }
}

/// Whether the last instruction computes the address of a field into a register.
pub open spec fn is_at_field(
    st: Lowering,
    at: RegisterId,
    base: RegisterId,
    ty: Seq<TypeView>,
    index: int,
) -> bool {
    &&& written(st).len() > 0
    &&& written(st).last() matches InstructionView::GetStructElementPointer {
        destination,
        source,
        ty: fields,
        index: i,
    } && destination == at && source == Operand::Register(base) && fields == ty && i == index
}

/// Whether the current block has only become longer.
pub open spec fn goes_on(before: Lowering, after: Lowering) -> bool {
    &&& after.stack == before.stack
    &&& written(before).len() <= written(after).len()
    &&& written(after).take(written(before).len() as int) == written(before)
}

/// A type is either kept in one register or built in a place.
proof fn lemma_put(
    src: Source,
    st: Lowering,
    at: RegisterId,
    ty: TypeView,
    e: &Expression,
    after: Lowering,
)
    requires
        ty.is_scalar() == !ty.is_aggregate(),
        within(src, st, dest_for(ty, at), false, *e)
            matches Some(v) && stored(v, e.hir_id, at, ty) == Some(after),
    ensures
        is_put(src, st, at, ty, e, after),
{
    reveal(stored);
}

/// Every element of a tuple is put into the field with its number.
pub proof fn law_tuple_element(
    src: Source,
    st: Lowering,
    base: RegisterId,
    fields: Seq<TypeView>,
    list: Vec<Rc<Expression>>,
    n: nat,
    i: int,
)
    requires
        n <= list@.len() <= usize::MAX,
        0 <= i < n,
        tuple_lowered(src, st, base, fields, list, n) is Some,
    ensures
        ({
            let before = tuple_lowered(src, st, base, fields, list, i as nat);
            let after = tuple_lowered(src, st, base, fields, list, (i + 1) as nat);
            &&& before is Some
            &&& after is Some
            &&& lowered_ty(src.types.at(list@[i].hir_id)) matches Some(ty) && exists|
                pointed: Lowering,
                at: RegisterId,
            |
                {
                    &&& #[trigger] is_at_field(pointed, at, base, fields, i)
                    &&& goes_on(before->0, pointed)
                    &&& is_put(src, pointed, at, ty, &*list@[i], after->0)
                }
        }),
    decreases n,
{
    if i + 1 < n {
        law_tuple_element(src, st, base, fields, list, (n - 1) as nat, i);
    } else {
        let before = tuple_lowered(src, st, base, fields, list, i as nat)->0;
        let after = tuple_lowered(src, st, base, fields, list, n)->0;
        let e = list@[i];
        let noted = comment(
            before,
            "field "@ + decimal(i as nat),
        )->0;
        let at = emit_field(noted, Operand::Register(base), fields, i as usize)->0;
        let ty = lowered_ty(src.types.at(e.hir_id))->0;
        assert(is_at_field(at.st, at.reg, base, fields, i));
        assert(written(at.st).take(written(before).len() as int) =~= written(before));
        lemma_put(src, at.st, at.reg, ty, &*e, after);
    }
}

/// The values of a structure are put into its fields in order.
pub proof fn law_structure_field(
    src: Source,
    st: Lowering,
    base: RegisterId,
    fields: Seq<TypeView>,
    list: Vec<Rc<StructInitializerField>>,
    n: nat,
    i: int,
)
    requires
        n <= list@.len() <= usize::MAX,
        0 <= i < n,
        fields_lowered(src, st, base, fields, list, n) is Some,
    ensures
        ({
            let before = fields_lowered(src, st, base, fields, list, i as nat);
            let after = fields_lowered(src, st, base, fields, list, (i + 1) as nat);
            &&& before is Some
            &&& after is Some
            &&& lowered_ty(src.types.at(list@[i].value.hir_id)) matches Some(ty) && exists|
                pointed: Lowering,
                at: RegisterId,
            |
                {
                    &&& #[trigger] is_at_field(pointed, at, base, fields, i)
                    &&& goes_on(before->0, pointed)
                    &&& is_put(src, pointed, at, ty, &*list@[i].value, after->0)
                }
        }),
    decreases n,
{
    if i + 1 < n {
        law_structure_field(src, st, base, fields, list, (n - 1) as nat, i);
    } else {
        let before = fields_lowered(src, st, base, fields, list, i as nat)->0;
        let after = fields_lowered(src, st, base, fields, list, n)->0;
        let field = list@[i];
        let noted = comment(
            before,
            "field "@ + decimal(i as nat) + " ("@
                + before.names[field.name.symbol.0 as int] + ")"@,
        )->0;
        let at = emit_field(noted, Operand::Register(base), fields, i as usize)->0;
        let ty = lowered_ty(src.types.at(field.value.hir_id))->0;
        assert(is_at_field(at.st, at.reg, base, fields, i));
        assert(written(at.st).take(written(before).len() as int) =~= written(before));
        lemma_put(src, at.st, at.reg, ty, &*field.value, after);
    }
}

/// Whether the last instruction computes the address of an element into a register.
pub open spec fn is_at_element(
    st: Lowering,
    at: RegisterId,
    base: RegisterId,
    item: TypeView,
    i: int,
) -> bool {
    &&& written(st).len() > 0
    &&& written(st).last() matches InstructionView::GetArrayElementPointer {
        destination,
        source,
        ty,
        index: Operand::Immediate(Immediate::Int(k, IntegerWidth::I64)),
    } && destination == at && source == Operand::Register(base) && ty == item && k == i
}

/// Every element of an array is put to the place with its number.
pub proof fn law_array_element(
    src: Source,
    st: Lowering,
    base: RegisterId,
    item: TypeView,
    list: Vec<Rc<Expression>>,
    n: nat,
    i: int,
)
    requires
        n <= list@.len() <= usize::MAX,
        0 <= i < n,
        elements_lowered(src, st, base, item, list, n) is Some,
    ensures
        ({
            let before = elements_lowered(src, st, base, item, list, i as nat);
            let after = elements_lowered(src, st, base, item, list, (i + 1) as nat);
            &&& before is Some
            &&& after is Some
            &&& exists|pointed: Lowering, at: RegisterId|
                {
                    &&& #[trigger] is_at_element(pointed, at, base, item, i)
                    &&& goes_on(before->0, pointed)
                    &&& is_put(src, pointed, at, item, &*list@[i], after->0)
                }
        }),
    decreases n,
{
    if i + 1 < n {
        law_array_element(src, st, base, item, list, (n - 1) as nat, i);
    } else {
        let before = elements_lowered(src, st, base, item, list, i as nat)->0;
        let after = elements_lowered(src, st, base, item, list, n)->0;
        let at = emit_element(
            before,
            Operand::Register(base),
            item,
            word(i as u64),
        )->0;
        assert(is_at_element(at.st, at.reg, base, item, i));
        assert(written(at.st).take(written(before).len() as int) =~= written(before));
        lemma_put(src, at.st, at.reg, item, &*list@[i], after);
    }
}

/// The fields of a string: where its bytes are, and how many they are.
pub open spec fn string_fields() -> Seq<TypeView> {
    seq![TypeView::Pointer, TypeView::Integer(IntegerWidth::I64)]
}

/// The instruction that computes the address of a field of a string.
pub open spec fn string_field(
    destination: RegisterId,
    source: Operand,
    index: usize,
) -> InstructionView {
    InstructionView::GetStructElementPointer { destination, source, ty: string_fields(), index }
}

/// The instruction that loads from an address in a register.
pub open spec fn load_at(destination: RegisterId, address: RegisterId) -> InstructionView {
    InstructionView::LoadMem { destination, source: Operand::Register(address) }
}

/// An element of an array is found from the place of the array by its index, and
/// loaded from there where it is single and asked for. Of a string, the address of
/// its bytes is loaded before, and a byte of it becomes an integer of 32 bits.
pub proof fn law_subscript(
    src: Source,
    st: Lowering,
    id: HirId,
    target: &Expression,
    index: &Expression,
)
    requires
        st.has_current(),
        subscript_rule(src, st, id, *target, *index) is Some,
    ensures
        ({
            let after = subscript_rule(src, st, id, *target, *index)->0;
            let base = st.operand(target.hir_id);
            let at = st.operand(index.hir_id);
            let code = added(st, after);
            match src.types.at(target.hir_id) {
                Ty::Array { ty, .. } => lowered_ty(*ty) matches Some(item) && (st.place || item.is_scalar()
                    ==> {
                    &&& code.len() == (if st.place {
                        1int
                    } else {
                        2
                    })
                    &&& code[0] matches InstructionView::GetArrayElementPointer {
                        destination,
                        source,
                        ty,
                        index,
                    } && {
                        &&& source == base
                        &&& ty == item
                        &&& index == at
                        &&& st.place ==> after.operand(id) == Operand::Register(destination)
                        &&& !st.place ==> (after.operand(id) matches Operand::Register(reg)
                            && code[1] == load_at(reg, destination))
                    }
                }),
                Ty::Str => {
                    &&& code.len() == (if st.place {
                        3int
                    } else {
                        5
                    })
                    &&& exists|a: RegisterId, b: RegisterId, c: RegisterId|
                        {
                            &&& code[0] == #[trigger] string_field(a, base, 0)
                            &&& code[1] == #[trigger] load_at(b, a)
                            &&& code[2] == #[trigger] byte_at(c, b, at)
                            &&& st.place ==> after.operand(id) == Operand::Register(c)
                            &&& !st.place ==> exists|d: RegisterId|
                                {
                                    &&& code[3] == #[trigger] load_at(d, c)
                                    &&& after.operand(id) matches Operand::Register(reg)
                                        && code[4] == (InstructionView::IntegerCast {
                                        kind: IntegerCastKind::ZeroExtension,
                                        destination: reg,
                                        operand: Operand::Register(d),
                                    })
                                }
                        }
                },
                _ => false,
            }
        }),
{
    reveal(subscript_rule);
    let after = subscript_rule(src, st, id, *target, *index)->0;
    let base = st.operand(target.hir_id);
    let at = st.operand(index.hir_id);
    let code = added(st, after);
    let n = written(st).len() as int;
    match src.types.at(target.hir_id) {
        Ty::Str => {
            let all = written(after);
            assert(string_fields() =~= slice_fields());
            let a = all[n]->GetStructElementPointer_destination;
            let b = all[n + 1]->LoadMem_destination;
            let c = all[n + 2]->GetArrayElementPointer_destination;
            assert(code[0] == string_field(a, base, 0));
            assert(code[1] == load_at(b, a));
            assert(code[2] == byte_at(c, b, at));
            if !st.place {
                let d = all[n + 3]->LoadMem_destination;
                assert(code[3] == load_at(d, c));
            }
        },
        _ => {},
    }
}

/// The instruction that computes the address of a byte.
pub open spec fn byte_at(
    destination: RegisterId,
    base: RegisterId,
    index: Operand,
) -> InstructionView {
    InstructionView::GetArrayElementPointer {
        destination,
        source: Operand::Register(base),
        ty: TypeView::Integer(IntegerWidth::I8),
        index,
    }
}

/// A string that is built from an address and a length has them in its fields, in
/// the place that was asked for, or in a new one.
pub proof fn law_string_is_built(st: Lowering, id: HirId, pointer: Operand, length: Operand)
    requires
        st.has_current(),
        string_built(st, id, pointer, length) is Some,
    ensures
        ({
            let after = string_built(st, id, pointer, length)->0;
            after.operand(id) matches Operand::Register(base) && {
                &&& st.dest matches Some(reg) ==> base == reg
                &&& is_string_at(st, after, base, pointer, length)
            }
        }),
{
    reveal(string_built);
    let after = string_built(st, id, pointer, length)->0;
    lemma_string_at(st, after, after.operand(id)->Register_0, pointer, length);
}

/// Whether the code that was added ends with storing an address and a length into
/// the fields of a string.
pub open spec fn is_string_at(
    st: Lowering,
    after: Lowering,
    base: RegisterId,
    pointer: Operand,
    length: Operand,
) -> bool {
    let code = added(st, after);
    let n = code.len() - 4;
    &&& n == 0 || (n == 1 && st.dest is None && code[0] == (InstructionView::AllocStack {
        destination: base,
        ty: TypeView::Struct(string_fields()),
    }))
    &&& exists|a: RegisterId, b: RegisterId|
        {
            &&& code[n] == #[trigger] string_field(a, Operand::Register(base), 0)
            &&& code[n + 1] == (InstructionView::StoreMem {
                destination: Operand::Register(a),
                source: pointer,
            })
            &&& code[n + 2] == #[trigger] string_field(b, Operand::Register(base), 1)
            &&& code[n + 3] == (InstructionView::StoreMem {
                destination: Operand::Register(b),
                source: length,
            })
        }
}

proof fn lemma_string_at(
    st: Lowering,
    after: Lowering,
    base: RegisterId,
    pointer: Operand,
    length: Operand,
)
    requires
        ({
            let all = written(after);
            let n = all.len() - 4;
            &&& all.len() == written(st).len() + (if st.dest is None {
                5int
            } else {
                4
            })
            &&& st.dest is None ==> all[n - 1] == (InstructionView::AllocStack {
                destination: base,
                ty: TypeView::Struct(slice_fields()),
            })
            &&& all[n] matches InstructionView::GetStructElementPointer {
                destination,
                source,
                ty,
                index,
            } && source == Operand::Register(base) && index == 0 && ty
                == slice_fields() && all[n + 1]
                == (InstructionView::StoreMem {
                destination: Operand::Register(destination),
                source: pointer,
            })
            &&& all[n + 2] matches InstructionView::GetStructElementPointer {
                destination,
                source,
                ty,
                index,
            } && source == Operand::Register(base) && index == 1 && ty
                == slice_fields() && all[n + 3]
                == (InstructionView::StoreMem {
                destination: Operand::Register(destination),
                source: length,
            })
        }),
    ensures
        is_string_at(st, after, base, pointer, length),
{
    let all = written(after);
    let code = added(st, after);
    let n = code.len() - 4;
    let m = all.len() - 4;
    assert(string_fields() =~= slice_fields());
    let a = all[m]->GetStructElementPointer_destination;
    let b = all[m + 2]->GetStructElementPointer_destination;
    assert(code[n] == all[m]);
    assert(code[n + 1] == all[m + 1]);
    assert(code[n + 2] == all[m + 2]);
    assert(code[n + 3] == all[m + 3]);
    assert(code[n] == string_field(a, Operand::Register(base), 0));
    assert(code[n + 2] == string_field(b, Operand::Register(base), 1));
    if n == 1 {
        assert(code[0] == all[m - 1]);
    }
}

/// A string literal is put into static memory under a label that was not in use,
/// and its value has that label and the number of its bytes in its fields.
pub proof fn law_string_literal(st: Lowering, symbol: InternedSymbol)
    requires
        st.has_current(),
        constant_string(st, symbol) is Some,
    ensures
        ({
            let made = constant_string(st, symbol)->0;
            let label = st.next_label;
            &&& (symbol.0 as int) < st.names.len()
            &&& made.st.strings == st.strings.insert(label, symbol)
            &&& label < u32::MAX ==> made.st.next_label == label + 1
            &&& st.dest matches Some(reg) ==> made.reg == reg
            &&& is_string_at(
                st,
                made.st,
                made.reg,
                Operand::Immediate(
                    Immediate::AnonymousStaticLabel(StaticLabelId(label)),
                ),
                Operand::Immediate(
                    Immediate::Int(
                        encode_utf8(st.names[symbol.0 as int]).len() as u64,
                        IntegerWidth::I64,
                    ),
                ),
            )
        }),
{
    let made = constant_string(st, symbol)->0;
    lemma_string_at(
        st,
        made.st,
        made.reg,
        Operand::Immediate(
            Immediate::AnonymousStaticLabel(StaticLabelId(st.next_label)),
        ),
        Operand::Immediate(
            Immediate::Int(
                encode_utf8(st.names[symbol.0 as int]).len() as u64,
                IntegerWidth::I64,
            ),
        ),
    );
}

/// Whether the last instruction calls a function of the runtime by its name.
pub open spec fn calls_at_last(st: Lowering, name: Seq<char>, passed: Seq<Operand>) -> bool {
    &&& written(st).len() > 0
    &&& written(st).last() matches InstructionView::FunctionCall { target, arguments, .. } && {
        &&& target matches Operand::Immediate(Immediate::FunctionLabel(symbol)) && (symbol.0 as int)
            < st.names.len() && st.names[symbol.0 as int] == name
        &&& arguments == passed
    }
}

/// A string is printed by loading the address of its bytes and their number, and
/// passing both in this order.
pub proof fn law_string_is_printed(st: Lowering, string: Operand)
    requires
        st.has_current(),
        st.names.len() <= 0x1_0000_0000,
        print_string(st, string) is Some,
    ensures
        ({
            let after = print_string(st, string)->0.st;
            let code = added(st, after);
            &&& code.len() == 5
            &&& exists|a: RegisterId, b: RegisterId, c: RegisterId, d: RegisterId|
                {
                    &&& code[0] == #[trigger] string_field(a, string, 0)
                    &&& code[1] == #[trigger] load_at(b, a)
                    &&& code[2] == #[trigger] string_field(c, string, 1)
                    &&& code[3] == #[trigger] load_at(d, c)
                    &&& calls_at_last(
                        after,
                        "__$print_str"@,
                        seq![Operand::Register(b), Operand::Register(d)],
                    )
                }
        }),
{
    let after = print_string(st, string)->0.st;
    let all = written(after);
    let code = added(st, after);
    let n = written(st).len() as int;
    assert(string_fields() =~= slice_fields());
    let a = all[n]->GetStructElementPointer_destination;
    let b = all[n + 1]->LoadMem_destination;
    let c = all[n + 2]->GetStructElementPointer_destination;
    let d = all[n + 3]->LoadMem_destination;
    assert(code[0] == string_field(a, string, 0));
    assert(code[1] == load_at(b, a));
    assert(code[2] == string_field(c, string, 1));
    assert(code[3] == load_at(d, c));
    lemma_named(st.names, "__$print_str"@);
}

/// The symbol of a text stands for it.
pub(crate) proof fn lemma_named(names: Seq<Seq<char>>, text: Seq<char>)
    requires
        names.len() <= 0x1_0000_0000,
        names.contains(text) || names.len() < 0x1_0000_0000,
    ensures
        0 <= symbol_of(names, text) < interned(names, text).len() <= 0x1_0000_0000,
        interned(names, text)[symbol_of(names, text)] == text,
{
    if names.contains(text) {
        assert(names[names.index_of(text)] == text);
    }
}

/// An argument of a format string that is an integer is printed by the function of
/// the runtime for integers of its size and sign. It gets the value of the argument
/// with the number of the piece, behind the format string.
pub proof fn law_integer_is_printed(
    src: Source,
    st: Lowering,
    id: HirId,
    k: usize,
    arguments: Seq<Rc<Expression>>,
)
    requires
        st.has_current(),
        st.names.len() <= 0x1_0000_0000,
        piece_printed(src, st, id, FormatStringItem::Argument(k), arguments) is Some,
        integer_of(src.types.at(arguments[k + 1].hir_id)) is Some,
    ensures
        k + 1 < arguments.len(),
        ({
            let after = piece_printed(src, st, id, FormatStringItem::Argument(k), arguments)->0;
            let (width, signed) = integer_of(src.types.at(arguments[k + 1].hir_id))->0;
            &&& written(after).len() == written(st).len() + 1
            &&& calls_at_last(
                after,
                "__$print_"@ + (if signed {
                    "i"@
                } else {
                    "u"@
                }) + decimal(
                    bits_of(width),
                ),
                seq![st.operand(arguments[k + 1].hir_id)],
            )
        }),
{
    reveal(piece_printed);
    let ty = src.types.at(arguments[k + 1].hir_id);
    lemma_printer(ty);
    lemma_named(st.names, printer_of(ty)->0);
}

proof fn lemma_printer(ty: Ty)
    requires
        integer_of(ty) is Some,
    ensures
        ({
            let (width, signed) = integer_of(ty)->0;
            printer_of(ty) == Some(
                "__$print_"@ + (if signed {
                    "i"@
                } else {
                    "u"@
                }) + decimal(
                    bits_of(width),
                ),
            )
        }),
{
    reveal_with_fuel(decimal, 3);
    reveal_strlit("__$print_");
    reveal_strlit("i");
    reveal_strlit("u");
    reveal_strlit("__$print_i8");
    reveal_strlit("__$print_i16");
    reveal_strlit("__$print_i32");
    reveal_strlit("__$print_i64");
    reveal_strlit("__$print_u8");
    reveal_strlit("__$print_u16");
    reveal_strlit("__$print_u32");
    reveal_strlit("__$print_u64");
    assert(decimal(8) =~= seq!['8']);
    assert(decimal(16) =~= seq!['1', '6']);
    assert(decimal(32) =~= seq!['3', '2']);
    assert(decimal(64) =~= seq!['6', '4']);
    assert("__$print_i8"@ =~= "__$print_"@ + "i"@ + seq!['8']);
    assert("__$print_i16"@ =~= "__$print_"@ + "i"@ + seq!['1', '6']);
    assert("__$print_i32"@ =~= "__$print_"@ + "i"@ + seq!['3', '2']);
    assert("__$print_i64"@ =~= "__$print_"@ + "i"@ + seq!['6', '4']);
    assert("__$print_u8"@ =~= "__$print_"@ + "u"@ + seq!['8']);
    assert("__$print_u16"@ =~= "__$print_"@ + "u"@ + seq!['1', '6']);
    assert("__$print_u32"@ =~= "__$print_"@ + "u"@ + seq!['3', '2']);
    assert("__$print_u64"@ =~= "__$print_"@ + "u"@ + seq!['6', '4']);
}

} // verus!
