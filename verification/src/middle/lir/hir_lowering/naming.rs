//! What the code for names, parameters, calls of built-in functions and the ends of
//! functions is.

use crate::frontend::intern::InternedSymbol;
use crate::middle::hir;
use crate::middle::hir::{
    Block, Definition, DefinitionKind, Expression, FunctionParameter, FunctionSignature,
    HirId, Item, ItemKind, ItemLocalId, LocalDefId, Path, Resolution,
};
use crate::middle::lir::hir_lowering::building::{calls_at_last, lemma_named};
use crate::middle::lir::hir_lowering::copies::{added, written};
use crate::middle::lir::hir_lowering::lowered::{
    block_lowered, end_lowered, entry_lowered, expression_lowered, intrinsic_lowered,
    parameters_lowered, statements_lowered, values_lowered, with_argument,
};
use crate::middle::lir::hir_lowering::meaning::is_single;
use crate::middle::lir::hir_lowering::rules::{
    find_variant, function_rule, item_at, operand_list, path_rule, return_ty, static_rule,
    this_rule, variant_rule,
};
use crate::middle::lir::hir_lowering::state::{lowered_ty, Lowering, Source};
use crate::middle::lir::{Immediate, InstructionView, IntegerWidth, Operand, TypeView};
use std::rc::Rc;
use vstd::prelude::*;

verus! {

/// What the last segment of a name stands for.
pub open spec fn is_definition(path: &Path, kind: DefinitionKind, def_id: LocalDefId) -> bool {
    path.segments@.len() > 0 && path.segments@.last().resolution == Resolution::<
        ItemLocalId,
    >::Definition(kind, def_id)
}

proof fn lemma_find_variant(variants: Seq<Rc<hir::EnumVariant>>, def_id: LocalDefId, from: nat)
    ensures
        find_variant(variants, def_id, from) matches Some(k) ==> {
            &&& from <= k < variants.len()
            &&& variants[k as int].def_id == def_id
            &&& forall|j: int| from <= j < k ==> (#[trigger] variants[j]).def_id != def_id
        },
    decreases variants.len() - from,
{
    if from < variants.len() && variants[from as int].def_id != def_id {
        lemma_find_variant(variants, def_id, from + 1);
    }
}

/// A variant of an enum is the number of variants that come before it, and no code
/// is needed for it.
pub proof fn law_variant(src: Source, st: Lowering, id: HirId, path: &Path, def_id: LocalDefId)
    requires
        is_definition(path, DefinitionKind::EnumVariant, def_id),
        path_rule(src, st, id, *path) is Some,
    ensures
        ({
            let after = path_rule(src, st, id, *path)->0;
            &&& after.blocks == st.blocks
            &&& src.module.definitions@[def_id.0] matches Definition::NonOwner(node) && item_at(
                src.module,
                node.owner,
            ) matches Some(Item { kind: ItemKind::Enum { variants, .. }, .. }) && exists|k: int|
                {
                    &&& 0 <= k < variants@.len()
                    &&& (#[trigger] variants@[k]).def_id == def_id
                    &&& forall|j: int| 0 <= j < k ==> (#[trigger] variants@[j]).def_id != def_id
                    &&& after.operand(id) == Operand::Immediate(
                        Immediate::Int(k as u64, IntegerWidth::I32),
                    )
                }
        }),
{
    reveal(path_rule);
    reveal(variant_rule);
    if let Definition::NonOwner(node) = src.module.definitions@[def_id.0] {
        if let Some(Item { kind: ItemKind::Enum { variants, .. }, .. }) = item_at(
            src.module,
            node.owner,
        ) {
            lemma_find_variant(variants@, def_id, 0);
            let k = find_variant(variants@, def_id, 0)->0;
            assert(variants@[k as int].def_id == def_id);
        }
    }
}

/// The place of a static variable is its label, and its value, where it is single,
/// is loaded from there.
pub proof fn law_static(src: Source, st: Lowering, id: HirId, path: &Path, def_id: LocalDefId)
    requires
        st.has_current(),
        is_definition(path, DefinitionKind::Static, def_id),
        path_rule(src, st, id, *path) is Some,
    ensures
        ({
            let after = path_rule(src, st, id, *path)->0;
            item_at(src.module, def_id) matches Some(
                Item { kind: ItemKind::Static { name, ty, .. }, .. },
            ) && {
                let label = Operand::Immediate(Immediate::NamedStaticLabel(name.symbol));
                &&& st.place ==> after.operand(id) == label && after.blocks == st.blocks
                &&& !st.place && is_single(src.types.at(ty.hir_id)) ==> (after.operand(
                    id,
                ) matches Operand::Register(reg) && added(st, after) == seq![
                    InstructionView::LoadMem { destination: reg, source: label },
                ])
            }
        }),
{
    reveal(path_rule);
    reveal(static_rule);
    let after = path_rule(src, st, id, *path)->0;
    if let Some(Item { kind: ItemKind::Static { name, ty, .. }, .. }) = item_at(
        src.module,
        def_id,
    ) {
        if !st.place && is_single(src.types.at(ty.hir_id)) {
            let instruction = written(after).last();
            assert(written(after) == written(st).push(instruction));
            assert(added(st, after) =~= seq![instruction]);
        }
    }
}

/// The value of the name of a function is the label with its whole name.
pub proof fn law_function_name(
    src: Source,
    st: Lowering,
    id: HirId,
    path: &Path,
    kind: DefinitionKind,
    def_id: LocalDefId,
)
    requires
        kind is Function || kind is AssociatedFunction,
        is_definition(path, kind, def_id),
        st.names.len() <= 0x1_0000_0000,
        path_rule(src, st, id, *path) is Some,
    ensures
        ({
            let after = path_rule(src, st, id, *path)->0;
            &&& after.blocks == st.blocks
            &&& item_at(src.module, def_id) matches Some(
                Item { kind: ItemKind::Function { name, .. }, .. },
            ) && after.operand(id) matches Operand::Immediate(Immediate::FunctionLabel(symbol))
                && (symbol.0 as int) < after.names.len() && after.names[symbol.0 as int]
                == name.shown(st.names)
        }),
{
    reveal(path_rule);
    reveal(function_rule);
    if let Some(Item { kind: ItemKind::Function { name, .. }, .. }) = item_at(
        src.module,
        def_id,
    ) {
        lemma_named(st.names, name.shown(st.names));
    }
}

/// `self` is the first argument.
pub proof fn law_self(src: Source, st: Lowering, id: HirId)
    requires
        this_rule(src, st, id) is Some,
        st.place || is_single(src.types.at(id)),
    ensures
        st.arguments.len() > 0,
        this_rule(src, st, id)->0.operand(id) == Operand::Register(st.arguments[0]),
        this_rule(src, st, id)->0.blocks == st.blocks,
{
    reveal(this_rule);
}

/// The type of the register for an argument: a structure is passed by its address.
pub open spec fn is_argument_type(ty: crate::middle::ty::Ty, register: TypeView) -> bool {
    if ty is Str || ty is Slice || ty is Tuple || ty is Struct || ty is Array {
        register == TypeView::Pointer
    } else {
        lowered_ty(ty) == Some(register)
    }
}

/// The parameters of a function are its next arguments, in order: each is found in
/// the register of its argument, unless another parameter is the same.
pub proof fn law_parameters(
    src: Source,
    st: Lowering,
    params: Seq<Rc<FunctionParameter>>,
    tys: Seq<Rc<hir::Type>>,
    n: nat,
    i: int,
)
    requires
        n <= params.len(),
        n <= tys.len(),
        0 <= i < n,
        parameters_lowered(src, st, params, tys, n) is Some,
        forall|j: int|
            i < j < n ==> (#[trigger] params[j]).hir_id.local_id.0 != params[i].hir_id.local_id.0,
    ensures
        ({
            let after = parameters_lowered(src, st, params, tys, n)->0;
            let first = st.arguments.len() as int;
            let own = params[i].hir_id.local_id.0;
            &&& after.arguments.len() == first + n
            &&& after.arguments.take(first) == st.arguments
            &&& after.locals.contains_key(own)
            &&& after.locals[own] == after.arguments[first + i]
            &&& after.registers.len() == st.registers.len() + n
            &&& after.registers[st.registers.len() + i].id == after.arguments[first + i]
            &&& is_argument_type(
                src.types.at(tys[i].hir_id),
                after.registers[st.registers.len() + i].ty,
            )
            &&& after.blocks == st.blocks
        }),
    decreases n,
{
    let before = parameters_lowered(src, st, params, tys, (n - 1) as nat)->0;
    let after = parameters_lowered(src, st, params, tys, n)->0;
    lemma_parameters(src, st, params, tys, (n - 1) as nat);
    lemma_parameters(src, st, params, tys, n);
    if i < n - 1 {
        law_parameters(src, st, params, tys, (n - 1) as nat, i);
        assert(params[n - 1].hir_id.local_id.0 != params[i].hir_id.local_id.0);
    }
}

proof fn lemma_parameters(
    src: Source,
    st: Lowering,
    params: Seq<Rc<FunctionParameter>>,
    tys: Seq<Rc<hir::Type>>,
    n: nat,
)
    requires
        parameters_lowered(src, st, params, tys, n) is Some,
    ensures
        ({
            let after = parameters_lowered(src, st, params, tys, n)->0;
            &&& after.arguments.len() == st.arguments.len() + n
            &&& after.arguments.take(st.arguments.len() as int) == st.arguments
            &&& after.registers.len() == st.registers.len() + n
            &&& after.blocks == st.blocks
        }),
    decreases n,
{
    let after = parameters_lowered(src, st, params, tys, n)->0;
    if n > 0 {
        let before = parameters_lowered(src, st, params, tys, (n - 1) as nat)->0;
        lemma_parameters(src, st, params, tys, (n - 1) as nat);
        assert(after.arguments.take(st.arguments.len() as int) =~= before.arguments.take(
            st.arguments.len() as int,
        ));
    } else {
        assert(after.arguments.take(st.arguments.len() as int) =~= st.arguments);
    }
}

/// A function has a register for the place of its result just where it returns a
/// structure. `self`, if there is one, is its first argument, and the parameters
/// follow.
pub proof fn law_entry(
    src: Source,
    st: Lowering,
    signature: FunctionSignature,
    params: Seq<Rc<FunctionParameter>>,
)
    requires
        st.arguments.len() == 0,
        st.struct_return is None,
        entry_lowered(src, st, signature, params) is Some,
        params.len() == signature.parameters@.len(),
    ensures
        ({
            let after = entry_lowered(src, st, signature, params)->0;
            let returns_structure = return_ty(src, signature)->0 matches Some(ty) && (ty is Str
                || ty is Slice || ty is Tuple || ty is Struct || ty is Array);
            let own = src.types.function_results[src.owner.0].self_type;
            let k: int = if own is Some {
                1
            } else {
                0
            };
            &&& after.struct_return is Some == returns_structure
            &&& after.arguments.len() == k + params.len()
            &&& forall|i: int|
                0 <= i < params.len() && (forall|j: int|
                    i < j < params.len() ==> (#[trigger] params[j]).hir_id.local_id.0
                        != params[i].hir_id.local_id.0) ==> after.locals[(
                #[trigger] params[i]).hir_id.local_id.0] == after.arguments[k + i]
        }),
{
    let returned = return_ty(src, signature)->0;
    let prepared = if returned is Some && returned->0.is_aggregate() {
        let made = st.with_register(TypeView::Pointer);
        Lowering { struct_return: Some(made.reg), ..made.st }
    } else {
        st
    };
    let before = match src.types.function_results[src.owner.0].self_type {
        None => prepared,
        Some(ty) => with_argument(prepared, ty)->0.st,
    };
    let tys = signature.parameters@;
    lemma_parameters(src, before, params, tys, params.len());
    lemma_struct_return(src, before, params, tys, params.len());
    assert forall|i: int|
        0 <= i < params.len() && (forall|j: int|
            i < j < params.len() ==> (#[trigger] params[j]).hir_id.local_id.0
                != params[i].hir_id.local_id.0) implies parameters_lowered(
        src,
        before,
        params,
        tys,
        params.len(),
    )->0.locals[(#[trigger] params[i]).hir_id.local_id.0] == parameters_lowered(
        src,
        before,
        params,
        tys,
        params.len(),
    )->0.arguments[before.arguments.len() + i] by {
        law_parameters(src, before, params, tys, params.len(), i);
    }
}

proof fn lemma_struct_return(
    src: Source,
    st: Lowering,
    params: Seq<Rc<FunctionParameter>>,
    tys: Seq<Rc<hir::Type>>,
    n: nat,
)
    requires
        parameters_lowered(src, st, params, tys, n) is Some,
    ensures
        parameters_lowered(src, st, params, tys, n)->0.struct_return == st.struct_return,
    decreases n,
{
    if n > 0 {
        lemma_struct_return(src, st, params, tys, (n - 1) as nat);
    }
}

/// A block has the value of the expression at its end.
pub proof fn law_block_value(src: Source, st: Lowering, block: &Block)
    requires
        block_lowered(src, st, *block) is Some,
        block.expression matches Some(e) && !(src.types.at(e.hir_id) is Unit) && !(src.types.at(
            e.hir_id,
        ) is Never),
    ensures
        ({
            let e = block.expression->0;
            let after = block_lowered(src, st, *block)->0;
            let listed = statements_lowered(src, st, block.statements, block.statements@.len());
            &&& listed is Some
            &&& expression_lowered(src, listed->0, *e) matches Some(valued) && after.operand(
                block.hir_id,
            ) == valued.operand(e.hir_id) && after.blocks == valued.blocks
        }),
{
}

/// A function returns the value of the expression at the end of its body. Without
/// one it returns nothing, and the main function zero.
pub proof fn law_end_of_function(src: Source, st: Lowering, block: &Block)
    requires
        0 < st.blocks.len() <= u32::MAX,
        end_lowered(src, st, *block) is Some,
        block.expression matches Some(e) ==> is_single(src.types.at(e.hir_id)) && st.has_operand(
            e.hir_id,
        ),
    ensures
        ({
            let after = end_lowered(src, st, *block)->0;
            let last = st.blocks.len() - 1;
            &&& after.blocks.len() == st.blocks.len()
            &&& after.blocks.take(last) == st.blocks.take(last)
            &&& after.blocks[last].instructions == st.blocks[last].instructions.push(
                InstructionView::Return {
                    value: match block.expression {
                        Some(e) => Some(st.operand(e.hir_id)),
                        None => if st.names[src.local_symbol.0 as int] == "main"@ {
                            Some(Operand::Immediate(Immediate::Int(0, IntegerWidth::I8)))
                        } else {
                            None
                        },
                    },
                },
            )
        }),
{
    let after = end_lowered(src, st, *block)->0;
    let last = st.blocks.len() - 1;
    assert(after.blocks.take(last) =~= st.blocks.take(last));
}

/// The values of a list of expressions, which are known.
pub open spec fn values_of(st: Lowering, list: Seq<Rc<Expression>>, n: nat) -> Seq<Operand> {
    Seq::new(n, |i: int| st.operand(list[i].hir_id))
}

proof fn lemma_values(st: Lowering, list: Seq<Rc<Expression>>, n: nat)
    requires
        operand_list(st, list, n) is Some,
    ensures
        operand_list(st, list, n)->0 == values_of(st, list, n),
    decreases n,
{
    if n > 0 {
        lemma_values(st, list, (n - 1) as nat);
    }
    assert(operand_list(st, list, n)->0 =~= values_of(st, list, n));
}

/// Leaving the program passes the value of its argument to the runtime. Reading and
/// closing a file pass the number that the operating system has for it, and then
/// the values of the arguments in order.
pub proof fn law_built_in_function(
    src: Source,
    st: Lowering,
    id: HirId,
    name: InternedSymbol,
    arguments: Vec<Rc<Expression>>,
)
    requires
        intrinsic_lowered(src, st, id, name, arguments) is Some,
        values_lowered(src, st, arguments, 0, arguments@.len()) matches Some(v) ==> v.has_current()
            && v.names.len() <= 0x1_0000_0000,
        values_lowered(src, st, arguments, 0, 1) matches Some(v) ==> v.has_current()
            && v.names.len() <= 0x1_0000_0000,
    ensures
        ({
            let after = intrinsic_lowered(src, st, id, name, arguments)->0;
            let text = st.names[name.0 as int];
            let all = values_lowered(src, st, arguments, 0, arguments@.len())->0;
            let one = values_lowered(src, st, arguments, 0, 1)->0;
            let passed = values_of(all, arguments@, arguments@.len());
            let number = |n: u64| Operand::Immediate(Immediate::Int(n, IntegerWidth::I64));
            &&& text == "exit"@ ==> calls_at_last(
                after,
                "__$exit"@,
                values_of(one, arguments@, 1),
            )
            &&& text == "read"@ ==> calls_at_last(after, "__$syscall_3"@, seq![number(0)] + passed)
            &&& text == "close"@ ==> calls_at_last(
                after,
                "__$syscall_1"@,
                seq![number(3)] + passed,
            )
        }),
{
    reveal_strlit("print");
    reveal_strlit("str");
    reveal_strlit("exit");
    reveal_strlit("read");
    reveal_strlit("open");
    reveal_strlit("close");
    let text = st.names[name.0 as int];
    let all = values_lowered(src, st, arguments, 0, arguments@.len())->0;
    let one = values_lowered(src, st, arguments, 0, 1)->0;
    if text == "exit"@ {
        assert(text[0] == 'e');
        lemma_values(one, arguments@, 1);
        lemma_named(one.names, "__$exit"@);
    } else if text == "read"@ {
        assert(text[0] == 'r');
        lemma_values(all, arguments@, arguments@.len());
        lemma_named(all.names, "__$syscall_3"@);
    } else if text == "close"@ {
        assert(text[0] == 'c');
        lemma_values(all, arguments@, arguments@.len());
        lemma_named(all.names, "__$syscall_1"@);
    }
}

} // verus!
