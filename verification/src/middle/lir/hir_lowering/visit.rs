//! Lowering expressions, statements, blocks and functions.

use crate::frontend::ast::{BinaryOperatorKind, UnaryOperatorKind};
use crate::frontend::intern::InternedSymbol;
use crate::index::Index;
use crate::middle::hir;
use crate::middle::hir::{
    ArrayInitializer, Block, BodyId, Expression, ExpressionKind, FunctionParameter,
    FunctionSignature, HirId, ItemKind, LetStatement, Literal, Path, Resolution, Statement,
    StatementKind, StructInitializerField,
};
use crate::middle::lir::hir_lowering::emit::{
    lower_type, BodyLoweringContext, ExpressionContext, LoopContext,
};
use crate::middle::lir::hir_lowering::joins::is_selected;
use crate::middle::lir::hir_lowering::lowered::{
    arguments_lowered, array_lowered, assignment_lowered, binary_lowered, block_lowered,
    call_lowered, conditional_started, elements_lowered, end_lowered, end_returned, entry_lowered,
    exit_lowered, expression_lowered, fields_lowered, function_call_lowered, function_lowered,
    if_lowered, intrinsic_lowered, let_lowered, logical_lowered, long_conditional, open_lowered,
    parameters_lowered, print_lowered, short_conditional, statement_lowered, statements_lowered,
    str_lowered, structure_of, system_lowered, tuple_lowered, unary_lowered, values_lowered,
    while_lowered, with_argument, within, Conditional, Passed,
};
use crate::middle::lir::hir_lowering::rules::{
    return_ty, ConditionalBlocks, LogicalBlocks, LoopBlocks,
};
use crate::middle::lir::hir_lowering::state::{lowered_ty, Emitted, Lowering, Source};
use crate::middle::lir::hir_lowering::steps::optional_ty;
use crate::middle::lir::{
    BlockId, Immediate, Instruction, IntegerWidth, Operand, RegisterId, Struct, Type, TypeView,
};
use crate::middle::ty;
use crate::middle::ty::TypeKind;
use crate::text::{push_decimal, same_text};
use std::collections::BTreeMap;
use std::rc::Rc;
use vstd::prelude::*;

verus! {

broadcast use vstd::std_specs::btree::group_btree_axioms;

proof fn lemma_values_prefix(
    src: Source,
    st: Lowering,
    list: Vec<Rc<Expression>>,
    first: nat,
    n: nat,
    m: nat,
)
    requires
        n <= m <= list@.len(),
        values_lowered(src, st, list, first, m) is Some,
    ensures
        values_lowered(src, st, list, first, n) is Some,
    decreases m,
{
    if n < m {
        lemma_values_prefix(src, st, list, first, n, (m - 1) as nat);
    }
}

proof fn lemma_arguments_prefix(
    src: Source,
    st: Lowering,
    immutable: Seq<bool>,
    list: Vec<Rc<Expression>>,
    n: nat,
    m: nat,
)
    requires
        n <= m <= list@.len(),
        arguments_lowered(src, st, immutable, list, m) is Some,
    ensures
        arguments_lowered(src, st, immutable, list, n) is Some,
    decreases m,
{
    if n < m {
        lemma_arguments_prefix(src, st, immutable, list, n, (m - 1) as nat);
    }
}

proof fn lemma_elements_prefix(
    src: Source,
    st: Lowering,
    base: RegisterId,
    item: TypeView,
    list: Vec<Rc<Expression>>,
    n: nat,
    m: nat,
)
    requires
        n <= m <= list@.len(),
        elements_lowered(src, st, base, item, list, m) is Some,
    ensures
        elements_lowered(src, st, base, item, list, n) is Some,
    decreases m,
{
    if n < m {
        lemma_elements_prefix(src, st, base, item, list, n, (m - 1) as nat);
    }
}

proof fn lemma_tuple_prefix(
    src: Source,
    st: Lowering,
    base: RegisterId,
    fields: Seq<TypeView>,
    list: Vec<Rc<Expression>>,
    n: nat,
    m: nat,
)
    requires
        n <= m <= list@.len(),
        tuple_lowered(src, st, base, fields, list, m) is Some,
    ensures
        tuple_lowered(src, st, base, fields, list, n) is Some,
    decreases m,
{
    if n < m {
        lemma_tuple_prefix(src, st, base, fields, list, n, (m - 1) as nat);
    }
}

proof fn lemma_fields_prefix(
    src: Source,
    st: Lowering,
    base: RegisterId,
    fields: Seq<TypeView>,
    list: Vec<Rc<StructInitializerField>>,
    n: nat,
    m: nat,
)
    requires
        n <= m <= list@.len(),
        fields_lowered(src, st, base, fields, list, m) is Some,
    ensures
        fields_lowered(src, st, base, fields, list, n) is Some,
    decreases m,
{
    if n < m {
        lemma_fields_prefix(src, st, base, fields, list, n, (m - 1) as nat);
    }
}

proof fn lemma_statements_prefix(
    src: Source,
    st: Lowering,
    list: Vec<Rc<Statement>>,
    n: nat,
    m: nat,
)
    requires
        n <= m <= list@.len(),
        statements_lowered(src, st, list, m) is Some,
    ensures
        statements_lowered(src, st, list, n) is Some,
    decreases m,
{
    if n < m {
        lemma_statements_prefix(src, st, list, n, (m - 1) as nat);
    }
}

proof fn lemma_parameters_prefix(
    src: Source,
    st: Lowering,
    params: Seq<Rc<FunctionParameter>>,
    tys: Seq<Rc<hir::Type>>,
    n: nat,
    m: nat,
)
    requires
        n <= m,
        parameters_lowered(src, st, params, tys, m) is Some,
    ensures
        parameters_lowered(src, st, params, tys, n) is Some,
    decreases m,
{
    if n < m {
        lemma_parameters_prefix(src, st, params, tys, n, (m - 1) as nat);
    }
}

impl<'hir> BodyLoweringContext<'hir> {
    /// Lowers an expression in a context of its own.
    fn visit_within(&mut self, dest: Option<RegisterId>, ctx: ExpressionContext, e: &Expression)
        requires
            old(self).names.well_formed(),
            within(old(self).src(), old(self)@, dest, ctx is Place, *e) is Some,
        ensures
            final(self).follows(old(self)),
            within(old(self).src(), old(self)@, dest, ctx is Place, *e) == Some(final(self)@),
        decreases e, 6nat,
    {
        let prev_dest = self.destination_register;
        let prev_ctx = self.expression_context;
        self.enter_context(dest, ctx);
        self.visit_expression(e);
        self.enter_context(prev_dest, prev_ctx);
    }

    /// Lowers a statement in a context of its own.
    fn visit_statement(&mut self, statement: &Statement)
        requires
            old(self).names.well_formed(),
            statement_lowered(old(self).src(), old(self)@, *statement) is Some,
        ensures
            final(self).follows(old(self)),
            statement_lowered(old(self).src(), old(self)@, *statement) == Some(final(self)@),
        decreases statement, 0nat,
    {
        let prev_dest = self.destination_register;
        let prev_ctx = self.expression_context;
        self.enter_context(None, ExpressionContext::Value);
        match &statement.kind {
            StatementKind::Let(let_stmt) => self.visit_let_statement(let_stmt),
            StatementKind::BareExpression(e) => self.visit_expression(e),
            StatementKind::SemiExpression(e) => self.visit_expression(e),
        }
        self.enter_context(prev_dest, prev_ctx);
    }

    fn visit_let_statement(&mut self, let_stmt: &LetStatement)
        requires
            old(self).names.well_formed(),
            let_lowered(old(self).src(), old(self)@, *let_stmt) is Some,
        ensures
            final(self).follows(old(self)),
            let_lowered(old(self).src(), old(self)@, *let_stmt) == Some(final(self)@),
        decreases let_stmt, 1nat,
    {
        let mut text = "let ".to_owned();
        text.append(self.names.value(let_stmt.name.symbol));
        text.append(" = ...");
        self.push_comment(text);
        // a structure that does not change is shared
        if self.only_renames(let_stmt) {
            match &let_stmt.initializer {
                Some(init) => {
                    self.visit_within(None, ExpressionContext::Place, init);
                    match self.operand(init.hir_id) {
                        Operand::Register(reg) => {
                            self.local_to_register_map.insert(let_stmt.hir_id.local_id.0, reg);
                        }
                        Operand::Immediate(_) => vstd::pervasive::unreached(),
                    }
                }
                None => vstd::pervasive::unreached(),
            }
            return;
        }
        let ty = self.type_of(let_stmt.hir_id);
        let lir_ty = lower_type(ty.kind());
        let ptr_reg = self.emit_alloc_stack(lir_ty.duplicate());
        self.local_to_register_map.insert(let_stmt.hir_id.local_id.0, ptr_reg);
        // for scalars, its enough to simply compute their value into a
        // temporary and store the resulting temporary into the allocated stack
        // slot. for aggregate types we want to construct the value in place in
        // memory to avoid the extra copy, so we set a destination register for
        // the traversal
        match &let_stmt.initializer {
            None => {}
            Some(init) => {
                let is_aggregate = ty.kind().is_aggregate();
                self.visit_within(
                    if is_aggregate {
                        Some(ptr_reg)
                    } else {
                        None
                    },
                    ExpressionContext::Value,
                    init,
                );
                // for scalar types, add a store into the stack slot
                if !is_aggregate {
                    let init_value = self.operand(init.hir_id);
                    self.emit_store_mem(Operand::Register(ptr_reg), init_value, &lir_ty);
                }
            }
        }
    }

    fn visit_block(&mut self, block: &Block)
        requires
            old(self).names.well_formed(),
            block_lowered(old(self).src(), old(self)@, *block) is Some,
        ensures
            final(self).follows(old(self)),
            block_lowered(old(self).src(), old(self)@, *block) == Some(final(self)@),
        decreases block, 0nat,
    {
        let ghost src = self.src();
        let ghost start = self@;
        let list = &block.statements;
        let mut i: usize = 0;
        while i < list.len()
            invariant
                0 <= i <= list@.len(),
                *list == block.statements,
                self.follows(old(self)),
                src == old(self).src(),
                statements_lowered(src, start, *list, list@.len()) is Some,
                statements_lowered(src, start, *list, i as nat) == Some(self@),
            decreases list@.len() - i,
        {
            proof {
                lemma_statements_prefix(src, start, *list, i as nat + 1, list@.len());
            }
            self.visit_statement(&list[i]);
            i = i + 1;
        }
        match &block.expression {
            None => {}
            Some(e) => {
                self.visit_expression(e);
                let ty = self.type_of(e.hir_id);
                if !ty.kind().is_unit() && !ty.kind().is_never() {
                    let value = self.operand(e.hir_id);
                    self.set_operand(block.hir_id, value);
                }
            }
        }
    }

    /// Lowers the expressions of a list from `first` up to `n`.
    fn visit_values(&mut self, list: &Vec<Rc<Expression>>, first: usize, n: usize)
        requires
            old(self).names.well_formed(),
            first <= n <= list@.len(),
            values_lowered(old(self).src(), old(self)@, *list, first as nat, n as nat) is Some,
        ensures
            final(self).follows(old(self)),
            values_lowered(old(self).src(), old(self)@, *list, first as nat, n as nat) == Some(
                final(self)@,
            ),
        decreases list, 0nat,
    {
        let ghost src = self.src();
        let ghost start = self@;
        let mut i: usize = first;
        while i < n
            invariant
                first <= i <= n <= list@.len(),
                self.follows(old(self)),
                src == old(self).src(),
                values_lowered(src, start, *list, first as nat, n as nat) is Some,
                values_lowered(src, start, *list, first as nat, i as nat) == Some(self@),
            decreases n - i,
        {
            proof {
                lemma_values_prefix(src, start, *list, first as nat, i as nat + 1, n as nat);
            }
            self.visit_within(None, ExpressionContext::Value, &list[i]);
            i = i + 1;
        }
    }

    /// Evaluates all of the arguments of a call (copies will be made
    /// automatically and new allocations will be created as necessary for
    /// aggregates, but for those that are passed as they are)
    fn visit_arguments(&mut self, immutable: &Vec<bool>, list: &Vec<Rc<Expression>>) -> (r: Vec<
        Operand,
    >)
        requires
            old(self).names.well_formed(),
            arguments_lowered(old(self).src(), old(self)@, immutable@, *list, list@.len()) is Some,
        ensures
            final(self).follows(old(self)),
            arguments_lowered(old(self).src(), old(self)@, immutable@, *list, list@.len()) == Some(
                (Passed { st: final(self)@, values: r@ }),
            ),
        decreases list, 0nat,
    {
        let ghost src = self.src();
        let ghost start = self@;
        let mut args: Vec<Operand> = Vec::new();
        let mut i: usize = 0;
        assert(args@ =~= Seq::empty());
        while i < list.len()
            invariant
                0 <= i <= list@.len(),
                self.follows(old(self)),
                src == old(self).src(),
                arguments_lowered(src, start, immutable@, *list, list@.len()) is Some,
                arguments_lowered(src, start, immutable@, *list, i as nat) == Some(
                    (Passed { st: self@, values: args@ }),
                ),
            decreases list@.len() - i,
        {
            proof {
                lemma_arguments_prefix(
                    src,
                    start,
                    immutable@,
                    *list,
                    i as nat + 1,
                    list@.len(),
                );
            }
            let as_is = i < immutable.len() && immutable[i] && self.can_share(&list[i]);
            self.visit_within(
                None,
                if as_is {
                    ExpressionContext::Place
                } else {
                    ExpressionContext::Value
                },
                &list[i],
            );
            args.push(self.operand(list[i].hir_id));
            i = i + 1;
        }
        args
    }

    /// Lowers the elements of an array, each in its place.
    fn visit_elements(&mut self, base: RegisterId, item: &Type, list: &Vec<Rc<Expression>>)
        requires
            old(self).names.well_formed(),
            elements_lowered(old(self).src(), old(self)@, base, item@, *list, list@.len()) is Some,
        ensures
            final(self).follows(old(self)),
            elements_lowered(old(self).src(), old(self)@, base, item@, *list, list@.len()) == Some(
                final(self)@,
            ),
        decreases list, 0nat,
    {
        let ghost src = self.src();
        let ghost start = self@;
        let ghost ty = item@;
        let mut i: usize = 0;
        while i < list.len()
            invariant
                0 <= i <= list@.len(),
                self.follows(old(self)),
                src == old(self).src(),
                ty == item@,
                elements_lowered(src, start, base, ty, *list, list@.len()) is Some,
                elements_lowered(src, start, base, ty, *list, i as nat) == Some(self@),
            decreases list@.len() - i,
        {
            proof {
                lemma_elements_prefix(src, start, base, ty, *list, i as nat + 1, list@.len());
            }
            let element_ptr_reg = self.emit_get_array_elem_ptr(
                Operand::Register(base),
                item.duplicate(),
                Operand::Immediate(Immediate::Int(i as u64, IntegerWidth::I64)),
            );
            self.visit_within(
                if item.is_aggregate() {
                    Some(element_ptr_reg)
                } else {
                    None
                },
                ExpressionContext::Value,
                &list[i],
            );
            // for scalar types, add a store into the memory we allocated for
            // the array element (aggregate types are already initialized in
            // place here)
            self.store_value(list[i].hir_id, element_ptr_reg, item);
            i = i + 1;
        }
    }

    /// Lowers the elements of a tuple, each in its place.
    fn visit_tuple(&mut self, base: RegisterId, struct_ty: &Struct, list: &Vec<Rc<Expression>>)
        requires
            old(self).names.well_formed(),
            tuple_lowered(
                old(self).src(),
                old(self)@,
                base,
                struct_ty@,
                *list,
                list@.len(),
            ) is Some,
        ensures
            final(self).follows(old(self)),
            tuple_lowered(
                old(self).src(),
                old(self)@,
                base,
                struct_ty@,
                *list,
                list@.len(),
            ) == Some(final(self)@),
        decreases list, 0nat,
    {
        let ghost src = self.src();
        let ghost start = self@;
        let ghost fields = struct_ty@;
        let mut i: usize = 0;
        while i < list.len()
            invariant
                0 <= i <= list@.len(),
                self.follows(old(self)),
                src == old(self).src(),
                fields == struct_ty@,
                tuple_lowered(src, start, base, fields, *list, list@.len()) is Some,
                tuple_lowered(src, start, base, fields, *list, i as nat) == Some(self@),
            decreases list@.len() - i,
        {
            proof {
                lemma_tuple_prefix(src, start, base, fields, *list, i as nat + 1, list@.len());
            }
            let mut text = "field ".to_owned();
            push_decimal(&mut text, i as u64);
            self.push_comment(text);
            let element_ptr_reg = self.emit_get_struct_elem_ptr(
                Operand::Register(base),
                struct_ty,
                i,
            );
            let elem_ty = self.type_of(list[i].hir_id);
            let elem_ty = lower_type(elem_ty.kind());
            self.visit_within(
                if elem_ty.is_aggregate() {
                    Some(element_ptr_reg)
                } else {
                    None
                },
                ExpressionContext::Value,
                &list[i],
            );
            self.store_value(list[i].hir_id, element_ptr_reg, &elem_ty);
            i = i + 1;
        }
    }

    /// Lowers the fields of a structure, each in its place.
    fn visit_fields(
        &mut self,
        base: RegisterId,
        struct_ty: &Struct,
        list: &Vec<Rc<StructInitializerField>>,
    )
        requires
            old(self).names.well_formed(),
            fields_lowered(
                old(self).src(),
                old(self)@,
                base,
                struct_ty@,
                *list,
                list@.len(),
            ) is Some,
        ensures
            final(self).follows(old(self)),
            fields_lowered(
                old(self).src(),
                old(self)@,
                base,
                struct_ty@,
                *list,
                list@.len(),
            ) == Some(final(self)@),
        decreases list, 0nat,
    {
        let ghost src = self.src();
        let ghost start = self@;
        let ghost fields = struct_ty@;
        let mut i: usize = 0;
        while i < list.len()
            invariant
                0 <= i <= list@.len(),
                self.follows(old(self)),
                src == old(self).src(),
                fields == struct_ty@,
                fields_lowered(src, start, base, fields, *list, list@.len()) is Some,
                fields_lowered(src, start, base, fields, *list, i as nat) == Some(self@),
            decreases list@.len() - i,
        {
            proof {
                lemma_fields_prefix(src, start, base, fields, *list, i as nat + 1, list@.len());
            }
            let field = &list[i];
            let mut text = "field ".to_owned();
            push_decimal(&mut text, i as u64);
            text.append(" (");
            text.append(self.names.value(field.name.symbol));
            text.append(")");
            self.push_comment(text);
            let element_ptr_reg = self.emit_get_struct_elem_ptr(
                Operand::Register(base),
                struct_ty,
                i,
            );
            let elem_ty = self.type_of(field.value.hir_id);
            let elem_ty = lower_type(elem_ty.kind());
            self.visit_within(
                if elem_ty.is_aggregate() {
                    Some(element_ptr_reg)
                } else {
                    None
                },
                ExpressionContext::Value,
                &field.value,
            );
            self.store_value(field.value.hir_id, element_ptr_reg, &elem_ty);
            i = i + 1;
        }
    }

    fn lower_array(&mut self, id: HirId, list: &Vec<Rc<Expression>>)
        requires
            old(self).names.well_formed(),
            array_lowered(old(self).src(), old(self)@, id, *list) is Some,
        ensures
            final(self).follows(old(self)),
            array_lowered(old(self).src(), old(self)@, id, *list) == Some(final(self)@),
        decreases list, 1nat,
    {
        let array_ty = self.type_of(id);
        let array_ty = lower_type(array_ty.kind());
        match &array_ty {
            Type::Array(inner_ty, _) => {
                let array_ptr_reg = self.place_or_alloc(self.destination_register, &array_ty);
                self.visit_elements(array_ptr_reg, inner_ty, list);
                self.set_operand(id, Operand::Register(array_ptr_reg));
            }
            _ => vstd::pervasive::unreached(),
        }
    }

    /// The structure that the value of an expression is, and the place for it.
    fn begin_structure(&mut self, id: HirId) -> (r: (RegisterId, Struct))
        requires
            old(self).names.well_formed(),
            structure_of(old(self).src(), old(self)@, id) is Some,
        ensures
            final(self).follows(old(self)),
            structure_of(old(self).src(), old(self)@, id) == Some(
                ((Emitted { st: final(self)@, reg: r.0 }), r.1@),
            ),
    {
        let ty = self.type_of(id);
        let lir_ty = lower_type(ty.kind());
        // Create a temporary if a destination was not already allocated
        let base = self.place_or_alloc(self.destination_register, &lir_ty);
        match lir_ty {
            Type::Struct(s) => {
                assert(lowered_ty(old(self).src().types.at(id))->0->Struct_0 =~= s@);
                (base, s)
            }
            _ => vstd::pervasive::unreached(),
        }
    }

    /// The type that a function returns, if any.
    fn returned_type(&self, signature: &FunctionSignature) -> (r: Option<ty::Type>)
        requires
            return_ty(self.src(), *signature) is Some,
        ensures
            return_ty(self.src(), *signature) == Some(optional_ty(r)),
    {
        match &signature.return_type {
            Some(ty) => Some(self.type_of(ty.hir_id)),
            None => None,
        }
    }

    /// Lowers both normal functions and method calls
    fn lower_function_call(
        &mut self,
        id: HirId,
        name: &Path,
        signature: &FunctionSignature,
        body: BodyId,
        own: Option<&Expression>,
        arguments: &Vec<Rc<Expression>>,
    )
        requires
            old(self).names.well_formed(),
            function_call_lowered(
                old(self).src(),
                old(self)@,
                id,
                *name,
                *signature,
                body,
                own_expression(own),
                *arguments,
            ) is Some,
        ensures
            final(self).follows(old(self)),
            function_call_lowered(
                old(self).src(),
                old(self)@,
                id,
                *name,
                *signature,
                body,
                own_expression(own),
                *arguments,
            ) == Some(final(self)@),
        decreases arguments, 1nat,
    {
        let return_type = self.returned_type(signature);
        let symbol = self.symbol_for(name);
        let self_value = match own {
            None => None,
            Some(target) => match signature.self_parameter {
                None => vstd::pervasive::unreached(),
                Some(parameter) => Some(self.self_operand(parameter, target)),
            },
        };
        let immutable = self.unchanging_parameters(body);
        let args = self.visit_arguments(&immutable, arguments);
        match self.call_function(symbol, self_value, args, &return_type) {
            Some(reg) => self.set_operand(id, Operand::Register(reg)),
            None => {}
        }
    }

    /// Deconstructs a format string into multiple function calls
    fn lower_print(&mut self, id: HirId, arguments: &Vec<Rc<Expression>>)
        requires
            old(self).names.well_formed(),
            print_lowered(old(self).src(), old(self)@, id, *arguments) is Some,
        ensures
            final(self).follows(old(self)),
            print_lowered(old(self).src(), old(self)@, id, *arguments) == Some(final(self)@),
        decreases arguments, 1nat,
    {
        let symbol = match &arguments[0].kind {
            ExpressionKind::Literal(Literal::String(symbol)) => *symbol,
            _ => vstd::pervasive::unreached(),
        };
        let format_string = self.names.value(symbol).to_owned();
        let parts = self.parse_format_string(format_string.as_str());
        if arguments.len() == 1 {
            self.visit_values(arguments, 0, arguments.len());
            let string = self.operand(arguments[0].hir_id);
            let value_reg = self.print_string(string);
            self.set_operand(id, Operand::Register(value_reg));
        } else {
            self.visit_values(arguments, 1, arguments.len());
            self.print_pieces(id, &parts, arguments);
        }
    }

    /// Makes a string of an address and a length.
    fn lower_str(&mut self, id: HirId, arguments: &Vec<Rc<Expression>>)
        requires
            old(self).names.well_formed(),
            str_lowered(old(self).src(), old(self)@, id, *arguments) is Some,
        ensures
            final(self).follows(old(self)),
            str_lowered(old(self).src(), old(self)@, id, *arguments) == Some(final(self)@),
        decreases arguments, 1nat,
    {
        self.visit_values(arguments, 0, 2);
        let values = self.operands(arguments, 2);
        self.build_string(id, values[0], values[1]);
    }

    /// Ends the program.
    fn lower_exit(&mut self, arguments: &Vec<Rc<Expression>>)
        requires
            old(self).names.well_formed(),
            exit_lowered(old(self).src(), old(self)@, *arguments) is Some,
        ensures
            final(self).follows(old(self)),
            exit_lowered(old(self).src(), old(self)@, *arguments) == Some(final(self)@),
        decreases arguments, 1nat,
    {
        self.visit_values(arguments, 0, 1);
        let values = self.operands(arguments, 1);
        let symbol = self.symbol("__$exit");
        let _ = self.emit_function_call(
            Operand::Immediate(Immediate::FunctionLabel(symbol)),
            values,
            None,
        );
    }

    /// Calls the operating system with a number and arguments.
    fn lower_system(
        &mut self,
        id: HirId,
        name: &str,
        number: u64,
        arguments: &Vec<Rc<Expression>>,
    )
        requires
            old(self).names.well_formed(),
            system_lowered(old(self).src(), old(self)@, id, name@, number, *arguments) is Some,
        ensures
            final(self).follows(old(self)),
            system_lowered(old(self).src(), old(self)@, id, name@, number, *arguments) == Some(final(self)@),
        decreases arguments, 1nat,
    {
        self.visit_values(arguments, 0, arguments.len());
        let mut values = self.operands(arguments, arguments.len());
        let ghost rest = values@;
        let first = Operand::Immediate(Immediate::Int(number, IntegerWidth::I64));
        values.insert(0, first);
        assert(values@ =~= seq![first] + rest);
        let value_reg = self.call_runtime(name, values);
        self.set_operand(id, Operand::Register(value_reg));
    }

    /// Opens a file.
    fn lower_open(&mut self, id: HirId, arguments: &Vec<Rc<Expression>>)
        requires
            old(self).names.well_formed(),
            open_lowered(old(self).src(), old(self)@, id, *arguments) is Some,
        ensures
            final(self).follows(old(self)),
            open_lowered(old(self).src(), old(self)@, id, *arguments) == Some(final(self)@),
        decreases arguments, 1nat,
    {
        let immutable: Vec<bool> = Vec::new();
        assert(immutable@ =~= Seq::empty());
        let passed = self.visit_arguments(&immutable, arguments);
        let ptr_ptr = self.emit_get_struct_elem_ptr(passed[0], &Struct::slice(), 0);
        let ptr = self.emit_load_mem(Operand::Register(ptr_ptr), Type::Pointer);
        let mut values: Vec<Operand> = Vec::new();
        values.push(Operand::Immediate(Immediate::Int(2, IntegerWidth::I64)));
        values.push(Operand::Register(ptr));
        values.push(passed[1]);
        values.push(passed[2]);
        assert(values@ =~= seq![
            crate::middle::lir::hir_lowering::state::word(2),
            Operand::Register(ptr),
            passed@[1],
            passed@[2],
        ]);
        let value_reg = self.call_runtime("__$syscall_3", values);
        self.set_operand(id, Operand::Register(value_reg));
    }

    /// Calls a built-in function.
    fn lower_intrinsic(
        &mut self,
        id: HirId,
        name: InternedSymbol,
        arguments: &Vec<Rc<Expression>>,
    )
        requires
            old(self).names.well_formed(),
            intrinsic_lowered(old(self).src(), old(self)@, id, name, *arguments) is Some,
        ensures
            final(self).follows(old(self)),
            intrinsic_lowered(old(self).src(), old(self)@, id, name, *arguments) == Some(final(self)@),
        decreases arguments, 2nat,
    {
        let text = self.names.value(name).to_owned();
        if same_text(text.as_str(), "print") {
            self.lower_print(id, arguments);
        } else if same_text(text.as_str(), "str") {
            self.lower_str(id, arguments);
        } else if same_text(text.as_str(), "exit") {
            self.lower_exit(arguments);
        } else if same_text(text.as_str(), "read") {
            self.lower_system(id, "__$syscall_3", 0, arguments);
        } else if same_text(text.as_str(), "open") {
            self.lower_open(id, arguments);
        } else {
            self.lower_system(id, "__$syscall_1", 3, arguments);
        }
    }

    /// Lowers a call whose target has been lowered.
    fn lower_call(&mut self, id: HirId, target: &Expression, arguments: &Vec<Rc<Expression>>)
        requires
            old(self).names.well_formed(),
            call_lowered(old(self).src(), old(self)@, id, *target, *arguments) is Some,
        ensures
            final(self).follows(old(self)),
            call_lowered(old(self).src(), old(self)@, id, *target, *arguments) == Some(final(self)@),
        decreases arguments, 3nat,
    {
        match &target.kind {
            ExpressionKind::Path(path) => match path.resolution() {
                Resolution::Definition(_, def_id) => {
                    let item = self.item_of(*def_id);
                    match &item.kind {
                        ItemKind::Function { name, signature, body } => {
                            self.lower_function_call(id, name, signature, *body, None, arguments)
                        }
                        _ => vstd::pervasive::unreached(),
                    }
                }
                Resolution::IntrinsicFunction(name) => {
                    self.lower_intrinsic(id, *name, arguments)
                }
                _ => vstd::pervasive::unreached(),
            },
            ExpressionKind::FieldAccess { target: owner, .. } => {
                let resolved = match self.type_map.function_results.get(&self.owner_id.0) {
                    Some(results) => {
                        match results.method_resolutions.get(&target.hir_id.local_id.0) {
                            Some(def_id) => *def_id,
                            None => vstd::pervasive::unreached(),
                        }
                    }
                    None => vstd::pervasive::unreached(),
                };
                let item = self.item_of(resolved);
                match &item.kind {
                    ItemKind::Function { name, signature, body } => {
                        self.lower_function_call(
                            id,
                            name,
                            signature,
                            *body,
                            Some(&**owner),
                            arguments,
                        )
                    }
                    _ => vstd::pervasive::unreached(),
                }
            }
            _ => vstd::pervasive::unreached(),
        }
    }

    /// For logical boolean operators we need to add short circuiting blocks
    /// into the calculation.
    fn lower_logical(&mut self, e: &Expression)
        requires
            old(self).names.well_formed(),
            logical_lowered(old(self).src(), old(self)@, *e) is Some,
        ensures
            final(self).follows(old(self)),
            logical_lowered(old(self).src(), old(self)@, *e) == Some(final(self)@),
        decreases e, 3nat,
    {
        match &e.kind {
            ExpressionKind::Binary { lhs, operator, rhs } => {
                let is_and = matches!(*operator, BinaryOperatorKind::LogicalAnd);
                self.visit_within(None, ExpressionContext::Value, lhs);
                let lhs_last = self.block_stack[self.block_stack.len() - 1];
                let rhs_first = self.create_block();
                self.enter_block(rhs_first);
                self.visit_within(None, ExpressionContext::Value, rhs);
                self.leave_block();
                // the most recently created block is the block we need to
                // insert the merge jump into. if no blocks were created while
                // visiting the subexpression, its still the current block.
                let rhs_last = self.last_block();
                let fallthrough = self.create_block();
                let merge = self.create_block();
                let lhs_value = self.operand(lhs.hir_id);
                let rhs_value = self.operand(rhs.hir_id);
                let dest_reg = self.join_logical(
                    LogicalBlocks { lhs_last, rhs_first, rhs_last, fallthrough, merge },
                    is_and,
                    lhs_value,
                    rhs_value,
                );
                self.set_operand(e.hir_id, Operand::Register(dest_reg));
            }
            _ => vstd::pervasive::unreached(),
        }
    }

    fn lower_binary_op(&mut self, e: &Expression)
        requires
            old(self).names.well_formed(),
            binary_lowered(old(self).src(), old(self)@, *e) is Some,
        ensures
            final(self).follows(old(self)),
            binary_lowered(old(self).src(), old(self)@, *e) == Some(final(self)@),
        decreases e, 4nat,
    {
        match &e.kind {
            ExpressionKind::Binary { lhs, operator, rhs } => {
                if matches!(
                    *operator,
                    BinaryOperatorKind::LogicalAnd | BinaryOperatorKind::LogicalOr
                ) {
                    self.lower_logical(e);
                } else {
                    let output_ty = self.type_of(e.hir_id);
                    let operand_ty = self.type_of(lhs.hir_id);
                    self.visit_within(None, ExpressionContext::Value, lhs);
                    self.visit_within(None, ExpressionContext::Value, rhs);
                    let lhs_value = self.operand(lhs.hir_id);
                    let rhs_value = self.operand(rhs.hir_id);
                    let dest_reg = self.lower_binary_op_helper(
                        output_ty.kind(),
                        operand_ty.kind(),
                        *operator,
                        lhs_value,
                        rhs_value,
                    );
                    self.set_operand(e.hir_id, Operand::Register(dest_reg));
                }
            }
            _ => vstd::pervasive::unreached(),
        }
    }

    fn lower_unary(&mut self, e: &Expression)
        requires
            old(self).names.well_formed(),
            unary_lowered(old(self).src(), old(self)@, *e) is Some,
        ensures
            final(self).follows(old(self)),
            unary_lowered(old(self).src(), old(self)@, *e) == Some(final(self)@),
        decreases e, 4nat,
    {
        match &e.kind {
            ExpressionKind::Unary { operator, operand } => match *operator {
                // the deref operator has different meanings based on the
                // current context
                UnaryOperatorKind::Deref => {
                    self.visit_within(None, ExpressionContext::Value, operand);
                    self.lower_deref(e.hir_id, operand);
                }
                // return the pointer l-value as an r-value (maps between
                // contexts)
                UnaryOperatorKind::AddressOf { .. } => {
                    self.visit_within(None, ExpressionContext::Place, operand);
                    let dest = self.operand(operand.hir_id);
                    self.set_operand(e.hir_id, dest);
                }
                // remaining unary operators are just trivial r-value -> r-value
                // transformations
                _ => {
                    self.visit_within(None, ExpressionContext::Value, operand);
                    self.lower_unary_value(e.hir_id, *operator, operand);
                }
            },
            _ => vstd::pervasive::unreached(),
        }
    }
}

/// The expression that a method is called on.
pub open spec fn own_expression(own: Option<&Expression>) -> Option<Expression> {
    match own {
        Some(e) => Some(*e),
        None => None,
    }
}

impl<'hir> BodyLoweringContext<'hir> {
    /// Starts a conditional whose condition has been lowered.
    fn start_conditional(&mut self, id: HirId, condition: HirId) -> (r: Conditional)
        requires
            old(self).names.well_formed(),
            conditional_started(old(self).src(), old(self)@, id, condition) is Some,
        ensures
            final(self).follows(old(self)),
            conditional_started(old(self).src(), old(self)@, id, condition) == Some(
                (final(self)@, r),
            ),
    {
        let condition = self.operand(condition);
        let ty = self.type_of(id);
        // If the implicit return value of the conditional expression is an
        // aggregate type, we thread the target destination through the context
        // for it to be constructed in-place instead of creating phi nodes in
        // the merge block
        let aggregate = if ty.kind().is_aggregate() {
            let lir_ty = lower_type(ty.kind());
            Some(self.place_or_alloc(self.destination_register, &lir_ty))
        } else {
            None
        };
        let start = self.block_stack[self.block_stack.len() - 1];
        let positive = self.create_block();
        self.link(positive, start);
        Conditional { condition, aggregate, start, positive }
    }

    /// Ends a conditional without a second branch: the block behind it is also
    /// where the condition leads to if it fails.
    fn end_short_conditional(
        &mut self,
        started: Conditional,
        id: HirId,
        kind: &TypeKind,
        value: HirId,
    )
        requires
            old(self).names.well_formed(),
            short_conditional(
                old(self)@,
                started,
                id,
                kind.model(),
                value,
            ) is Some,
        ensures
            final(self).follows(old(self)),
            short_conditional(
                old(self)@,
                started,
                id,
                kind.model(),
                value,
            ) == Some(final(self)@),
    {
        let last = self.last_block();
        let merge = self.create_block();
        self.link(merge, started.start);
        let mut sources: BTreeMap<u32, Operand> = BTreeMap::new();
        assert(sources@ =~= Map::empty());
        self.merge_branch(&mut sources, last, merge, value, is_selected(kind));
        self.join_conditional(
            sources,
            ConditionalBlocks {
                start: started.start,
                positive: started.positive,
                negative: merge,
                merge,
            },
            id,
            kind,
            started.condition,
            started.aggregate,
        );
    }

    /// Ends a conditional whose two branches have been lowered.
    fn end_long_conditional(
        &mut self,
        started: Conditional,
        id: HirId,
        kind: &TypeKind,
        positive_value: HirId,
        positive_last: BlockId,
        negative: BlockId,
        negative_value: HirId,
    )
        requires
            old(self).names.well_formed(),
            long_conditional(
                old(self).src(),
                old(self)@,
                started,
                id,
                kind.model(),
                positive_value,
                positive_last,
                negative,
                negative_value,
            ) is Some,
        ensures
            final(self).follows(old(self)),
            long_conditional(
                old(self).src(),
                old(self)@,
                started,
                id,
                kind.model(),
                positive_value,
                positive_last,
                negative,
                negative_value,
            ) == Some(final(self)@),
    {
        let merge = self.create_block();
        let mut sources: BTreeMap<u32, Operand> = BTreeMap::new();
        assert(sources@ =~= Map::empty());
        let negative_ty = self.type_of(negative_value);
        if !negative_ty.kind().is_never() {
            let negative_last: BlockId = BlockId::new(self.block_map.len() - 2);
            self.merge_branch(
                &mut sources,
                negative_last,
                merge,
                negative_value,
                is_selected(kind),
            );
        }
        self.merge_branch(&mut sources, positive_last, merge, positive_value, is_selected(kind));
        self.join_conditional(
            sources,
            ConditionalBlocks {
                start: started.start,
                positive: started.positive,
                negative,
                merge,
            },
            id,
            kind,
            started.condition,
            started.aggregate,
        );
    }

    /// For if expressions, there are 2 possible cases. In the first case where
    /// there is no else, we allocate a new block for the positive branch and a
    /// new block to act as both the negative fallthrough and the merge point.
    /// In the second case where there is an else, we allocate a new block for
    /// the positive branch, a new block for the negative branch, and a new
    /// block for the merge point.
    fn lower_if(&mut self, e: &Expression)
        requires
            old(self).names.well_formed(),
            if_lowered(old(self).src(), old(self)@, *e) is Some,
        ensures
            final(self).follows(old(self)),
            if_lowered(old(self).src(), old(self)@, *e) == Some(final(self)@),
        decreases e, 4nat,
    {
        match &e.kind {
            ExpressionKind::If { condition, positive, negative } => {
                self.visit_within(None, ExpressionContext::Value, condition);
                let started = self.start_conditional(e.hir_id, condition.hir_id);
                let ty = self.type_of(e.hir_id);
                let prev_dest = self.destination_register;
                let prev_ctx = self.expression_context;
                self.enter_block(started.positive);
                self.enter_context(started.aggregate, ExpressionContext::Value);
                self.visit_block(positive);
                self.enter_context(prev_dest, prev_ctx);
                self.leave_block();
                match negative {
                    None => self.end_short_conditional(
                        started,
                        e.hir_id,
                        ty.kind(),
                        positive.hir_id,
                    ),
                    Some(n) => {
                        // the most recently created block is the block we need
                        // to insert the merge jump into. if no blocks were
                        // created while visiting the subexpression, its still
                        // the current block.
                        let positive_last = self.last_block();
                        let negative_block = self.create_block();
                        self.link(negative_block, started.start);
                        self.enter_block(negative_block);
                        self.visit_within(started.aggregate, ExpressionContext::Value, n);
                        self.leave_block();
                        self.end_long_conditional(
                            started,
                            e.hir_id,
                            ty.kind(),
                            positive.hir_id,
                            positive_last,
                            negative_block,
                            n.hir_id,
                        );
                    }
                }
            }
            _ => vstd::pervasive::unreached(),
        }
    }

    /// ```text
    /// .while_condition:
    ///     %0 = %i < %n
    ///     br %0 .while_body .while_end
    /// .while_body:
    ///     jmp .while_condition
    /// .while_end:
    /// ```
    fn lower_while(&mut self, e: &Expression)
        requires
            old(self).names.well_formed(),
            while_lowered(old(self).src(), old(self)@, *e) is Some,
        ensures
            final(self).follows(old(self)),
            while_lowered(old(self).src(), old(self)@, *e) == Some(final(self)@),
        decreases e, 4nat,
    {
        match &e.kind {
            ExpressionKind::While { condition, block } => {
                let current_block_id = self.block_stack[self.block_stack.len() - 1];
                let condition_block_id = self.create_block();
                self.link(condition_block_id, current_block_id);
                let ghost linked = self@;
                let ctx = LoopContext {
                    start_block: condition_block_id,
                    break_instructions: Vec::new(),
                };
                assert(ctx@.break_instructions =~= Seq::empty());
                self.loop_ctx_stack.push(ctx);
                assert(self@.loops =~= linked.loops.push(ctx@));
                self.enter_block(condition_block_id);
                self.visit_within(None, ExpressionContext::Value, condition);
                self.leave_block();
                let condition_last = self.last_block();
                // Loop Body
                let body = self.create_block();
                let prev_dest = self.destination_register;
                let prev_ctx = self.expression_context;
                self.enter_block(body);
                self.enter_context(None, ExpressionContext::Value);
                self.visit_block(block);
                self.enter_context(prev_dest, prev_ctx);
                self.leave_block();
                let body_last = self.last_block();
                self.join_loop(
                    LoopBlocks { condition: condition_block_id, condition_last, body, body_last },
                    condition,
                );
            }
            _ => vstd::pervasive::unreached(),
        }
    }

    fn lower_assignment(&mut self, e: &Expression)
        requires
            old(self).names.well_formed(),
            assignment_lowered(old(self).src(), old(self)@, *e) is Some,
        ensures
            final(self).follows(old(self)),
            assignment_lowered(old(self).src(), old(self)@, *e) == Some(final(self)@),
        decreases e, 4nat,
    {
        match &e.kind {
            ExpressionKind::Assignment { lhs, rhs } => {
                // get the pointer we're assigning into
                self.visit_within(None, ExpressionContext::Place, lhs);
                let ptr_reg = self.place_register(lhs);
                // evaluate the value and store it if it was not constructed in
                // place with the provided aggregate destination register
                let ty = self.type_of(rhs.hir_id);
                let lir_ty = lower_type(ty.kind());
                self.visit_within(
                    if lir_ty.is_aggregate() {
                        Some(ptr_reg)
                    } else {
                        None
                    },
                    ExpressionContext::Value,
                    rhs,
                );
                self.store_value(rhs.hir_id, ptr_reg, &lir_ty);
            }
            _ => vstd::pervasive::unreached(),
        }
    }

    fn visit_expression(&mut self, e: &Expression)
        requires
            old(self).names.well_formed(),
            expression_lowered(old(self).src(), old(self)@, *e) is Some,
        ensures
            final(self).follows(old(self)),
            expression_lowered(old(self).src(), old(self)@, *e) == Some(final(self)@),
        decreases e, 5nat,
    {
        match &e.kind {
            ExpressionKind::Literal(literal) => self.lower_literal(e.hir_id, literal),
            ExpressionKind::Path(path) => self.lower_path(e.hir_id, path),
            ExpressionKind::This => self.lower_this(e.hir_id),
            ExpressionKind::Array(ArrayInitializer::Specific(values)) => {
                self.lower_array(e.hir_id, values)
            }
            ExpressionKind::Tuple(expressions) => {
                let (base, struct_ty) = self.begin_structure(e.hir_id);
                self.visit_tuple(base, &struct_ty, expressions);
                self.set_operand(e.hir_id, Operand::Register(base));
            }
            ExpressionKind::Struct { fields, .. } => {
                let (base, struct_ty) = self.begin_structure(e.hir_id);
                self.visit_fields(base, &struct_ty, fields);
                self.set_operand(e.hir_id, Operand::Register(base));
            }
            ExpressionKind::Block(block) => {
                let prev_dest = self.destination_register;
                let prev_ctx = self.expression_context;
                self.enter_context(prev_dest, ExpressionContext::Value);
                self.visit_block(block);
                self.enter_context(prev_dest, prev_ctx);
                if self.expression_to_operand_map.contains_key(&block.hir_id.local_id.0) {
                    let value = self.operand(block.hir_id);
                    self.set_operand(e.hir_id, value);
                }
            }
            ExpressionKind::FieldAccess { target, name, is_method_call, dereference } => {
                // target should evaluate to a location in memory where we can
                // read the value of the field from (ptr)
                self.visit_within(None, ExpressionContext::Place, target);
                // method calls are handled in the function call visitor. theres
                // nothing we need to do here.
                if !*is_method_call {
                    self.lower_field(e.hir_id, target, name, *dereference);
                }
            }
            ExpressionKind::FunctionCall { target, arguments } => {
                self.visit_within(None, ExpressionContext::Value, target);
                self.lower_call(e.hir_id, target, arguments);
            }
            ExpressionKind::Subscript { target, index } => {
                self.visit_within(None, ExpressionContext::Place, target);
                self.visit_within(None, ExpressionContext::Value, index);
                self.lower_subscript(e.hir_id, target, index);
            }
            ExpressionKind::Binary { .. } => self.lower_binary_op(e),
            ExpressionKind::Unary { .. } => self.lower_unary(e),
            ExpressionKind::Cast { expression: castee, ty } => {
                self.visit_within(None, ExpressionContext::Value, castee);
                self.lower_cast(e.hir_id, castee, ty);
            }
            ExpressionKind::If { .. } => self.lower_if(e),
            ExpressionKind::While { .. } => self.lower_while(e),
            ExpressionKind::Assignment { .. } => self.lower_assignment(e),
            ExpressionKind::Break => self.lower_break(),
            ExpressionKind::Continue => self.lower_continue(),
            ExpressionKind::Return(value) => {
                match value {
                    None => {}
                    Some(v) => self.visit_within(self.struct_return, ExpressionContext::Value, v),
                }
                self.lower_return(value);
            }
            ExpressionKind::Array(ArrayInitializer::Repeated { .. })
            | ExpressionKind::OperatorAssignment { .. } => vstd::pervasive::unreached(),
        }
    }

    /// Creates a register for an argument.
    fn create_argument(&mut self, ty: &ty::Type) -> (r: RegisterId)
        requires
            old(self).names.well_formed(),
            with_argument(old(self)@, ty@) is Some,
        ensures
            final(self).follows(old(self)),
            with_argument(old(self)@, ty@) == Some((Emitted { st: final(self)@, reg: r })),
    {
        let id = self.create_register(ty);
        self.arguments.push(id);
        id
    }

    /// Creates the registers of a function before its body.
    fn enter_function(
        &mut self,
        signature: &FunctionSignature,
        params: &Vec<Rc<FunctionParameter>>,
    )
        requires
            old(self).names.well_formed(),
            entry_lowered(old(self).src(), old(self)@, *signature, params@) is Some,
        ensures
            final(self).follows(old(self)),
            entry_lowered(old(self).src(), old(self)@, *signature, params@) == Some(final(self)@),
    {
        match self.returned_type(signature) {
            Some(return_type) => if return_type.kind().is_aggregate() {
                let sret_reg = self.create_register_with_lir_type(Type::Pointer);
                self.struct_return = Some(sret_reg);
            },
            None => {}
        }
        let self_ty = match self.type_map.function_results.get(&self.owner_id.0) {
            Some(results) => match &results.self_type {
                Some(ty) => Some(ty.duplicate()),
                None => None,
            },
            None => vstd::pervasive::unreached(),
        };
        match &self_ty {
            Some(ty) => {
                let _ = self.create_argument(ty);
            }
            None => {}
        }
        let tys = &signature.parameters;
        let count: usize = if params.len() < tys.len() {
            params.len()
        } else {
            tys.len()
        };
        let ghost src = self.src();
        let ghost start = self@;
        let mut i: usize = 0;
        while i < count
            invariant
                0 <= i <= count,
                count <= params@.len(),
                count <= tys@.len(),
                self.follows(old(self)),
                src == old(self).src(),
                parameters_lowered(src, start, params@, tys@, count as nat) is Some,
                parameters_lowered(src, start, params@, tys@, i as nat) == Some(self@),
            decreases count - i,
        {
            proof {
                lemma_parameters_prefix(src, start, params@, tys@, i as nat + 1, count as nat);
            }
            let ty = self.type_of(tys[i].hir_id);
            let id = self.create_argument(&ty);
            self.local_to_register_map.insert(params[i].hir_id.local_id.0, id);
            i = i + 1;
        }
    }

    /// Returns a scalar, or nothing, from the last block.
    fn return_at_end(&mut self, value: Option<Operand>)
        requires
            old(self).names.well_formed(),
            end_returned(old(self).src(), old(self)@, value) is Some,
        ensures
            final(self).follows(old(self)),
            end_returned(old(self).src(), old(self)@, value) == Some(final(self)@),
    {
        // Main implicitly returns 0 even if there is no return value
        let given = match value {
            Some(v) => Some(v),
            None => if self.within_main() {
                Some(Operand::Immediate(Immediate::Int(0, IntegerWidth::I8)))
            } else {
                None
            },
        };
        let current_block = self.last_block();
        self.push_into(current_block, Instruction::Return { value: given });
    }

    /// Returns from a function at its end.
    fn end_function(&mut self, block: &Block)
        requires
            old(self).names.well_formed(),
            end_lowered(old(self).src(), old(self)@, *block) is Some,
        ensures
            final(self).follows(old(self)),
            end_lowered(old(self).src(), old(self)@, *block) == Some(final(self)@),
    {
        match &block.expression {
            Some(e) => {
                let ty = self.type_of(e.hir_id);
                if ty.kind().is_aggregate() {
                    let dest_struct_ptr = match self.struct_return {
                        Some(reg) => reg,
                        None => vstd::pervasive::unreached(),
                    };
                    let src_struct_ptr = self.operand(e.hir_id);
                    let lir_ty = lower_type(ty.kind());
                    let _ = self.lower_copy(Some(dest_struct_ptr), src_struct_ptr, &lir_ty);
                    self.push_instruction(Instruction::Return { value: None });
                } else if self.expression_to_operand_map.contains_key(&e.hir_id.local_id.0) {
                    let value = self.operand(e.hir_id);
                    self.return_at_end(Some(value));
                } else {
                    self.return_at_end(None);
                }
            }
            None => self.return_at_end(None),
        }
    }

    /// Lowers a function.
    pub fn visit_function_definition(&mut self, signature: &FunctionSignature, body: BodyId)
        requires
            old(self).names.well_formed(),
            function_lowered(old(self).src(), old(self)@, *signature, body) is Some,
        ensures
            final(self).follows(old(self)),
            function_lowered(old(self).src(), old(self)@, *signature, body) == Some(final(self)@),
    {
        proof {
            reveal(function_lowered);
        }
        let body = self.module.get_body(body);
        self.enter_function(signature, &body.params);
        let block_id = self.create_block();
        self.enter_block(block_id);
        self.visit_block(&body.block);
        self.end_function(&body.block);
    }
}

} // verus!
