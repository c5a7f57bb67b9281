//! Walks the HIR and checks every node of it.

use crate::middle::hir;
use crate::middle::hir::{
    ArrayInitializer, Block, BodyId, Expression, ExpressionKind, FunctionParameter,
    FunctionSignature, Item, ItemKind, LetStatement, Path, Statement, StatementKind,
    StructInitializerField,
};
use crate::middle::ty::Type;
use crate::middle::type_check::checker::TypeChecker;
use crate::middle::type_check::context::self_ty;
use crate::middle::type_check::error::{
    LoopControlFlowKind, TypeBoundary, TypeErrorKind,
};
use crate::middle::type_check::rules::{
    bare_checked, block_checked, block_rule, body_checked, copied, diverges, expression_checked,
    expression_rule, expressions_checked, field_types_checked, fields_checked, function_checked,
    implicit_return, item_checked, let_checked, let_rule, parameters_copied, parts_checked,
    signature_checked, statement_checked, statements_checked, type_checked, types_checked, Checking,
    Place,
};
use std::rc::Rc;
use vstd::prelude::*;

verus! {

impl<'hir> TypeChecker<'hir> {
    fn visit_types(&mut self, list: &Vec<Rc<hir::Type>>)
        requires
            old(self).well_formed(),
            types_checked(old(self).place(), old(self)@, *list, list@.len()) is Some,
        ensures
            final(self).same_place(old(self)),
            types_checked(old(self).place(), old(self)@, *list, list@.len()) == Some(
                final(self)@,
            ),
        decreases list,
    {
        let ghost p = self.place();
        let ghost st = self@;
        let mut i: usize = 0;
        while i < list.len()
            invariant
                0 <= i <= list@.len(),
                self.same_place(old(self)),
                p == self.place(),
                p == old(self).place(),
                types_checked(p, st, *list, list@.len()) is Some,
                types_checked(p, st, *list, i as nat) == Some(self@),
            decreases list@.len() - i,
        {
            proof {
                lemma_types_prefix(p, st, *list, i as nat + 1, list@.len());
            }
            self.visit_type(&list[i]);
            i = i + 1;
        }
    }

    /// Precompute types in function parameters and local bindings
    pub fn visit_type(&mut self, ty: &hir::Type)
        requires
            old(self).well_formed(),
            type_checked(old(self).place(), old(self)@, *ty) is Some,
        ensures
            final(self).same_place(old(self)),
            type_checked(old(self).place(), old(self)@, *ty) == Some(final(self)@),
        decreases ty,
    {
        match &ty.kind {
            hir::TypeKind::Unit | hir::TypeKind::Any => {}
            hir::TypeKind::Path(path) => self.walk_path(path),
            hir::TypeKind::Pointer(inner) => self.visit_type(inner),
            hir::TypeKind::Slice(inner) => self.visit_type(inner),
            hir::TypeKind::Array { ty: inner, .. } => self.visit_type(inner),
            hir::TypeKind::Tuple(list) => self.visit_types(list),
            hir::TypeKind::FunctionPointer { parameters, return_type, .. } => {
                self.visit_types(parameters);
                if let Some(returned) = return_type {
                    self.visit_type(returned);
                }
            }
        }
        let computed_ty = self.type_context.compute_hir_type(ty);
        self.insert_type(ty.hir_id, computed_ty);
    }

    fn visit_expressions(&mut self, list: &Vec<Rc<Expression>>)
        requires
            old(self).well_formed(),
            expressions_checked(old(self).place(), old(self)@, *list, list@.len()) is Some,
        ensures
            final(self).same_place(old(self)),
            expressions_checked(old(self).place(), old(self)@, *list, list@.len()) == Some(
                final(self)@,
            ),
        decreases list,
    {
        let ghost p = self.place();
        let ghost st = self@;
        let mut i: usize = 0;
        while i < list.len()
            invariant
                0 <= i <= list@.len(),
                self.same_place(old(self)),
                p == self.place(),
                p == old(self).place(),
                expressions_checked(p, st, *list, list@.len()) is Some,
                expressions_checked(p, st, *list, i as nat) == Some(self@),
            decreases list@.len() - i,
        {
            proof {
                lemma_expressions_prefix(p, st, *list, i as nat + 1, list@.len());
            }
            self.visit_expression(&list[i]);
            i = i + 1;
        }
    }

    fn visit_struct_initializer_fields(&mut self, list: &Vec<Rc<StructInitializerField>>)
        requires
            old(self).well_formed(),
            fields_checked(old(self).place(), old(self)@, *list, list@.len()) is Some,
        ensures
            final(self).same_place(old(self)),
            fields_checked(old(self).place(), old(self)@, *list, list@.len()) == Some(
                final(self)@,
            ),
        decreases list,
    {
        let ghost p = self.place();
        let ghost st = self@;
        let mut i: usize = 0;
        while i < list.len()
            invariant
                0 <= i <= list@.len(),
                self.same_place(old(self)),
                p == self.place(),
                p == old(self).place(),
                fields_checked(p, st, *list, list@.len()) is Some,
                fields_checked(p, st, *list, i as nat) == Some(self@),
            decreases list@.len() - i,
        {
            proof {
                lemma_fields_prefix(p, st, *list, i as nat + 1, list@.len());
            }
            self.visit_struct_initializer_field(&list[i]);
            i = i + 1;
        }
    }

    fn visit_struct_initializer_field(&mut self, field: &StructInitializerField)
        requires
            old(self).well_formed(),
            expression_checked(old(self).place(), old(self)@, *field.value) is Some,
            copied(
                old(self).place(),
                expression_checked(old(self).place(), old(self)@, *field.value)->0,
                field.hir_id,
                field.value.hir_id.local_id,
            ) is Some,
        ensures
            final(self).same_place(old(self)),
            copied(
                old(self).place(),
                expression_checked(old(self).place(), old(self)@, *field.value)->0,
                field.hir_id,
                field.value.hir_id.local_id,
            ) == Some(final(self)@),
        decreases field,
    {
        self.visit_expression(&field.value);
        self.copy_type_from(field.hir_id, field.value.hir_id.local_id);
    }

    /// Checks the parts of an expression in order.
    #[verifier::rlimit(60)]
    fn walk_expression(&mut self, expression: &Expression)
        requires
            old(self).well_formed(),
            parts_checked(old(self).place(), old(self)@, *expression) is Some,
        ensures
            final(self).same_place(old(self)),
            parts_checked(old(self).place(), old(self)@, *expression) == Some(final(self)@),
        decreases expression, 0nat,
    {
        match &expression.kind {
            ExpressionKind::Literal(_)
            | ExpressionKind::This
            | ExpressionKind::Break
            | ExpressionKind::Continue => {}
            ExpressionKind::Path(path) => self.walk_path(path),
            ExpressionKind::Array(initializer) => match initializer {
                ArrayInitializer::Repeated { value, .. } => self.visit_expression(value),
                ArrayInitializer::Specific(list) => self.visit_expressions(list),
            },
            ExpressionKind::Tuple(list) => self.visit_expressions(list),
            ExpressionKind::Struct { name, fields } => {
                self.walk_path(name);
                self.visit_struct_initializer_fields(fields);
            }
            ExpressionKind::Block(block) => self.visit_block(block, false),
            ExpressionKind::FieldAccess { target, .. } => self.visit_expression(target),
            ExpressionKind::FunctionCall { target, arguments } => {
                self.visit_expression(target);
                self.visit_expressions(arguments);
            }
            ExpressionKind::Subscript { target, index } => {
                self.visit_expression(target);
                self.visit_expression(index);
            }
            ExpressionKind::Binary { lhs, rhs, .. } => {
                self.visit_expression(lhs);
                self.visit_expression(rhs);
            }
            ExpressionKind::Unary { operand, .. } => self.visit_expression(operand),
            ExpressionKind::Cast { expression, ty } => {
                self.visit_expression(expression);
                self.visit_type(ty);
            }
            ExpressionKind::If { condition, positive, negative } => {
                self.visit_expression(condition);
                self.visit_block(positive, false);
                if let Some(n) = negative {
                    self.visit_expression(n);
                }
            }
            ExpressionKind::While { condition, block } => {
                self.visit_expression(condition);
                self.visit_block(block, true);
            }
            ExpressionKind::Assignment { lhs, rhs } => {
                self.visit_expression(lhs);
                self.visit_expression(rhs);
            }
            ExpressionKind::OperatorAssignment { lhs, rhs, .. } => {
                self.visit_expression(lhs);
                self.visit_expression(rhs);
            }
            ExpressionKind::Return(value) => {
                if let Some(v) = value {
                    self.visit_expression(v);
                }
            }
        }
    }

    /// Checks an expression whose parts have been checked.
    fn check_expression(&mut self, expression: &Expression)
        requires
            old(self).well_formed(),
            expression_rule(old(self).place(), old(self)@, *expression) is Some,
        ensures
            final(self).same_place(old(self)),
            expression_rule(old(self).place(), old(self)@, *expression) == Some(final(self)@),
    {
        let id = expression.hir_id;
        let span = expression.span;
        match &expression.kind {
            ExpressionKind::Literal(literal) => {
                let ty = self.compute_type_for_literal(literal);
                self.insert_type(id, ty);
            }
            ExpressionKind::Path(path) => self.check_path(id, path),
            ExpressionKind::This => self.check_this(id, span),
            ExpressionKind::Array(initializer) => self.check_array(id, initializer),
            ExpressionKind::Tuple(list) => self.check_tuple(id, list),
            ExpressionKind::Struct { name, fields } => self.check_struct(id, span, name, fields),
            ExpressionKind::Block(block) => self.copy_type_from(id, block.hir_id.local_id),
            ExpressionKind::FieldAccess { target, name, is_method_call, .. } => {
                self.check_field_access(id, target, *name, *is_method_call)
            }
            ExpressionKind::FunctionCall { target, arguments } => {
                self.check_call(id, span, target, arguments)
            }
            ExpressionKind::Subscript { .. } => vstd::pervasive::unreached(),
            ExpressionKind::Binary { lhs, operator, rhs } => {
                self.check_binary(id, span, lhs, *operator, rhs)
            }
            ExpressionKind::Unary { operator, operand } => {
                self.check_unary(id, span, *operator, operand)
            }
            ExpressionKind::Cast { expression, ty } => self.check_cast(id, span, expression, ty),
            ExpressionKind::If { condition, positive, negative } => {
                self.check_if(id, condition, positive, negative)
            }
            ExpressionKind::While { condition, block } => self.check_while(id, condition, block),
            ExpressionKind::Assignment { lhs, rhs } => self.check_assignment(id, span, lhs, rhs),
            ExpressionKind::OperatorAssignment { operator, lhs, rhs } => {
                self.check_operator_assignment(id, span, *operator, lhs, rhs)
            }
            ExpressionKind::Break => self.check_jump(id, span, LoopControlFlowKind::Break),
            ExpressionKind::Continue => self.check_jump(id, span, LoopControlFlowKind::Continue),
            ExpressionKind::Return(value) => self.check_return(id, span, value),
        }
    }

    /// Checks an expression and all its parts.
    pub fn visit_expression(&mut self, expression: &Expression)
        requires
            old(self).well_formed(),
            expression_checked(old(self).place(), old(self)@, *expression) is Some,
        ensures
            final(self).same_place(old(self)),
            expression_checked(old(self).place(), old(self)@, *expression) == Some(
                final(self)@,
            ),
        decreases expression, 1nat,
    {
        self.walk_expression(expression);
        self.check_expression(expression);
    }

    /// Checks the binding of a let statement whose parts have been checked.
    ///
    /// 4 cases:
    ///   1) no type no   initializer -> recoverable error
    ///   2)    type no   initializer -> assign type to binding
    ///   3) no type with initializer -> assign initializer type to binding
    ///   4)    type with initializer -> assign type to binding + add constraint on initializer
    fn check_let(&mut self, let_stmt: &LetStatement)
        requires
            old(self).well_formed(),
            let_rule(old(self).place(), old(self)@, *let_stmt) is Some,
        ensures
            final(self).same_place(old(self)),
            let_rule(old(self).place(), old(self)@, *let_stmt) == Some(final(self)@),
    {
        let explicit_type = match &let_stmt.ty {
            Some(ty) => Some(self.get_type(ty.hir_id)),
            None => None,
        };
        let initializer_type = match &let_stmt.initializer {
            Some(init) => Some(self.get_type(init.hir_id)),
            None => None,
        };
        match (explicit_type, initializer_type) {
            (None, None) => {
                self.fail_at(
                    let_stmt.hir_id,
                    let_stmt.span,
                    TypeBoundary::LetStatement,
                    TypeErrorKind::CannotInfer,
                );
            }
            (None, Some(initializer)) => {
                self.set_type(let_stmt.hir_id.local_id.0, initializer);
            }
            (Some(explicit), None) => {
                self.set_type(let_stmt.hir_id.local_id.0, explicit);
            }
            (Some(explicit), Some(initializer)) => {
                self.add_equality_constraint(
                    explicit.duplicate(),
                    initializer,
                    let_stmt.span,
                    TypeBoundary::LetStatement,
                );
                self.insert_type(let_stmt.hir_id, explicit);
            }
        }
    }

    fn visit_let_statement(&mut self, let_stmt: &LetStatement)
        requires
            old(self).well_formed(),
            let_checked(old(self).place(), old(self)@, *let_stmt) is Some,
        ensures
            final(self).same_place(old(self)),
            let_checked(old(self).place(), old(self)@, *let_stmt) == Some(final(self)@),
        decreases let_stmt, 0nat,
    {
        if let Some(ty) = &let_stmt.ty {
            self.visit_type(ty);
        }
        if let Some(init) = &let_stmt.initializer {
            self.visit_expression(init);
        }
        self.check_let(let_stmt);
    }

    fn visit_statement(&mut self, statement: &Statement)
        requires
            old(self).well_formed(),
            statement_checked(old(self).place(), old(self)@, *statement) is Some,
        ensures
            final(self).same_place(old(self)),
            statement_checked(old(self).place(), old(self)@, *statement) == Some(final(self)@),
        decreases statement, 0nat,
    {
        match &statement.kind {
            StatementKind::Let(let_stmt) => self.visit_let_statement(let_stmt),
            StatementKind::BareExpression(e) => self.visit_expression(e),
            StatementKind::SemiExpression(e) => self.visit_expression(e),
        }
        let unit_ty = self.type_context.get_unit_type();
        self.insert_type(statement.hir_id, unit_ty);
    }

    fn visit_statements(&mut self, list: &Vec<Rc<Statement>>)
        requires
            old(self).well_formed(),
            statements_checked(old(self).place(), old(self)@, *list, list@.len()) is Some,
        ensures
            final(self).same_place(old(self)),
            statements_checked(old(self).place(), old(self)@, *list, list@.len()) == Some(
                final(self)@,
            ),
        decreases list,
    {
        let ghost p = self.place();
        let ghost st = self@;
        let mut i: usize = 0;
        while i < list.len()
            invariant
                0 <= i <= list@.len(),
                self.same_place(old(self)),
                p == self.place(),
                p == old(self).place(),
                statements_checked(p, st, *list, list@.len()) is Some,
                statements_checked(p, st, *list, i as nat) == Some(self@),
            decreases list@.len() - i,
        {
            proof {
                lemma_statements_prefix(p, st, *list, i as nat + 1, list@.len());
            }
            self.visit_statement(&list[i]);
            i = i + 1;
        }
    }

    /// Checks a block whose parts have been checked.
    fn check_block(&mut self, block: &Block)
        requires
            old(self).well_formed(),
            block_rule(old(self).place(), old(self)@, *block) is Some,
        ensures
            final(self).same_place(old(self)),
            block_rule(old(self).place(), old(self)@, *block) == Some(final(self)@),
    {
        let ghost st = self@;
        let ghost list = block.statements@;
        let mut i: usize = 0;
        while i < block.statements.len()
            invariant
                0 <= i <= list.len(),
                list == block.statements@,
                self.same_place(old(self)),
                bare_checked(st, list, list.len()) is Some,
                bare_checked(st, list, i as nat) == Some(self@),
            decreases list.len() - i,
        {
            proof {
                lemma_bare_prefix(st, list, i as nat + 1, list.len());
            }
            if let StatementKind::BareExpression(e) = &block.statements[i].kind {
                let expr_ty = self.get_type(e.hir_id);
                if !expr_ty.kind().is_unit() && !expr_ty.kind().is_never()
                    && !expr_ty.kind().is_error() {
                    let unit_ty = self.type_context.get_unit_type();
                    self.push_error(
                        e.span,
                        TypeBoundary::BareExpression,
                        TypeErrorKind::TypeMismatch { expected: unit_ty, actual: expr_ty },
                    );
                }
            }
            i = i + 1;
        }
        match &block.expression {
            Some(e) => self.copy_type_from(block.hir_id, e.hir_id.local_id),
            None => {
                let unit_ty = self.type_context.get_unit_type();
                self.insert_type(block.hir_id, unit_ty);
            }
        }
    }

    /// Checks a block and all its parts.
    pub fn visit_block(&mut self, block: &Block, is_loop: bool)
        requires
            old(self).well_formed(),
            block_checked(old(self).place(), old(self)@, *block, is_loop) is Some,
        ensures
            final(self).same_place(old(self)),
            block_checked(old(self).place(), old(self)@, *block, is_loop) == Some(final(self)@),
        decreases block, 0nat,
    {
        // Add to loop context if necessary
        let previous = self.within_loop;
        self.within_loop = self.within_loop || is_loop;
        self.visit_statements(&block.statements);
        if let Some(e) = &block.expression {
            self.visit_expression(e);
        }
        self.within_loop = previous;
        self.check_block(block);
    }

    fn visit_struct_fields(&mut self, list: &Vec<Rc<hir::StructField>>)
        requires
            old(self).well_formed(),
            field_types_checked(old(self).place(), old(self)@, list@, list@.len()) is Some,
        ensures
            final(self).same_place(old(self)),
            field_types_checked(old(self).place(), old(self)@, list@, list@.len()) == Some(
                final(self)@,
            ),
    {
        let ghost p = self.place();
        let ghost st = self@;
        let mut i: usize = 0;
        while i < list.len()
            invariant
                0 <= i <= list@.len(),
                self.same_place(old(self)),
                p == self.place(),
                p == old(self).place(),
                field_types_checked(p, st, list@, list@.len()) is Some,
                field_types_checked(p, st, list@, i as nat) == Some(self@),
            decreases list@.len() - i,
        {
            proof {
                lemma_field_types_prefix(p, st, list@, i as nat + 1, list@.len());
            }
            let field = &list[i];
            self.visit_type(&field.ty);
            let computed_ty = self.type_context.compute_hir_type(&field.ty);
            self.insert_type(field.hir_id, computed_ty);
            i = i + 1;
        }
    }

    fn walk_function_signature(&mut self, signature: &FunctionSignature)
        requires
            old(self).well_formed(),
            signature_checked(old(self).place(), old(self)@, *signature) is Some,
        ensures
            final(self).same_place(old(self)),
            signature_checked(old(self).place(), old(self)@, *signature) == Some(final(self)@),
    {
        self.visit_types(&signature.parameters);
        if let Some(ty) = &signature.variadic_type {
            self.visit_type(ty);
        }
        if let Some(ty) = &signature.return_type {
            self.visit_type(ty);
        }
    }

    /// Whether control never gets past one of some statements.
    fn has_diverging_statement(&self, list: &Vec<Rc<Statement>>) -> (r: bool)
        requires
            diverges(self@, list@, 0) is Some,
        ensures
            diverges(self@, list@, 0) == Some(r),
    {
        let mut k: usize = 0;
        while k < list.len()
            invariant
                0 <= k <= list@.len(),
                diverges(self@, list@, 0) is Some,
                diverges(self@, list@, k as nat) == diverges(self@, list@, 0),
            decreases list@.len() - k,
        {
            // Any statement that propogates a never type up from any of its
            // subexpressions must have a return somewhere within it
            let value = match &list[k].kind {
                StatementKind::Let(let_statement) => match &let_statement.initializer {
                    Some(initializer) => Some(initializer),
                    None => None,
                },
                StatementKind::BareExpression(expression) => Some(expression),
                StatementKind::SemiExpression(expression) => Some(expression),
            };
            if let Some(expression) = value {
                if self.get_type(expression.hir_id).kind().is_never() {
                    return true;
                }
            }
            k = k + 1;
        }
        false
    }

    /// Validates that either the implicit return type matches the expected
    /// type or that there are no code paths laeading to the end of the
    /// function
    fn check_implicit_return(
        &mut self,
        block: &Block,
        signature: &FunctionSignature,
        return_ty: Type,
    )
        requires
            old(self).well_formed(),
            implicit_return(old(self)@, *block, *signature, return_ty@) is Some,
        ensures
            final(self).same_place(old(self)),
            implicit_return(old(self)@, *block, *signature, return_ty@) == Some(final(self)@),
    {
        if let Some(last_expr) = &block.expression {
            // The body's implicit return type needs to match the function's signature
            let last_expr_ty = self.get_type(last_expr.hir_id);
            self.add_equality_constraint(
                return_ty,
                last_expr_ty,
                last_expr.span,
                TypeBoundary::ImplicitReturn,
            );
        } else if let Some(ret) = &signature.return_type {
            // If there is no implicit return and a diverging path inside the
            // function, we can never reach the end of the body and don't need
            // to generate an error
            if !self.has_diverging_statement(&block.statements) {
                self.push_error(
                    ret.span,
                    TypeBoundary::ImplicitReturn,
                    TypeErrorKind::MissingReturnValue { expected: return_ty },
                );
            }
        }
    }

    fn visit_body(&mut self, signature: &FunctionSignature, body: BodyId)
        requires
            old(self).well_formed(),
            body_checked(old(self).place(), old(self)@, *signature, body) is Some,
        ensures
            final(self).same_place(old(self)),
            body_checked(old(self).place(), old(self)@, *signature, body) == Some(final(self)@),
    {
        let ghost p = self.place();
        // Default return type is unit if none specified
        let return_ty = match &signature.return_type {
            Some(r) => self.get_type(r.hir_id),
            None => self.type_context.get_unit_type(),
        };
        self.return_type = Some(return_ty.duplicate());
        let ghost entered = self@;
        // Assign types to function parameters
        let body = self.type_context.module.get_body(body);
        let count: usize = if body.params.len() < signature.parameters.len() {
            body.params.len()
        } else {
            signature.parameters.len()
        };
        let mut i: usize = 0;
        while i < count
            invariant
                0 <= i <= count,
                count <= body.params@.len(),
                count <= signature.parameters@.len(),
                self.same_place(old(self)),
                p == self.place(),
                p == old(self).place(),
                parameters_copied(
                    p,
                    entered,
                    body.params@,
                    signature.parameters@,
                    count as nat,
                ) is Some,
                parameters_copied(
                    p,
                    entered,
                    body.params@,
                    signature.parameters@,
                    i as nat,
                ) == Some(self@),
            decreases count - i,
        {
            proof {
                lemma_parameters_prefix(
                    p,
                    entered,
                    body.params@,
                    signature.parameters@,
                    i as nat + 1,
                    count as nat,
                );
            }
            self.copy_type_from(
                body.params[i].hir_id,
                signature.parameters[i].hir_id.local_id,
            );
            i = i + 1;
        }
        // Type check the function body
        self.visit_block(&body.block, false);
        self.check_implicit_return(&body.block, signature, return_ty);
    }

    /// Bind the types for function parameters
    pub fn visit_function_definition(
        &mut self,
        name: &Path,
        signature: &FunctionSignature,
        body: BodyId,
    )
        requires
            old(self).well_formed(),
            function_checked(old(self).place(), old(self)@, *name, *signature, body) is Some,
        ensures
            final(self).same_place(old(self)),
            function_checked(old(self).place(), old(self)@, *name, *signature, body) == Some(
                final(self)@,
            ),
    {
        self.walk_path(name);
        // Collect self type
        if let Some(self_ty) = self.type_context.compute_self_type(name, signature) {
            self.self_type = Some(self_ty);
        }
        // Collect parameter types
        self.walk_function_signature(signature);
        self.visit_body(signature, body);
    }

    /// Checks an item and all that belongs to it.
    pub fn visit_item(&mut self, item: &Item)
        requires
            old(self).well_formed(),
            item_checked(old(self).place(), old(self)@, *item) is Some,
        ensures
            final(self).same_place(old(self)),
            item_checked(old(self).place(), old(self)@, *item) == Some(final(self)@),
    {
        match &item.kind {
            ItemKind::Function { name, signature, body } => {
                self.visit_function_definition(name, signature, *body)
            }
            ItemKind::Struct { fields, .. } => self.visit_struct_fields(fields),
            ItemKind::Enum { .. } => {}
            ItemKind::TypeAlias { ty, .. } => self.visit_type(ty),
            ItemKind::Static { ty, initializer, .. } => {
                self.visit_type(ty);
                self.visit_expression(initializer);
            }
        }
    }
}

proof fn lemma_types_prefix(p: Place, st: Checking, list: Vec<Rc<hir::Type>>, n: nat, m: nat)
    requires
        n <= m <= list@.len(),
        types_checked(p, st, list, m) is Some,
    ensures
        types_checked(p, st, list, n) is Some,
    decreases m - n,
{
    if n < m {
        lemma_types_prefix(p, st, list, n, (m - 1) as nat);
    }
}

proof fn lemma_expressions_prefix(
    p: Place,
    st: Checking,
    list: Vec<Rc<Expression>>,
    n: nat,
    m: nat,
)
    requires
        n <= m <= list@.len(),
        expressions_checked(p, st, list, m) is Some,
    ensures
        expressions_checked(p, st, list, n) is Some,
    decreases m - n,
{
    if n < m {
        lemma_expressions_prefix(p, st, list, n, (m - 1) as nat);
    }
}

proof fn lemma_fields_prefix(
    p: Place,
    st: Checking,
    list: Vec<Rc<StructInitializerField>>,
    n: nat,
    m: nat,
)
    requires
        n <= m <= list@.len(),
        fields_checked(p, st, list, m) is Some,
    ensures
        fields_checked(p, st, list, n) is Some,
    decreases m - n,
{
    if n < m {
        lemma_fields_prefix(p, st, list, n, (m - 1) as nat);
    }
}

proof fn lemma_statements_prefix(
    p: Place,
    st: Checking,
    list: Vec<Rc<Statement>>,
    n: nat,
    m: nat,
)
    requires
        n <= m <= list@.len(),
        statements_checked(p, st, list, m) is Some,
    ensures
        statements_checked(p, st, list, n) is Some,
    decreases m - n,
{
    if n < m {
        lemma_statements_prefix(p, st, list, n, (m - 1) as nat);
    }
}

proof fn lemma_bare_prefix(st: Checking, list: Seq<Rc<Statement>>, n: nat, m: nat)
    requires
        n <= m,
        bare_checked(st, list, m) is Some,
    ensures
        bare_checked(st, list, n) is Some,
    decreases m - n,
{
    if n < m {
        lemma_bare_prefix(st, list, n, (m - 1) as nat);
    }
}

proof fn lemma_field_types_prefix(
    p: Place,
    st: Checking,
    list: Seq<Rc<hir::StructField>>,
    n: nat,
    m: nat,
)
    requires
        n <= m,
        field_types_checked(p, st, list, m) is Some,
    ensures
        field_types_checked(p, st, list, n) is Some,
    decreases m - n,
{
    if n < m {
        lemma_field_types_prefix(p, st, list, n, (m - 1) as nat);
    }
}

proof fn lemma_parameters_prefix(
    p: Place,
    st: Checking,
    params: Seq<Rc<FunctionParameter>>,
    tys: Seq<Rc<hir::Type>>,
    n: nat,
    m: nat,
)
    requires
        n <= m,
        parameters_copied(p, st, params, tys, m) is Some,
    ensures
        parameters_copied(p, st, params, tys, n) is Some,
    decreases m - n,
{
    if n < m {
        lemma_parameters_prefix(p, st, params, tys, n, (m - 1) as nat);
    }
}

} // verus!
