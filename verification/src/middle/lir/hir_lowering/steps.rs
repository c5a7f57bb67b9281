//! Lowering the parts of a body whose own parts have been lowered.

use crate::frontend::intern::InternedSymbol;
use crate::index::Index;
use crate::middle::hir;
use crate::middle::hir::{
    Definition, DefinitionKind, EnumVariant, Expression, HirId, Identifier, Item, ItemKind,
    Literal, LiteralIntegerKind, LocalDefId, Path, Resolution, SelfParameter,
};
use crate::middle::lir::hir_lowering::emit::{lower_type, BodyLoweringContext, ExpressionContext};
use crate::middle::lir::hir_lowering::rules::{
    all_digits, comment, digits_value, field_place, field_rule, find_variant, function_called,
    function_rule, item_at, last_field, literal_rule, local_rule, operand_list, path_rule,
    piece_printed, pieces_printed, printer_of, self_value, static_rule, stored, string_built,
    subscript_rule, this_rule, tuple_index, variant_rule, with_symbol, FieldPlace, FormatStringItem,
};
use crate::middle::lir::hir_lowering::state::{
    lowered_fields, lowered_ty, slice_fields, Called, Lowering,
};
use crate::middle::lir::{
    code, Immediate, Instruction, IntegerCastKind, IntegerWidth, Operand, RegisterId, Struct, Type,
};
use crate::middle::primitive::{IntKind, UIntKind};
use crate::middle::ty;
use crate::middle::ty::{fields_of, lemma_parts, Ty, TypeKind};
use crate::text::same_text;
use std::rc::Rc;
use vstd::prelude::*;

verus! {

broadcast use vstd::std_specs::btree::group_btree_axioms;

proof fn lemma_digits_grow(text: Seq<char>, n: int)
    requires
        0 <= n <= text.len(),
        all_digits(text),
    ensures
        digits_value(text.take(n)) <= digits_value(text),
    decreases text.len() - n,
{
    if n == text.len() {
        assert(text.take(n) =~= text);
    } else {
        lemma_digits_grow(text, n + 1);
        assert(text.take(n + 1).drop_last() =~= text.take(n));
        assert(text.take(n + 1).last() == text[n]);
        assert(crate::frontend::lexer::is_digit(text[n]));
    }
}

/// The number of the field of a tuple with a name.
pub(crate) fn parse_tuple_index(name: &str) -> (r: Option<usize>)
    ensures
        match r {
            Some(index) => tuple_index(name@) == Some(index as nat),
            None => tuple_index(name@) is None,
        },
{
    let length: usize = name.unicode_len();
    if length == 0 || name.get_char(0) != 'v' {
        return None;
    }
    let ghost rest = name@.drop_first();
    let first: usize = if length > 1 && name.get_char(1) == '+' {
        2
    } else {
        1
    };
    let ghost digits = if first == 2 {
        rest.drop_first()
    } else {
        rest
    };
    assert(digits =~= name@.skip(first as int));
    if first == length {
        return None;
    }
    let mut value: usize = 0;
    let mut i: usize = first;
    assert(digits.take(0) =~= Seq::<char>::empty());
    while i < length
        invariant
            first <= i <= length,
            first <= 2,
            length == name@.len(),
            digits == name@.skip(first as int),
            digits.len() > 0,
            tuple_index(name@) == (if all_digits(digits) && digits_value(digits) <= usize::MAX {
                Some(digits_value(digits))
            } else {
                None
            }),
            all_digits(digits.take(i - first)),
            value as nat == digits_value(digits.take(i - first)),
        decreases length - i,
    {
        let c = name.get_char(i);
        let ghost n = i - first;
        assert(digits[n] == c);
        let code: u32 = c as u32;
        if code < 48 || code > 57 {
            assert(!crate::frontend::lexer::is_digit(digits[n]));
            return None;
        }
        let digit: usize = (code - 48) as usize;
        proof {
            assert(digits.take(n + 1).drop_last() =~= digits.take(n));
            assert(digits.take(n + 1).last() == c);
            assert(digits_value(digits.take(n + 1)) == value as nat * 10 + digit as nat);
            if all_digits(digits) {
                lemma_digits_grow(digits, n + 1);
            }
            assert forall|k: int| 0 <= k < n + 1 implies crate::frontend::lexer::is_digit(
                #[trigger] digits.take(n + 1)[k],
            ) by {
                if k < n {
                    assert(digits.take(n)[k] == digits[k]);
                }
            }
        }
        match value.checked_mul(10) {
            Some(tens) => match tens.checked_add(digit) {
                Some(next) => {
                    value = next;
                }
                None => {
                    return None;
                }
            },
            None => {
                return None;
            }
        }
        i = i + 1;
    }
    assert(digits.take(i - first) =~= digits);
    Some(value)
}

/// The place of the last field with a name.
fn find_field(fields: &Vec<ty::StructField>, name: InternedSymbol) -> (r: usize)
    requires
        last_field(fields_of(fields@), name, fields@.len()) is Some,
    ensures
        last_field(fields_of(fields@), name, fields@.len()) == Some(r as nat),
        r < fields@.len(),
{
    let mut n: usize = fields.len();
    while n > 0
        invariant
            n <= fields@.len(),
            last_field(fields_of(fields@), name, fields@.len()) is Some,
            last_field(fields_of(fields@), name, n as nat) == last_field(
                fields_of(fields@),
                name,
                fields@.len(),
            ),
        decreases n,
    {
        assert(fields_of(fields@)[n - 1].0 == fields@[n - 1].name);
        if fields[n - 1].name == name {
            return n - 1;
        }
        n = n - 1;
    }
    vstd::pervasive::unreached()
}

proof fn lemma_lowered_fields_len(list: Seq<(InternedSymbol, Ty)>, n: nat)
    requires
        n <= list.len(),
        lowered_fields(list, n) is Some,
    ensures
        lowered_fields(list, n)->0.len() == n,
    decreases n,
{
    if n > 0 {
        lemma_lowered_fields_len(list, (n - 1) as nat);
    }
}

/// The name of the function of the runtime that prints values of a type.
fn printer(kind: &TypeKind) -> (r: &'static str)
    requires
        printer_of(kind.model()) is Some,
    ensures
        printer_of(kind.model()) == Some(r@),
{
    match kind {
        TypeKind::Integer(IntKind::I8) => "__$print_i8",
        TypeKind::Integer(IntKind::I16) => "__$print_i16",
        TypeKind::Integer(IntKind::I32) => "__$print_i32",
        TypeKind::Integer(IntKind::I64) | TypeKind::Integer(IntKind::ISize) => "__$print_i64",
        TypeKind::UnsignedInteger(UIntKind::U8) => "__$print_u8",
        TypeKind::UnsignedInteger(UIntKind::U16) => "__$print_u16",
        TypeKind::UnsignedInteger(UIntKind::U32) => "__$print_u32",
        TypeKind::UnsignedInteger(UIntKind::U64)
        | TypeKind::UnsignedInteger(UIntKind::USize) => "__$print_u64",
        TypeKind::Pointer(_) => "__$print_i64_hex",
        TypeKind::Enum { .. } => "__$print_i32",
        _ => vstd::pervasive::unreached(),
    }
}

/// The place of a variant among those of its enum.
fn variant_index(variants: &Vec<Rc<EnumVariant>>, def_id: LocalDefId) -> (r: usize)
    requires
        find_variant(variants@, def_id, 0) is Some,
    ensures
        find_variant(variants@, def_id, 0) == Some(r as nat),
{
    let mut k: usize = 0;
    while k < variants.len()
        invariant
            0 <= k <= variants@.len(),
            find_variant(variants@, def_id, 0) is Some,
            find_variant(variants@, def_id, k as nat) == find_variant(variants@, def_id, 0),
        decreases variants@.len() - k,
    {
        if variants[k].def_id == def_id {
            return k;
        }
        k = k + 1;
    }
    vstd::pervasive::unreached()
}

impl<'hir> BodyLoweringContext<'hir> {
    /// The item with a number.
    pub(crate) fn item_of(&self, def_id: LocalDefId) -> (r: Rc<Item>)
        requires
            item_at(*self.module, def_id) is Some,
        ensures
            item_at(*self.module, def_id) == Some(*r),
    {
        match self.module.get_owner(def_id).node().as_item() {
            Some(item) => item,
            None => vstd::pervasive::unreached(),
        }
    }

    /// The type of a node.
    pub(crate) fn type_of(&self, id: HirId) -> (r: ty::Type)
        requires
            self.src().types.has(id),
        ensures
            r@ == self.src().types.at(id),
            r.0.model() == self.src().types.at(id),
    {
        self.type_map.get_type(id)
    }

    /// Adds a remark to the code.
    pub(crate) fn push_comment(&mut self, text: std::string::String)
        requires
            old(self).names.well_formed(),
            comment(old(self)@, text@) is Some,
        ensures
            final(self).follows(old(self)),
            comment(old(self)@, text@) == Some(final(self)@),
    {
        self.push_instruction(Instruction::Comment(text));
    }

    pub(crate) fn lower_literal(&mut self, id: HirId, literal: &Literal)
        requires
            old(self).names.well_formed(),
            literal_rule(old(self).src(), old(self)@, id, *literal) is Some,
        ensures
            final(self).follows(old(self)),
            literal_rule(old(self).src(), old(self)@, id, *literal) == Some(final(self)@),
    {
        proof {
            reveal(literal_rule);
        }
        let value = match literal {
            Literal::Boolean(v) => Immediate::Bool(*v),
            Literal::Char(v) => Immediate::Int(*v as u64, IntegerWidth::I32),
            Literal::Integer(v, k) => Immediate::Int(
                *v,
                match k {
                    LiteralIntegerKind::Signed(int_kind) => IntegerWidth::from(*int_kind),
                    LiteralIntegerKind::Unsigned(uint_kind) => IntegerWidth::from(*uint_kind),
                    LiteralIntegerKind::Unsuffixed => {
                        let ty = self.type_of(id);
                        match ty.kind() {
                            TypeKind::Integer(int_kind) => IntegerWidth::from(*int_kind),
                            TypeKind::UnsignedInteger(uint_kind) => IntegerWidth::from(*uint_kind),
                            TypeKind::Pointer(_) | TypeKind::Any => {
                                IntegerWidth::from(UIntKind::USize)
                            }
                            _ => vstd::pervasive::unreached(),
                        }
                    }
                },
            ),
            Literal::String(s) => {
                let reg = self.lower_constant_string(*s);
                self.set_operand(id, Operand::Register(reg));
                return;
            }
            _ => vstd::pervasive::unreached(),
        };
        self.set_operand(id, Operand::Immediate(value));
    }

    /// Whether a register holds an argument.
    fn is_argument(&self, reg: RegisterId) -> (r: bool)
        ensures
            r == self@.arguments.contains(reg),
    {
        let mut i: usize = 0;
        while i < self.arguments.len()
            invariant
                0 <= i <= self.arguments@.len(),
                forall|k: int| 0 <= k < i ==> self.arguments@[k] != reg,
            decreases self.arguments@.len() - i,
        {
            if self.arguments[i] == reg {
                return true;
            }
            i = i + 1;
        }
        false
    }

    fn lower_local(&mut self, id: HirId, local: u32)
        requires
            old(self).names.well_formed(),
            local_rule(old(self).src(), old(self)@, id, local) is Some,
        ensures
            final(self).follows(old(self)),
            local_rule(old(self).src(), old(self)@, id, local) == Some(final(self)@),
    {
        proof {
            reveal(local_rule);
        }
        let src_reg = match self.local_to_register_map.get(&local) {
            Some(reg) => *reg,
            None => vstd::pervasive::unreached(),
        };
        match self.expression_context {
            // just return the pointer to the stack slot
            ExpressionContext::Place => self.set_operand(id, Operand::Register(src_reg)),
            // for scalars, just return the src register, for aggregates, copy
            // into current destination or create a new one if this is an
            // intermediate
            ExpressionContext::Value => {
                let ty = self.type_of(id);
                let lir_ty = lower_type(ty.kind());
                let value = if self.is_argument(src_reg) {
                    self.lower_copy(
                        self.destination_register,
                        Operand::Register(src_reg),
                        &lir_ty,
                    )
                } else {
                    Operand::Register(
                        self.emit_load_from_ptr(
                            self.destination_register,
                            Operand::Register(src_reg),
                            &lir_ty,
                        ),
                    )
                };
                self.set_operand(id, value);
            }
        }
    }

    fn lower_static(&mut self, id: HirId, def_id: LocalDefId)
        requires
            old(self).names.well_formed(),
            static_rule(old(self).src(), old(self)@, id, def_id) is Some,
        ensures
            final(self).follows(old(self)),
            static_rule(old(self).src(), old(self)@, id, def_id) == Some(final(self)@),
    {
        proof {
            reveal(static_rule);
        }
        let item = self.item_of(def_id);
        match &item.kind {
            ItemKind::Static { name, ty, .. } => {
                let src = Operand::Immediate(Immediate::NamedStaticLabel(name.symbol));
                match self.expression_context {
                    // just return the pointer to the static
                    ExpressionContext::Place => self.set_operand(id, src),
                    // load the value from the stack slot into the destination
                    // register, or for aggregate types allocate a new stack
                    // slot
                    ExpressionContext::Value => {
                        let ty = self.type_of(ty.hir_id);
                        let lir_ty = lower_type(ty.kind());
                        let value = self.emit_load_from_ptr(
                            self.destination_register,
                            src,
                            &lir_ty,
                        );
                        self.set_operand(id, Operand::Register(value));
                    }
                }
            }
            _ => vstd::pervasive::unreached(),
        }
    }

    fn lower_variant(&mut self, id: HirId, def_id: LocalDefId)
        requires
            old(self).names.well_formed(),
            variant_rule(old(self).src(), old(self)@, id, def_id) is Some,
        ensures
            final(self).follows(old(self)),
            variant_rule(old(self).src(), old(self)@, id, def_id) == Some(final(self)@),
    {
        proof {
            reveal(variant_rule);
        }
        let owner = match self.module.definitions.get(&def_id.0) {
            Some(Definition::NonOwner(node)) => node.owner,
            _ => vstd::pervasive::unreached(),
        };
        let item = self.item_of(owner);
        match &item.kind {
            ItemKind::Enum { variants, .. } => {
                let index: usize = variant_index(variants, def_id);
                self.set_operand(
                    id,
                    Operand::Immediate(Immediate::Int(index as u64, IntegerWidth::I32)),
                );
            }
            _ => vstd::pervasive::unreached(),
        }
    }

    /// The symbol of a function.
    pub(crate) fn symbol_for(&mut self, name: &Path) -> (r: InternedSymbol)
        requires
            old(self).names.well_formed(),
            with_symbol(old(self).src(), old(self)@, *name) is Some,
        ensures
            final(self).follows(old(self)),
            with_symbol(old(self).src(), old(self)@, *name) == Some((final(self)@, r)),
    {
        self.module.global_symbol_for(name, &mut self.names)
    }

    fn lower_function(&mut self, id: HirId, def_id: LocalDefId)
        requires
            old(self).names.well_formed(),
            function_rule(old(self).src(), old(self)@, id, def_id) is Some,
        ensures
            final(self).follows(old(self)),
            function_rule(old(self).src(), old(self)@, id, def_id) == Some(final(self)@),
    {
        proof {
            reveal(function_rule);
        }
        let item = self.item_of(def_id);
        match &item.kind {
            ItemKind::Function { name, .. } => {
                let symbol = self.symbol_for(name);
                self.set_operand(id, Operand::Immediate(Immediate::FunctionLabel(symbol)));
            }
            _ => vstd::pervasive::unreached(),
        }
    }

    pub(crate) fn lower_path(&mut self, id: HirId, path: &Path)
        requires
            old(self).names.well_formed(),
            path_rule(old(self).src(), old(self)@, id, *path) is Some,
        ensures
            final(self).follows(old(self)),
            path_rule(old(self).src(), old(self)@, id, *path) == Some(final(self)@),
    {
        proof {
            reveal(path_rule);
        }
        match path.resolution() {
            Resolution::Local(local_id) => self.lower_local(id, local_id.0),
            Resolution::Definition(DefinitionKind::Static, def_id) => {
                self.lower_static(id, *def_id)
            }
            Resolution::Definition(DefinitionKind::EnumVariant, def_id) => {
                self.lower_variant(id, *def_id)
            }
            Resolution::Definition(DefinitionKind::Function, def_id) => {
                self.lower_function(id, *def_id)
            }
            Resolution::Definition(DefinitionKind::AssociatedFunction, def_id) => {
                self.lower_function(id, *def_id)
            }
            _ => {}
        }
    }

    pub(crate) fn lower_this(&mut self, id: HirId)
        requires
            old(self).names.well_formed(),
            this_rule(old(self).src(), old(self)@, id) is Some,
        ensures
            final(self).follows(old(self)),
            this_rule(old(self).src(), old(self)@, id) == Some(final(self)@),
    {
        proof {
            reveal(this_rule);
        }
        // self is always the 0th argument when present
        let src_reg = self.arguments[0];
        match self.expression_context {
            // just return the pointer to the stack slot
            ExpressionContext::Place => self.set_operand(id, Operand::Register(src_reg)),
            ExpressionContext::Value => {
                let ty = self.type_of(id);
                let lir_ty = lower_type(ty.kind());
                let value = self.lower_copy(
                    self.destination_register,
                    Operand::Register(src_reg),
                    &lir_ty,
                );
                self.set_operand(id, value);
            }
        }
    }

    /// Stores the value of an expression unless it was built in place.
    pub(crate) fn store_value(&mut self, id: HirId, at: RegisterId, ty: &Type)
        requires
            old(self).names.well_formed(),
            stored(old(self)@, id, at, ty@) is Some,
        ensures
            final(self).follows(old(self)),
            stored(old(self)@, id, at, ty@) == Some(final(self)@),
    {
        proof {
            reveal(stored);
        }
        if ty.is_scalar() {
            let value = self.operand(id);
            self.emit_store_mem(Operand::Register(at), value, ty);
        }
    }

    /// Where a field of a type lies.
    fn find_place(&self, kind: &TypeKind, name: InternedSymbol) -> (r: (Struct, usize))
        requires
            field_place(self@.names, kind.model(), name) is Some,
        ensures
            field_place(self@.names, kind.model(), name) == Some(
                (FieldPlace { fields: r.0@, index: r.1 as nat }),
            ),
            r.1 < r.0@.len(),
    {
        proof {
            lemma_parts(*kind);
        }
        match kind {
            TypeKind::Str | TypeKind::Slice(_) => {
                if same_text(self.names.value(name), "ptr") {
                    (Struct::slice(), 0)
                } else {
                    (Struct::slice(), 1)
                }
            }
            TypeKind::Tuple(_) => {
                let index: usize = match parse_tuple_index(self.names.value(name)) {
                    Some(index) => index,
                    None => vstd::pervasive::unreached(),
                };
                match lower_type(kind) {
                    Type::Struct(s) => {
                        assert(lowered_ty(kind.model())->0->Struct_0 =~= s@);
                        (s, index)
                    }
                    _ => vstd::pervasive::unreached(),
                }
            }
            TypeKind::Struct { fields, .. } => {
                let index: usize = find_field(fields, name);
                proof {
                    lemma_lowered_fields_len(fields_of(fields@), fields@.len());
                }
                match lower_type(kind) {
                    Type::Struct(s) => {
                        assert(lowered_ty(kind.model())->0->Struct_0 =~= s@);
                        (s, index)
                    }
                    _ => vstd::pervasive::unreached(),
                }
            }
            _ => vstd::pervasive::unreached(),
        }
    }

    pub(crate) fn lower_field(
        &mut self,
        id: HirId,
        target: &Expression,
        name: &Identifier,
        dereference: bool,
    )
        requires
            old(self).names.well_formed(),
            field_rule(old(self).src(), old(self)@, id, *target, *name, dereference) is Some,
        ensures
            final(self).follows(old(self)),
            field_rule(old(self).src(), old(self)@, id, *target, *name, dereference) == Some(
                final(self)@,
            ),
    {
        proof {
            reveal(field_rule);
        }
        let target_value = self.operand(target.hir_id);
        let target_ty = self.type_of(target.hir_id);
        let (structure_ty, field_index) = match target_ty.kind() {
            TypeKind::Pointer(inner) => self.find_place(inner.kind(), name.symbol),
            kind => self.find_place(kind, name.symbol),
        };
        let ptr_reg = self.emit_get_struct_elem_ptr(target_value, &structure_ty, field_index);
        assert(structure_ty@[field_index as int] == structure_ty.0@[field_index as int]@);
        let dest = match self.expression_context {
            ExpressionContext::Place => ptr_reg,
            ExpressionContext::Value => self.emit_load_from_ptr(
                self.destination_register,
                Operand::Register(ptr_reg),
                &structure_ty.0[field_index],
            ),
        };
        self.set_operand(id, Operand::Register(dest));
    }

    /// The values of the first `n` expressions of a list.
    pub(crate) fn operands(&self, list: &Vec<Rc<Expression>>, n: usize) -> (r: Vec<Operand>)
        requires
            n <= list@.len(),
            operand_list(self@, list@, n as nat) is Some,
        ensures
            operand_list(self@, list@, n as nat) == Some(r@),
            r@.len() == n,
    {
        let mut values: Vec<Operand> = Vec::new();
        let mut i: usize = 0;
        assert(values@ =~= Seq::empty());
        while i < n
            invariant
                0 <= i <= n <= list@.len(),
                operand_list(self@, list@, n as nat) is Some,
                operand_list(self@, list@, i as nat) == Some(values@),
                values@.len() == i,
            decreases n - i,
        {
            proof {
                lemma_operand_prefix(self@, list@, i as nat + 1, n as nat);
            }
            values.push(self.operand(list[i].hir_id));
            i = i + 1;
        }
        values
    }

    /// Prints a piece of a format string.
    fn print_piece(&mut self, id: HirId, item: FormatStringItem, arguments: &Vec<Rc<Expression>>)
        requires
            old(self).names.well_formed(),
            piece_printed(old(self).src(), old(self)@, id, item, arguments@) is Some,
        ensures
            final(self).follows(old(self)),
            piece_printed(old(self).src(), old(self)@, id, item, arguments@) == Some(
                final(self)@,
            ),
    {
        proof {
            reveal(piece_printed);
        }
        let value_reg = match item {
            FormatStringItem::String(symbol) => {
                let string = self.lower_constant_string(symbol);
                self.print_string(Operand::Register(string))
            }
            FormatStringItem::Argument(k) => {
                let count: usize = arguments.len();
                assert(k + 1 < count);
                let argument = &arguments[k + 1];
                let value = self.operand(argument.hir_id);
                let ty = self.type_of(argument.hir_id);
                match ty.kind() {
                    TypeKind::Str => self.print_string(value),
                    kind => {
                        let mut values: Vec<Operand> = Vec::new();
                        values.push(value);
                        assert(values@ =~= seq![value]);
                        self.call_runtime(printer(kind), values)
                    }
                }
            }
        };
        self.set_operand(id, Operand::Register(value_reg));
    }

    /// Prints the pieces of a format string.
    pub(crate) fn print_pieces(
        &mut self,
        id: HirId,
        items: &Vec<FormatStringItem>,
        arguments: &Vec<Rc<Expression>>,
    )
        requires
            old(self).names.well_formed(),
            pieces_printed(
                old(self).src(),
                old(self)@,
                id,
                items@,
                arguments@,
                items@.len(),
            ) is Some,
        ensures
            final(self).follows(old(self)),
            pieces_printed(
                old(self).src(),
                old(self)@,
                id,
                items@,
                arguments@,
                items@.len(),
            ) == Some(final(self)@),
    {
        let ghost src = self.src();
        let ghost start = self@;
        let mut i: usize = 0;
        while i < items.len()
            invariant
                0 <= i <= items@.len(),
                self.follows(old(self)),
                src == old(self).src(),
                pieces_printed(src, start, id, items@, arguments@, items@.len()) is Some,
                pieces_printed(src, start, id, items@, arguments@, i as nat) == Some(self@),
            decreases items@.len() - i,
        {
            proof {
                lemma_printed_prefix(
                    src,
                    start,
                    id,
                    items@,
                    arguments@,
                    i as nat + 1,
                    items@.len(),
                );
            }
            self.print_piece(id, items[i], arguments);
            i = i + 1;
        }
    }

    /// Builds a string from an address and a length.
    pub(crate) fn build_string(&mut self, id: HirId, pointer: Operand, length: Operand)
        requires
            old(self).names.well_formed(),
            string_built(old(self)@, id, pointer, length) is Some,
        ensures
            final(self).follows(old(self)),
            string_built(old(self)@, id, pointer, length) == Some(final(self)@),
    {
        proof {
            reveal(string_built);
        }
        let slice = Type::Struct(Struct::slice());
        assert(slice@->Struct_0 =~= slice_fields());
        let base = self.place_or_alloc(self.destination_register, &slice);
        let ptr_at = self.emit_get_struct_elem_ptr(Operand::Register(base), &Struct::slice(), 0);
        self.emit_store_mem(Operand::Register(ptr_at), pointer, &Type::Pointer);
        let len_at = self.emit_get_struct_elem_ptr(Operand::Register(base), &Struct::slice(), 1);
        self.emit_store_mem(
            Operand::Register(len_at),
            length,
            &Type::Integer(IntegerWidth::I64),
        );
        self.set_operand(id, Operand::Register(base));
    }

    /// Calls a function whose arguments are known.
    pub(crate) fn call_function(
        &mut self,
        symbol: InternedSymbol,
        own: Option<Operand>,
        values: Vec<Operand>,
        return_ty: &Option<ty::Type>,
    ) -> (r: Option<RegisterId>)
        requires
            old(self).names.well_formed(),
            function_called(old(self)@, symbol, own, values@, optional_ty(*return_ty)) is Some,
        ensures
            final(self).follows(old(self)),
            function_called(old(self)@, symbol, own, values@, optional_ty(*return_ty)) == Some(
                (Called { st: final(self)@, reg: r }),
            ),
    {
        proof {
            reveal(function_called);
        }
        let mut args: Vec<Operand> = Vec::new();
        let ghost rest = (match own {
            Some(value) => seq![value],
            None => Seq::empty(),
        }) + values@;
        match return_ty {
            None => {
                push_arguments(&mut args, own, values);
                assert(args@ =~= rest);
                self.emit_function_call(
                    Operand::Immediate(Immediate::FunctionLabel(symbol)),
                    args,
                    None,
                )
            }
            Some(ty) => {
                let lir_ty = lower_type(ty.kind());
                if lir_ty.is_scalar() {
                    push_arguments(&mut args, own, values);
                    assert(args@ =~= rest);
                    self.emit_function_call(
                        Operand::Immediate(Immediate::FunctionLabel(symbol)),
                        args,
                        Some(lir_ty),
                    )
                } else {
                    // the caller allocates room for the struct on the stack
                    // and passes a pointer to it as a hidden argument
                    let sret_reg = self.place_or_alloc(self.destination_register, &lir_ty);
                    args.push(Operand::Register(sret_reg));
                    push_arguments(&mut args, own, values);
                    assert(args@ =~= seq![Operand::Register(sret_reg)] + rest);
                    let _ = self.emit_function_call(
                        Operand::Immediate(Immediate::FunctionLabel(symbol)),
                        args,
                        None,
                    );
                    Some(sret_reg)
                }
            }
        }
    }

    /// What is passed as `self`.
    pub(crate) fn self_operand(&self, parameter: SelfParameter, target: &Expression) -> (r: Operand)
        requires
            self_value(self.src(), self@, parameter, *target) is Some,
        ensures
            self_value(self.src(), self@, parameter, *target) == Some(r),
    {
        proof {
            reveal(self_value);
        }
        // structs are actually stored as pointers to their allocation so this
        // is the same as the pointer case
        self.operand(target.hir_id)
    }

    pub(crate) fn lower_subscript(&mut self, id: HirId, target: &Expression, index: &Expression)
        requires
            old(self).names.well_formed(),
            subscript_rule(old(self).src(), old(self)@, id, *target, *index) is Some,
        ensures
            final(self).follows(old(self)),
            subscript_rule(old(self).src(), old(self)@, id, *target, *index) == Some(
                final(self)@,
            ),
    {
        proof {
            reveal(subscript_rule);
        }
        let target_value = self.operand(target.hir_id);
        let index_value = self.operand(index.hir_id);
        let target_ty = self.type_of(target.hir_id);
        let dest_reg = match target_ty.kind() {
            TypeKind::Str => {
                let ptr_ptr = self.emit_get_struct_elem_ptr(target_value, &Struct::slice(), 0);
                let ptr = self.emit_load_mem(Operand::Register(ptr_ptr), Type::Pointer);
                let elem_ptr_reg = self.emit_get_array_elem_ptr(
                    Operand::Register(ptr),
                    Type::Integer(IntegerWidth::I8),
                    index_value,
                );
                match self.expression_context {
                    ExpressionContext::Place => elem_ptr_reg,
                    ExpressionContext::Value => {
                        let byte = self.emit_load_mem(
                            Operand::Register(elem_ptr_reg),
                            Type::Integer(IntegerWidth::I8),
                        );
                        self.emit_integer_cast(
                            IntegerCastKind::ZeroExtension,
                            Operand::Register(byte),
                            Type::Integer(IntegerWidth::I32),
                        )
                    }
                }
            }
            TypeKind::Array { ty, .. } => {
                let item = lower_type(ty.kind());
                let elem_ptr_reg = self.emit_get_array_elem_ptr(
                    target_value,
                    item.duplicate(),
                    index_value,
                );
                match self.expression_context {
                    ExpressionContext::Place => elem_ptr_reg,
                    ExpressionContext::Value => self.emit_load_from_ptr(
                        self.destination_register,
                        Operand::Register(elem_ptr_reg),
                        &item,
                    ),
                }
            }
            _ => vstd::pervasive::unreached(),
        };
        self.set_operand(id, Operand::Register(dest_reg));
    }
}

/// What an optional type is.
pub open spec fn optional_ty(ty: Option<ty::Type>) -> Option<Ty> {
    match ty {
        Some(t) => Some(t@),
        None => None,
    }
}

/// Appends the arguments of a call, `self` first.
fn push_arguments(args: &mut Vec<Operand>, own: Option<Operand>, values: Vec<Operand>)
    ensures
        final(args)@ == old(args)@ + (match own {
            Some(value) => seq![value],
            None => Seq::empty(),
        }) + values@,
{
    match own {
        Some(value) => args.push(value),
        None => {}
    }
    let ghost start = args@;
    let mut i: usize = 0;
    while i < values.len()
        invariant
            0 <= i <= values@.len(),
            args@ == start + values@.take(i as int),
        decreases values@.len() - i,
    {
        args.push(values[i]);
        i = i + 1;
        assert(args@ =~= start + values@.take(i as int));
    }
    assert(values@.take(i as int) =~= values@);
    assert(args@ =~= old(args)@ + (match own {
        Some(value) => seq![value],
        None => Seq::empty(),
    }) + values@);
}

proof fn lemma_operand_prefix(st: Lowering, list: Seq<Rc<Expression>>, n: nat, m: nat)
    requires
        n <= m <= list.len(),
        operand_list(st, list, m) is Some,
    ensures
        operand_list(st, list, n) is Some,
    decreases m,
{
    if n < m {
        lemma_operand_prefix(st, list, n, (m - 1) as nat);
    }
}

proof fn lemma_printed_prefix(
    src: crate::middle::lir::hir_lowering::state::Source,
    st: Lowering,
    id: HirId,
    items: Seq<FormatStringItem>,
    arguments: Seq<Rc<Expression>>,
    n: nat,
    m: nat,
)
    requires
        n <= m <= items.len(),
        pieces_printed(src, st, id, items, arguments, m) is Some,
    ensures
        pieces_printed(src, st, id, items, arguments, n) is Some,
    decreases m,
{
    if n < m {
        lemma_printed_prefix(src, st, id, items, arguments, n, (m - 1) as nat);
    }
}

} // verus!
