//! Building, copying, comparing and printing values.

use crate::frontend::ast::BinaryOperatorKind;
use crate::frontend::intern::InternedSymbol;
use crate::middle::lir::hir_lowering::emit::{lower_type, pair, BodyLoweringContext};
use crate::middle::lir::hir_lowering::rules::{
    format_of, format_pieces, interned_pieces, FormatPiece, FormatStringItem, Parsed,
};
use crate::middle::lir::hir_lowering::state::{
    all_results, binary_on, call_named, compared_upto, constant_string, copied_fields, copied_value,
    loaded_from, lowered_ty, print_string, slice_fields, Compared, Emitted, Lowering, Valued,
};
use crate::middle::lir::{
    Immediate, Instruction, IntegerWidth, Operand, RegisterId, Struct, Type, TypeView,
};
use crate::middle::ty::{lemma_parts, types, Ty, TypeKind};
use vstd::prelude::*;

verus! {

broadcast use vstd::std_specs::btree::group_btree_axioms;

proof fn lemma_copied_prefix(
    st: Lowering,
    dest: RegisterId,
    src: Operand,
    fields: Seq<TypeView>,
    n: nat,
    m: nat,
)
    requires
        n <= m <= fields.len(),
        copied_fields(st, dest, src, fields, m) is Some,
    ensures
        copied_fields(st, dest, src, fields, n) is Some,
    decreases m,
{
    if n < m {
        lemma_copied_prefix(st, dest, src, fields, n, (m - 1) as nat);
    }
}

proof fn lemma_compared_prefix(
    st: Lowering,
    output: Ty,
    elements: Seq<Ty>,
    fields: Seq<TypeView>,
    operator: BinaryOperatorKind,
    lhs: Operand,
    rhs: Operand,
    n: nat,
    m: nat,
)
    requires
        n <= m <= elements.len(),
        compared_upto(st, output, elements, fields, operator, lhs, rhs, m) is Some,
    ensures
        compared_upto(st, output, elements, fields, operator, lhs, rhs, n) is Some,
    decreases m,
{
    if n < m {
        lemma_compared_prefix(
            st,
            output,
            elements,
            fields,
            operator,
            lhs,
            rhs,
            n,
            (m - 1) as nat,
        );
    }
}

proof fn lemma_results_prefix(st: Lowering, results: Seq<RegisterId>, n: nat, m: nat)
    requires
        n <= m,
        all_results(st, results, m) is Some,
    ensures
        all_results(st, results, n) is Some,
    decreases m,
{
    if n < m && m > 1 {
        lemma_results_prefix(st, results, n, (m - 1) as nat);
    }
}

proof fn lemma_pieces_prefix(st: Lowering, pieces: Seq<FormatPiece>, n: nat, m: nat)
    requires
        n <= m <= pieces.len(),
        interned_pieces(st, pieces, m) is Some,
    ensures
        interned_pieces(st, pieces, n) is Some,
    decreases m,
{
    if n < m {
        lemma_pieces_prefix(st, pieces, n, (m - 1) as nat);
    }
}

impl<'hir> BodyLoweringContext<'hir> {
    /// Strings are fat pointers which need to be stored as structs on the
    /// stack: makes room for the string, and fills its fields with the static
    /// pointer and the length.
    pub(crate) fn lower_constant_string(&mut self, symbol: InternedSymbol) -> (r: RegisterId)
        requires
            old(self).names.well_formed(),
            constant_string(old(self)@, symbol) is Some,
        ensures
            final(self).follows(old(self)),
            constant_string(old(self)@, symbol) == Some((Emitted { st: final(self)@, reg: r })),
    {
        let length: u64 = self.names.value(symbol).as_bytes().len() as u64;
        let slice = Type::Struct(Struct::slice());
        assert(slice@->Struct_0 =~= slice_fields());
        let struct_ptr_reg = self.place_or_alloc(self.destination_register, &slice);

        /* Set the pointer field */

        let pointer_element_ptr_reg = self.emit_get_struct_elem_ptr(
            Operand::Register(struct_ptr_reg),
            &Struct::slice(),
            0,
        );
        let id = self.create_static_label_id();
        self.static_strings.insert(id.0, symbol);
        self.push_instruction(
            Instruction::StoreMem {
                destination: Operand::Register(pointer_element_ptr_reg),
                source: Operand::Immediate(Immediate::AnonymousStaticLabel(id)),
            },
        );

        /* Set the length field */

        let length_element_ptr_reg = self.emit_get_struct_elem_ptr(
            Operand::Register(struct_ptr_reg),
            &Struct::slice(),
            1,
        );
        self.push_instruction(
            Instruction::StoreMem {
                destination: Operand::Register(length_element_ptr_reg),
                source: Operand::Immediate(Immediate::Int(length, IntegerWidth::I64)),
            },
        );
        struct_ptr_reg
    }

    /// Calls a function of the runtime.
    pub(crate) fn call_runtime(&mut self, name: &str, arguments: Vec<Operand>) -> (r: RegisterId)
        requires
            old(self).names.well_formed(),
            call_named(old(self)@, name@, arguments@) is Some,
        ensures
            final(self).follows(old(self)),
            call_named(old(self)@, name@, arguments@) == Some(
                (Emitted { st: final(self)@, reg: r }),
            ),
    {
        let symbol = self.symbol(name);
        let dest_reg = self.emit_function_call(
            Operand::Immediate(Immediate::FunctionLabel(symbol)),
            arguments,
            Some(Type::Integer(IntegerWidth::I64)),
        );
        match dest_reg {
            Some(reg) => reg,
            None => vstd::pervasive::unreached(),
        }
    }

    /// Prints the string at an address.
    pub(crate) fn print_string(&mut self, str_ptr: Operand) -> (r: RegisterId)
        requires
            old(self).names.well_formed(),
            print_string(old(self)@, str_ptr) is Some,
        ensures
            final(self).follows(old(self)),
            print_string(old(self)@, str_ptr) == Some((Emitted { st: final(self)@, reg: r })),
    {
        let ptr_ptr_reg = self.emit_get_struct_elem_ptr(str_ptr, &Struct::slice(), 0);
        let ptr_reg = self.emit_load_mem(Operand::Register(ptr_ptr_reg), Type::Pointer);
        let len_ptr_reg = self.emit_get_struct_elem_ptr(str_ptr, &Struct::slice(), 1);
        let len_reg = self.emit_load_mem(
            Operand::Register(len_ptr_reg),
            Type::Integer(IntegerWidth::I64),
        );
        self.call_runtime(
            "__$print_str",
            pair(Operand::Register(ptr_reg), Operand::Register(len_reg)),
        )
    }

    /// Copies the fields of a structure.
    fn copy_fields(&mut self, dest: RegisterId, src: Operand, structure_ty: &Struct)
        requires
            old(self).names.well_formed(),
            copied_fields(old(self)@, dest, src, structure_ty@, structure_ty@.len()) is Some,
        ensures
            final(self).follows(old(self)),
            copied_fields(old(self)@, dest, src, structure_ty@, structure_ty@.len()) == Some(
                final(self)@,
            ),
        decreases structure_ty,
    {
        let ghost start = self@;
        let ghost fields = structure_ty@;
        let mut i: usize = 0;
        while i < structure_ty.0.len()
            invariant
                0 <= i <= structure_ty.0@.len(),
                self.follows(old(self)),
                fields == structure_ty@,
                fields.len() == structure_ty.0@.len(),
                copied_fields(start, dest, src, fields, fields.len()) is Some,
                copied_fields(start, dest, src, fields, i as nat) == Some(self@),
            decreases structure_ty.0@.len() - i,
        {
            proof {
                lemma_copied_prefix(start, dest, src, fields, i as nat + 1, fields.len());
                assert(fields[i as int] == structure_ty.0@[i as int]@);
            }
            match &structure_ty.0[i] {
                // for struct types, get the ptr to the src value, get the ptr to
                // the dest value, and recurse
                Type::Struct(inner) => {
                    assert(fields[i as int]->Struct_0 =~= inner@);
                    let dest_ptr = self.emit_get_struct_elem_ptr(
                        Operand::Register(dest),
                        structure_ty,
                        i,
                    );
                    let src_ptr = self.emit_get_struct_elem_ptr(src, structure_ty, i);
                    self.copy_fields(dest_ptr, Operand::Register(src_ptr), inner);
                }
                Type::Array(_, _) => vstd::pervasive::unreached(),
                // for scalar types, get the ptr to the src value, load into a
                // temporary reg, get the ptr to the dest value, store the temp
                // value
                field => {
                    let src_ptr = self.emit_get_struct_elem_ptr(src, structure_ty, i);
                    let tmp = self.emit_load_mem(Operand::Register(src_ptr), field.duplicate());
                    let dest_ptr = self.emit_get_struct_elem_ptr(
                        Operand::Register(dest),
                        structure_ty,
                        i,
                    );
                    self.emit_store_mem(
                        Operand::Register(dest_ptr),
                        Operand::Register(tmp),
                        field,
                    );
                }
            }
            i = i + 1;
        }
    }

    /// Creates a copy of the src in the value context and returns it. If `dest`
    /// is None, a new slot will be allocated on the stack for the result. If
    /// `dest` is Some, it must be a pointer type and it will be used as the
    /// destination for the copy instead (but only if the type is an aggregate)
    pub(crate) fn lower_copy(&mut self, dest: Option<RegisterId>, src: Operand, ty: &Type) -> (r:
        Operand)
        requires
            old(self).names.well_formed(),
            copied_value(old(self)@, dest, src, ty@) is Some,
        ensures
            final(self).follows(old(self)),
            copied_value(old(self)@, dest, src, ty@) == Some(
                (Valued { st: final(self)@, value: r }),
            ),
    {
        match ty {
            Type::Struct(structure_ty) => {
                assert(ty@->Struct_0 =~= structure_ty@);
                let base = self.place_or_alloc(dest, ty);
                self.copy_fields(base, src, structure_ty);
                Operand::Register(base)
            }
            Type::Array(_, _) => vstd::pervasive::unreached(),
            _ => src,
        }
    }

    /// Given a pointer to a value, loads it from memory into a register. For
    /// scalar types this is just a LoadMem. For aggregate types this turns into
    /// a lower_copy() call which allocates a new temporary stack slot to hold
    /// the value.
    ///
    /// `dest` should be None for pointers to scalar types.
    pub(crate) fn emit_load_from_ptr(
        &mut self,
        dest_ptr: Option<RegisterId>,
        src_ptr: Operand,
        ty: &Type,
    ) -> (r: RegisterId)
        requires
            old(self).names.well_formed(),
            loaded_from(old(self)@, dest_ptr, src_ptr, ty@) is Some,
        ensures
            final(self).follows(old(self)),
            loaded_from(old(self)@, dest_ptr, src_ptr, ty@) == Some(
                (Emitted { st: final(self)@, reg: r }),
            ),
    {
        match ty {
            Type::Struct(_) => match self.lower_copy(dest_ptr, src_ptr, ty) {
                Operand::Register(reg) => reg,
                Operand::Immediate(_) => vstd::pervasive::unreached(),
            },
            Type::Array(_, _) => vstd::pervasive::unreached(),
            _ => self.emit_load_mem(src_ptr, ty.duplicate()),
        }
    }

    /// Compares two tuples element by element.
    fn compare_elements(
        &mut self,
        output_ty: &TypeKind,
        elements: &Vec<crate::middle::ty::Type>,
        structure: &Struct,
        operator: BinaryOperatorKind,
        lhs: Operand,
        rhs: Operand,
    ) -> (r: Vec<RegisterId>)
        requires
            old(self).names.well_formed(),
            compared_upto(
                old(self)@,
                output_ty.model(),
                types(elements@),
                structure@,
                operator,
                lhs,
                rhs,
                elements@.len(),
            ) is Some,
        ensures
            final(self).follows(old(self)),
            compared_upto(
                old(self)@,
                output_ty.model(),
                types(elements@),
                structure@,
                operator,
                lhs,
                rhs,
                elements@.len(),
            ) == Some((Compared { st: final(self)@, results: r@ })),
        decreases elements, 1nat,
    {
        let ghost start = self@;
        let ghost out = output_ty.model();
        let ghost all = types(elements@);
        let ghost fields = structure@;
        let mut results: Vec<RegisterId> = Vec::new();
        let mut i: usize = 0;
        assert(results@ =~= Seq::empty());
        while i < elements.len()
            invariant
                0 <= i <= elements@.len(),
                self.follows(old(self)),
                all == types(elements@),
                out == output_ty.model(),
                fields == structure@,
                compared_upto(start, out, all, fields, operator, lhs, rhs, all.len()) is Some,
                compared_upto(start, out, all, fields, operator, lhs, rhs, i as nat) == Some(
                    (Compared { st: self@, results: results@ }),
                ),
            decreases elements@.len() - i,
        {
            proof {
                lemma_compared_prefix(
                    start,
                    out,
                    all,
                    fields,
                    operator,
                    lhs,
                    rhs,
                    i as nat + 1,
                    all.len(),
                );
                assert(all[i as int] == elements@[i as int]@);
            }
            let field_ty = &*elements[i].0;
            let lhs_ptr_reg = self.emit_get_struct_elem_ptr(lhs, structure, i);
            let rhs_ptr_reg = self.emit_get_struct_elem_ptr(rhs, structure, i);
            // for scalar elements, load from memory and recurse. for
            // aggregates, recurse with the pointer to the element
            let result = if field_ty.is_aggregate() {
                self.lower_binary_op_helper(
                    output_ty,
                    field_ty,
                    operator,
                    Operand::Register(lhs_ptr_reg),
                    Operand::Register(rhs_ptr_reg),
                )
            } else {
                let field_lir_ty = lower_type(field_ty);
                let lhs_reg = self.emit_load_mem(
                    Operand::Register(lhs_ptr_reg),
                    field_lir_ty.duplicate(),
                );
                let rhs_reg = self.emit_load_mem(Operand::Register(rhs_ptr_reg), field_lir_ty);
                self.lower_binary_op_helper(
                    output_ty,
                    field_ty,
                    operator,
                    Operand::Register(lhs_reg),
                    Operand::Register(rhs_reg),
                )
            };
            results.push(result);
            i = i + 1;
        }
        results
    }

    /// Applies an operator to two values that are known.
    pub(crate) fn lower_binary_op_helper(
        &mut self,
        output_ty: &TypeKind,
        operand_ty: &TypeKind,
        operator: BinaryOperatorKind,
        lhs: Operand,
        rhs: Operand,
    ) -> (r: RegisterId)
        requires
            old(self).names.well_formed(),
            binary_on(
                old(self)@,
                output_ty.model(),
                operand_ty.model(),
                operator,
                lhs,
                rhs,
            ) is Some,
        ensures
            final(self).follows(old(self)),
            binary_on(
                old(self)@,
                output_ty.model(),
                operand_ty.model(),
                operator,
                lhs,
                rhs,
            ) == Some((Emitted { st: final(self)@, reg: r })),
        decreases operand_ty, 0nat,
    {
        proof {
            lemma_parts(*operand_ty);
        }
        match operand_ty {
            TypeKind::Bool
            | TypeKind::Char
            | TypeKind::Integer(_)
            | TypeKind::UnsignedInteger(_)
            | TypeKind::Float(_)
            | TypeKind::Pointer(_)
            | TypeKind::FunctionPointer { .. }
            | TypeKind::Enum { .. }
            | TypeKind::Any => {
                let output_lir_ty = lower_type(output_ty);
                self.emit_binary_op(operator, lhs, rhs, output_lir_ty)
            }
            TypeKind::Tuple(elements) => {
                // load both elements into registers, compare them and store in
                // a result register, then emit logical and on all of the
                // results
                let structure = match lower_type(operand_ty) {
                    Type::Struct(s) => {
                        assert(lowered_ty(operand_ty.model())->0->Struct_0 =~= s@);
                        s
                    }
                    _ => vstd::pervasive::unreached(),
                };
                let results = self.compare_elements(
                    output_ty,
                    elements,
                    &structure,
                    operator,
                    lhs,
                    rhs,
                );
                let ghost start = self@;
                let mut result_reg = results[0];
                let mut i: usize = 1;
                while i < results.len()
                    invariant
                        1 <= i <= results@.len(),
                        self.follows(old(self)),
                        all_results(start, results@, results@.len()) is Some,
                        all_results(start, results@, i as nat) == Some(
                            (Emitted { st: self@, reg: result_reg }),
                        ),
                    decreases results@.len() - i,
                {
                    proof {
                        lemma_results_prefix(start, results@, i as nat + 1, results@.len());
                    }
                    result_reg = self.emit_binary_op(
                        BinaryOperatorKind::LogicalAnd,
                        Operand::Register(result_reg),
                        Operand::Register(results[i]),
                        Type::Integer(IntegerWidth::I8),
                    );
                    i = i + 1;
                }
                result_reg
            }
            _ => vstd::pervasive::unreached(),
        }
    }

    /// Splits a format string at its `{}`. Texts that are empty are left out.
    pub(crate) fn parse_format_string(&mut self, string: &str) -> (r: Vec<FormatStringItem>)
        requires
            old(self).names.well_formed(),
            interned_pieces(old(self)@, format_of(string@), format_of(string@).len()) is Some,
        ensures
            final(self).follows(old(self)),
            interned_pieces(old(self)@, format_of(string@), format_of(string@).len()) == Some(
                (Parsed { st: final(self)@, items: r@ }),
            ),
    {
        let ghost start = self@;
        let ghost text = string@;
        let ghost pieces = format_of(text);
        let ghost mut done: Seq<FormatPiece> = Seq::empty();
        let mut parts: Vec<FormatStringItem> = Vec::new();
        let length: usize = string.unicode_len();
        let mut arg_count: usize = 0;
        let mut last: usize = 0;
        let mut i: usize = 0;
        assert(parts@ =~= Seq::empty());
        assert(pieces =~= done + format_pieces(text, 0, 0, 0));
        while i < length
            invariant
                0 <= last <= i <= length,
                arg_count <= i,
                text == string@,
                length == text.len(),
                self.follows(old(self)),
                pieces == done + format_pieces(text, last as nat, i as nat, arg_count as nat),
                interned_pieces(start, pieces, pieces.len()) is Some,
                interned_pieces(start, pieces, done.len()) == Some(
                    (Parsed { st: self@, items: parts@ }),
                ),
            decreases length - i,
        {
            if length - i > 1 && string.get_char(i) == '{' && string.get_char(i + 1) == '}' {
                let ghost rest = format_pieces(
                    text,
                    i as nat + 2,
                    i as nat + 2,
                    arg_count as nat + 1,
                );
                if last != i {
                    let ghost piece = FormatPiece::Text(text.subrange(last as int, i as int));
                    proof {
                        let tail = seq![FormatPiece::Argument(arg_count as nat)] + rest;
                        assert(pieces =~= done.push(piece) + tail);
                        lemma_pieces_prefix(start, pieces, done.len() + 1, pieces.len());
                        assert(pieces[done.len() as int] == piece);
                    }
                    let symbol = self.symbol(string.substring_char(last, i));
                    parts.push(FormatStringItem::String(symbol));
                    proof {
                        done = done.push(piece);
                    }
                }
                proof {
                    let piece = FormatPiece::Argument(arg_count as nat);
                    assert(pieces =~= done.push(piece) + rest);
                    lemma_pieces_prefix(start, pieces, done.len() + 1, pieces.len());
                    assert(pieces[done.len() as int] == piece);
                    done = done.push(piece);
                }
                parts.push(FormatStringItem::Argument(arg_count));
                arg_count = arg_count + 1;
                i = i + 2;
                last = i;
            } else {
                i = i + 1;
            }
        }
        if last < length {
            let ghost piece = FormatPiece::Text(text.subrange(last as int, length as int));
            proof {
                assert(pieces =~= done.push(piece));
                assert(pieces[done.len() as int] == piece);
            }
            let symbol = self.symbol(string.substring_char(last, length));
            parts.push(FormatStringItem::String(symbol));
        } else {
            assert(pieces =~= done);
        }
        parts
    }
}

} // verus!
