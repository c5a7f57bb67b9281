//! What copying a structure does to memory.

use crate::middle::hir::{
    BodyId, Expression, ExpressionKind, FunctionSignature, HirId, LetStatement, Path,
};
use crate::middle::lir::hir_lowering::elision::{
    immutable_parameters, is_passed_as_is, is_renaming, local_named,
};
use crate::middle::lir::hir_lowering::laws::{goes_on, goes_straight, lemma_copied_fields};
use crate::middle::lir::hir_lowering::lowered::{
    arguments_lowered, assignment_lowered, expression_lowered, function_call_lowered, let_lowered,
    within,
};
use crate::middle::lir::hir_lowering::rules::{
    assigned_place, comment, function_called, local_rule, path_rule, return_ty, self_value, stored,
    valued_as, with_symbol,
};
use crate::middle::lir::hir_lowering::state::{
    copied_fields, copied_value, emit, emit_alloc, emit_field, emit_load, lowered_ty, Emitted,
    Lowering, Source,
};
use crate::middle::lir::hir_lowering::visit::own_expression;
use crate::middle::lir::{Immediate, InstructionView, Operand, RegisterId, Type, TypeView};
use std::rc::Rc;
use vstd::prelude::*;

verus! {

/// What a place belongs to: room on the stack, numbered in the order in which
/// it was made, or a label of static memory.
pub enum Root {
    Stack(nat),
    Label(Immediate),
}

/// A place in memory: the fields that lead to it from its root.
pub struct Place {
    pub root: Root,
    pub path: Seq<int>,
}

/// What a register or a place holds.
pub enum Content {
    Address(Place),
    Constant(Immediate),
}

/// The registers and the memory while code runs.
pub struct Machine {
    pub registers: Map<u32, Content>,
    pub memory: Map<Place, Content>,
    /// How often room was made on the stack.
    pub rooms: nat,
}

impl Place {
    /// The place of a field.
    pub open spec fn field(self, index: int) -> Place {
        Place { root: self.root, path: self.path.push(index) }
    }

    /// The place that a path leads to.
    pub open spec fn along(self, path: Seq<int>) -> Place {
        Place { root: self.root, path: self.path + path }
    }

    /// Whether the place is, or lies in, another one.
    pub open spec fn is_in(self, outer: Place) -> bool {
        &&& self.root == outer.root
        &&& outer.path.len() <= self.path.len()
        &&& self.path.take(outer.path.len() as int) == outer.path
    }

    /// Whether the place lies in one of the first `n` fields of another one.
    pub open spec fn is_in_fields(self, outer: Place, n: nat) -> bool {
        &&& self.is_in(outer)
        &&& outer.path.len() < self.path.len()
        &&& 0 <= self.path[outer.path.len() as int] < n
    }

    /// Whether the two places have nothing in common.
    pub open spec fn is_apart(self, other: Place) -> bool {
        !self.is_in(other) && !other.is_in(self)
    }
}

/// Whether a path leads to a scalar in a value of a type.
pub open spec fn is_scalar_at(ty: TypeView, path: Seq<int>) -> bool
    decreases path.len(),
{
    match ty {
        TypeView::Struct(fields) => path.len() > 0 && 0 <= path[0] < fields.len() && is_scalar_at(
            fields[path[0]],
            path.drop_first(),
        ),
        TypeView::Array(_, _) => false,
        _ => path.len() == 0,
    }
}

impl Machine {
    /// What an operand stands for.
    pub open spec fn content(self, operand: Operand) -> Option<Content> {
        match operand {
            Operand::Register(reg) => if self.registers.contains_key(reg.0) {
                Some(self.registers[reg.0])
            } else {
                None
            },
            Operand::Immediate(Immediate::AnonymousStaticLabel(label)) => Some(
                Content::Address(
                    Place {
                        root: Root::Label(Immediate::AnonymousStaticLabel(label)),
                        path: Seq::empty(),
                    },
                ),
            ),
            Operand::Immediate(Immediate::NamedStaticLabel(label)) => Some(
                Content::Address(
                    Place {
                        root: Root::Label(Immediate::NamedStaticLabel(label)),
                        path: Seq::empty(),
                    },
                ),
            ),
            Operand::Immediate(immediate) => Some(Content::Constant(immediate)),
        }
    }

    /// The place that an operand is the address of.
    pub open spec fn place(self, operand: Operand) -> Option<Place> {
        match self.content(operand) {
            Some(Content::Address(place)) => Some(place),
            _ => None,
        }
    }

    /// With a register filled.
    pub open spec fn with_register(self, reg: RegisterId, content: Content) -> Machine {
        Machine { registers: self.registers.insert(reg.0, content), ..self }
    }

    /// The room on the stack that is made next.
    pub open spec fn next_room(self) -> Place {
        Place { root: Root::Stack(self.rooms), path: Seq::empty() }
    }

    /// Whether a place lies in room that was made already, or in static memory.
    pub open spec fn has_made(self, place: Place) -> bool {
        match place.root {
            Root::Stack(number) => number < self.rooms,
            Root::Label(_) => true,
        }
    }
}

/// Runs an instruction that works on memory. Nothing is said of the others.
pub open spec fn step(m: Machine, instruction: InstructionView) -> Option<Machine> {
    match instruction {
        InstructionView::Comment(_) => Some(m),
        InstructionView::AllocStack { destination, .. } => Some(
            Machine {
                rooms: m.rooms + 1,
                ..m.with_register(destination, Content::Address(m.next_room()))
            },
        ),
        InstructionView::GetStructElementPointer { destination, source, index, .. } => {
            match m.place(source) {
                Some(base) => Some(
                    m.with_register(destination, Content::Address(base.field(index as int))),
                ),
                None => None,
            }
        },
        InstructionView::LoadMem { destination, source } => match m.place(source) {
            Some(from) => Some(m.with_register(destination, m.memory[from])),
            None => None,
        },
        InstructionView::StoreMem { destination, source } => {
            match (m.place(destination), m.content(source)) {
                (Some(to), Some(content)) => Some(
                    Machine { memory: m.memory.insert(to, content), ..m },
                ),
                _ => None,
            }
        },
        _ => None,
    }
}

/// Runs instructions in order.
pub open spec fn ran(m: Machine, code: Seq<InstructionView>) -> Option<Machine>
    decreases code.len(),
{
    if code.len() == 0 {
        Some(m)
    } else {
        match ran(m, code.drop_last()) {
            None => None,
            Some(before) => step(before, code.last()),
        }
    }
}

/// The instructions of the current block.
pub open spec fn written(st: Lowering) -> Seq<InstructionView> {
    st.block(st.stack.last()).instructions
}

/// The instructions of the current block that were added since an earlier
/// state.
pub open spec fn added(st: Lowering, after: Lowering) -> Seq<InstructionView> {
    written(after).skip(written(st).len() as int)
}

/// Whether the code from position `k` of the current block on leads from one
/// machine to another.
spec fn leads(st: Lowering, k: nat, start: Machine, m: Machine) -> bool {
    &&& st.has_current()
    &&& k <= written(st).len()
    &&& ran(start, written(st).skip(k as int)) == Some(m)
}

proof fn lemma_step(
    st: Lowering,
    instruction: InstructionView,
    k: nat,
    start: Machine,
    m: Machine,
    next: Machine,
)
    requires
        leads(st, k, start, m),
        step(m, instruction) == Some(next),
    ensures
        emit(st, instruction) matches Some(after) && leads(after, k, start, next) && after.stack
            == st.stack && after.registers == st.registers && after.locals == st.locals,
{
    let after = emit(st, instruction)->0;
    assert(written(after) == written(st).push(instruction));
    let code = written(after).skip(k as int);
    assert(code.drop_last() =~= written(st).skip(k as int));
    assert(code.last() == instruction);
}

proof fn lemma_field_runs(
    st: Lowering,
    source: Operand,
    fields: Seq<TypeView>,
    index: usize,
    k: nat,
    start: Machine,
    m: Machine,
)
    requires
        leads(st, k, start, m),
        m.place(source) is Some,
        st.registers.len() < 0x1_0000_0000,
    ensures
        emit_field(st, source, fields, index) matches Some(e) && {
            &&& e.reg.0 as nat == st.registers.len()
            &&& e.st.registers.len() == st.registers.len() + 1
            &&& e.st.stack == st.stack
            &&& leads(
                e.st,
                k,
                start,
                m.with_register(e.reg, Content::Address(m.place(source)->0.field(index as int))),
            )
        },
{
    let made = st.with_register(TypeView::Pointer);
    let instruction = InstructionView::GetStructElementPointer {
        destination: made.reg,
        source,
        ty: fields,
        index,
    };
    assert(written(made.st) == written(st));
    lemma_step(made.st, instruction, k, start, m, step(m, instruction)->0);
}

proof fn lemma_alloc_runs(st: Lowering, ty: TypeView, k: nat, start: Machine, m: Machine)
    requires
        leads(st, k, start, m),
        st.registers.len() < 0x1_0000_0000,
    ensures
        emit_alloc(st, ty) matches Some(e) && {
            &&& e.reg.0 as nat == st.registers.len()
            &&& e.st.registers.len() == st.registers.len() + 1
            &&& e.st.stack == st.stack
            &&& e.st.locals == st.locals
            &&& leads(
                e.st,
                k,
                start,
                (Machine {
                    rooms: m.rooms + 1,
                    ..m.with_register(e.reg, Content::Address(m.next_room()))
                }),
            )
        },
{
    let made = st.with_register(TypeView::Pointer);
    let instruction = InstructionView::AllocStack { destination: made.reg, ty };
    assert(written(made.st) == written(st));
    lemma_step(made.st, instruction, k, start, m, step(m, instruction)->0);
}

proof fn lemma_load_runs(
    st: Lowering,
    source: Operand,
    ty: TypeView,
    k: nat,
    start: Machine,
    m: Machine,
)
    requires
        leads(st, k, start, m),
        ty.is_scalar(),
        m.place(source) is Some,
        st.registers.len() < 0x1_0000_0000,
    ensures
        emit_load(st, source, ty) matches Some(e) && {
            &&& e.reg.0 as nat == st.registers.len()
            &&& e.st.registers.len() == st.registers.len() + 1
            &&& e.st.stack == st.stack
            &&& leads(e.st, k, start, m.with_register(e.reg, m.memory[m.place(source)->0]))
        },
{
    let made = st.with_register(ty);
    let instruction = InstructionView::LoadMem { destination: made.reg, source };
    assert(written(made.st) == written(st));
    lemma_step(made.st, instruction, k, start, m, step(m, instruction)->0);
}

/// Whether the registers with numbers below `below` hold what they held.
pub open spec fn keeps_registers(before: Machine, after: Machine, below: nat) -> bool {
    forall|reg: RegisterId|
        reg.0 < below && before.content(Operand::Register(reg)) is Some ==> (
        #[trigger] after.content(Operand::Register(reg))) == before.content(Operand::Register(reg))
}

proof fn lemma_registers_kept(a: Machine, b: Machine, c: Machine, below: nat)
    requires
        keeps_registers(a, b, below),
        keeps_registers(b, c, below),
    ensures
        keeps_registers(a, c, below),
{
}

/// Whether a copy of the first `n` fields at `src` stands at `dest`, with all
/// else as it was: the registers below `below`, and the memory outside those
/// fields.
spec fn is_copied(
    before: Machine,
    after: Machine,
    below: nat,
    dest: Place,
    src: Place,
    fields: Seq<TypeView>,
    n: nat,
) -> bool {
    &&& after.rooms == before.rooms
    &&& keeps_registers(before, after, below)
    &&& forall|place: Place|
        !place.is_in_fields(dest, n) ==> (#[trigger] after.memory[place]) == before.memory[place]
    &&& forall|path: Seq<int>|
        is_scalar_at(TypeView::Struct(fields), path) && path[0] < n ==> after.memory[
        #[trigger] dest.along(path)] == before.memory[src.along(path)]
}

/// Whether no structure has more fields than can be numbered.
pub open spec fn is_numberable(ty: TypeView) -> bool
    decreases ty,
{
    match ty {
        TypeView::Struct(fields) => {
            &&& fields.len() <= usize::MAX
            &&& forall|i: int| 0 <= i < fields.len() ==> is_numberable(#[trigger] fields[i])
        },
        _ => true,
    }
}

proof fn lemma_along(place: Place, path: Seq<int>)
    requires
        path.len() > 0,
    ensures
        place.field(path[0]).along(path.drop_first()) == place.along(path),
{
    assert(place.path.push(path[0]) + path.drop_first() =~= place.path + path);
}

proof fn lemma_in_field(place: Place, outer: Place, index: int)
    requires
        place.is_in(outer.field(index)),
    ensures
        place.is_in(outer),
        outer.path.len() < place.path.len(),
        place.path[outer.path.len() as int] == index,
{
    let len = outer.path.len() as int;
    let field = outer.field(index).path;
    assert(place.path.take(len + 1)[len] == field[len]);
    assert(place.path.take(len) =~= place.path.take(len + 1).take(len));
    assert(field.take(len) =~= outer.path);
}

proof fn lemma_path_in(place: Place, path: Seq<int>)
    ensures
        place.along(path).is_in(place),
        path.len() > 0 ==> place.along(path).path[place.path.len() as int] == path[0],
{
    assert((place.path + path).take(place.path.len() as int) =~= place.path);
}

proof fn lemma_apart_along(place: Place, other: Place, path: Seq<int>)
    requires
        place.is_apart(other),
    ensures
        !place.along(path).is_in(other),
{
    let long = place.path + path;
    if place.along(path).is_in(other) {
        if other.path.len() <= place.path.len() {
            assert(place.path.take(other.path.len() as int) =~= long.take(other.path.len() as int));
        } else {
            assert(other.path.take(place.path.len() as int) =~= long.take(
                other.path.len() as int,
            ).take(place.path.len() as int));
            assert(other.path.take(place.path.len() as int) =~= place.path);
        }
    }
}

proof fn lemma_fields_apart(place: Place, other: Place, index: int)
    requires
        place == other || place.is_apart(other),
    ensures
        place.field(index) == other.field(index) || place.field(index).is_apart(
            other.field(index),
        ),
{
    if place != other {
        assert(place.field(index) == place.along(seq![index])) by {
            assert(place.path.push(index) =~= place.path + seq![index]);
        }
        assert(other.field(index) == other.along(seq![index])) by {
            assert(other.path.push(index) =~= other.path + seq![index]);
        }
        lemma_apart_along(place, other, seq![index]);
        lemma_apart_along(other, place, seq![index]);
        if place.field(index).is_in(other.field(index)) {
            lemma_in_field(place.field(index), other, index);
        }
        if other.field(index).is_in(place.field(index)) {
            lemma_in_field(other.field(index), place, index);
        }
    }
}

/// What lies in field `index` of the source is not among the fields before it
/// of the destination.
proof fn lemma_source_kept(dest: Place, src: Place, index: nat, path: Seq<int>)
    requires
        dest == src || dest.is_apart(src),
    ensures
        !src.field(index as int).along(path).is_in_fields(dest, index),
{
    let whole = seq![index as int] + path;
    assert(whole.drop_first() =~= path);
    lemma_along(src, whole);
    lemma_path_in(src, whole);
    if dest != src {
        lemma_apart_along(src, dest, whole);
    }
}

/// One scalar more is copied.
proof fn lemma_scalar_copied(
    before: Machine,
    m: Machine,
    after: Machine,
    below: nat,
    dest: Place,
    src: Place,
    fields: Seq<TypeView>,
    index: nat,
)
    requires
        dest == src || dest.is_apart(src),
        index < fields.len(),
        fields[index as int].is_scalar(),
        is_copied(before, m, below, dest, src, fields, index),
        after.rooms == m.rooms,
        after.memory == m.memory.insert(
            dest.field(index as int),
            m.memory[src.field(index as int)],
        ),
        keeps_registers(m, after, below),
    ensures
        is_copied(before, after, below, dest, src, fields, index + 1),
{
    let i = index as int;
    lemma_registers_kept(before, m, after, below);
    assert forall|place: Place| !place.is_in_fields(dest, index + 1) implies
        (#[trigger] after.memory[place]) == before.memory[place] by {
        assert(!place.is_in_fields(dest, index));
        assert(dest.field(i).path.take(dest.path.len() as int) =~= dest.path);
        assert(place != dest.field(i));
    }
    assert forall|path: Seq<int>|
        is_scalar_at(TypeView::Struct(fields), path) && path[0] < index + 1 implies after.memory[
    #[trigger] dest.along(path)] == before.memory[src.along(path)] by {
        lemma_along(dest, path);
        lemma_along(src, path);
        lemma_path_in(dest, path);
        if path[0] == i {
            assert(is_scalar_at(fields[i], path.drop_first()));
            assert(path.drop_first() =~= Seq::<int>::empty());
            assert(dest.path.push(i) + Seq::<int>::empty() =~= dest.path.push(i));
            assert(src.path.push(i) + Seq::<int>::empty() =~= src.path.push(i));
            lemma_source_kept(dest, src, index, Seq::empty());
        } else {
            assert(dest.field(i).path[dest.path.len() as int] == i);
            assert(dest.along(path) != dest.field(i));
        }
    }
}

/// One structure more is copied.
proof fn lemma_structure_copied(
    before: Machine,
    m: Machine,
    entered: Machine,
    after: Machine,
    below: nat,
    dest: Place,
    src: Place,
    fields: Seq<TypeView>,
    index: nat,
)
    requires
        dest == src || dest.is_apart(src),
        index < fields.len(),
        fields[index as int] is Struct,
        is_copied(before, m, below, dest, src, fields, index),
        entered.rooms == m.rooms,
        entered.memory == m.memory,
        keeps_registers(m, entered, below),
        is_copied(
            entered,
            after,
            below,
            dest.field(index as int),
            src.field(index as int),
            fields[index as int]->Struct_0,
            fields[index as int]->Struct_0.len(),
        ),
    ensures
        is_copied(before, after, below, dest, src, fields, index + 1),
{
    let i = index as int;
    let inner = fields[i]->Struct_0;
    lemma_registers_kept(before, m, entered, below);
    lemma_registers_kept(before, entered, after, below);
    assert forall|place: Place| !place.is_in_fields(dest, index + 1) implies
        (#[trigger] after.memory[place]) == before.memory[place] by {
        assert(!place.is_in_fields(dest, index));
        if place.is_in(dest.field(i)) {
            lemma_in_field(place, dest, i);
        }
        assert(entered.memory[place] == before.memory[place]);
    }
    assert forall|path: Seq<int>|
        is_scalar_at(TypeView::Struct(fields), path) && path[0] < index + 1 implies after.memory[
    #[trigger] dest.along(path)] == before.memory[src.along(path)] by {
        lemma_along(dest, path);
        lemma_along(src, path);
        lemma_path_in(dest, path);
        let rest = path.drop_first();
        if path[0] == i {
            assert(is_scalar_at(TypeView::Struct(inner), rest));
            assert(after.memory[dest.field(i).along(rest)] == entered.memory[src.field(i).along(
                rest,
            )]);
            lemma_source_kept(dest, src, index, rest);
        } else {
            if dest.along(path).is_in(dest.field(i)) {
                lemma_in_field(dest.along(path), dest, i);
            }
            assert(after.memory[dest.along(path)] == entered.memory[dest.along(path)]);
        }
    }
}

/// Copying a field takes registers.
proof fn lemma_registers_taken(
    st: Lowering,
    dest: RegisterId,
    src: Operand,
    fields: Seq<TypeView>,
    n: nat,
)
    requires
        0 < n <= fields.len(),
        copied_fields(st, dest, src, fields, n) is Some,
    ensures
        copied_fields(st, dest, src, fields, (n - 1) as nat) matches Some(before)
            && before.registers.len() + (if fields[n - 1] is Struct {
            2nat
        } else {
            3nat
        }) <= (copied_fields(st, dest, src, fields, n)->0).registers.len(),
{
    let i = (n - 1) as usize;
    let before = copied_fields(st, dest, src, fields, (n - 1) as nat)->0;
    match fields[n - 1] {
        TypeView::Struct(inner) => {
            let at = emit_field(before, Operand::Register(dest), fields, i)->0;
            let of = emit_field(at.st, src, fields, i)->0;
            lemma_copied_fields(of.st, at.reg, Operand::Register(of.reg), inner, inner.len());
            reveal(goes_straight);
            reveal(goes_on);
        },
        _ => {},
    }
}

/// The code that copies fields leads to a machine in which they are copied.
proof fn lemma_fields_copied(
    st: Lowering,
    dest: RegisterId,
    src: Operand,
    fields: Seq<TypeView>,
    n: nat,
    k: nat,
    start: Machine,
    m: Machine,
) -> (end: Machine)
    requires
        leads(st, k, start, m),
        copied_fields(st, dest, src, fields, n) is Some,
        (copied_fields(st, dest, src, fields, n)->0).registers.len() <= 0x1_0000_0000,
        n <= fields.len(),
        is_numberable(TypeView::Struct(fields)),
        dest.0 < st.registers.len(),
        src matches Operand::Register(reg) ==> reg.0 < st.registers.len(),
        m.place(Operand::Register(dest)) is Some,
        m.place(src) is Some,
        ({
            let to = m.place(Operand::Register(dest))->0;
            let from = m.place(src)->0;
            to == from || to.is_apart(from)
        }),
    ensures
        leads(copied_fields(st, dest, src, fields, n)->0, k, start, end),
        is_copied(
            m,
            end,
            st.registers.len(),
            m.place(Operand::Register(dest))->0,
            m.place(src)->0,
            fields,
            n,
        ),
    decreases fields, n,
{
    let to = m.place(Operand::Register(dest))->0;
    let from = m.place(src)->0;
    if n == 0 {
        m
    } else {
        let index = (n - 1) as nat;
        let i = index as usize;
        let low = st.registers.len();
        let before = copied_fields(st, dest, src, fields, index)->0;
        assert(is_numberable(fields[n - 1]));
        lemma_registers_taken(st, dest, src, fields, n);
        lemma_copied_fields(st, dest, src, fields, index);
        assert(low <= before.registers.len()) by {
            reveal(goes_straight);
            reveal(goes_on);
        }
        let mid = lemma_fields_copied(st, dest, src, fields, index, k, start, m);
        assert(mid.registers.contains_key(dest.0));
        assert(mid.place(Operand::Register(dest)) == Some(to));
        assert(mid.place(src) == Some(from));
        match fields[n - 1] {
            TypeView::Struct(inner) => {
                let at = emit_field(before, Operand::Register(dest), fields, i)->0;
                lemma_field_runs(before, Operand::Register(dest), fields, i, k, start, mid);
                let m1 = mid.with_register(at.reg, Content::Address(to.field(index as int)));
                let of = emit_field(at.st, src, fields, i)->0;
                assert(m1.place(src) == Some(from));
                lemma_field_runs(at.st, src, fields, i, k, start, m1);
                let m2 = m1.with_register(of.reg, Content::Address(from.field(index as int)));
                lemma_fields_apart(to, from, index as int);
                let end = lemma_fields_copied(
                    of.st,
                    at.reg,
                    Operand::Register(of.reg),
                    inner,
                    inner.len(),
                    k,
                    start,
                    m2,
                );
                assert(is_copied(
                    m2,
                    end,
                    low,
                    to.field(index as int),
                    from.field(index as int),
                    inner,
                    inner.len(),
                ));
                lemma_structure_copied(m, mid, m2, end, low, to, from, fields, index);
                end
            },
            TypeView::Array(_, _) => m,
            field => {
                let of = emit_field(before, src, fields, i)->0;
                lemma_field_runs(before, src, fields, i, k, start, mid);
                let m1 = mid.with_register(of.reg, Content::Address(from.field(index as int)));
                let loaded = emit_load(of.st, Operand::Register(of.reg), field)->0;
                lemma_load_runs(of.st, Operand::Register(of.reg), field, k, start, m1);
                let m2 = m1.with_register(loaded.reg, mid.memory[from.field(index as int)]);
                let at = emit_field(loaded.st, Operand::Register(dest), fields, i)->0;
                assert(m2.place(Operand::Register(dest)) == Some(to));
                lemma_field_runs(loaded.st, Operand::Register(dest), fields, i, k, start, m2);
                let m3 = m2.with_register(at.reg, Content::Address(to.field(index as int)));
                let instruction = InstructionView::StoreMem {
                    destination: Operand::Register(at.reg),
                    source: Operand::Register(loaded.reg),
                };
                let end = step(m3, instruction)->0;
                lemma_step(at.st, instruction, k, start, m3, end);
                lemma_scalar_copied(m, mid, end, low, to, from, fields, index);
                end
            },
        }
    }
}

proof fn lemma_numberable(ty: Type)
    ensures
        is_numberable(ty@),
    decreases ty,
{
    match ty {
        Type::Struct(fields) => {
            let list = (*fields.0)@;
            assert((*fields.0).len() == ty@->Struct_0.len());
            assert forall|i: int| 0 <= i < ty@->Struct_0.len() implies is_numberable(
                #[trigger] ty@->Struct_0[i],
            ) by {
                lemma_numberable(list[i]);
            }
        },
        _ => {},
    }
}

/// Whether a place holds, in the end, the value of a type that another place
/// held before, and nothing else in memory has changed.
pub open spec fn holds_copy(
    before: Machine,
    after: Machine,
    dest: Place,
    src: Place,
    ty: TypeView,
) -> bool {
    &&& forall|path: Seq<int>|
        is_scalar_at(ty, path) ==> after.memory[#[trigger] dest.along(path)]
            == before.memory[src.along(path)]
    &&& forall|place: Place|
        !place.is_in(dest) ==> (#[trigger] after.memory[place]) == before.memory[place]
}

/// The code that copies a structure leaves every scalar of it in the place that
/// is asked for, or in room on the stack that nothing else lies in, and changes
/// no other memory. So the original is kept, and what is written to the copy
/// later does not reach it.
pub proof fn law_structure_copied(
    st: Lowering,
    dest: Option<RegisterId>,
    src: Operand,
    ty: Type,
    m: Machine,
)
    requires
        st.has_current(),
        ty is Struct,
        copied_value(st, dest, src, ty@) is Some,
        (copied_value(st, dest, src, ty@)->0).st.registers.len() <= 0x1_0000_0000,
        src matches Operand::Register(reg) ==> reg.0 < st.registers.len(),
        m.place(src) is Some,
        dest is None ==> m.has_made(m.place(src)->0),
        dest matches Some(reg) ==> {
            &&& reg.0 < st.registers.len()
            &&& m.place(Operand::Register(reg)) matches Some(to) && (to == m.place(src)->0
                || to.is_apart(m.place(src)->0))
        },
    ensures
        ({
            let copied = copied_value(st, dest, src, ty@)->0;
            let from = m.place(src)->0;
            let to = match dest {
                Some(reg) => m.place(Operand::Register(reg))->0,
                None => m.next_room(),
            };
            &&& dest is None ==> to.is_apart(from)
            &&& ran(m, added(st, copied.st)) matches Some(end) && {
                &&& end.place(copied.value) == Some(to)
                &&& holds_copy(m, end, to, from, ty@)
                &&& keeps_registers(m, end, st.registers.len())
            }
        }),
{
    let fields = ty@->Struct_0;
    let copied = copied_value(st, dest, src, ty@)->0;
    let k = written(st).len();
    lemma_numberable(ty);
    assert(written(st).skip(k as int) =~= Seq::empty());
    assert(leads(st, k, m, m));
    let from = m.place(src)->0;
    match dest {
        Some(reg) => {
            let to = m.place(Operand::Register(reg))->0;
            let end = lemma_fields_copied(st, reg, src, fields, fields.len(), k, m, m);
            lemma_whole_copied(m, end, st.registers.len(), to, from, fields);
        },
        None => {
            let base = emit_alloc(st, ty@)->0;
            lemma_copied_fields(base.st, base.reg, src, fields, fields.len());
            assert(base.st.registers.len() <= copied.st.registers.len()) by {
                reveal(goes_straight);
                reveal(goes_on);
            }
            lemma_alloc_runs(st, ty@, k, m, m);
            let to = m.next_room();
            let entered = Machine {
                rooms: m.rooms + 1,
                ..m.with_register(base.reg, Content::Address(to))
            };
            assert(entered.place(src) == Some(from));
            let end = lemma_fields_copied(
                base.st,
                base.reg,
                src,
                fields,
                fields.len(),
                k,
                m,
                entered,
            );
            lemma_registers_kept(m, entered, end, st.registers.len());
            lemma_whole_copied(entered, end, base.st.registers.len(), to, from, fields);
        },
    }
}

proof fn lemma_whole_copied(
    before: Machine,
    after: Machine,
    below: nat,
    dest: Place,
    src: Place,
    fields: Seq<TypeView>,
)
    requires
        is_copied(before, after, below, dest, src, fields, fields.len()),
    ensures
        holds_copy(before, after, dest, src, TypeView::Struct(fields)),
{
}

/// The value of a local variable that is a structure is a copy of it, put where
/// the value is asked for.
pub proof fn law_local_is_copied(
    src: Source,
    st: Lowering,
    e: &Expression,
    local: u32,
    fields: Seq<TypeView>,
)
    requires
        local_named(*e) == Some(local),
        st.locals.contains_key(local),
        src.types.has(e.hir_id),
        lowered_ty(src.types.at(e.hir_id)) == Some(TypeView::Struct(fields)),
        !st.place,
    ensures
        expression_lowered(src, st, *e) == valued_as(
            e.hir_id,
            copied_value(
                st,
                st.dest,
                Operand::Register(st.locals[local]),
                TypeView::Struct(fields),
            ),
        ),
{
    reveal(path_rule);
    reveal(local_rule);
}

/// A let statement once there is room for its variable.
struct LetShape {
    noted: Lowering,
    text: Seq<char>,
    room: RegisterId,
    entered: Lowering,
}

proof fn lemma_let_shape(
    src: Source,
    st: Lowering,
    statement: &LetStatement,
    local: u32,
    fields: Seq<TypeView>,
) -> (shape: LetShape)
    requires
        let_lowered(src, st, *statement) is Some,
        statement.initializer matches Some(init) && {
            &&& local_named(*init) == Some(local)
            &&& src.types.has(init.hir_id)
            &&& lowered_ty(src.types.at(init.hir_id)) == Some(TypeView::Struct(fields))
        },
        lowered_ty(src.types.at(statement.hir_id)) == Some(TypeView::Struct(fields)),
        !is_renaming(src, *statement),
        local != statement.hir_id.local_id.0,
        st.locals.contains_key(local),
    ensures
        ({
            let after = let_lowered(src, st, *statement)->0;
            let own = statement.hir_id.local_id.0;
            let copied = copied_fields(
                shape.entered,
                shape.room,
                Operand::Register(st.locals[local]),
                fields,
                fields.len(),
            );
            &&& emit(st, InstructionView::Comment(shape.text)) == Some(shape.noted)
            &&& emit_alloc(shape.noted, TypeView::Struct(fields)) matches Some(room) && {
                &&& room.reg == shape.room
                &&& shape.entered.registers == room.st.registers
                &&& shape.entered.blocks == room.st.blocks
                &&& shape.entered.stack == room.st.stack
            }
            &&& copied is Some
            &&& after.blocks == (copied->0).blocks
            &&& after.stack == (copied->0).stack
            &&& after.registers == (copied->0).registers
            &&& after.locals.contains_key(own) && after.locals[own] == shape.room
            &&& after.locals[local] == st.locals[local]
        }),
{
    let init = statement.initializer->0;
    let text = "let "@ + st.names[statement.name.symbol.0 as int] + " = ..."@;
    let noted = comment(st, text)->0;
    let room = emit_alloc(noted, TypeView::Struct(fields))->0;
    let bound = Lowering {
        locals: room.st.locals.insert(statement.hir_id.local_id.0, room.reg),
        ..room.st
    };
    let entered = bound.entering(Some(room.reg), false);
    assert(src.types.at(statement.hir_id).is_aggregate());
    assert(room.st.locals == st.locals);
    law_local_is_copied(src, entered, &*init, local, fields);
    lemma_copy_keeps_locals(
        entered,
        room.reg,
        Operand::Register(st.locals[local]),
        fields,
        fields.len(),
    );
    LetShape { noted, text, room: room.reg, entered }
}

proof fn lemma_copy_keeps_locals(
    st: Lowering,
    dest: RegisterId,
    src: Operand,
    fields: Seq<TypeView>,
    n: nat,
)
    ensures
        copied_fields(st, dest, src, fields, n) matches Some(after) ==> after.locals == st.locals,
    decreases fields, n,
{
    if copied_fields(st, dest, src, fields, n) is Some && 0 < n <= fields.len() {
        let i = (n - 1) as usize;
        let before = copied_fields(st, dest, src, fields, (n - 1) as nat)->0;
        lemma_copy_keeps_locals(st, dest, src, fields, (n - 1) as nat);
        match fields[n - 1] {
            TypeView::Struct(inner) => {
                let at = emit_field(before, Operand::Register(dest), fields, i)->0;
                let of = emit_field(at.st, src, fields, i)->0;
                lemma_copy_keeps_locals(
                    of.st,
                    at.reg,
                    Operand::Register(of.reg),
                    inner,
                    inner.len(),
                );
            },
            _ => {},
        }
    }
}

proof fn lemma_let_started(st: Lowering, shape: LetShape, ty: TypeView, k: nat, m: Machine)
    requires
        st.has_current(),
        k == written(st).len(),
        st.registers.len() < 0x1_0000_0000,
        emit(st, InstructionView::Comment(shape.text)) == Some(shape.noted),
        emit_alloc(shape.noted, ty) matches Some(room) && {
            &&& room.reg == shape.room
            &&& shape.entered.registers == room.st.registers
            &&& shape.entered.blocks == room.st.blocks
            &&& shape.entered.stack == room.st.stack
        },
    ensures
        shape.room.0 as nat == st.registers.len(),
        shape.entered.registers.len() == st.registers.len() + 1,
        leads(
            shape.entered,
            k,
            m,
            (Machine {
                rooms: m.rooms + 1,
                ..m.with_register(shape.room, Content::Address(m.next_room()))
            }),
        ),
{
    assert(written(st).skip(k as int) =~= Seq::empty());
    assert(leads(st, k, m, m));
    lemma_step(st, InstructionView::Comment(shape.text), k, m, m, m);
    lemma_alloc_runs(shape.noted, ty, k, m, m);
}

/// A let statement that starts a variable off with a structure that another
/// variable holds makes room for it on the stack, where a copy is put. The
/// other variable is kept as it was.
pub proof fn law_let_copies(
    src: Source,
    st: Lowering,
    statement: &LetStatement,
    local: u32,
    ty: Type,
    m: Machine,
)
    requires
        st.has_current(),
        let_lowered(src, st, *statement) is Some,
        (let_lowered(src, st, *statement)->0).registers.len() <= 0x1_0000_0000,
        statement.initializer matches Some(init) && {
            &&& local_named(*init) == Some(local)
            &&& src.types.has(init.hir_id)
            &&& lowered_ty(src.types.at(init.hir_id)) == Some(ty@)
        },
        lowered_ty(src.types.at(statement.hir_id)) == Some(ty@),
        ty is Struct,
        !is_renaming(src, *statement),
        local != statement.hir_id.local_id.0,
        st.locals.contains_key(local),
        st.locals[local].0 < st.registers.len(),
        m.place(Operand::Register(st.locals[local])) matches Some(from) && m.has_made(from),
    ensures
        ({
            let after = let_lowered(src, st, *statement)->0;
            let from = m.place(Operand::Register(st.locals[local]))->0;
            &&& after.locals.contains_key(statement.hir_id.local_id.0)
            &&& after.locals[local] == st.locals[local]
            &&& m.next_room().is_apart(from)
            &&& ran(m, added(st, after)) matches Some(end) && {
                &&& end.place(Operand::Register(after.locals[statement.hir_id.local_id.0]))
                    == Some(m.next_room())
                &&& holds_copy(m, end, m.next_room(), from, ty@)
                &&& keeps_registers(m, end, st.registers.len())
            }
        }),
{
    let from = m.place(Operand::Register(st.locals[local]))->0;
    let k = written(st).len();
    let after = let_lowered(src, st, *statement)->0;
    let fields = ty@->Struct_0;
    let shape = lemma_let_shape(src, st, statement, local, fields);
    lemma_copied_fields(
        shape.entered,
        shape.room,
        Operand::Register(st.locals[local]),
        fields,
        fields.len(),
    );
    assert(shape.entered.registers.len() <= after.registers.len()) by {
        reveal(goes_straight);
        reveal(goes_on);
    }
    lemma_let_started(st, shape, ty@, k, m);
    let roomy = Machine {
        rooms: m.rooms + 1,
        ..m.with_register(shape.room, Content::Address(m.next_room()))
    };
    lemma_numberable(ty);
    let end = lemma_fields_copied(
        shape.entered,
        shape.room,
        Operand::Register(st.locals[local]),
        fields,
        fields.len(),
        k,
        m,
        roomy,
    );
    lemma_registers_kept(m, roomy, end, st.registers.len());
    lemma_whole_copied(roomy, end, shape.entered.registers.len(), m.next_room(), from, fields);
    assert(end.content(Operand::Register(shape.room)) == roomy.content(
        Operand::Register(shape.room),
    ));
}

/// An argument of a call that is a structure held by a variable is passed as
/// the address of a copy, in room on the stack that is made for it. The
/// variable is kept as it was, whatever the called function does to the copy.
pub proof fn law_argument_copied(
    src: Source,
    st: Lowering,
    immutable: Seq<bool>,
    list: &Vec<Rc<Expression>>,
    n: nat,
    local: u32,
    ty: Type,
    m: Machine,
)
    requires
        0 < n <= list@.len(),
        arguments_lowered(src, st, immutable, *list, n) is Some,
        (arguments_lowered(src, st, immutable, *list, n)->0).st.registers.len() <= 0x1_0000_0000,
        local_named(*list@[n - 1]) == Some(local),
        src.types.has(list@[n - 1].hir_id),
        lowered_ty(src.types.at(list@[n - 1].hir_id)) == Some(ty@),
        ty is Struct,
        !is_passed_as_is(src, immutable, n - 1, *list@[n - 1]),
        ({
            let before = (arguments_lowered(src, st, immutable, *list, (n - 1) as nat)->0).st;
            &&& before.has_current()
            &&& before.locals.contains_key(local)
            &&& before.locals[local].0 < before.registers.len()
            &&& m.place(Operand::Register(before.locals[local])) matches Some(from)
                && m.has_made(from)
        }),
    ensures
        ({
            let before = arguments_lowered(src, st, immutable, *list, (n - 1) as nat)->0;
            let after = arguments_lowered(src, st, immutable, *list, n)->0;
            let from = m.place(Operand::Register(before.st.locals[local]))->0;
            &&& after.values.len() == before.values.len() + 1
            &&& after.values.drop_last() == before.values
            &&& m.next_room().is_apart(from)
            &&& ran(m, added(before.st, after.st)) matches Some(end) && {
                &&& end.place(after.values.last()) == Some(m.next_room())
                &&& holds_copy(m, end, m.next_room(), from, ty@)
                &&& keeps_registers(m, end, before.st.registers.len())
            }
        }),
{
    let before = arguments_lowered(src, st, immutable, *list, (n - 1) as nat)->0;
    let after = arguments_lowered(src, st, immutable, *list, n)->0;
    let entered = before.st.entering(None, false);
    let variable = Operand::Register(before.st.locals[local]);
    law_local_is_copied(src, entered, &*list@[n - 1], local, ty@->Struct_0);
    let copied = copied_value(entered, None, variable, ty@)->0;
    assert(within(src, before.st, None, false, *list@[n - 1]) == Some(after.st));
    law_structure_copied(entered, None, variable, ty, m);
    assert(after.values.drop_last() =~= before.values);
    assert(added(before.st, after.st) == added(entered, copied.st));
}

/// An assignment of a structure that one variable holds to another variable
/// puts a copy in the place of the other one, and changes no other memory.
pub proof fn law_assignment_copies(
    src: Source,
    st: Lowering,
    e: &Expression,
    target: u32,
    local: u32,
    ty: Type,
    m: Machine,
)
    requires
        st.has_current(),
        assignment_lowered(src, st, *e) is Some,
        (assignment_lowered(src, st, *e)->0).registers.len() <= 0x1_0000_0000,
        e.kind matches ExpressionKind::Assignment { lhs, rhs } && {
            &&& local_named(*lhs) == Some(target)
            &&& local_named(*rhs) == Some(local)
            &&& lowered_ty(src.types.at(rhs.hir_id)) == Some(ty@)
        },
        ty is Struct,
        st.locals.contains_key(target),
        st.locals[target].0 < st.registers.len(),
        st.locals.contains_key(local),
        st.locals[local].0 < st.registers.len(),
        m.place(Operand::Register(st.locals[target])) matches Some(to) && (m.place(
            Operand::Register(st.locals[local]),
        ) matches Some(from) && (to == from || to.is_apart(from))),
    ensures
        ({
            let after = assignment_lowered(src, st, *e)->0;
            let to = m.place(Operand::Register(st.locals[target]))->0;
            let from = m.place(Operand::Register(st.locals[local]))->0;
            ran(m, added(st, after)) matches Some(end) && {
                &&& holds_copy(m, end, to, from, ty@)
                &&& keeps_registers(m, end, st.registers.len())
            }
        }),
{
    let (lhs, rhs) = (e.kind->Assignment_lhs, e.kind->Assignment_rhs);
    let to = st.locals[target];
    let variable = Operand::Register(st.locals[local]);
    let placed = st.with_operand(lhs.hir_id, Operand::Register(to));
    assert(within(src, st, None, true, *lhs) == Some(placed)) by {
        reveal(path_rule);
        reveal(local_rule);
        assert(st.entering(None, true).with_operand(lhs.hir_id, Operand::Register(to)).leaving(st)
            == placed);
    }
    assert(assigned_place(placed, *lhs) == Some(Emitted { st: placed, reg: to })) by {
        reveal(assigned_place);
    }
    let entered = placed.entering(Some(to), false);
    law_local_is_copied(src, entered, &*rhs, local, ty@->Struct_0);
    let copied = copied_value(entered, Some(to), variable, ty@)->0;
    reveal(stored);
    law_structure_copied(entered, Some(to), variable, ty, m);
    assert(added(st, assignment_lowered(src, st, *e)->0) == added(entered, copied.st));
}

/// Where copies are elided, a let statement that makes an immutable variable
/// from another immutable one of the same type, which holds a structure, gives
/// it the place of the other one. Nothing but a remark is added to the code.
pub proof fn law_let_shares(
    src: Source,
    st: Lowering,
    statement: &LetStatement,
    local: u32,
)
    requires
        is_renaming(src, *statement),
        local_named(*statement.initializer->0) == Some(local),
        st.has_current(),
        st.locals.contains_key(local),
        (statement.name.symbol.0 as int) < st.names.len(),
    ensures
        let_lowered(src, st, *statement) matches Some(after) && {
            &&& after.locals == st.locals.insert(
                statement.hir_id.local_id.0,
                st.locals[local],
            )
            &&& after.registers == st.registers
            &&& added(st, after) == seq![
                InstructionView::Comment(
                    "let "@ + st.names[statement.name.symbol.0 as int] + " = ..."@,
                ),
            ]
        },
{
    let init = statement.initializer->0;
    let text = "let "@ + st.names[statement.name.symbol.0 as int] + " = ..."@;
    let noted = comment(st, text)->0;
    lemma_place_named(src, noted, &*init, local);
    let after = let_lowered(src, st, *statement)->0;
    assert(written(after) == written(st).push(InstructionView::Comment(text)));
    assert(added(st, after) =~= seq![InstructionView::Comment(text)]);
}

/// The place of a variable that holds a structure takes no code.
proof fn lemma_place_named(src: Source, st: Lowering, e: &Expression, local: u32)
    requires
        local_named(*e) == Some(local),
        st.locals.contains_key(local),
        src.types.has(e.hir_id),
        src.types.at(e.hir_id).is_aggregate(),
    ensures
        within(src, st, None, true, *e) == Some(
            st.with_operand(e.hir_id, Operand::Register(st.locals[local])),
        ),
{
    reveal(path_rule);
    reveal(local_rule);
    let reg = Operand::Register(st.locals[local]);
    assert(st.entering(None, true).with_operand(e.hir_id, reg).leaving(st) == st.with_operand(
        e.hir_id,
        reg,
    ));
}

/// Where copies are elided, an argument of a call that is an immutable variable
/// which holds a structure is passed as the address of the variable's own place,
/// if the parameter is immutable as well. No code is added for it.
pub proof fn law_argument_shared(
    src: Source,
    st: Lowering,
    immutable: Seq<bool>,
    list: &Vec<Rc<Expression>>,
    n: nat,
    local: u32,
)
    requires
        0 < n <= list@.len(),
        arguments_lowered(src, st, immutable, *list, (n - 1) as nat) is Some,
        is_passed_as_is(src, immutable, n - 1, *list@[n - 1]),
        local_named(*list@[n - 1]) == Some(local),
        (arguments_lowered(src, st, immutable, *list, (n - 1) as nat)->0).st.locals.contains_key(
            local,
        ),
    ensures
        ({
            let before = arguments_lowered(src, st, immutable, *list, (n - 1) as nat)->0;
            arguments_lowered(src, st, immutable, *list, n) matches Some(after) && {
                &&& after.values == before.values.push(
                    Operand::Register(before.st.locals[local]),
                )
                &&& after.st.blocks == before.st.blocks
                &&& after.st.registers == before.st.registers
                &&& after.st.locals == before.st.locals
            }
        }),
{
    let before = arguments_lowered(src, st, immutable, *list, (n - 1) as nat)->0;
    lemma_place_named(src, before.st, &*list@[n - 1], local);
}

/// The value of an argument stays what it is while later ones are evaluated.
proof fn lemma_values_kept(
    src: Source,
    st: Lowering,
    immutable: Seq<bool>,
    list: &Vec<Rc<Expression>>,
    i: nat,
    n: nat,
)
    requires
        i < n <= list@.len(),
        arguments_lowered(src, st, immutable, *list, n) is Some,
    ensures
        arguments_lowered(src, st, immutable, *list, i) is Some,
        arguments_lowered(src, st, immutable, *list, i + 1) is Some,
        (arguments_lowered(src, st, immutable, *list, i)->0).values.len() == i,
        (arguments_lowered(src, st, immutable, *list, n)->0).values.len() == n,
        (arguments_lowered(src, st, immutable, *list, n)->0).values[i as int] == (
        arguments_lowered(src, st, immutable, *list, i + 1)->0).values[i as int],
    decreases n,
{
    let before = arguments_lowered(src, st, immutable, *list, (n - 1) as nat)->0;
    if i + 1 < n {
        lemma_values_kept(src, st, immutable, list, i, (n - 1) as nat);
    } else if n > 1 {
        lemma_values_kept(src, st, immutable, list, 0, (n - 1) as nat);
    }
}

/// Whether a function returns a value that is made up of several.
pub open spec fn returns_structure(src: Source, signature: FunctionSignature) -> bool {
    return_ty(src, signature)->0 matches Some(ty) && lowered_ty(ty)->0.is_aggregate()
}

/// Where copies are elided, a call receives the address of the own place of an
/// immutable variable that holds a structure, in the position of an argument
/// whose parameter is immutable as well. In front of the arguments stand the
/// place for a structure that is returned, and `self`, if there are any.
pub proof fn law_call_receives_place(
    src: Source,
    st: Lowering,
    id: HirId,
    name: Path,
    signature: FunctionSignature,
    body: BodyId,
    own: Option<&Expression>,
    list: &Vec<Rc<Expression>>,
    i: nat,
    local: u32,
)
    requires
        function_call_lowered(src, st, id, name, signature, body, own_expression(own), *list)
            is Some,
        i < list@.len(),
        is_passed_as_is(src, immutable_parameters(src, body), i as int, *list@[i as int]),
        local_named(*list@[i as int]) == Some(local),
        ({
            let named = (with_symbol(src, st, name)->0).0;
            (arguments_lowered(
                src,
                named,
                immutable_parameters(src, body),
                *list,
                i,
            )->0).st.locals.contains_key(local)
        }),
    ensures
        ({
            let named = (with_symbol(src, st, name)->0).0;
            let before = arguments_lowered(
                src,
                named,
                immutable_parameters(src, body),
                *list,
                i,
            )->0;
            let after = function_call_lowered(
                src,
                st,
                id,
                name,
                signature,
                body,
                own_expression(own),
                *list,
            )->0;
            written(after).len() > 0 && (written(after).last() matches InstructionView::FunctionCall {
                arguments,
                ..
            } && {
                let first = arguments.len() - list@.len();
                &&& first == (if returns_structure(src, signature) {
                    1int
                } else {
                    0
                }) + (if own is Some {
                    1int
                } else {
                    0
                })
                &&& arguments[first + i] == Operand::Register(before.st.locals[local])
            })
        }),
{
    let immutable = immutable_parameters(src, body);
    let (named, symbol) = with_symbol(src, st, name)->0;
    let passed = arguments_lowered(src, named, immutable, *list, list@.len())->0;
    lemma_values_kept(src, named, immutable, list, i, list@.len());
    law_argument_shared(src, named, immutable, list, i + 1, local);
    let value = passed.values[i as int];
    let first = match own {
        None => None,
        Some(target) => self_value(src, named, signature.self_parameter->0, *target),
    };
    let returned = return_ty(src, signature)->0;
    reveal(function_called);
    let called = function_called(passed.st, symbol, first, passed.values, returned)->0;
    let code = written(called.st);
    assert(code.last() is FunctionCall);
    let arguments = code.last()->FunctionCall_arguments;
    let ahead = arguments.len() - list@.len();
    assert(arguments[ahead + i] == value);
}

/// Copies are made wherever they are not to be elided.
pub proof fn law_nothing_shared(
    src: Source,
    statement: &LetStatement,
    immutable: Seq<bool>,
    i: int,
    e: &Expression,
)
    requires
        !src.elides_copies,
    ensures
        !is_renaming(src, *statement),
        !is_passed_as_is(src, immutable, i, *e),
{
}

} // verus!
