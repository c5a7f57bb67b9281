//! Listings of LIR.

use crate::collections::{ascending, sorted_keys};
use crate::frontend::intern::Interner;
use crate::middle::lir::{
    block_at, block_views, BlockId, BlockView, FloatWidth, FunctionDefinition, FunctionView,
    Immediate, Instruction, InstructionView, IntegerCastKind, IntegerWidth, Operand, RegisterId,
    Struct, Type, TypeView,
};
use crate::style::{
    colored_text, doc, push_colored, push_colored_str, push_painted, push_str, push_text, Shade,
    Styled, StyledView,
};
use crate::text::{decimal, push_decimal};
use std::collections::BTreeMap;
use vstd::prelude::*;

verus! {

broadcast use vstd::std_specs::btree::group_btree_axioms;

/// How a label is written.
pub open spec fn label_text(id: BlockId) -> Seq<char> {
    ".label_"@ + decimal(id.0 as nat)
}

/// How a register is written.
pub open spec fn register_text(id: RegisterId) -> Seq<char> {
    seq!['%'] + decimal(id.0 as nat)
}

/// A register in its color.
pub open spec fn shown_register(id: RegisterId) -> StyledView {
    colored_text(register_text(id), Shade::Yellow)
}

/// Whether a value has a text here: a floating point number has none, and a
/// name has to be known.
pub open spec fn immediate_shows(names: Seq<Seq<char>>, immediate: Immediate) -> bool {
    match immediate {
        Immediate::Float(_, _) => false,
        Immediate::NamedStaticLabel(s) | Immediate::FunctionLabel(s) => (s.0 as int) < names.len(),
        _ => true,
    }
}

/// How a value is written that stands in the code.
pub open spec fn immediate_text(names: Seq<Seq<char>>, immediate: Immediate) -> Seq<char> {
    match immediate {
        Immediate::Int(value, _) => decimal(value as nat),
        Immediate::Float(_, _) => Seq::empty(),
        Immediate::Bool(value) => if value {
            "true"@
        } else {
            "false"@
        },
        Immediate::AnonymousStaticLabel(label) => "__$static_alloc_"@ + decimal(label.0 as nat),
        Immediate::NamedStaticLabel(s) | Immediate::FunctionLabel(s) => names[s.0 as int],
    }
}

/// Whether an operand has a text.
pub open spec fn operand_shows(names: Seq<Seq<char>>, operand: Operand) -> bool {
    match operand {
        Operand::Immediate(immediate) => immediate_shows(names, immediate),
        Operand::Register(_) => true,
    }
}

/// An operand in its color.
pub open spec fn shown_operand(names: Seq<Seq<char>>, operand: Operand) -> StyledView {
    match operand {
        Operand::Immediate(immediate) => colored_text(
            immediate_text(names, immediate),
            Shade::Magenta,
        ),
        Operand::Register(id) => shown_register(id),
    }
}

/// The texts of the first `n` types of a list, with commas between them.
pub open spec fn types_text(types: Seq<TypeView>, n: nat) -> Seq<char>
    decreases types, n,
{
    if n == 0 || n > types.len() {
        Seq::empty()
    } else {
        types_text(types, (n - 1) as nat) + type_text(types[n - 1]) + (if n < types.len() {
            ", "@
        } else {
            Seq::empty()
        })
    }
}

/// How a type is written.
pub open spec fn type_text(ty: TypeView) -> Seq<char>
    decreases ty, 0nat,
{
    match ty {
        TypeView::Integer(IntegerWidth::I8) => "i8"@,
        TypeView::Integer(IntegerWidth::I16) => "i16"@,
        TypeView::Integer(IntegerWidth::I32) => "i32"@,
        TypeView::Integer(IntegerWidth::I64) => "i64"@,
        TypeView::Float(FloatWidth::F32) => "f32"@,
        TypeView::Float(FloatWidth::F64) => "f64"@,
        TypeView::Pointer => "ptr"@,
        TypeView::Struct(fields) => "{ "@ + types_text(fields, fields.len()) + " }"@,
        TypeView::Array(inner, length) => seq!['['] + type_text(*inner) + "; "@ + decimal(
            length as nat,
        ) + seq![']'],
    }
}

/// How a cast is written.
pub open spec fn cast_text(kind: IntegerCastKind) -> Seq<char> {
    match kind {
        IntegerCastKind::SignExtension => "SignExtension"@,
        IntegerCastKind::ZeroExtension => "ZeroExtension"@,
        IntegerCastKind::Truncate => "Truncate"@,
    }
}

/// Operands with commas between them.
pub open spec fn shown_operands(names: Seq<Seq<char>>, operands: Seq<Operand>, n: nat) -> Seq<
    StyledView,
>
    decreases n,
{
    if n == 0 {
        Seq::empty()
    } else if n == 1 {
        seq![shown_operand(names, operands[0])]
    } else {
        shown_operands(names, operands, (n - 1) as nat) + seq![
            StyledView::Text(", "@),
            shown_operand(names, operands[n - 1]),
        ]
    }
}

/// What a phi takes from a block.
pub open spec fn shown_source(names: Seq<Seq<char>>, block: u32, value: Operand) -> Seq<
    StyledView,
> {
    seq![
        colored_text(label_text(BlockId(block)), Shade::Blue),
        StyledView::Text(" -> "@),
        shown_operand(names, value),
    ]
}

/// What a phi takes from the first `n` of the listed blocks, with commas
/// between them.
pub open spec fn shown_sources(
    names: Seq<Seq<char>>,
    sources: Map<u32, Operand>,
    blocks: Seq<u32>,
    n: nat,
) -> Seq<StyledView>
    decreases n,
{
    if n == 0 {
        Seq::empty()
    } else {
        let last = shown_source(names, blocks[n - 1], sources[blocks[n - 1]]);
        if n == 1 {
            last
        } else {
            shown_sources(names, sources, blocks, (n - 1) as nat) + seq![StyledView::Text(", "@)]
                + last
        }
    }
}

/// Whether an instruction has a text.
pub open spec fn instruction_shows(names: Seq<Seq<char>>, instruction: InstructionView) -> bool {
    match instruction {
        InstructionView::LoadMem { source, .. } => operand_shows(names, source),
        InstructionView::StoreMem { destination, source } => operand_shows(names, destination)
            && operand_shows(names, source),
        InstructionView::GetStructElementPointer { source, .. } => operand_shows(names, source),
        InstructionView::GetArrayElementPointer { source, index, .. } => operand_shows(
            names,
            source,
        ) && operand_shows(names, index),
        InstructionView::IntegerCast { operand, .. } => operand_shows(names, operand),
        InstructionView::UnaryOperation { operand, .. } => operand_shows(names, operand),
        InstructionView::BinaryOperation { lhs, rhs, .. } => operand_shows(names, lhs)
            && operand_shows(names, rhs),
        InstructionView::Branch { condition, .. } => operand_shows(names, condition),
        InstructionView::Return { value: Some(value) } => operand_shows(names, value),
        InstructionView::FunctionCall { target, arguments, .. } => operand_shows(names, target)
            && (forall|i: int|
            0 <= i < arguments.len() ==> operand_shows(names, #[trigger] arguments[i])),
        InstructionView::Phi { sources, .. } => sources.dom().finite() && (forall|id: u32|
            sources.contains_key(id) ==> operand_shows(names, #[trigger] sources[id])),
        InstructionView::Copy { source, .. } => operand_shows(names, source),
        _ => true,
    }
}

/// A register that is assigned to.
pub open spec fn shown_target(destination: RegisterId) -> Seq<StyledView> {
    seq![
        shown_register(destination),
        StyledView::Text(" "@),
        colored_text("="@, Shade::White),
        StyledView::Text(" "@),
    ]
}

/// How an instruction is listed.
pub open spec fn shown_instruction(names: Seq<Seq<char>>, instruction: InstructionView) -> Seq<
    StyledView,
> {
    match instruction {
        InstructionView::LoadMem { destination, source } => shown_target(destination) + seq![
            colored_text("load"@, Shade::Cyan),
            StyledView::Text(" "@),
            shown_operand(names, source),
        ],
        InstructionView::StoreMem { destination, source } => seq![
            colored_text("store"@, Shade::Cyan),
            StyledView::Text(" "@),
            shown_operand(names, destination),
            StyledView::Text(" "@),
            colored_text("<-"@, Shade::White),
            StyledView::Text(" "@),
            shown_operand(names, source),
        ],
        InstructionView::AllocStack { destination, ty } => shown_target(destination) + seq![
            colored_text("alloc"@, Shade::Cyan),
            StyledView::Text(" "@),
            StyledView::Text(type_text(ty)),
        ],
        InstructionView::GetStructElementPointer { destination, source, ty, index } => shown_target(
            destination,
        ) + seq![
            colored_text("get_struct_element_ptr"@, Shade::Cyan),
            StyledView::Text(" "@),
            shown_operand(names, source),
            StyledView::Text(", "@),
            StyledView::Text(type_text(TypeView::Struct(ty))),
            StyledView::Text(", "@),
            colored_text(decimal(index as nat), Shade::Magenta),
        ],
        InstructionView::GetArrayElementPointer { destination, source, ty, index } => shown_target(
            destination,
        ) + seq![
            colored_text("get_array_element_ptr"@, Shade::Cyan),
            StyledView::Text(" "@),
            shown_operand(names, source),
            StyledView::Text(", "@),
            StyledView::Text(type_text(ty)),
            StyledView::Text(", "@),
            StyledView::Paint(Shade::Magenta, seq![shown_operand(names, index)]),
        ],
        InstructionView::IntegerCast { kind, destination, operand } => shown_target(destination)
            + seq![
            colored_text(cast_text(kind), Shade::Cyan),
            StyledView::Text(" "@),
            shown_operand(names, operand),
        ],
        InstructionView::UnaryOperation { operator, destination, operand } => shown_target(
            destination,
        ) + seq![
            colored_text(operator.shown(), Shade::White),
            StyledView::Text(" "@),
            shown_operand(names, operand),
        ],
        InstructionView::BinaryOperation { operator, destination, lhs, rhs } => shown_target(
            destination,
        ) + seq![
            shown_operand(names, lhs),
            StyledView::Text(" "@),
            colored_text(operator.shown(), Shade::White),
            StyledView::Text(" "@),
            shown_operand(names, rhs),
        ],
        InstructionView::Branch { condition, positive, negative } => seq![
            colored_text("br"@, Shade::Cyan),
            StyledView::Text(" "@),
            shown_operand(names, condition),
            StyledView::Text(" "@),
            colored_text(label_text(positive), Shade::Blue),
            StyledView::Text(" "@),
            colored_text(label_text(negative), Shade::Blue),
        ],
        InstructionView::Jump { destination } => seq![
            colored_text("jmp"@, Shade::Cyan),
            StyledView::Text(" "@),
            colored_text(label_text(destination), Shade::Blue),
        ],
        InstructionView::Return { value: Some(value) } => seq![
            colored_text("ret"@, Shade::Cyan),
            StyledView::Text(" "@),
            shown_operand(names, value),
        ],
        InstructionView::Return { value: None } => seq![colored_text("ret"@, Shade::Cyan)],
        InstructionView::FunctionCall { target, arguments, destination } => (match destination {
            Some(dest) => seq![shown_register(dest), StyledView::Text(" = "@)],
            None => Seq::empty(),
        }) + seq![
            colored_text("call"@, Shade::Cyan),
            StyledView::Text(" "@),
            shown_operand(names, target),
            StyledView::Text("("@),
            StyledView::Paint(Shade::White, shown_operands(names, arguments, arguments.len())),
            StyledView::Text(")"@),
        ],
        InstructionView::Phi { destination, sources } => {
            let blocks = ascending(sources.dom());
            shown_target(destination) + seq![
                colored_text("phi"@, Shade::BrightGreen),
                colored_text("("@, Shade::White),
                StyledView::Paint(
                    Shade::White,
                    shown_sources(names, sources, blocks, blocks.len()),
                ),
                colored_text(")"@, Shade::White),
            ]
        },
        InstructionView::Copy { destination, source } => seq![
            shown_register(destination),
            StyledView::Text(" = "@),
            colored_text("copy"@, Shade::BrightGreen),
            StyledView::Text(" "@),
            shown_operand(names, source),
        ],
        InstructionView::Comment(text) => seq![
            colored_text(";"@, Shade::BrightBlack),
            StyledView::Text(" "@),
            colored_text(text, Shade::BrightBlack),
        ],
    }
}

impl BlockId {
    /// How a label is written.
    pub fn display(self) -> (r: String)
        ensures
            r@ == label_text(self),
    {
        let mut out = ".label_".to_owned();
        push_decimal(&mut out, self.0 as u64);
        out
    }
}

impl RegisterId {
    /// How a register is written.
    pub fn display(self) -> (r: String)
        ensures
            r@ == register_text(self),
    {
        let mut out = String::new();
        out.push('%');
        push_decimal(&mut out, self.0 as u64);
        assert(out@ =~= register_text(self));
        out
    }
}

impl Immediate {
    /// How a value is written that stands in the code.
    pub fn display(self, names: &Interner) -> (r: String)
        requires
            immediate_shows(names@, self),
        ensures
            r@ == immediate_text(names@, self),
    {
        match self {
            Immediate::Int(value, _) => crate::text::decimal_text(value),
            Immediate::Float(_, _) => vstd::pervasive::unreached(),
            Immediate::Bool(value) => {
                if value {
                    "true".to_owned()
                } else {
                    "false".to_owned()
                }
            }
            Immediate::AnonymousStaticLabel(label) => {
                let mut out = "__$static_alloc_".to_owned();
                push_decimal(&mut out, label.0 as u64);
                out
            }
            Immediate::NamedStaticLabel(s) | Immediate::FunctionLabel(s) => {
                names.value(s).to_owned()
            }
        }
    }
}

impl Type {
    /// How a type is written.
    pub fn display(&self) -> (r: String)
        ensures
            r@ == type_text(self@),
        decreases self,
    {
        match self {
            Type::Integer(IntegerWidth::I8) => "i8".to_owned(),
            Type::Integer(IntegerWidth::I16) => "i16".to_owned(),
            Type::Integer(IntegerWidth::I32) => "i32".to_owned(),
            Type::Integer(IntegerWidth::I64) => "i64".to_owned(),
            Type::Float(FloatWidth::F32) => "f32".to_owned(),
            Type::Float(FloatWidth::F64) => "f64".to_owned(),
            Type::Pointer => "ptr".to_owned(),
            Type::Struct(fields) => {
                assert(self@->Struct_0 =~= fields@);
                fields.display()
            }
            Type::Array(ty, length) => {
                let mut out = String::new();
                out.push('[');
                out.append(ty.display().as_str());
                out.append("; ");
                push_decimal(&mut out, *length as u64);
                out.push(']');
                assert(out@ =~= type_text(self@));
                out
            }
        }
    }
}

impl Struct {
    /// How a structure is written.
    pub fn display(&self) -> (r: String)
        ensures
            r@ == type_text(TypeView::Struct(self@)),
        decreases self,
    {
        let ghost types = self@;
        let mut out = "{ ".to_owned();
        let mut i: usize = 0;
        assert(out@ =~= "{ "@ + types_text(types, 0));
        while i < self.0.len()
            invariant
                0 <= i <= self.0@.len(),
                types == self@,
                types.len() == self.0@.len(),
                out@ == "{ "@ + types_text(types, i as nat),
            decreases self.0@.len() - i,
        {
            assert(types[i as int] == self.0@[i as int]@);
            let text = self.0[i].display();
            out.append(text.as_str());
            if i != self.0.len() - 1 {
                out.append(", ");
            }
            i = i + 1;
            assert(out@ =~= "{ "@ + types_text(types, i as nat));
        }
        out.append(" }");
        out
    }
}

fn cast_name(kind: IntegerCastKind) -> (r: &'static str)
    ensures
        r@ == cast_text(kind),
{
    match kind {
        IntegerCastKind::SignExtension => "SignExtension",
        IntegerCastKind::ZeroExtension => "ZeroExtension",
        IntegerCastKind::Truncate => "Truncate",
    }
}

fn push_register(parts: &mut Vec<Styled>, id: RegisterId)
    ensures
        doc(final(parts)@) == doc(old(parts)@).push(shown_register(id)),
{
    push_colored(parts, id.display(), Shade::Yellow);
}

fn push_label(parts: &mut Vec<Styled>, id: BlockId)
    ensures
        doc(final(parts)@) == doc(old(parts)@).push(colored_text(label_text(id), Shade::Blue)),
{
    push_colored(parts, id.display(), Shade::Blue);
}

fn push_operand(parts: &mut Vec<Styled>, operand: Operand, names: &Interner)
    requires
        operand_shows(names@, operand),
    ensures
        doc(final(parts)@) == doc(old(parts)@).push(shown_operand(names@, operand)),
{
    match operand {
        Operand::Immediate(immediate) => {
            push_colored(parts, immediate.display(names), Shade::Magenta);
        }
        Operand::Register(id) => {
            push_register(parts, id);
        }
    }
}

fn push_target(parts: &mut Vec<Styled>, destination: RegisterId)
    ensures
        doc(final(parts)@) == doc(old(parts)@) + shown_target(destination),
{
    let ghost before = doc(parts@);
    push_register(parts, destination);
    push_str(parts, " ");
    push_colored_str(parts, "=", Shade::White);
    push_str(parts, " ");
    assert(doc(parts@) =~= before + shown_target(destination));
}

fn list_operands(operands: &Vec<Operand>, names: &Interner) -> (r: Vec<Styled>)
    requires
        forall|i: int| 0 <= i < operands@.len() ==> operand_shows(names@, #[trigger] operands@[i]),
    ensures
        doc(r@) == shown_operands(names@, operands@, operands@.len()),
{
    let mut parts: Vec<Styled> = Vec::new();
    let mut i: usize = 0;
    assert(doc(parts@) =~= Seq::<StyledView>::empty());
    while i < operands.len()
        invariant
            0 <= i <= operands@.len(),
            forall|i: int|
                0 <= i < operands@.len() ==> operand_shows(names@, #[trigger] operands@[i]),
            doc(parts@) == shown_operands(names@, operands@, i as nat),
        decreases operands@.len() - i,
    {
        if i > 0 {
            push_str(&mut parts, ", ");
        }
        push_operand(&mut parts, operands[i], names);
        i = i + 1;
        assert(doc(parts@) =~= shown_operands(names@, operands@, i as nat));
    }
    parts
}

fn list_sources(sources: &BTreeMap<u32, Operand>, names: &Interner) -> (r: Vec<Styled>)
    requires
        forall|id: u32| sources@.contains_key(id) ==> operand_shows(names@, #[trigger] sources@[id]),
    ensures
        ({
            let blocks = ascending(sources@.dom());
            doc(r@) == shown_sources(names@, sources@, blocks, blocks.len())
        }),
{
    let blocks = sorted_keys(sources);
    let mut parts: Vec<Styled> = Vec::new();
    let mut i: usize = 0;
    assert(doc(parts@) =~= Seq::<StyledView>::empty());
    while i < blocks.len()
        invariant
            0 <= i <= blocks@.len(),
            blocks@.to_set() == sources@.dom(),
            forall|id: u32|
                sources@.contains_key(id) ==> operand_shows(names@, #[trigger] sources@[id]),
            doc(parts@) == shown_sources(names@, sources@, blocks@, i as nat),
        decreases blocks@.len() - i,
    {
        let id: u32 = blocks[i];
        assert(blocks@.to_set().contains(id));
        let ghost before = doc(parts@);
        if i > 0 {
            push_str(&mut parts, ", ");
        }
        match sources.get(&id) {
            Some(value) => {
                assert(operand_shows(names@, sources@[id]));
                push_label(&mut parts, BlockId(id));
                push_str(&mut parts, " -> ");
                push_operand(&mut parts, *value, names);
            }
            None => vstd::pervasive::unreached(),
        }
        i = i + 1;
        assert(doc(parts@) =~= shown_sources(names@, sources@, blocks@, i as nat));
    }
    parts
}

impl Instruction {
    /// How the instruction is listed.
    #[verifier::rlimit(60)]
    pub fn display(&self, names: &Interner) -> (r: Vec<Styled>)
        requires
            instruction_shows(names@, self@),
        ensures
            doc(r@) == shown_instruction(names@, self@),
    {
        let mut f: Vec<Styled> = Vec::new();
        assert(doc(f@) =~= Seq::<StyledView>::empty());
        match self {
            Instruction::LoadMem { destination, source } => {
                push_target(&mut f, *destination);
                push_colored_str(&mut f, "load", Shade::Cyan);
                push_str(&mut f, " ");
                push_operand(&mut f, *source, names);
            }
            Instruction::StoreMem { destination, source } => {
                push_colored_str(&mut f, "store", Shade::Cyan);
                push_str(&mut f, " ");
                push_operand(&mut f, *destination, names);
                push_str(&mut f, " ");
                push_colored_str(&mut f, "<-", Shade::White);
                push_str(&mut f, " ");
                push_operand(&mut f, *source, names);
            }
            Instruction::AllocStack { destination, ty } => {
                push_target(&mut f, *destination);
                push_colored_str(&mut f, "alloc", Shade::Cyan);
                push_str(&mut f, " ");
                push_text(&mut f, ty.display());
            }
            Instruction::GetStructElementPointer { destination, source, ty, index } => {
                push_target(&mut f, *destination);
                push_colored_str(&mut f, "get_struct_element_ptr", Shade::Cyan);
                push_str(&mut f, " ");
                push_operand(&mut f, *source, names);
                push_str(&mut f, ", ");
                push_text(&mut f, ty.display());
                push_str(&mut f, ", ");
                push_colored(&mut f, crate::text::decimal_text(*index as u64), Shade::Magenta);
            }
            Instruction::GetArrayElementPointer { destination, source, ty, index } => {
                push_target(&mut f, *destination);
                push_colored_str(&mut f, "get_array_element_ptr", Shade::Cyan);
                push_str(&mut f, " ");
                push_operand(&mut f, *source, names);
                push_str(&mut f, ", ");
                push_text(&mut f, ty.display());
                push_str(&mut f, ", ");
                let mut inner: Vec<Styled> = Vec::new();
                assert(doc(inner@) =~= Seq::<StyledView>::empty());
                push_operand(&mut inner, *index, names);
                assert(doc(inner@) =~= seq![shown_operand(names@, *index)]);
                push_painted(&mut f, inner, Shade::Magenta);
            }
            Instruction::IntegerCast { kind, destination, operand } => {
                push_target(&mut f, *destination);
                push_colored_str(&mut f, cast_name(*kind), Shade::Cyan);
                push_str(&mut f, " ");
                push_operand(&mut f, *operand, names);
            }
            Instruction::UnaryOperation { operator, destination, operand } => {
                push_target(&mut f, *destination);
                push_colored_str(&mut f, operator.display(), Shade::White);
                push_str(&mut f, " ");
                push_operand(&mut f, *operand, names);
            }
            Instruction::BinaryOperation { operator, destination, lhs, rhs } => {
                push_target(&mut f, *destination);
                push_operand(&mut f, *lhs, names);
                push_str(&mut f, " ");
                push_colored_str(&mut f, operator.display(), Shade::White);
                push_str(&mut f, " ");
                push_operand(&mut f, *rhs, names);
            }
            Instruction::Branch { condition, positive, negative } => {
                push_colored_str(&mut f, "br", Shade::Cyan);
                push_str(&mut f, " ");
                push_operand(&mut f, *condition, names);
                push_str(&mut f, " ");
                push_label(&mut f, *positive);
                push_str(&mut f, " ");
                push_label(&mut f, *negative);
            }
            Instruction::Jump { destination } => {
                push_colored_str(&mut f, "jmp", Shade::Cyan);
                push_str(&mut f, " ");
                push_label(&mut f, *destination);
            }
            Instruction::Return { value } => {
                push_colored_str(&mut f, "ret", Shade::Cyan);
                if let Some(value) = value {
                    push_str(&mut f, " ");
                    push_operand(&mut f, *value, names);
                }
            }
            Instruction::FunctionCall { target, arguments, destination } => {
                if let Some(dest) = destination {
                    push_register(&mut f, *dest);
                    push_str(&mut f, " = ");
                }
                push_colored_str(&mut f, "call", Shade::Cyan);
                push_str(&mut f, " ");
                push_operand(&mut f, *target, names);
                push_str(&mut f, "(");
                let inner = list_operands(arguments, names);
                push_painted(&mut f, inner, Shade::White);
                push_str(&mut f, ")");
            }
            Instruction::Phi { destination, sources } => {
                push_target(&mut f, *destination);
                push_colored_str(&mut f, "phi", Shade::BrightGreen);
                push_colored_str(&mut f, "(", Shade::White);
                let inner = list_sources(sources, names);
                push_painted(&mut f, inner, Shade::White);
                push_colored_str(&mut f, ")", Shade::White);
            }
            Instruction::Copy { destination, source } => {
                push_register(&mut f, *destination);
                push_str(&mut f, " = ");
                push_colored_str(&mut f, "copy", Shade::BrightGreen);
                push_str(&mut f, " ");
                push_operand(&mut f, *source, names);
            }
            Instruction::Comment(text) => {
                push_colored_str(&mut f, ";", Shade::BrightBlack);
                push_str(&mut f, " ");
                push_colored(&mut f, text.clone(), Shade::BrightBlack);
            }
        }
        assert(doc(f@) =~= shown_instruction(names@, self@));
        f
    }
}

/// The arguments of a function, with commas between them: the register for a
/// returned structure first.
pub open spec fn shown_arguments(
    struct_return: Option<RegisterId>,
    arguments: Seq<RegisterId>,
    n: nat,
) -> Seq<StyledView>
    decreases n,
{
    if n == 0 {
        match struct_return {
            Some(id) => seq![StyledView::Text("sret "@), shown_register(id)],
            None => Seq::empty(),
        }
    } else {
        let before = shown_arguments(struct_return, arguments, (n - 1) as nat);
        if before.len() == 0 {
            seq![shown_register(arguments[n - 1])]
        } else {
            before + seq![StyledView::Text(", "@), shown_register(arguments[n - 1])]
        }
    }
}

/// The first `n` instructions of a block, each on a line.
pub open spec fn shown_code(names: Seq<Seq<char>>, code: Seq<InstructionView>, n: nat) -> Seq<
    StyledView,
>
    decreases n,
{
    if n == 0 {
        Seq::empty()
    } else {
        shown_code(names, code, (n - 1) as nat) + seq![StyledView::Text("    "@)]
            + shown_instruction(names, code[n - 1]) + seq![StyledView::Text("\n"@)]
    }
}

/// A block: its label on a line, and its instructions.
pub open spec fn shown_block(names: Seq<Seq<char>>, block: BlockView) -> Seq<StyledView> {
    seq![
        colored_text(label_text(block.id) + seq![':'], Shade::BrightRed),
        StyledView::Text("\n"@),
    ] + shown_code(names, block.instructions, block.instructions.len())
}

/// The first `n` of the listed blocks.
pub open spec fn shown_blocks(
    names: Seq<Seq<char>>,
    blocks: Map<u32, BlockView>,
    ids: Seq<u32>,
    n: nat,
) -> Seq<StyledView>
    decreases n,
{
    if n == 0 {
        Seq::empty()
    } else {
        shown_blocks(names, blocks, ids, (n - 1) as nat) + shown_block(names, blocks[ids[n - 1]])
    }
}

/// How a function is listed.
pub open spec fn shown_function(names: Seq<Seq<char>>, function: FunctionView) -> Seq<StyledView> {
    let ids = ascending(function.blocks.dom());
    seq![
        colored_text("fn"@, Shade::Magenta),
        StyledView::Text(" "@),
        colored_text(names[function.symbol_name.0 as int], Shade::Blue),
        colored_text("("@, Shade::White),
        StyledView::Paint(
            Shade::White,
            shown_arguments(function.struct_return, function.arguments, function.arguments.len()),
        ),
        colored_text(") {"@, Shade::White),
        StyledView::Text("\n"@),
    ] + shown_blocks(names, function.blocks, ids, ids.len()) + seq![
        colored_text("}"@, Shade::White),
        StyledView::Text("\n"@),
    ]
}

/// Whether every instruction of a function has a text.
pub open spec fn function_shows(names: Seq<Seq<char>>, function: FunctionView) -> bool {
    &&& (function.symbol_name.0 as int) < names.len()
    &&& forall|id: u32, i: int|
        function.blocks.contains_key(id) && 0 <= i < function.blocks[id].instructions.len()
            ==> instruction_shows(names, #[trigger] function.blocks[id].instructions[i])
}

/// How a function is listed.
pub fn pretty_print_lir(function: &FunctionDefinition, names: &Interner) -> (r: Vec<Styled>)
    requires
        function_shows(names@, function@),
    ensures
        doc(r@) == shown_function(names@, function@),
{
    let ghost all = block_views(function.blocks@);
    let mut inner: Vec<Styled> = Vec::new();
    assert(doc(inner@) =~= Seq::<StyledView>::empty());
    if let Some(sret) = function.struct_return {
        push_str(&mut inner, "sret ");
        push_register(&mut inner, sret);
    }
    assert(doc(inner@) =~= shown_arguments(function.struct_return, function.arguments@, 0));
    let mut i: usize = 0;
    while i < function.arguments.len()
        invariant
            0 <= i <= function.arguments@.len(),
            doc(inner@) == shown_arguments(
                function.struct_return,
                function.arguments@,
                i as nat,
            ),
        decreases function.arguments@.len() - i,
    {
        assert(doc(inner@).len() == inner@.len());
        if inner.len() > 0 {
            push_str(&mut inner, ", ");
        }
        push_register(&mut inner, function.arguments[i]);
        i = i + 1;
        assert(doc(inner@) =~= shown_arguments(
            function.struct_return,
            function.arguments@,
            i as nat,
        ));
    }
    let mut f: Vec<Styled> = Vec::new();
    assert(doc(f@) =~= Seq::<StyledView>::empty());
    push_colored_str(&mut f, "fn", Shade::Magenta);
    push_str(&mut f, " ");
    push_colored_str(&mut f, names.value(function.symbol_name), Shade::Blue);
    push_colored_str(&mut f, "(", Shade::White);
    push_painted(&mut f, inner, Shade::White);
    push_colored_str(&mut f, ") {", Shade::White);
    push_str(&mut f, "\n");
    let ghost head = doc(f@);
    let ids = sorted_keys(&function.blocks);
    assert(function.blocks@.dom() =~= all.dom());
    let mut i: usize = 0;
    assert(head + shown_blocks(names@, all, ids@, 0) =~= head);
    while i < ids.len()
        invariant
            0 <= i <= ids@.len(),
            ids@.to_set() == all.dom(),
            all == block_views(function.blocks@),
            function_shows(names@, function@),
            doc(f@) == head + shown_blocks(names@, all, ids@, i as nat),
        decreases ids@.len() - i,
    {
        assert(ids@.to_set().contains(ids@[i as int]));
        let block = block_at(&function.blocks, ids[i]);
        proof {
            let code = block@.instructions;
            assert forall|k: int| 0 <= k < code.len() implies instruction_shows(
                names@,
                #[trigger] code[k],
            ) by {
                assert(function@.blocks[ids@[i as int]].instructions[k] == code[k]);
            }
        }
        let ghost here = doc(f@);
        let mut label = block.id.display();
        label.push(':');
        assert(label@ =~= label_text(block.id) + seq![':']);
        push_colored(&mut f, label, Shade::BrightRed);
        push_str(&mut f, "\n");
        let ghost labelled = doc(f@);
        let mut j: usize = 0;
        assert(labelled + shown_code(names@, block@.instructions, 0) =~= labelled);
        while j < block.instructions.len()
            invariant
                0 <= j <= block.instructions@.len(),
                forall|k: int|
                    0 <= k < block@.instructions.len() ==> instruction_shows(
                        names@,
                        #[trigger] block@.instructions[k],
                    ),
                doc(f@) == labelled + shown_code(names@, block@.instructions, j as nat),
            decreases block.instructions@.len() - j,
        {
            let ghost before = doc(f@);
            assert(block@.instructions[j as int] == block.instructions@[j as int]@);
            push_str(&mut f, "    ");
            let mut line = block.instructions[j].display(names);
            let ghost added = doc(line@);
            let ghost start = f@;
            let ghost given = line@;
            f.append(&mut line);
            assert(doc(f@) =~= doc(start) + added);
            push_str(&mut f, "\n");
            j = j + 1;
            assert(doc(f@) =~= labelled + shown_code(names@, block@.instructions, j as nat));
        }
        i = i + 1;
        assert(doc(f@) =~= head + shown_blocks(names@, all, ids@, i as nat));
    }
    push_colored_str(&mut f, "}", Shade::White);
    push_str(&mut f, "\n");
    assert(doc(f@) =~= shown_function(names@, function@));
    f
}

} // verus!
