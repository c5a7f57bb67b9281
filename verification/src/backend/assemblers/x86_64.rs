//! Writing assembly for x86-64.

use crate::frontend::intern::Interner;
use crate::middle::lir::pretty_print::immediate_text;
use crate::middle::lir::{
    extent, FunctionDefinition, FunctionView, Immediate, IntegerWidth, Operand, RegisterId, Type,
    TypeView,
};
use crate::style::{
    doc, law_strip_undoes_colors, plain, printable, render, shows, strip, strip_of, Styled,
    StyledView,
};
use crate::text;
use crate::text::{decimal, extends, push_decimal, texts};
use std::collections::BTreeMap;
use vstd::prelude::*;

pub use crate::backend::assemblers::registers::{X86FullRegister, X86Register};

verus! {

broadcast use {text::group_extends, vstd::std_specs::btree::group_btree_axioms};

/// A line of assembly. A remark shows some pieces in color, from which the
/// control sequences are taken out again: where all characters print, that
/// leaves the pieces as they are.
pub enum Line {
    /// A line as it stands.
    Text(Seq<char>),
    /// A remark with the text of some pieces without their colors.
    Remark(Seq<char>, Seq<StyledView>, Seq<char>),
}

/// A line of code.
pub open spec fn code_line(text: Seq<char>) -> Line {
    Line::Text("    "@ + text)
}

/// Whether a text is the line.
pub open spec fn is_line(text: Seq<char>, line: Line) -> bool {
    match line {
        Line::Text(t) => text == t,
        Line::Remark(head, parts, tail) => {
            &&& printable(plain(parts)) ==> text == head + plain(parts) + tail
            &&& exists|shown: Seq<char>| #[trigger]
                shows(shown, parts) && text == head + strip_of(shown) + tail
        },
    }
}

/// Whether texts are the lines.
pub open spec fn are_lines(texts: Seq<Seq<char>>, lines: Seq<Line>) -> bool {
    &&& texts.len() == lines.len()
    &&& forall|i: int| 0 <= i < lines.len() ==> is_line(#[trigger] texts[i], lines[i])
}

/// Lines below each other.
pub open spec fn paragraph(texts: Seq<Seq<char>>) -> Seq<char>
    decreases texts.len(),
{
    if texts.len() == 0 {
        Seq::empty()
    } else {
        paragraph(texts.drop_last()) + texts.last() + seq!['\n']
    }
}

/// What a line shows whose remark prints.
pub open spec fn line_text(line: Line) -> Seq<char> {
    match line {
        Line::Text(t) => t,
        Line::Remark(head, parts, tail) => head + plain(parts) + tail,
    }
}

/// Whether all the remarks of some lines print.
pub open spec fn lines_print(lines: Seq<Line>) -> bool {
    forall|i: int|
        0 <= i < lines.len() ==> ((#[trigger] lines[i]) matches Line::Remark(_, parts, _)
            ==> printable(plain(parts)))
}

/// The texts of lines whose remarks print.
pub open spec fn line_texts(lines: Seq<Line>) -> Seq<Seq<char>> {
    Seq::new(lines.len(), |i: int| line_text(lines[i]))
}

/// Lines whose remarks print are told exactly.
pub proof fn law_printing_lines(texts: Seq<Seq<char>>, lines: Seq<Line>)
    requires
        are_lines(texts, lines),
        lines_print(lines),
    ensures
        texts == line_texts(lines),
{
    assert forall|i: int| 0 <= i < lines.len() implies texts[i] == line_texts(lines)[i] by {
        assert(is_line(texts[i], lines[i]));
        assert(lines[i] matches Line::Remark(_, parts, _) ==> printable(plain(parts)));
    }
    assert(texts =~= line_texts(lines));
}

proof fn lemma_paragraph(first: Seq<Seq<char>>, rest: Seq<Seq<char>>)
    ensures
        paragraph(first + rest) == paragraph(first) + paragraph(rest),
    decreases rest.len(),
{
    if rest.len() == 0 {
        assert(first + rest =~= first);
        assert(paragraph(first) + paragraph(rest) =~= paragraph(first));
    } else {
        lemma_paragraph(first, rest.drop_last());
        assert((first + rest).drop_last() =~= first + rest.drop_last());
        assert(paragraph(first + rest) =~= paragraph(first) + paragraph(rest));
    }
}

/// What was written before lines were added comes first in the output, letter
/// for letter. The added lines come behind it, and are told exactly where their
/// remarks print.
pub proof fn law_output_grows(before: &Assembler<'_>, after: &Assembler<'_>, lines: Seq<Line>)
    requires
        before.well_formed(),
        after.adds(before, lines),
    ensures
        paragraph(texts(before.lines@)).is_prefix_of(paragraph(texts(after.lines@))),
        lines_print(lines) ==> paragraph(texts(after.lines@)) == paragraph(texts(before.lines@))
            + paragraph(line_texts(lines)),
{
    let first = texts(before.lines@);
    let all = texts(after.lines@);
    let rest = all.skip(first.len() as int);
    reveal(extends);
    assert(all =~= first + rest);
    lemma_paragraph(first, rest);
    assert(paragraph(first).is_prefix_of(paragraph(first) + paragraph(rest)));
    if lines_print(lines) {
        assert forall|i: int| 0 <= i < lines.len() implies is_line(
            #[trigger] rest[i],
            lines[i],
        ) by {
            assert(after.shape@[first.len() + i] == lines[i]);
            assert(is_line(all[first.len() + i], after.shape@[first.len() + i]));
        }
        law_printing_lines(rest, lines);
    }
}

/// A function with the places of its registers, as distances below the frame
/// pointer.
pub struct Frame {
    pub function: FunctionView,
    pub offsets: Map<u32, usize>,
    pub names: Seq<Seq<char>>,
}

/// An operator with two operands.
pub open spec fn binary_text(operator: Seq<char>, a: Seq<char>, b: Seq<char>) -> Seq<char> {
    operator + " "@ + a + ", "@ + b
}

/// The place of a register.
pub open spec fn slot(offset: usize) -> Seq<char> {
    "[rbp - "@ + decimal(offset as nat) + "]"@
}

/// Lines of code that leave a value in a part of a register.
pub struct Loading {
    pub lines: Seq<Line>,
    /// The size of the part in bits.
    pub bits: int,
}

/// The number of bits of an integer.
pub open spec fn width_bits(width: IntegerWidth) -> int {
    match width {
        IntegerWidth::I8 => 8,
        IntegerWidth::I16 => 16,
        IntegerWidth::I32 => 32,
        IntegerWidth::I64 => 64,
    }
}

/// Clears a register.
pub open spec fn cleared(destination: X86FullRegister) -> Line {
    code_line(binary_text("xor"@, destination.low_part(64), destination.low_part(64)))
}

/// Moves a text into a part of a register.
pub open spec fn moved(destination: X86FullRegister, bits: int, source: Seq<char>) -> Line {
    code_line(binary_text("mov"@, destination.low_part(bits), source))
}

/// Whether a register has a place, and how large its values are. Aggregates and
/// floating point numbers are not held in registers.
pub open spec fn register_bits(frame: Frame, id: RegisterId) -> Option<int> {
    if !frame.function.registers.contains_key(id.0) || !frame.offsets.contains_key(id.0) {
        None
    } else {
        match frame.function.registers[id.0].ty {
            TypeView::Integer(width) => Some(width_bits(width)),
            TypeView::Pointer => Some(64),
            _ => None,
        }
    }
}

/// Loads an operand into a register. There is no result for floating point
/// numbers and aggregates.
pub open spec fn loading(frame: Frame, destination: X86FullRegister, source: Operand) -> Option<
    Loading,
> {
    match source {
        Operand::Immediate(Immediate::Bool(value)) => Some(
            Loading {
                lines: seq![
                    cleared(destination),
                    moved(
                        destination,
                        8,
                        if value {
                            "1"@
                        } else {
                            "0"@
                        },
                    ),
                ],
                bits: 8,
            },
        ),
        Operand::Immediate(Immediate::Int(value, width)) => Some(
            Loading {
                lines: (if width == IntegerWidth::I64 {
                    seq![]
                } else {
                    seq![cleared(destination)]
                }) + seq![moved(destination, width_bits(width), decimal(value as nat))],
                bits: width_bits(width),
            },
        ),
        Operand::Immediate(Immediate::Float(_, _)) => None,
        Operand::Immediate(label) => if !crate::middle::lir::pretty_print::immediate_shows(
            frame.names,
            label,
        ) {
            None
        } else {
            Some(
                Loading {
                    lines: seq![moved(destination, 64, immediate_text(frame.names, label))],
                    bits: 64,
                },
            )
        },
        Operand::Register(id) => match register_bits(frame, id) {
            None => None,
            Some(bits) => Some(
                Loading {
                    lines: (if bits == 64 {
                        seq![]
                    } else {
                        seq![cleared(destination)]
                    }) + seq![moved(destination, bits, slot(frame.offsets[id.0]))],
                    bits,
                },
            ),
        },
    }
}

/// Stores a register into the place of another one.
pub open spec fn storing(frame: Frame, destination: RegisterId, source: X86FullRegister) -> Option<
    Seq<Line>,
> {
    match register_bits(frame, destination) {
        None => None,
        Some(bits) => Some(
            seq![
                code_line(
                    binary_text(
                        "mov"@,
                        slot(frame.offsets[destination.0]),
                        source.low_part(bits),
                    ),
                ),
            ],
        ),
    }
}

/// The lines at the start of a function.
pub open spec fn prologue(stack_frame_size: usize) -> Seq<Line> {
    seq![
        code_line("push rbp"@),
        code_line("mov rbp, rsp"@),
        code_line("sub rsp, "@ + decimal(stack_frame_size as nat)),
    ]
}

/// The lines at the end of a function.
pub open spec fn epilogue() -> Seq<Line> {
    seq![
        Line::Text(".exit:"@),
        code_line("mov rsp, rbp"@),
        code_line("pop rbp"@),
        code_line("ret"@),
    ]
}

/// Writes the assembly of a function.
pub struct Assembler<'a> {
    pub lines: Vec<String>,
    pub function: &'a FunctionDefinition,
    pub stack_frame_register_offset_map: &'a BTreeMap<u32, usize>,
    pub names: &'a Interner,
    /// What the lines are.
    pub shape: Ghost<Seq<Line>>,
}

/// An operator with two operands.
pub(crate) fn binary(operator: &str, a: &str, b: &str) -> (r: String)
    ensures
        r@ == binary_text(operator@, a@, b@),
{
    let mut text = operator.to_owned();
    text.append(" ");
    text.append(a);
    text.append(", ");
    text.append(b);
    text
}

/// The place of a register.
pub(crate) fn slot_text(offset: usize) -> (r: String)
    ensures
        r@ == slot(offset),
{
    let mut text = "[rbp - ".to_owned();
    push_decimal(&mut text, offset as u64);
    text.append("]");
    text
}

impl<'a> Assembler<'a> {
    /// The function and the places of its registers.
    pub open spec fn frame(&self) -> Frame {
        Frame {
            function: self.function@,
            offsets: self.stack_frame_register_offset_map@,
            names: self.names@,
        }
    }

    /// Whether the lines are what they are said to be.
    pub open spec fn well_formed(&self) -> bool {
        are_lines(texts(self.lines@), self.shape@)
    }

    /// Whether lines were added to those of an earlier state.
    pub open spec fn adds(&self, before: &Self, lines: Seq<Line>) -> bool {
        &&& self.well_formed()
        &&& extends(texts(self.lines@), texts(before.lines@))
        &&& self.frame() == before.frame()
        &&& self.shape@ == before.shape@ + lines
    }

    /// An assembler that has written nothing.
    pub fn new(
        function: &'a FunctionDefinition,
        stack_frame_register_offset_map: &'a BTreeMap<u32, usize>,
        names: &'a Interner,
    ) -> (r: Self)
        ensures
            r.frame() == (Frame {
                function: function@,
                offsets: stack_frame_register_offset_map@,
                names: names@,
            }),
            r.well_formed(),
            r.shape@ == Seq::<Line>::empty(),
    {
        let r = Assembler {
            lines: Vec::new(),
            function,
            stack_frame_register_offset_map,
            names,
            shape: Ghost(Seq::empty()),
        };
        r
    }

    /// All that was written.
    pub fn into_output(self) -> (r: String)
        ensures
            r@ == paragraph(texts(self.lines@)),
    {
        let ghost all = texts(self.lines@);
        let mut output = String::new();
        let mut i: usize = 0;
        assert(all.take(0) =~= Seq::<Seq<char>>::empty());
        assert(output@ =~= paragraph(all.take(0)));
        while i < self.lines.len()
            invariant
                0 <= i <= self.lines@.len(),
                all == texts(self.lines@),
                output@ == paragraph(all.take(i as int)),
            decreases self.lines@.len() - i,
        {
            assert(all.take(i + 1).drop_last() =~= all.take(i as int));
            assert(all.take(i + 1).last() == self.lines@[i as int]@);
            output.append(self.lines[i].as_str());
            output.push('\n');
            assert(output@ =~= paragraph(all.take(i + 1)));
            i = i + 1;
        }
        assert(all.take(i as int) =~= all);
        output
    }

    fn push_line(&mut self, string: String, Ghost(line): Ghost<Line>)
        requires
            old(self).well_formed(),
            is_line(string@, line),
        ensures
            final(self).adds(old(self), seq![line]),
    {
        let ghost before = texts(self.lines@);
        self.lines.push(string);
        self.shape = Ghost(self.shape@ + seq![line]);
        assert(texts(self.lines@) =~= before.push(string@));
        proof {
            reveal(extends);
        }
    }

    /// Writes a line of code.
    pub fn emit(&mut self, string: &str)
        requires
            old(self).well_formed(),
        ensures
            final(self).adds(old(self), seq![code_line(string@)]),
    {
        let mut text = "    ".to_owned();
        text.append(string);
        self.push_line(text, Ghost(code_line(string@)));
    }

    /// Writes a label that other files see.
    pub fn global_label(&mut self, name: &str)
        requires
            old(self).well_formed(),
        ensures
            final(self).adds(
                old(self),
                seq![Line::Text("global "@ + name@), Line::Text(name@ + ":"@)],
            ),
    {
        let mut first = "global ".to_owned();
        first.append(name);
        self.push_line(first, Ghost(Line::Text("global "@ + name@)));
        self.label(name);
        assert(self.shape@ =~= old(self).shape@ + seq![
            Line::Text("global "@ + name@),
            Line::Text(name@ + ":"@),
        ]);
    }

    /// Writes a label.
    pub fn label(&mut self, name: &str)
        requires
            old(self).well_formed(),
        ensures
            final(self).adds(old(self), seq![Line::Text(name@ + ":"@)]),
    {
        let mut text = name.to_owned();
        text.append(":");
        self.push_line(text, Ghost(Line::Text(name@ + ":"@)));
    }

    /// Writes a comment.
    pub fn comment(&mut self, comment: &str)
        requires
            old(self).well_formed(),
        ensures
            final(self).adds(old(self), seq![code_line("; "@ + comment@)]),
    {
        let mut text = "; ".to_owned();
        text.append(comment);
        self.emit(text.as_str());
    }

    /// Writes a comment with some pieces, without their colors, between two
    /// texts.
    pub(crate) fn remark(&mut self, head: &str, parts: &Vec<Styled>, tail: &str)
        requires
            old(self).well_formed(),
        ensures
            final(self).adds(
                old(self),
                seq![Line::Remark("    "@ + head@, doc(parts@), tail@)],
            ),
    {
        let rendered = render(parts);
        proof {
            if printable(plain(doc(parts@))) {
                law_strip_undoes_colors(rendered@, doc(parts@));
            }
        }
        let shown = strip(rendered.as_str());
        let mut text = "    ".to_owned();
        text.append(head);
        text.append(shown.as_str());
        text.append(tail);
        assert(shows(rendered@, doc(parts@)));
        self.push_line(text, Ghost(Line::Remark("    "@ + head@, doc(parts@), tail@)));
    }

    /// Sets up the frame of a function.
    pub fn function_prologue(&mut self, stack_frame_size: usize)
        requires
            old(self).well_formed(),
        ensures
            final(self).adds(old(self), prologue(stack_frame_size)),
    {
        self.emit("push rbp");
        self.emit("mov rbp, rsp");
        let mut text = "sub rsp, ".to_owned();
        push_decimal(&mut text, stack_frame_size as u64);
        self.emit(text.as_str());
        assert(self.shape@ =~= old(self).shape@ + prologue(stack_frame_size));
    }

    /// Takes down the frame of a function, and returns.
    pub fn function_epilogue(&mut self)
        requires
            old(self).well_formed(),
        ensures
            final(self).adds(old(self), epilogue()),
    {
        self.push_line(".exit:".to_owned(), Ghost(Line::Text(".exit:"@)));
        self.emit("mov rsp, rbp");
        self.emit("pop rbp");
        self.emit("ret");
        assert(self.shape@ =~= old(self).shape@ + epilogue());
    }

    /// Clears a register.
    fn clear(&mut self, destination: X86FullRegister)
        requires
            old(self).well_formed(),
        ensures
            final(self).adds(old(self), seq![cleared(destination)]),
    {
        self.emit(binary("xor", destination.name(), destination.name()).as_str());
    }

    /// Moves a text into a part of a register.
    fn move_into(&mut self, destination: X86Register, source: &str)
        requires
            old(self).well_formed(),
            !destination.is_high(),
        ensures
            final(self).adds(
                old(self),
                seq![moved(destination.full(), destination.bits(), source@)],
            ),
    {
        self.emit(binary("mov", destination.name(), source).as_str());
    }

    /// The distance of a register's place from the frame pointer.
    pub(crate) fn offset(&self, id: RegisterId) -> (r: usize)
        requires
            self.frame().offsets.contains_key(id.0),
        ensures
            r == self.frame().offsets[id.0],
    {
        match self.stack_frame_register_offset_map.get(&id.0) {
            Some(offset) => *offset,
            None => vstd::pervasive::unreached(),
        }
    }

    /// The part of a full register that has the size of another register.
    pub(crate) fn sized(&self, id: RegisterId, full: X86FullRegister) -> (r: X86Register)
        requires
            register_bits(self.frame(), id) is Some,
        ensures
            r.full() == full,
            !r.is_high(),
            register_bits(self.frame(), id) == Some(r.bits()),
    {
        match self.function.registers.get(&id.0) {
            Some(register) => full.with_size_bytes(register.ty.layout().size),
            None => vstd::pervasive::unreached(),
        }
    }

    /// Loads an operand into a register, and says which part of the register
    /// holds it.
    pub fn load_operand(&mut self, destination: X86FullRegister, source: Operand) -> (r: X86Register)
        requires
            old(self).well_formed(),
            loading(old(self).frame(), destination, source) is Some,
        ensures
            final(self).adds(
                old(self),
                loading(old(self).frame(), destination, source)->0.lines,
            ),
            r.full() == destination,
            r.bits() == loading(old(self).frame(), destination, source)->0.bits,
            !r.is_high(),
    {
        let ghost expected = loading(self.frame(), destination, source)->0.lines;
        let sized = match source {
            Operand::Immediate(Immediate::Bool(value)) => {
                self.clear(destination);
                let part = destination.as_8_bit();
                self.move_into(
                    part,
                    if value {
                        "1"
                    } else {
                        "0"
                    },
                );
                part
            }
            Operand::Immediate(Immediate::Int(value, width)) => {
                if width != IntegerWidth::I64 {
                    self.clear(destination);
                }
                let part = match width {
                    IntegerWidth::I8 => destination.as_8_bit(),
                    IntegerWidth::I16 => destination.as_16_bit(),
                    IntegerWidth::I32 => destination.as_32_bit(),
                    IntegerWidth::I64 => destination.as_64_bit(),
                };
                self.move_into(part, crate::text::decimal_text(value).as_str());
                part
            }
            Operand::Immediate(immediate) => {
                let part = destination.as_64_bit();
                self.move_into(part, immediate.display(self.names).as_str());
                part
            }
            Operand::Register(id) => {
                let part = self.sized(id, destination);
                let is_full = match self.function.registers.get(&id.0) {
                    Some(register) => matches!(
                        register.ty,
                        Type::Integer(IntegerWidth::I64) | Type::Pointer
                    ),
                    None => vstd::pervasive::unreached(),
                };
                if !is_full {
                    self.clear(destination);
                }
                let offset: usize = self.offset(id);
                self.move_into(part, slot_text(offset).as_str());
                part
            }
        };
        assert(self.shape@ =~= old(self).shape@ + expected);
        sized
    }

    /// Stores a register into the place of another one.
    pub fn store_operand(&mut self, destination: RegisterId, source: X86FullRegister)
        requires
            old(self).well_formed(),
            storing(old(self).frame(), destination, source) is Some,
        ensures
            final(self).adds(old(self), storing(old(self).frame(), destination, source)->0),
    {
        let part = self.sized(destination, source);
        let offset: usize = self.offset(destination);
        self.emit(binary("mov", slot_text(offset).as_str(), part.name()).as_str());
    }

    /// Loads the memory address of the temporary register on the stack into the destination
    pub fn load_register_address(&mut self, destination: X86FullRegister, source: RegisterId)
        requires
            old(self).well_formed(),
            old(self).frame().offsets.contains_key(source.0),
        ensures
            final(self).adds(
                old(self),
                seq![address_of(old(self).frame(), destination, source)],
            ),
    {
        let offset: usize = self.offset(source);
        self.emit(binary("lea", destination.name(), slot_text(offset).as_str()).as_str());
    }
}

/// Loads the address of the place of a register.
pub open spec fn address_of(frame: Frame, destination: X86FullRegister, source: RegisterId) -> Line {
    code_line(
        binary_text("lea"@, destination.low_part(64), slot(frame.offsets[source.0])),
    )
}

proof fn lemma_paragraph_of(text: Seq<char>)
    ensures
        paragraph(line_texts(seq![Line::Text(text)])) == text + seq!['\n'],
{
    let texts = line_texts(seq![Line::Text(text)]);
    assert(texts.drop_last() =~= Seq::<Seq<char>>::empty());
    assert(texts.last() == text);
    assert(paragraph(texts.drop_last()) =~= Seq::<char>::empty());
    assert(paragraph(texts) =~= text + seq!['\n']);
}

/// A line of code that is written comes indented behind all that was written
/// before.
pub proof fn law_line_emitted(before: &Assembler<'_>, after: &Assembler<'_>, text: Seq<char>)
    requires
        before.well_formed(),
        after.adds(before, seq![code_line(text)]),
    ensures
        paragraph(texts(after.lines@)) == paragraph(texts(before.lines@)) + ("    "@ + text + seq![
            '\n',
        ]),
{
    law_output_grows(before, after, seq![code_line(text)]);
    lemma_paragraph_of("    "@ + text);
}

/// How an operand is written where it is moved from.
pub open spec fn source_text(frame: Frame, source: Operand) -> Seq<char> {
    match source {
        Operand::Immediate(Immediate::Bool(value)) => if value {
            "1"@
        } else {
            "0"@
        },
        Operand::Immediate(immediate) => immediate_text(frame.names, immediate),
        Operand::Register(id) => slot(frame.offsets[id.0]),
    }
}

/// Loading an operand clears the register where the type of the operand is
/// smaller than it, and then moves the operand into a part of the size of its
/// type, with all that was written before in front.
pub proof fn law_operand_loaded(
    before: &Assembler<'_>,
    after: &Assembler<'_>,
    destination: X86FullRegister,
    source: Operand,
)
    requires
        before.well_formed(),
        loading(before.frame(), destination, source) is Some,
        after.adds(before, loading(before.frame(), destination, source)->0.lines),
    ensures
        ({
            let size = extent(before.frame().function.operand_type(source)).size;
            let full = destination.low_part(64);
            &&& loading(before.frame(), destination, source)->0.bits == 8 * size
            &&& paragraph(texts(after.lines@)) == paragraph(texts(before.lines@)) + (if size < 8 {
                "    "@ + binary_text("xor"@, full, full) + seq!['\n']
            } else {
                Seq::empty()
            }) + ("    "@ + binary_text(
                "mov"@,
                destination.low_part(8 * size),
                source_text(before.frame(), source),
            ) + seq!['\n'])
        }),
{
    let l = loading(before.frame(), destination, source)->0;
    let size = extent(before.frame().function.operand_type(source)).size;
    let full = destination.low_part(64);
    let last = "    "@ + binary_text(
        "mov"@,
        destination.low_part(8 * size),
        source_text(before.frame(), source),
    );
    law_output_grows(before, after, l.lines);
    lemma_paragraph_of(last);
    if size < 8 {
        let first = "    "@ + binary_text("xor"@, full, full);
        lemma_paragraph_of(first);
        assert(l.lines =~= seq![Line::Text(first), Line::Text(last)]);
        assert(line_texts(l.lines) =~= line_texts(seq![Line::Text(first)]) + line_texts(
            seq![Line::Text(last)],
        ));
        lemma_paragraph(line_texts(seq![Line::Text(first)]), line_texts(seq![Line::Text(last)]));
        assert(paragraph(texts(after.lines@)) =~= paragraph(texts(before.lines@)) + (first + seq![
            '\n',
        ]) + (last + seq!['\n']));
    } else {
        assert(l.lines =~= seq![Line::Text(last)]);
        assert(paragraph(texts(after.lines@)) =~= paragraph(texts(before.lines@)) + Seq::<
            char,
        >::empty() + (last + seq!['\n']));
    }
}

/// Storing a register writes exactly the bytes of the place of another one,
/// with all that was written before in front.
pub proof fn law_operand_stored(
    before: &Assembler<'_>,
    after: &Assembler<'_>,
    destination: RegisterId,
    source: X86FullRegister,
)
    requires
        before.well_formed(),
        storing(before.frame(), destination, source) is Some,
        after.adds(before, storing(before.frame(), destination, source)->0),
    ensures
        ({
            let size = extent(before.frame().function.registers[destination.0].ty).size;
            paragraph(texts(after.lines@)) == paragraph(texts(before.lines@)) + ("    "@
                + binary_text(
                "mov"@,
                slot(before.frame().offsets[destination.0]),
                source.low_part(8 * size),
            ) + seq!['\n'])
        }),
{
    let size = extent(before.frame().function.registers[destination.0].ty).size;
    law_line_emitted(
        before,
        after,
        binary_text(
            "mov"@,
            slot(before.frame().offsets[destination.0]),
            source.low_part(8 * size),
        ),
    );
}

} // verus!
