//! What the assembly of instructions does.

use crate::backend::assemblers::registers::X86FullRegister;
use crate::backend::assemblers::x86_64::{loading, storing, Frame, Line};
use crate::backend::targets::instructions::{
    argument_lines, argument_registers, instruction_lines, operation_lines,
};
use crate::backend::targets::x86_64_linux_gnu::{arrivals, block_lines, run_lines};
use crate::frontend::ast::{BinaryOperatorKind, UnaryOperatorKind};
use crate::frontend::intern::InternedSymbol;
use crate::middle::lir::pretty_print::label_text;
use crate::middle::lir::{
    fields_end, lemma_field_alignments, BlockId, Immediate, InstructionView, IntegerWidth,
    Operand, RegisterId, TypeView,
};
use crate::text::{decimal, law_decimal_reads_back};
use vstd::arithmetic::power2::pow2;
use vstd::prelude::*;

verus! {

/// A number that is held in so many bits.
pub struct Held {
    pub number: int,
    pub bits: int,
}

impl Held {
    /// What is seen when so many bits are looked at. Nothing is known of a number
    /// that is looked at in another size than it was put there.
    pub open spec fn part(self, bits: int) -> int {
        if self.bits == bits {
            self.number
        } else {
            arbitrary()
        }
    }
}

/// What assembly works on: the registers, the places of the frame by their distance
/// below the frame pointer, the rest of the memory by address, and the two numbers
/// that were compared last. Numbers are taken to fit their sizes.
pub struct Processor {
    pub registers: Map<X86FullRegister, Held>,
    pub frame: Map<usize, Held>,
    pub memory: Map<int, Held>,
    pub compared: (int, int),
}

/// What a line of assembly does. The numbers of bits say which parts of registers
/// it works on.
pub enum Action {
    /// Clears a register.
    Clear(X86FullRegister),
    /// Puts a number into a register.
    Put(X86FullRegister, int, nat),
    /// Puts what stands in a place of the frame into a register.
    Fetch(X86FullRegister, int, usize),
    /// Puts a register into a place of the frame.
    Keep(usize, X86FullRegister, int),
    /// Puts what stands at the address in `rax` into `rax`.
    Follow(int),
    /// Puts `rax` to the address in `rcx`.
    Save(int),
    /// Adds a number to `rax`.
    Advance(nat),
    /// Calculates with `rax` and `rcx`.
    Sum(int),
    Difference(int),
    Product(int),
    Shifted(int),
    /// Gets `rax` ready for being divided.
    Widen(int),
    /// Divides `rax` by `rcx`.
    Quotient(int),
    /// Compares `rax` and `rcx`.
    Compare(int),
    /// Puts into `al` how the comparison came out.
    IsEqual,
    IsOther,
    IsLess,
    IsLessOrEqual,
    IsGreater,
    IsGreaterOrEqual,
    /// Compares a register with zero.
    Test(X86FullRegister, int),
    /// Puts into the low byte of a register whether the compared numbers differ.
    IsSet(X86FullRegister),
    /// Puts into `cl` whether the compared numbers are equal.
    IsNone,
    /// Joins two truth values in `al` and `cl`.
    Both,
    Either,
    /// Changes `rax`.
    Negate(int),
    Invert(int),
}

/// A line of code.
pub open spec fn written_line(text: Seq<char>) -> Line {
    Line::Text("    "@ + text)
}

/// A line of code with two operands.
pub open spec fn pair_line(name: Seq<char>, a: Seq<char>, b: Seq<char>) -> Line {
    written_line(name + " "@ + a + ", "@ + b)
}

/// Whether a line of assembly does something.
pub open spec fn says(line: Line, action: Action) -> bool {
    let (rax, rcx) = (X86FullRegister::Rax, X86FullRegister::Rcx);
    match action {
        Action::Clear(r) => line == pair_line("xor"@, r.low_part(64), r.low_part(64)),
        Action::Put(r, bits, n) => line == pair_line("mov"@, r.low_part(bits), decimal(n)),
        Action::Fetch(r, bits, at) => line == pair_line(
            "mov"@,
            r.low_part(bits),
            "[rbp - "@ + decimal(at as nat) + "]"@,
        ),
        Action::Keep(at, r, bits) => line == pair_line(
            "mov"@,
            "[rbp - "@ + decimal(at as nat) + "]"@,
            r.low_part(bits),
        ),
        Action::Follow(bits) => line == pair_line("mov"@, rax.low_part(bits), "[rax]"@),
        Action::Save(bits) => line == pair_line("mov"@, "[rcx]"@, rax.low_part(bits)),
        Action::Advance(n) => line == written_line("lea rax, [rax + "@ + decimal(n) + "]"@),
        Action::Sum(n) => line == pair_line("add"@, rax.low_part(n), rcx.low_part(n)),
        Action::Difference(n) => line == pair_line("sub"@, rax.low_part(n), rcx.low_part(n)),
        Action::Product(n) => line == pair_line("imul"@, rax.low_part(n), rcx.low_part(n)),
        Action::Shifted(n) => line == pair_line("shl"@, rax.low_part(n), rcx.low_part(n)),
        Action::Widen(bits) => {
            ||| bits == 16 && line == written_line("cwd"@)
            ||| bits == 32 && line == written_line("cdq"@)
            ||| bits == 64 && line == written_line("cqo"@)
        },
        Action::Quotient(bits) => line == written_line("idiv "@ + rcx.low_part(bits)),
        Action::Compare(n) => line == pair_line("cmp"@, rax.low_part(n), rcx.low_part(n)),
        Action::IsEqual => line == written_line("sete al"@),
        Action::IsOther => line == written_line("setne al"@),
        Action::IsLess => line == written_line("setl al"@),
        Action::IsLessOrEqual => line == written_line("setle al"@),
        Action::IsGreater => line == written_line("setg al"@),
        Action::IsGreaterOrEqual => line == written_line("setge al"@),
        Action::Test(r, bits) => line == pair_line("test"@, r.low_part(bits), r.low_part(bits)),
        Action::IsSet(r) => line == written_line("setnz "@ + r.low_part(8)),
        Action::IsNone => line == written_line("sete cl"@),
        Action::Both => line == pair_line("and"@, rax.low_part(8), rcx.low_part(8)),
        Action::Either => line == pair_line("or"@, rax.low_part(8), rcx.low_part(8)),
        Action::Negate(bits) => line == written_line("neg "@ + rax.low_part(bits)),
        Action::Invert(bits) => line == written_line("not "@ + rax.low_part(bits)),
    }
}

/// A truth value as a number.
pub open spec fn truth(value: bool) -> int {
    if value {
        1
    } else {
        0
    }
}

/// Division that rounds towards zero.
pub open spec fn quotient(x: int, y: int) -> int {
    if x >= 0 && y > 0 {
        x / y
    } else if x >= 0 {
        -(x / -y)
    } else if y > 0 {
        -(-x / y)
    } else {
        -x / -y
    }
}

impl Processor {
    /// What a register holds in so many bits.
    pub open spec fn at(self, r: X86FullRegister, bits: int) -> int {
        self.registers[r].part(bits)
    }

    /// With a number in a register.
    pub open spec fn with(self, r: X86FullRegister, number: int, bits: int) -> Processor {
        Processor { registers: self.registers.insert(r, Held { number, bits }), ..self }
    }

    /// Once a line has been run.
    pub open spec fn once(self, action: Action) -> Processor {
        let (rax, rcx) = (X86FullRegister::Rax, X86FullRegister::Rcx);
        let (x, y) = self.compared;
        match action {
            Action::Clear(r) => self.with(r, 0, 64),
            Action::Put(r, bits, n) => self.with(r, n as int, bits),
            Action::Fetch(r, bits, at) => self.with(r, self.frame[at].part(bits), bits),
            Action::Keep(at, r, bits) => Processor {
                frame: self.frame.insert(at, Held { number: self.at(r, bits), bits }),
                ..self
            },
            Action::Follow(bits) => self.with(
                rax,
                self.memory[self.at(rax, 64)].part(bits),
                bits,
            ),
            Action::Save(bits) => Processor {
                memory: self.memory.insert(
                    self.at(rcx, 64),
                    Held { number: self.at(rax, bits), bits },
                ),
                ..self
            },
            Action::Advance(n) => self.with(rax, self.at(rax, 64) + n, 64),
            Action::Sum(n) => self.with(rax, self.at(rax, n) + self.at(rcx, n), n),
            Action::Difference(n) => self.with(rax, self.at(rax, n) - self.at(rcx, n), n),
            Action::Product(n) => self.with(rax, self.at(rax, n) * self.at(rcx, n), n),
            Action::Shifted(n) => self.with(
                rax,
                self.at(rax, n) * pow2(self.at(rcx, n) as nat),
                n,
            ),
            Action::Widen(_) => self,
            Action::Quotient(n) => {
                let (a, b) = (self.at(rax, n), self.at(rcx, n));
                self.with(rax, quotient(a, b), n).with(
                    X86FullRegister::Rdx,
                    a - quotient(a, b) * b,
                    n,
                )
            },
            Action::Compare(n) => Processor {
                compared: (self.at(rax, n), self.at(rcx, n)),
                ..self
            },
            Action::IsEqual => self.with(rax, truth(x == y), 8),
            Action::IsOther => self.with(rax, truth(x != y), 8),
            Action::IsLess => self.with(rax, truth(x < y), 8),
            Action::IsLessOrEqual => self.with(rax, truth(x <= y), 8),
            Action::IsGreater => self.with(rax, truth(x > y), 8),
            Action::IsGreaterOrEqual => self.with(rax, truth(x >= y), 8),
            Action::Test(r, bits) => Processor { compared: (self.at(r, bits), 0), ..self },
            Action::IsSet(r) => self.with(r, truth(x != y), 8),
            Action::IsNone => self.with(rcx, truth(x == y), 8),
            Action::Both => self.with(
                rax,
                truth(self.at(rax, 8) == 1 && self.at(rcx, 8) == 1),
                8,
            ),
            Action::Either => self.with(
                rax,
                truth(self.at(rax, 8) == 1 || self.at(rcx, 8) == 1),
                8,
            ),
            Action::Negate(bits) => self.with(rax, -self.at(rax, bits), bits),
            Action::Invert(bits) => self.with(rax, -self.at(rax, bits) - 1, bits),
        }
    }

    /// Once lines have been run in order.
    pub open spec fn after(self, actions: Seq<Action>) -> Processor
        decreases actions.len(),
    {
        if actions.len() == 0 {
            self
        } else {
            self.after(actions.drop_last()).once(actions.last())
        }
    }
}

/// Whether lines do something, one by one.
pub open spec fn say(lines: Seq<Line>, actions: Seq<Action>) -> bool {
    lines.len() == actions.len() && forall|i: int|
        0 <= i < lines.len() ==> says(#[trigger] lines[i], actions[i])
}

proof fn lemma_say(a: Seq<Line>, p: Seq<Action>, b: Seq<Line>, q: Seq<Action>)
    requires
        say(a, p),
        say(b, q),
    ensures
        say(a + b, p + q),
{
    assert forall|i: int| 0 <= i < (a + b).len() implies says(
        #[trigger] (a + b)[i],
        (p + q)[i],
    ) by {
        if i >= a.len() {
            assert((a + b)[i] == b[i - a.len()]);
            assert(says(b[i - a.len()], q[i - a.len()]));
        } else {
            assert(says(a[i], p[i]));
        }
    }
}

proof fn lemma_after(c: Processor, p: Seq<Action>, q: Seq<Action>)
    ensures
        c.after(p + q) == c.after(p).after(q),
    decreases q.len(),
{
    if q.len() == 0 {
        assert(p + q =~= p);
    } else {
        assert((p + q).drop_last() =~= p + q.drop_last());
        lemma_after(c, p, q.drop_last());
    }
}

proof fn lemma_once(c: Processor, action: Action)
    ensures
        c.after(seq![action]) == c.once(action),
{
    assert(seq![action].drop_last() =~= Seq::empty());
    assert(c.after(seq![action].drop_last()) == c);
}

proof fn lemma_twice(c: Processor, a: Action, b: Action)
    ensures
        c.after(seq![a, b]) == c.once(a).once(b),
{
    assert(seq![a, b] =~= seq![a] + seq![b]);
    lemma_after(c, seq![a], seq![b]);
    lemma_once(c, a);
    lemma_once(c.once(a), b);
}

proof fn lemma_thrice(c: Processor, a: Action, b: Action, d: Action)
    ensures
        c.after(seq![a, b, d]) == c.once(a).once(b).once(d),
{
    assert(seq![a, b, d] =~= seq![a, b] + seq![d]);
    lemma_after(c, seq![a, b], seq![d]);
    lemma_twice(c, a, b);
    lemma_once(c.once(a).once(b), d);
}

/// How many bits a value of a type has that a register can hold.
pub open spec fn bits_of(ty: TypeView) -> int {
    match ty {
        TypeView::Integer(IntegerWidth::I8) => 8,
        TypeView::Integer(IntegerWidth::I16) => 16,
        TypeView::Integer(IntegerWidth::I32) => 32,
        _ => 64,
    }
}

/// How many bits an operand has.
pub open spec fn operand_bits(frame: Frame, operand: Operand) -> int {
    match operand {
        Operand::Register(id) => bits_of(frame.function.registers[id.0].ty),
        Operand::Immediate(Immediate::Int(_, width)) => bits_of(TypeView::Integer(width)),
        Operand::Immediate(Immediate::Bool(_)) => 8,
        _ => 64,
    }
}

/// Whether an operand is a number, a boolean, or a register whose place is filled.
pub open spec fn is_filled(frame: Frame, c: Processor, operand: Operand) -> bool {
    match operand {
        Operand::Register(id) => c.frame[frame.offsets[id.0]].bits == bits_of(
            frame.function.registers[id.0].ty,
        ),
        Operand::Immediate(immediate) => immediate is Int || immediate is Bool,
    }
}

/// What an operand stands for.
pub open spec fn operand_value(frame: Frame, c: Processor, operand: Operand) -> int {
    match operand {
        Operand::Register(id) => c.frame[frame.offsets[id.0]].number,
        Operand::Immediate(Immediate::Int(n, _)) => n as int,
        Operand::Immediate(Immediate::Bool(value)) => truth(value),
        _ => 0,
    }
}

/// Whether nothing has changed but that a register has a value.
pub open spec fn has_become(
    frame: Frame,
    c: Processor,
    d: Processor,
    destination: RegisterId,
    value: int,
) -> bool {
    &&& d.frame == c.frame.insert(
        frame.offsets[destination.0],
        Held { number: value, bits: bits_of(frame.function.registers[destination.0].ty) },
    )
    &&& d.memory == c.memory
}

proof fn lemma_digits()
    ensures
        decimal(0) == "0"@,
        decimal(1) == "1"@,
{
    reveal_strlit("0");
    reveal_strlit("1");
    assert(decimal(0) =~= "0"@);
    assert(decimal(1) =~= "1"@);
}

/// Loading an operand puts what it stands for into a register.
#[verifier::rlimit(40)]
proof fn lemma_loading(frame: Frame, c: Processor, r: X86FullRegister, operand: Operand) -> (actions:
    Seq<Action>)
    requires
        is_filled(frame, c, operand),
        loading(frame, r, operand) is Some,
    ensures
        say(loading(frame, r, operand)->0.lines, actions),
        loading(frame, r, operand)->0.bits == operand_bits(frame, operand),
        c.after(actions) == c.with(
            r,
            operand_value(frame, c, operand),
            operand_bits(frame, operand),
        ),
{
    let l = loading(frame, r, operand)->0;
    let last = match operand {
        Operand::Register(id) => Action::Fetch(r, l.bits, frame.offsets[id.0]),
        Operand::Immediate(Immediate::Int(n, _)) => Action::Put(r, l.bits, n as nat),
        Operand::Immediate(Immediate::Bool(value)) => Action::Put(r, 8, truth(value) as nat),
        _ => Action::Clear(r),
    };
    lemma_digits();
    if l.lines.len() == 2 {
        lemma_twice(c, Action::Clear(r), last);
        assert(says(l.lines[0], Action::Clear(r)));
        assert(says(l.lines[1], last));
        let end = c.once(Action::Clear(r)).once(last);
        let value = operand_value(frame, c, operand);
        assert(end.registers =~= c.with(r, value, l.bits).registers);
        seq![Action::Clear(r), last]
    } else {
        lemma_once(c, last);
        assert(says(l.lines[0], last));
        seq![last]
    }
}

/// Storing a register puts it into the place of another one.
proof fn lemma_storing(frame: Frame, c: Processor, destination: RegisterId, r: X86FullRegister)
    requires
        storing(frame, destination, r) is Some,
        c.registers[r].bits == bits_of(frame.function.registers[destination.0].ty),
    ensures
        say(storing(frame, destination, r)->0, seq![kept(frame, destination, r)]),
        has_become(
            frame,
            c,
            c.after(seq![kept(frame, destination, r)]),
            destination,
            c.registers[r].number,
        ),
{
    lemma_once(c, kept(frame, destination, r));
    assert(says(storing(frame, destination, r)->0[0], kept(frame, destination, r)));
}

spec fn kept(frame: Frame, destination: RegisterId, r: X86FullRegister) -> Action {
    Action::Keep(
        frame.offsets[destination.0],
        r,
        bits_of(frame.function.registers[destination.0].ty),
    )
}

/// What is loaded, changed and stored is once the lines have been run.
proof fn lemma_changed(
    frame: Frame,
    c: Processor,
    before: Seq<Line>,
    p: Seq<Action>,
    lines: Seq<Line>,
    q: Seq<Action>,
    destination: RegisterId,
    r: X86FullRegister,
) -> (actions: Seq<Action>)
    requires
        say(before, p),
        say(lines, q),
        storing(frame, destination, r) is Some,
        c.after(p).after(q).registers[r].bits == bits_of(
            frame.function.registers[destination.0].ty,
        ),
        c.after(p).after(q).frame == c.frame,
        c.after(p).after(q).memory == c.memory,
    ensures
        say(before + lines + storing(frame, destination, r)->0, actions),
        has_become(
            frame,
            c,
            c.after(actions),
            destination,
            c.after(p).after(q).registers[r].number,
        ),
{
    let end = seq![kept(frame, destination, r)];
    lemma_after(c, p, q);
    lemma_after(c, p + q, end);
    lemma_storing(frame, c.after(p).after(q), destination, r);
    lemma_say(before, p, lines, q);
    lemma_say(before + lines, p + q, storing(frame, destination, r)->0, end);
    p + q + end
}

/// The value of an operator with two operands.
pub open spec fn operated(operator: BinaryOperatorKind, x: int, y: int) -> int {
    match operator {
        BinaryOperatorKind::Add => x + y,
        BinaryOperatorKind::Subtract => x - y,
        BinaryOperatorKind::Multiply => x * y,
        BinaryOperatorKind::Divide => quotient(x, y),
        BinaryOperatorKind::Modulus => x - quotient(x, y) * y,
        BinaryOperatorKind::ShiftLeft => x * pow2(y as nat),
        BinaryOperatorKind::Equals => truth(x == y),
        BinaryOperatorKind::NotEquals => truth(x != y),
        BinaryOperatorKind::LessThan => truth(x < y),
        BinaryOperatorKind::LessThanOrEqualTo => truth(x <= y),
        BinaryOperatorKind::GreaterThan => truth(x > y),
        BinaryOperatorKind::GreaterThanOrEqualTo => truth(x >= y),
        BinaryOperatorKind::LogicalAnd => truth(x != 0 && y != 0),
        BinaryOperatorKind::LogicalOr => truth(x != 0 || y != 0),
        _ => 0,
    }
}

/// Whether an operator gives a truth value for numbers of any size.
pub open spec fn compares(operator: BinaryOperatorKind) -> bool {
    ||| operator is Equals
    ||| operator is NotEquals
    ||| operator is LessThan
    ||| operator is LessThanOrEqualTo
    ||| operator is GreaterThan
    ||| operator is GreaterThanOrEqualTo
}

/// The size of the value of an operator.
spec fn result_bits(operator: BinaryOperatorKind, n: int) -> int {
    if compares(operator) {
        8
    } else {
        n
    }
}

/// The lines of an operator, once both operands are loaded.
spec fn operation(operator: BinaryOperatorKind, n: int) -> Option<Seq<Line>> {
    operation_lines(
        operator,
        Some(result_bits(operator, n)),
        X86FullRegister::Rax.low_part(n),
        X86FullRegister::Rcx.low_part(n),
    )
}

/// The register that the value of an operator is left in.
spec fn left_in(operator: BinaryOperatorKind) -> X86FullRegister {
    if operator is Modulus {
        X86FullRegister::Rdx
    } else {
        X86FullRegister::Rax
    }
}

/// Whether the value of an operator on `rax` and `rcx` is left where it belongs.
spec fn has_operated(
    operator: BinaryOperatorKind,
    n: int,
    c: Processor,
    d: Processor,
) -> bool {
    &&& d.frame == c.frame
    &&& d.memory == c.memory
    &&& d.registers[left_in(operator)] == (Held {
        number: operated(
            operator,
            c.registers[X86FullRegister::Rax].number,
            c.registers[X86FullRegister::Rcx].number,
        ),
        bits: result_bits(operator, n),
    })
}

/// Whether both operands are loaded.
spec fn is_loaded(n: int, c: Processor) -> bool {
    c.registers[X86FullRegister::Rax].bits == n && c.registers[X86FullRegister::Rcx].bits == n
}

#[verifier::rlimit(40)]
proof fn lemma_comparing(operator: BinaryOperatorKind, n: int, c: Processor) -> (actions: Seq<
    Action,
>)
    requires
        is_loaded(n, c),
        compares(operator),
        operation(operator, n) is Some,
    ensures
        say(operation(operator, n)->0, actions),
        has_operated(operator, n, c, c.after(actions)),
{
    let lines = operation(operator, n)->0;
    let test = match operator {
        BinaryOperatorKind::Equals => Action::IsEqual,
        BinaryOperatorKind::NotEquals => Action::IsOther,
        BinaryOperatorKind::LessThan => Action::IsLess,
        BinaryOperatorKind::LessThanOrEqualTo => Action::IsLessOrEqual,
        BinaryOperatorKind::GreaterThan => Action::IsGreater,
        _ => Action::IsGreaterOrEqual,
    };
    lemma_twice(c, Action::Compare(n), test);
    assert(says(lines[0], Action::Compare(n)));
    assert(says(lines[1], test));
    seq![Action::Compare(n), test]
}

#[verifier::rlimit(40)]
proof fn lemma_dividing(operator: BinaryOperatorKind, n: int, c: Processor) -> (actions: Seq<
    Action,
>)
    requires
        is_loaded(n, c),
        operator is Divide || operator is Modulus,
        operation(operator, n) is Some,
    ensures
        say(operation(operator, n)->0, actions),
        has_operated(operator, n, c, c.after(actions)),
{
    let lines = operation(operator, n)->0;
    if operator is Divide {
        lemma_twice(c, Action::Widen(n), Action::Quotient(n));
        assert(says(lines[0], Action::Widen(n)));
        assert(says(lines[1], Action::Quotient(n)));
        seq![Action::Widen(n), Action::Quotient(n)]
    } else {
        let clear = Action::Clear(X86FullRegister::Rdx);
        lemma_thrice(c, clear, Action::Widen(n), Action::Quotient(n));
        assert(lines[0] == written_line("xor rdx, rdx"@));
        assert(says(lines[0], clear)) by {
            lemma_written();
        }
        assert(says(lines[1], Action::Widen(n)));
        assert(says(lines[2], Action::Quotient(n)));
        seq![clear, Action::Widen(n), Action::Quotient(n)]
    }
}

#[verifier::rlimit(40)]
proof fn lemma_joining(operator: BinaryOperatorKind, c: Processor) -> (actions: Seq<Action>)
    requires
        is_loaded(8, c),
        operator is LogicalAnd || operator is LogicalOr,
        operation(operator, 8) is Some,
    ensures
        say(operation(operator, 8)->0, actions),
        has_operated(operator, 8, c, c.after(actions)),
{
    let lines = operation(operator, 8)->0;
    let (rax, rcx) = (X86FullRegister::Rax, X86FullRegister::Rcx);
    let join = if operator is LogicalAnd {
        Action::Both
    } else {
        Action::Either
    };
    let first = seq![Action::Test(rax, 8), Action::IsSet(rax)];
    let second = seq![Action::Test(rcx, 8), Action::IsSet(rcx), join];
    lemma_twice(c, first[0], first[1]);
    lemma_thrice(c.after(first), second[0], second[1], second[2]);
    lemma_after(c, first, second);
    assert(says(lines[0], first[0]));
    assert(says(lines[1], first[1]));
    assert(says(lines[2], second[0]));
    assert(says(lines[3], second[1]));
    assert(says(lines[4], second[2]));
    first + second
}

proof fn lemma_calculating(operator: BinaryOperatorKind, n: int, c: Processor) -> (actions: Seq<
    Action,
>)
    requires
        is_loaded(n, c),
        !compares(operator),
        !(operator is Divide || operator is Modulus),
        !(operator is LogicalAnd || operator is LogicalOr),
        operation(operator, n) is Some,
    ensures
        say(operation(operator, n)->0, actions),
        has_operated(operator, n, c, c.after(actions)),
{
    let lines = operation(operator, n)->0;
    let action = match operator {
        BinaryOperatorKind::Add => Action::Sum(n),
        BinaryOperatorKind::Subtract => Action::Difference(n),
        BinaryOperatorKind::Multiply => Action::Product(n),
        _ => Action::Shifted(n),
    };
    lemma_once(c, action);
    assert(says(lines[0], action));
    seq![action]
}

#[verifier::rlimit(40)]
proof fn lemma_operation(operator: BinaryOperatorKind, n: int, c: Processor) -> (actions: Seq<
    Action,
>)
    requires
        is_loaded(n, c),
        (operator is LogicalAnd || operator is LogicalOr) ==> n == 8,
        operation(operator, n) is Some,
    ensures
        say(operation(operator, n)->0, actions),
        has_operated(operator, n, c, c.after(actions)),
{
    if compares(operator) {
        lemma_comparing(operator, n, c)
    } else if operator is Divide || operator is Modulus {
        lemma_dividing(operator, n, c)
    } else if operator is LogicalAnd || operator is LogicalOr {
        lemma_joining(operator, c)
    } else {
        lemma_calculating(operator, n, c)
    }
}

/// Texts that name registers.
proof fn lemma_written()
    ensures
        written_line("xor rdx, rdx"@) == pair_line(
            "xor"@,
            X86FullRegister::Rdx.low_part(64),
            X86FullRegister::Rdx.low_part(64),
        ),
        written_line("xor rcx, rcx"@) == pair_line(
            "xor"@,
            X86FullRegister::Rcx.low_part(64),
            X86FullRegister::Rcx.low_part(64),
        ),
        written_line("test al, al"@) == pair_line(
            "test"@,
            X86FullRegister::Rax.low_part(8),
            X86FullRegister::Rax.low_part(8),
        ),
{
    reveal_strlit("xor rdx, rdx");
    reveal_strlit("xor rcx, rcx");
    reveal_strlit("test al, al");
    reveal_strlit("xor");
    reveal_strlit("test");
    reveal_strlit(" ");
    reveal_strlit(", ");
    reveal_strlit("r");
    reveal_strlit("l");
    reveal_strlit("ax");
    reveal_strlit("cx");
    reveal_strlit("dx");
    assert(X86FullRegister::Rdx.low_part(64) =~= seq!['r', 'd', 'x']);
    assert(X86FullRegister::Rcx.low_part(64) =~= seq!['r', 'c', 'x']);
    assert(X86FullRegister::Rax.low_part(8) =~= seq!['a', 'l']);
    assert("xor rdx, rdx"@ =~= "xor"@ + " "@ + X86FullRegister::Rdx.low_part(64) + ", "@
        + X86FullRegister::Rdx.low_part(64));
    assert("xor rcx, rcx"@ =~= "xor"@ + " "@ + X86FullRegister::Rcx.low_part(64) + ", "@
        + X86FullRegister::Rcx.low_part(64));
    assert("test al, al"@ =~= "test"@ + " "@ + X86FullRegister::Rax.low_part(8) + ", "@
        + X86FullRegister::Rax.low_part(8));
}

/// The assembly of an operator with two operands of one size computes the operator:
/// sums, differences, products and shifts, quotients and remainders of a division
/// that rounds towards zero, comparisons of signed numbers, and the conjunction and
/// disjunction of truth values. It stands in the destination afterwards, and nothing
/// else has changed but registers of the machine.
#[verifier::rlimit(40)]
pub proof fn law_operator_code(
    frame: Frame,
    debug: bool,
    operator: BinaryOperatorKind,
    destination: RegisterId,
    lhs: Operand,
    rhs: Operand,
    c: Processor,
) -> (actions: Seq<Action>)
    requires
        instruction_lines(
            frame,
            debug,
            (InstructionView::BinaryOperation { operator, destination, lhs, rhs }),
        ) is Some,
        is_filled(frame, c, lhs),
        is_filled(frame, c, rhs),
        operand_bits(frame, lhs) == operand_bits(frame, rhs),
        operand_bits(frame, Operand::Register(destination)) == (if compares(operator) {
            8
        } else {
            operand_bits(frame, lhs)
        }),
        (operator is LogicalAnd || operator is LogicalOr) ==> operand_bits(frame, lhs) == 8,
        (operator is Divide || operator is Modulus) ==> operand_value(frame, c, rhs) != 0,
    ensures
        say(
            instruction_lines(
                frame,
                debug,
                (InstructionView::BinaryOperation { operator, destination, lhs, rhs }),
            )->0,
            actions,
        ),
        has_become(
            frame,
            c,
            c.after(actions),
            destination,
            operated(operator, operand_value(frame, c, lhs), operand_value(frame, c, rhs)),
        ),
{
    let (rax, rcx) = (X86FullRegister::Rax, X86FullRegister::Rcx);
    let n = operand_bits(frame, lhs);
    let p = lemma_loading(frame, c, rax, lhs);
    let q = lemma_loading(frame, c.after(p), rcx, rhs);
    lemma_after(c, p, q);
    let a = loading(frame, rax, lhs)->0;
    let b = loading(frame, rcx, rhs)->0;
    lemma_say(a.lines, p, b.lines, q);
    let m = lemma_operation(operator, n, c.after(p + q));
    let lines = operation(operator, n)->0;
    lemma_changed(frame, c, a.lines + b.lines, p + q, lines, m, destination, left_in(operator))
}

/// The lines of a logical complement, once the operand is loaded.
proof fn lemma_inverting(c: Processor, n: int)
    requires
        c.registers[X86FullRegister::Rax].bits == n,
    ensures
        ({
            let (rax, rcx) = (X86FullRegister::Rax, X86FullRegister::Rcx);
            let actions = seq![Action::Clear(rcx), Action::Test(rax, n), Action::IsNone];
            let d = c.after(actions);
            &&& say(
                seq![
                    written_line("xor rcx, rcx"@),
                    pair_line("test"@, rax.low_part(n), rax.low_part(n)),
                    written_line("sete cl"@),
                ],
                actions,
            )
            &&& d.frame == c.frame
            &&& d.memory == c.memory
            &&& d.registers[rcx] == (Held {
                number: truth(c.registers[rax].number == 0),
                bits: 8,
            })
        }),
{
    let (rax, rcx) = (X86FullRegister::Rax, X86FullRegister::Rcx);
    lemma_thrice(c, Action::Clear(rcx), Action::Test(rax, n), Action::IsNone);
    assert(says(written_line("xor rcx, rcx"@), Action::Clear(rcx))) by {
        lemma_written();
    }
}

/// The assembly of a negation, of a bitwise complement and of a logical one computes
/// them.
#[verifier::rlimit(40)]
pub proof fn law_change_code(
    frame: Frame,
    debug: bool,
    operator: UnaryOperatorKind,
    destination: RegisterId,
    operand: Operand,
    c: Processor,
) -> (actions: Seq<Action>)
    requires
        instruction_lines(
            frame,
            debug,
            (InstructionView::UnaryOperation { operator, destination, operand }),
        ) is Some,
        is_filled(frame, c, operand),
        operator is Negate || operator is BitwiseNot || operator is LogicalNot,
        operand_bits(frame, Operand::Register(destination)) == (if operator is LogicalNot {
            8
        } else {
            operand_bits(frame, operand)
        }),
    ensures
        say(
            instruction_lines(
                frame,
                debug,
                (InstructionView::UnaryOperation { operator, destination, operand }),
            )->0,
            actions,
        ),
        ({
            let x = operand_value(frame, c, operand);
            has_become(
                frame,
                c,
                c.after(actions),
                destination,
                if operator is LogicalNot {
                    truth(x == 0)
                } else if operator is BitwiseNot {
                    -x - 1
                } else {
                    -x
                },
            )
        }),
{
    let (rax, rcx) = (X86FullRegister::Rax, X86FullRegister::Rcx);
    let n = operand_bits(frame, operand);
    let p = lemma_loading(frame, c, rax, operand);
    let l = loading(frame, rax, operand)->0;
    let d = c.after(p);
    if operator is LogicalNot {
        let m = seq![Action::Clear(rcx), Action::Test(rax, n), Action::IsNone];
        let lines = seq![
            written_line("xor rcx, rcx"@),
            pair_line("test"@, rax.low_part(n), rax.low_part(n)),
            written_line("sete cl"@),
        ];
        lemma_inverting(d, n);
        lemma_changed(frame, c, l.lines, p, lines, m, destination, rcx)
    } else {
        let action = if operator is BitwiseNot {
            Action::Invert(n)
        } else {
            Action::Negate(n)
        };
        let lines = seq![
            written_line(
                (if operator is BitwiseNot {
                    "not "@
                } else {
                    "neg "@
                }) + rax.low_part(n),
            ),
        ];
        lemma_once(d, action);
        assert(says(lines[0], action));
        lemma_changed(frame, c, l.lines, p, lines, seq![action], destination, rax)
    }
}

/// The assembly of a copy gives the destination the value of the source.
pub proof fn law_copy_code(
    frame: Frame,
    debug: bool,
    destination: RegisterId,
    source: Operand,
    c: Processor,
) -> (actions: Seq<Action>)
    requires
        instruction_lines(frame, debug, (InstructionView::Copy { destination, source })) is Some,
        is_filled(frame, c, source),
        operand_bits(frame, Operand::Register(destination)) == operand_bits(frame, source),
    ensures
        say(
            instruction_lines(frame, debug, (InstructionView::Copy { destination, source }))->0,
            actions,
        ),
        has_become(
            frame,
            c,
            c.after(actions),
            destination,
            operand_value(frame, c, source),
        ),
{
    let rax = X86FullRegister::Rax;
    let p = lemma_loading(frame, c, rax, source);
    let l = loading(frame, rax, source)->0;
    assert(c.after(p).after(Seq::empty()) == c.after(p));
    assert(l.lines + Seq::empty() =~= l.lines);
    lemma_changed(frame, c, l.lines, p, Seq::empty(), Seq::empty(), destination, rax)
}

/// The assembly of a load gives the destination what stands at the address.
pub proof fn law_load_code(
    frame: Frame,
    debug: bool,
    destination: RegisterId,
    source: Operand,
    c: Processor,
) -> (actions: Seq<Action>)
    requires
        instruction_lines(frame, debug, (InstructionView::LoadMem { destination, source })) is Some,
        is_filled(frame, c, source),
        operand_bits(frame, source) == 64,
        c.memory[operand_value(frame, c, source)].bits == operand_bits(
            frame,
            Operand::Register(destination),
        ),
    ensures
        say(
            instruction_lines(frame, debug, (InstructionView::LoadMem { destination, source }))->0,
            actions,
        ),
        has_become(
            frame,
            c,
            c.after(actions),
            destination,
            c.memory[operand_value(frame, c, source)].number,
        ),
{
    let rax = X86FullRegister::Rax;
    let n = operand_bits(frame, Operand::Register(destination));
    let p = lemma_loading(frame, c, rax, source);
    let l = loading(frame, rax, source)->0;
    let lines = seq![pair_line("mov"@, rax.low_part(n), "[rax]"@)];
    lemma_once(c.after(p), Action::Follow(n));
    assert(says(lines[0], Action::Follow(n)));
    lemma_changed(frame, c, l.lines, p, lines, seq![Action::Follow(n)], destination, rax)
}

/// The assembly of a store puts the value to the address, and changes nothing else.
pub proof fn law_store_code(
    frame: Frame,
    debug: bool,
    destination: Operand,
    source: Operand,
    c: Processor,
) -> (actions: Seq<Action>)
    requires
        instruction_lines(frame, debug, (InstructionView::StoreMem { destination, source })) is Some,
        is_filled(frame, c, source),
        is_filled(frame, c, destination),
        operand_bits(frame, destination) == 64,
    ensures
        say(
            instruction_lines(frame, debug, (InstructionView::StoreMem { destination, source }))->0,
            actions,
        ),
        c.after(actions).frame == c.frame,
        c.after(actions).memory == c.memory.insert(
            operand_value(frame, c, destination),
            Held {
                number: operand_value(frame, c, source),
                bits: operand_bits(frame, source),
            },
        ),
{
    let (rax, rcx) = (X86FullRegister::Rax, X86FullRegister::Rcx);
    let n = operand_bits(frame, source);
    let p = lemma_loading(frame, c, rax, source);
    let q = lemma_loading(frame, c.after(p), rcx, destination);
    let a = loading(frame, rax, source)->0;
    let b = loading(frame, rcx, destination)->0;
    let lines = seq![pair_line("mov"@, "[rcx]"@, rax.low_part(n))];
    let m = seq![Action::Save(n)];
    lemma_after(c, p, q);
    lemma_after(c, p + q, m);
    lemma_once(c.after(p + q), Action::Save(n));
    lemma_say(a.lines, p, b.lines, q);
    assert(says(lines[0], m[0]));
    lemma_say(a.lines + b.lines, p + q, lines, m);
    p + q + m
}

/// The assembly of the address of a field adds to the address of the aggregate where
/// the fields before it end.
pub proof fn law_field_code(
    frame: Frame,
    debug: bool,
    destination: RegisterId,
    source: Operand,
    ty: Seq<TypeView>,
    index: usize,
    c: Processor,
) -> (actions: Seq<Action>)
    requires
        instruction_lines(
            frame,
            debug,
            (InstructionView::GetStructElementPointer { destination, source, ty, index }),
        ) is Some,
        is_filled(frame, c, source),
        operand_bits(frame, source) == 64,
        operand_bits(frame, Operand::Register(destination)) == 64,
    ensures
        say(
            instruction_lines(
                frame,
                debug,
                (InstructionView::GetStructElementPointer { destination, source, ty, index }),
            )->0,
            actions,
        ),
        has_become(
            frame,
            c,
            c.after(actions),
            destination,
            operand_value(frame, c, source) + fields_end(ty, index as nat),
        ),
{
    let rax = X86FullRegister::Rax;
    let p = lemma_loading(frame, c, rax, source);
    let l = loading(frame, rax, source)->0;
    let m = Action::Advance(fields_end(ty, index as nat) as nat);
    lemma_field_alignments(ty, index as nat);
    let lines = seq![
        written_line("lea rax, [rax + "@ + decimal(fields_end(ty, index as nat) as nat) + "]"@),
    ];
    lemma_once(c.after(p), m);
    assert(says(lines[0], m));
    lemma_changed(frame, c, l.lines, p, lines, seq![m], destination, rax)
}

/// What is loaded into `rax` is compared with zero before two more lines.
proof fn lemma_tested(c: Processor, before: Seq<Line>, p: Seq<Action>, lines: Seq<Line>)
    requires
        say(before, p),
        lines.len() == before.len() + 3,
        lines.take(before.len() as int) == before,
        lines[before.len() as int] == written_line("test al, al"@),
        c.after(p).registers[X86FullRegister::Rax].bits == 8,
    ensures
        ({
            let actions = p + seq![Action::Test(X86FullRegister::Rax, 8)];
            let d = c.after(actions);
            &&& say(lines.take(lines.len() - 2), actions)
            &&& d.frame == c.after(p).frame
            &&& d.memory == c.after(p).memory
            &&& d.compared == (c.after(p).registers[X86FullRegister::Rax].number, 0int)
        }),
{
    let m = seq![Action::Test(X86FullRegister::Rax, 8)];
    let test = seq![written_line("test al, al"@)];
    assert(says(test[0], m[0])) by {
        lemma_written();
    }
    lemma_once(c.after(p), m[0]);
    lemma_after(c, p, m);
    lemma_say(before, p, test, m);
    assert(lines.take(lines.len() - 2) =~= before + test) by {
        assert forall|i: int| 0 <= i < before.len() implies lines[i] == before[i] by {
            assert(lines.take(before.len() as int)[i] == lines[i]);
        }
    }
}

/// The assembly of a branch compares the condition with zero and changes nothing. It
/// then jumps to the label of the positive block where they differ, and to that of
/// the negative block otherwise.
#[verifier::rlimit(40)]
pub proof fn law_branch_code(
    frame: Frame,
    debug: bool,
    condition: Operand,
    positive: BlockId,
    negative: BlockId,
    c: Processor,
) -> (actions: Seq<Action>)
    requires
        instruction_lines(
            frame,
            debug,
            (InstructionView::Branch { condition, positive, negative }),
        ) is Some,
        is_filled(frame, c, condition),
    ensures
        ({
            let lines = instruction_lines(
                frame,
                debug,
                (InstructionView::Branch { condition, positive, negative }),
            )->0;
            &&& lines.len() >= 2
            &&& say(lines.take(lines.len() - 2), actions)
            &&& lines[lines.len() - 2] == written_line("jnz "@ + label_text(positive))
            &&& lines[lines.len() - 1] == written_line("jmp "@ + label_text(negative))
        }),
        c.after(actions).frame == c.frame,
        c.after(actions).memory == c.memory,
        c.after(actions).compared == (operand_value(frame, c, condition), 0int),
{
    let lines = instruction_lines(
        frame,
        debug,
        (InstructionView::Branch { condition, positive, negative }),
    )->0;
    let rax = X86FullRegister::Rax;
    let p = lemma_loading(frame, c, rax, condition);
    let l = loading(frame, rax, condition)->0;
    assert(lines.take(l.lines.len() as int) =~= l.lines);
    lemma_tested(c, l.lines, p, lines);
    p + seq![Action::Test(rax, 8)]
}

/// Different blocks have different labels.
pub proof fn law_labels_apart(a: BlockId, b: BlockId)
    ensures
        label_text(a) == label_text(b) ==> a == b,
{
    let head = ".label_"@;
    if label_text(a) == label_text(b) {
        assert(decimal(a.0 as nat) =~= label_text(a).skip(head.len() as int));
        assert(decimal(b.0 as nat) =~= label_text(b).skip(head.len() as int));
        law_decimal_reads_back(a.0 as nat);
        law_decimal_reads_back(b.0 as nat);
    }
}

/// The assembly of a jump jumps to the label of the block.
pub proof fn law_jump_code(frame: Frame, debug: bool, destination: BlockId)
    ensures
        instruction_lines(frame, debug, (InstructionView::Jump { destination })) == Some(
            seq![written_line("jmp "@ + label_text(destination))],
        ),
{
}

/// The assembly of a return leaves the value in `rax` and jumps to the exit.
pub proof fn law_return_code(frame: Frame, debug: bool, value: Operand, c: Processor) -> (actions:
    Seq<Action>)
    requires
        instruction_lines(
            frame,
            debug,
            (InstructionView::Return { value: Some(value) }),
        ) is Some,
        is_filled(frame, c, value),
    ensures
        ({
            let lines = instruction_lines(
                frame,
                debug,
                (InstructionView::Return { value: Some(value) }),
            )->0;
            &&& lines.len() >= 1
            &&& say(lines.drop_last(), actions)
            &&& lines.last() == written_line("jmp .exit"@)
        }),
        c.after(actions).registers[X86FullRegister::Rax] == (Held {
            number: operand_value(frame, c, value),
            bits: operand_bits(frame, value),
        }),
{
    let lines = instruction_lines(
        frame,
        debug,
        (InstructionView::Return { value: Some(value) }),
    )->0;
    let p = lemma_loading(frame, c, X86FullRegister::Rax, value);
    assert(lines.drop_last() =~= loading(frame, X86FullRegister::Rax, value)->0.lines);
    p
}

/// The register that holds an argument of a call by its position.
pub open spec fn passed_in(i: int) -> X86FullRegister {
    if i == 0 {
        X86FullRegister::Rdi
    } else if i == 1 {
        X86FullRegister::Rsi
    } else if i == 2 {
        X86FullRegister::Rdx
    } else if i == 3 {
        X86FullRegister::R10
    } else if i == 4 {
        X86FullRegister::R8
    } else {
        X86FullRegister::R9
    }
}

/// The lines before a call leave every argument in the register of its position.
pub proof fn law_arguments_are_passed(
    frame: Frame,
    arguments: Seq<Operand>,
    n: nat,
    c: Processor,
) -> (actions: Seq<Action>)
    requires
        n <= arguments.len(),
        n <= 6,
        argument_lines(frame, arguments, n) is Some,
        forall|i: int| 0 <= i < n ==> is_filled(frame, c, #[trigger] arguments[i]),
    ensures
        say(argument_lines(frame, arguments, n)->0, actions),
        c.after(actions).frame == c.frame,
        c.after(actions).memory == c.memory,
        forall|i: int|
            0 <= i < n ==> c.after(actions).registers[passed_in(i)] == (Held {
                number: operand_value(frame, c, #[trigger] arguments[i]),
                bits: operand_bits(frame, arguments[i]),
            }),
    decreases n,
{
    if n == 0 {
        Seq::empty()
    } else {
        let k = (n - 1) as nat;
        let p = law_arguments_are_passed(frame, arguments, k, c);
        let r = argument_registers()[n - 1];
        assert(r == passed_in(n - 1));
        let d = c.after(p);
        assert(is_filled(frame, c, arguments[n - 1]));
        let q = lemma_loading(frame, d, r, arguments[n - 1]);
        lemma_after(c, p, q);
        lemma_say(
            argument_lines(frame, arguments, k)->0,
            p,
            loading(frame, r, arguments[n - 1])->0.lines,
            q,
        );
        p + q
    }
}

/// At the entry of a function, every parameter is put into its place out of the
/// register that its position has in a call, after a remark that does nothing. Where
/// the function has a place for its result, that place is the first argument of the
/// call.
pub proof fn law_arguments_arrive(frame: Frame, first: nat, n: nat, i: int)
    requires
        n <= frame.function.arguments.len(),
        arrivals(frame, first, n) is Some,
        0 <= i < n,
        ({
            let ty = frame.function.registers[frame.function.arguments[i].0].ty;
            ty is Integer || ty is Pointer
        }),
    ensures
        ({
            let id = frame.function.arguments[i];
            let lines = arrivals(frame, first, n)->0;
            &&& lines.len() == 2 * n
            &&& lines[2 * i] is Remark
            &&& says(
                lines[2 * i + 1],
                Action::Keep(
                    frame.offsets[id.0],
                    passed_in(first + i),
                    bits_of(frame.function.registers[id.0].ty),
                ),
            )
        }),
    decreases n,
{
    lemma_arrivals_length(frame, first, n);
    if i < n - 1 {
        law_arguments_arrive(frame, first, (n - 1) as nat, i);
        lemma_arrivals_length(frame, first, (n - 1) as nat);
    } else {
        lemma_arrivals_length(frame, first, (n - 1) as nat);
        assert(argument_registers()[first + n - 1] == passed_in(first + i));
    }
}

proof fn lemma_arrivals_length(frame: Frame, first: nat, n: nat)
    requires
        arrivals(frame, first, n) is Some,
    ensures
        arrivals(frame, first, n)->0.len() == 2 * n,
    decreases n,
{
    if n > 0 {
        lemma_arrivals_length(frame, first, (n - 1) as nat);
    }
}

/// The assembly of a call of a known function leaves every argument in the register
/// of its position, calls the function by its name, and gives the destination, where
/// there is one, what the function left in `rax`.
pub proof fn law_call_code(
    frame: Frame,
    debug: bool,
    target: InternedSymbol,
    arguments: Seq<Operand>,
    destination: Option<RegisterId>,
    c: Processor,
) -> (actions: Seq<Action>)
    requires
        instruction_lines(
            frame,
            debug,
            (InstructionView::FunctionCall {
                target: Operand::Immediate(Immediate::FunctionLabel(target)),
                arguments,
                destination,
            }),
        ) is Some,
        forall|i: int| 0 <= i < arguments.len() ==> is_filled(frame, c, #[trigger] arguments[i]),
    ensures
        ({
            let lines = instruction_lines(
                frame,
                debug,
                (InstructionView::FunctionCall {
                    target: Operand::Immediate(Immediate::FunctionLabel(target)),
                    arguments,
                    destination,
                }),
            )->0;
            let n = actions.len() as int;
            &&& lines.len() == n + 1 + (if destination is Some {
                1int
            } else {
                0
            })
            &&& say(lines.take(n), actions)
            &&& lines[n] == written_line("call "@ + frame.names[target.0 as int])
            &&& destination matches Some(id) ==> says(
                lines[n + 1],
                Action::Keep(
                    frame.offsets[id.0],
                    X86FullRegister::Rax,
                    bits_of(frame.function.registers[id.0].ty),
                ),
            )
        }),
        c.after(actions).frame == c.frame,
        c.after(actions).memory == c.memory,
        forall|i: int|
            0 <= i < arguments.len() ==> c.after(actions).registers[passed_in(i)] == (Held {
                number: operand_value(frame, c, #[trigger] arguments[i]),
                bits: operand_bits(frame, arguments[i]),
            }),
{
    let lines = instruction_lines(
        frame,
        debug,
        (InstructionView::FunctionCall {
            target: Operand::Immediate(Immediate::FunctionLabel(target)),
            arguments,
            destination,
        }),
    )->0;
    let p = law_arguments_are_passed(frame, arguments, arguments.len(), c);
    let passed = argument_lines(frame, arguments, arguments.len())->0;
    assert(lines.take(p.len() as int) =~= passed);
    p
}

/// The lines of an instruction stand as they are among those of its block, behind a
/// remark and behind the lines of the instructions before it.
pub proof fn law_instructions_in_order(
    frame: Frame,
    debug: bool,
    code: Seq<InstructionView>,
    n: nat,
    i: nat,
) -> (from: int)
    requires
        n <= code.len(),
        i < n,
        run_lines(frame, debug, code, n) is Some,
    ensures
        ({
            let lines = run_lines(frame, debug, code, n)->0;
            let own = instruction_lines(frame, debug, code[i as int]);
            &&& run_lines(frame, debug, code, i) is Some
            &&& own is Some
            &&& from == run_lines(frame, debug, code, i)->0.len()
            &&& from + 1 + own->0.len() <= lines.len()
            &&& lines.take(from) == run_lines(frame, debug, code, i)->0
            &&& lines[from] is Remark
            &&& lines.subrange(from + 1, from + 1 + own->0.len()) == own->0
        }),
    decreases n,
{
    let lines = run_lines(frame, debug, code, n)->0;
    let before = run_lines(frame, debug, code, (n - 1) as nat)->0;
    let own = instruction_lines(frame, debug, code[i as int]);
    if i + 1 == n {
        let from = before.len() as int;
        assert(lines.take(from) =~= before);
        assert(lines.subrange(from + 1, from + 1 + own->0.len()) =~= own->0);
        from
    } else {
        let from = law_instructions_in_order(frame, debug, code, (n - 1) as nat, i);
        assert(lines.take(from) =~= before.take(from));
        assert(lines[from] == before[from]);
        assert(lines.subrange(from + 1, from + 1 + own->0.len()) =~= before.subrange(
            from + 1,
            from + 1 + own->0.len(),
        ));
        from
    }
}

/// A block is written as its label, a colon, and right behind it the lines of its
/// instructions.
pub proof fn law_blocks_are_labelled(
    frame: Frame,
    debug: bool,
    ids: Seq<u32>,
    n: nat,
    i: int,
) -> (from: int)
    requires
        n <= ids.len(),
        0 <= i < n,
        block_lines(frame, debug, ids, n) is Some,
    ensures
        ({
            let block = frame.function.blocks[ids[i]];
            let lines = block_lines(frame, debug, ids, n)->0;
            let own = run_lines(frame, debug, block.instructions, block.instructions.len());
            &&& own is Some
            &&& 0 <= from
            &&& from + 1 + own->0.len() <= lines.len()
            &&& lines[from] == Line::Text(label_text(block.id) + ":"@)
            &&& lines.subrange(from + 1, from + 1 + own->0.len()) == own->0
        }),
    decreases n,
{
    let block = frame.function.blocks[ids[i]];
    let lines = block_lines(frame, debug, ids, n)->0;
    let before = block_lines(frame, debug, ids, (n - 1) as nat)->0;
    let own = run_lines(frame, debug, block.instructions, block.instructions.len());
    if i + 1 == n {
        let from = before.len() as int;
        assert(lines.subrange(from + 1, from + 1 + own->0.len()) =~= own->0);
        from
    } else {
        let from = law_blocks_are_labelled(frame, debug, ids, (n - 1) as nat, i);
        assert(lines[from] == before[from]);
        assert(lines.subrange(from + 1, from + 1 + own->0.len()) =~= before.subrange(
            from + 1,
            from + 1 + own->0.len(),
        ));
        from
    }
}

} // verus!
