//! Code for x86-64 machines with Linux.

use crate::backend::assemblers::x86_64::{
    are_lines, binary, binary_text, code_line, epilogue, law_printing_lines, line_texts,
    lines_print, paragraph, prologue, slot, slot_text, Assembler, Frame, Line,
};
use crate::backend::targets::instructions::{
    argument_register, argument_registers, instruction_lines,
};
use crate::backend::targets::nasm::{format_nasm_string, nasm_text};
use crate::backend::CodegenOptions;
use crate::collections::{ascending, sorted_keys};
use crate::frontend::intern::{InternedSymbol, Interner};
use crate::middle::lir::pretty_print::{
    instruction_shows, label_text, shown_instruction, shown_register,
};
use crate::middle::lir::{
    align_to, aligned, block_at, block_views, extent, fits, law_aligned, lemma_alignments,
    lemma_powers, Block, FunctionDefinition, FunctionView, InstructionView, Module, RegisterId,
    RegisterView, StaticDefinition,
};
use crate::style::{doc, Shade, Styled};
use crate::text;
use crate::text::{
    decimal, extends, join, joined, lemma_texts_push, push_decimal, texts,
};
use std::collections::BTreeMap;
use vstd::prelude::*;

verus! {

broadcast use {text::group_extends, vstd::std_specs::btree::group_btree_axioms};

/// How far the places of the first `n` of the listed registers reach below the
/// frame pointer.
pub open spec fn frame_end(registers: Map<u32, RegisterView>, ids: Seq<u32>, n: nat) -> int
    decreases n,
{
    if n == 0 {
        0
    } else {
        let field = extent(registers[ids[n - 1]].ty);
        aligned(frame_end(registers, ids, (n - 1) as nat) + field.size, field.alignment)
    }
}

/// Whether the first `n` of the listed registers have room in a frame.
pub open spec fn frame_fits(registers: Map<u32, RegisterView>, ids: Seq<u32>, n: nat) -> bool
    decreases n,
{
    n == 0 || (frame_fits(registers, ids, (n - 1) as nat) && fits(registers[ids[n - 1]].ty)
        && frame_end(registers, ids, (n - 1) as nat) + extent(registers[ids[n - 1]].ty).size
        + extent(registers[ids[n - 1]].ty).alignment - 1 <= usize::MAX)
}

/// The places of the first `n` of the listed registers.
pub open spec fn frame_offsets(registers: Map<u32, RegisterView>, ids: Seq<u32>, n: nat) -> Map<
    u32,
    usize,
>
    decreases n,
{
    if n == 0 {
        Map::empty()
    } else {
        frame_offsets(registers, ids, (n - 1) as nat).insert(
            registers[ids[n - 1]].id.0,
            frame_end(registers, ids, n) as usize,
        )
    }
}

/// The place of a register lies behind those of the registers before it, and
/// keeps its alignment.
pub proof fn law_slots_apart(registers: Map<u32, RegisterView>, ids: Seq<u32>, i: nat, j: nat)
    requires
        i < j <= ids.len(),
    ensures
        frame_end(registers, ids, i) + extent(registers[ids[j - 1]].ty).size <= frame_end(
            registers,
            ids,
            j,
        ),
        frame_end(registers, ids, j) % extent(registers[ids[j - 1]].ty).alignment == 0,
    decreases j,
{
    lemma_frame_grows(registers, ids, i, (j - 1) as nat);
    let ty = registers[ids[j - 1]].ty;
    lemma_alignments(ty);
    law_aligned(
        frame_end(registers, ids, (j - 1) as nat) + extent(ty).size,
        extent(ty).alignment,
    );
}

proof fn lemma_frame_grows(registers: Map<u32, RegisterView>, ids: Seq<u32>, i: nat, j: nat)
    requires
        i <= j,
    ensures
        0 <= frame_end(registers, ids, i) <= frame_end(registers, ids, j),
    decreases j,
{
    if j > 0 {
        lemma_frame_grows(
            registers,
            ids,
            if i < j {
                i
            } else {
                (j - 1) as nat
            },
            (j - 1) as nat,
        );
        let ty = registers[ids[j - 1]].ty;
        lemma_alignments(ty);
        law_aligned(
            frame_end(registers, ids, (j - 1) as nat) + extent(ty).size,
            extent(ty).alignment,
        );
    }
}

proof fn lemma_frame_fits(registers: Map<u32, RegisterView>, ids: Seq<u32>, n: nat, m: nat)
    requires
        n <= m,
        frame_fits(registers, ids, m),
    ensures
        frame_fits(registers, ids, n),
    decreases m,
{
    if n < m {
        lemma_frame_fits(registers, ids, n, (m - 1) as nat);
    }
}

/// Puts what was passed in a register into its place.
pub open spec fn arrival(
    frame: Frame,
    head: Seq<char>,
    id: RegisterId,
    source: Seq<char>,
) -> Seq<Line> {
    seq![
        Line::Remark(
            "    "@ + head,
            seq![shown_register(id)],
            " into its stack register"@,
        ),
        code_line(binary_text("mov"@, slot(frame.offsets[id.0]), source)),
    ]
}

/// Puts the first `n` arguments into their places. There is no result where
/// an argument has no register.
pub open spec fn arrivals(frame: Frame, first: nat, n: nat) -> Option<Seq<Line>>
    decreases n,
{
    if n == 0 {
        Some(Seq::empty())
    } else {
        let id = frame.function.arguments[n - 1];
        let size = extent(frame.function.registers[id.0].ty).size;
        match arrivals(frame, first, (n - 1) as nat) {
            None => None,
            Some(before) => if first + n > 6 || !frame.function.registers.contains_key(id.0)
                || !frame.offsets.contains_key(id.0) || !(size == 1 || size == 2 || size == 4
                || size == 8) || !fits(frame.function.registers[id.0].ty) {
                None
            } else {
                Some(
                    before + arrival(
                        frame,
                        "; store arg "@,
                        id,
                        argument_registers()[first + n - 1].low_part(8 * size),
                    ),
                )
            },
        }
    }
}

/// Puts the place for a structure that is returned into its own place, and
/// the arguments into theirs.
pub open spec fn entry_lines(frame: Frame) -> Option<Seq<Line>> {
    match frame.function.struct_return {
        None => arrivals(frame, 0, frame.function.arguments.len()),
        Some(id) => match arrivals(frame, 1, frame.function.arguments.len()) {
            None => None,
            Some(rest) => if frame.offsets.contains_key(id.0) {
                Some(arrival(frame, "; store sret arg "@, id, "rdi"@) + rest)
            } else {
                None
            },
        },
    }
}

/// The first `n` instructions of a run, each behind a remark that shows it.
pub open spec fn run_lines(frame: Frame, debug: bool, code: Seq<InstructionView>, n: nat) -> Option<
    Seq<Line>,
>
    decreases n,
{
    if n == 0 {
        Some(Seq::empty())
    } else {
        match (
            run_lines(frame, debug, code, (n - 1) as nat),
            instruction_lines(frame, debug, code[n - 1]),
        ) {
            (Some(before), Some(lines)) => if instruction_shows(frame.names, code[n - 1]) {
                Some(
                    before + seq![
                        Line::Remark(
                            "    "@ + "; "@,
                            shown_instruction(frame.names, code[n - 1]),
                            ""@,
                        ),
                    ] + lines,
                )
            } else {
                None
            },
            _ => None,
        }
    }
}

/// The first `n` of the listed blocks.
pub open spec fn block_lines(frame: Frame, debug: bool, ids: Seq<u32>, n: nat) -> Option<Seq<Line>>
    decreases n,
{
    if n == 0 {
        Some(Seq::empty())
    } else {
        let block = frame.function.blocks[ids[n - 1]];
        match (
            block_lines(frame, debug, ids, (n - 1) as nat),
            run_lines(frame, debug, block.instructions, block.instructions.len()),
        ) {
            (Some(before), Some(lines)) => Some(
                before + (seq![Line::Text(label_text(block.id) + ":"@)] + lines),
            ),
            _ => None,
        }
    }
}

/// A function with the places of its registers.
pub open spec fn frame_of(function: FunctionView, names: Seq<Seq<char>>) -> Frame {
    let ids = ascending(function.registers.dom());
    Frame { function, offsets: frame_offsets(function.registers, ids, ids.len()), names }
}

/// The assembly of a function. There is no result where one of its parts has
/// none.
pub open spec fn function_lines(function: FunctionView, names: Seq<Seq<char>>, debug: bool) -> Option<
    Seq<Line>,
> {
    let frame = frame_of(function, names);
    let ids = ascending(function.registers.dom());
    let blocks = ascending(function.blocks.dom());
    if (function.symbol_name.0 as int) >= names.len() || !frame_fits(
        function.registers,
        ids,
        ids.len(),
    ) {
        None
    } else {
        let name = names[function.symbol_name.0 as int];
        match (entry_lines(frame), block_lines(frame, debug, blocks, blocks.len())) {
            (Some(entry), Some(body)) => Some(
                seq![Line::Text("global "@ + name), Line::Text(name + ":"@)] + prologue(
                    frame_end(function.registers, ids, ids.len()) as usize,
                ) + entry + body + epilogue(),
            ),
            _ => None,
        }
    }
}

/// Whether a text is the assembly that some lines make up.
pub open spec fn is_assembly(text: Seq<char>, lines: Seq<Line>) -> bool {
    exists|t: Seq<Seq<char>>| #[trigger] are_lines(t, lines) && text == paragraph(t)
}

/// The assembly that lines make up whose remarks print.
pub open spec fn assembly(lines: Seq<Line>) -> Seq<char> {
    paragraph(line_texts(lines))
}

/// Lines whose remarks print make up one assembly.
pub proof fn law_printing_assembly(text: Seq<char>, lines: Seq<Line>)
    requires
        is_assembly(text, lines),
        lines_print(lines),
    ensures
        text == assembly(lines),
{
    let t = choose|t: Seq<Seq<char>>| #[trigger] are_lines(t, lines) && text == paragraph(t);
    law_printing_lines(t, lines);
}

proof fn lemma_arrivals(frame: Frame, first: nat, n: nat, m: nat)
    requires
        n <= m,
        arrivals(frame, first, m) is Some,
    ensures
        arrivals(frame, first, n) is Some,
    decreases m,
{
    if n < m {
        lemma_arrivals(frame, first, n, (m - 1) as nat);
    }
}

proof fn lemma_run(frame: Frame, debug: bool, code: Seq<InstructionView>, n: nat, m: nat)
    requires
        n <= m,
        run_lines(frame, debug, code, m) is Some,
    ensures
        run_lines(frame, debug, code, n) is Some,
    decreases m,
{
    if n < m {
        lemma_run(frame, debug, code, n, (m - 1) as nat);
    }
}

proof fn lemma_blocks(frame: Frame, debug: bool, ids: Seq<u32>, n: nat, m: nat)
    requires
        n <= m,
        block_lines(frame, debug, ids, m) is Some,
    ensures
        block_lines(frame, debug, ids, n) is Some,
    decreases m,
{
    if n < m {
        lemma_blocks(frame, debug, ids, n, (m - 1) as nat);
    }
}

/// A register as a piece of a remark.
fn register_remark(id: RegisterId) -> (r: Vec<Styled>)
    ensures
        doc(r@) == seq![shown_register(id)],
{
    let mut parts: Vec<Styled> = Vec::new();
    crate::style::push_colored(&mut parts, id.display(), Shade::Yellow);
    assert(doc(parts@) =~= seq![shown_register(id)]);
    parts
}

impl<'a> Assembler<'a> {
    /// Puts what was passed in a register into its place.
    fn arrive(&mut self, head: &str, id: RegisterId, source: &str)
        requires
            old(self).well_formed(),
            old(self).frame().offsets.contains_key(id.0),
        ensures
            final(self).adds(old(self), arrival(old(self).frame(), head@, id, source@)),
    {
        self.remark(head, &register_remark(id), " into its stack register");
        let offset: usize = self.offset(id);
        self.emit(binary("mov", slot_text(offset).as_str(), source).as_str());
        assert(self.shape@ =~= old(self).shape@ + arrival(old(self).frame(), head@, id, source@));
    }

    /// Puts the arguments into their places.
    fn arrive_all(&mut self, first: usize)
        requires
            old(self).well_formed(),
            first <= 1,
            arrivals(
                old(self).frame(),
                first as nat,
                old(self).frame().function.arguments.len(),
            ) is Some,
        ensures
            final(self).adds(
                old(self),
                arrivals(
                    old(self).frame(),
                    first as nat,
                    old(self).frame().function.arguments.len(),
                )->0,
            ),
    {
        let ghost frame = self.frame();
        let ghost before = self.shape@;
        let ghost count = frame.function.arguments.len();
        let mut i: usize = 0;
        assert(self.shape@ =~= before + arrivals(frame, first as nat, 0)->0);
        while i < self.function.arguments.len()
            invariant
                0 <= i <= count,
                first <= 1,
                frame == self.frame(),
                frame == old(self).frame(),
                extends(texts(self.lines@), texts(old(self).lines@)),
                count == frame.function.arguments.len(),
                self.well_formed(),
                arrivals(frame, first as nat, count) is Some,
                arrivals(frame, first as nat, i as nat) is Some,
                self.shape@ == before + arrivals(frame, first as nat, i as nat)->0,
            decreases count - i,
        {
            proof {
                lemma_arrivals(frame, first as nat, i as nat + 1, count);
            }
            let id = self.function.arguments[i];
            let size: usize = match self.function.registers.get(&id.0) {
                Some(register) => register.ty.layout().size,
                None => vstd::pervasive::unreached(),
            };
            let part = argument_register(first + i).with_size_bytes(size);
            self.arrive("; store arg ", id, part.name());
            i = i + 1;
            assert(self.shape@ =~= before + arrivals(frame, first as nat, i as nat)->0);
        }
    }

    /// Writes a run of instructions.
    fn write_run(&mut self, block: &Block, debug: bool)
        requires
            old(self).well_formed(),
            run_lines(
                old(self).frame(),
                debug,
                block@.instructions,
                block@.instructions.len(),
            ) is Some,
        ensures
            final(self).adds(
                old(self),
                run_lines(
                    old(self).frame(),
                    debug,
                    block@.instructions,
                    block@.instructions.len(),
                )->0,
            ),
    {
        let ghost frame = self.frame();
        let ghost before = self.shape@;
        let ghost code = block@.instructions;
        let mut i: usize = 0;
        assert(self.shape@ =~= before + run_lines(frame, debug, code, 0)->0);
        while i < block.instructions.len()
            invariant
                0 <= i <= code.len(),
                code == block@.instructions,
                frame == self.frame(),
                frame == old(self).frame(),
                extends(texts(self.lines@), texts(old(self).lines@)),
                self.well_formed(),
                run_lines(frame, debug, code, code.len()) is Some,
                run_lines(frame, debug, code, i as nat) is Some,
                self.shape@ == before + run_lines(frame, debug, code, i as nat)->0,
            decreases code.len() - i,
        {
            proof {
                lemma_run(frame, debug, code, i as nat + 1, code.len());
                assert(code[i as int] == block.instructions@[i as int]@);
            }
            let shown = block.instructions[i].display(self.names);
            self.remark("; ", &shown, "");
            self.translate(&block.instructions[i], debug);
            i = i + 1;
            assert(self.shape@ =~= before + run_lines(frame, debug, code, i as nat)->0);
        }
    }

    /// Writes a block.
    fn write_block(&mut self, block: &Block, debug: bool)
        requires
            old(self).well_formed(),
            run_lines(
                old(self).frame(),
                debug,
                block@.instructions,
                block@.instructions.len(),
            ) is Some,
        ensures
            final(self).adds(
                old(self),
                seq![Line::Text(label_text(block@.id) + ":"@)] + run_lines(
                    old(self).frame(),
                    debug,
                    block@.instructions,
                    block@.instructions.len(),
                )->0,
            ),
    {
        self.label(block.id.display().as_str());
        self.write_run(block, debug);
        assert(self.shape@ =~= old(self).shape@ + (seq![Line::Text(label_text(block@.id) + ":"@)]
            + run_lines(
            old(self).frame(),
            debug,
            block@.instructions,
            block@.instructions.len(),
        )->0));
    }

    /// Writes all the blocks of the function.
    fn write_blocks(&mut self, debug: bool)
        requires
            old(self).well_formed(),
            block_lines(
                old(self).frame(),
                debug,
                ascending(old(self).frame().function.blocks.dom()),
                ascending(old(self).frame().function.blocks.dom()).len(),
            ) is Some,
        ensures
            final(self).adds(
                old(self),
                block_lines(
                    old(self).frame(),
                    debug,
                    ascending(old(self).frame().function.blocks.dom()),
                    ascending(old(self).frame().function.blocks.dom()).len(),
                )->0,
            ),
    {
        let ghost frame = self.frame();
        let ghost before = self.shape@;
        let function = self.function;
        let ids = sorted_keys(&function.blocks);
        assert(frame.function.blocks.dom() =~= function.blocks@.dom());
        let ghost all = ids@;
        proof {
            assert forall|k: int| 0 <= k < all.len() implies function.blocks@.contains_key(
                #[trigger] all[k],
            ) by {
                assert(all.contains(all[k]));
            }
        }
        let mut i: usize = 0;
        assert(self.shape@ =~= before + block_lines(frame, debug, all, 0)->0);
        while i < ids.len()
            invariant
                0 <= i <= all.len(),
                all == ids@,
                forall|k: int|
                    0 <= k < all.len() ==> function.blocks@.contains_key(#[trigger] all[k]),
                frame == self.frame(),
                frame == old(self).frame(),
                extends(texts(self.lines@), texts(old(self).lines@)),
                frame.function.blocks == block_views(function.blocks@),
                self.well_formed(),
                block_lines(frame, debug, all, all.len()) is Some,
                block_lines(frame, debug, all, i as nat) is Some,
                self.shape@ == before + block_lines(frame, debug, all, i as nat)->0,
            decreases all.len() - i,
        {
            proof {
                lemma_blocks(frame, debug, all, i as nat + 1, all.len());
            }
            self.write_block(block_at(&function.blocks, ids[i]), debug);
            i = i + 1;
            assert(self.shape@ =~= before + block_lines(frame, debug, all, i as nat)->0);
        }
    }
}

/// The places of the registers of a function, and the size of its frame.
fn lay_out_frame(function: &FunctionDefinition) -> (r: (BTreeMap<u32, usize>, usize))
    requires
        frame_fits(
            function@.registers,
            ascending(function@.registers.dom()),
            ascending(function@.registers.dom()).len(),
        ),
    ensures
        r.0@ == frame_offsets(
            function@.registers,
            ascending(function@.registers.dom()),
            ascending(function@.registers.dom()).len(),
        ),
        r.1 as int == frame_end(
            function@.registers,
            ascending(function@.registers.dom()),
            ascending(function@.registers.dom()).len(),
        ),
{
    let ghost registers = function@.registers;
    let mut offsets: BTreeMap<u32, usize> = BTreeMap::new();
    let mut stack_frame_size: usize = 0;
    let ids = sorted_keys(&function.registers);
    assert(registers.dom() =~= function.registers@.dom());
    let ghost all = ids@;
    let mut i: usize = 0;
    assert(offsets@ =~= frame_offsets(registers, all, 0));
    while i < ids.len()
        invariant
            0 <= i <= all.len(),
            all == ids@,
            registers == function@.registers,
            forall|id: u32| all.contains(id) <==> function.registers@.contains_key(id),
            frame_fits(registers, all, all.len()),
            offsets@ == frame_offsets(registers, all, i as nat),
            stack_frame_size as int == frame_end(registers, all, i as nat),
        decreases all.len() - i,
    {
        proof {
            lemma_frame_fits(registers, all, i as nat + 1, all.len());
            lemma_frame_fits(registers, all, i as nat, all.len());
            lemma_frame_grows(registers, all, i as nat, i as nat);
            assert(all.contains(all[i as int]));
            let ty = registers[all[i as int]].ty;
            lemma_alignments(ty);
            lemma_powers(extent(ty).alignment);
            law_aligned(
                frame_end(registers, all, i as nat) + extent(ty).size,
                extent(ty).alignment,
            );
        }
        match function.registers.get(&ids[i]) {
            Some(register) => {
                let layout = register.ty.layout();
                stack_frame_size = align_to(stack_frame_size + layout.size, layout.alignment);
                offsets.insert(register.id.0, stack_frame_size);
            }
            None => vstd::pervasive::unreached(),
        }
        i = i + 1;
    }
    (offsets, stack_frame_size)
}

/// The assembly of a function.
pub fn codegen_function(
    function: &FunctionDefinition,
    options: &CodegenOptions,
    names: &Interner,
) -> (r: String)
    requires
        function_lines(function@, names@, options.emit_debug_info) is Some,
    ensures
        is_assembly(r@, function_lines(function@, names@, options.emit_debug_info)->0),
        lines_print(function_lines(function@, names@, options.emit_debug_info)->0) ==> r@
            == assembly(function_lines(function@, names@, options.emit_debug_info)->0),
{
    let ghost lines = function_lines(function@, names@, options.emit_debug_info)->0;
    let (offsets, stack_frame_size) = lay_out_frame(function);
    let mut assembler = Assembler::new(function, &offsets, names);
    assembler.global_label(names.value(function.symbol_name));
    assembler.function_prologue(stack_frame_size);
    /* Move the function arguments into the stack registers */
    match function.struct_return {
        Some(sret_reg) => {
            proof {
                reveal_strlit("rdi");
            }
            assembler.arrive("; store sret arg ", sret_reg, "rdi");
            assembler.arrive_all(1);
        }
        None => assembler.arrive_all(0),
    }
    assembler.write_blocks(options.emit_debug_info);
    assembler.function_epilogue();
    proof {
        assert(assembler.shape@ =~= lines);
        let t = texts(assembler.lines@);
        assert(are_lines(t, lines));
        if lines_print(lines) {
            law_printing_lines(t, lines);
        }
    }
    assembler.into_output()
}

/// A string in static memory.
pub open spec fn string_line(names: Seq<Seq<char>>, id: u32, symbol: InternedSymbol) -> Seq<char> {
    "__$static_alloc_"@ + decimal(id as nat) + ": db "@ + nasm_text(names[symbol.0 as int])
}

/// The strings in static memory.
pub open spec fn string_lines(names: Seq<Seq<char>>, strings: Map<u32, InternedSymbol>) -> Seq<
    Seq<char>,
> {
    let ids = ascending(strings.dom());
    Seq::new(ids.len(), |i: int| string_line(names, ids[i], strings[ids[i]]))
}

/// Room for a static variable, aligned to eight bytes at least.
pub open spec fn static_line(names: Seq<Seq<char>>, definition: StaticDefinition) -> Seq<char> {
    "alignb "@ + decimal(
        if definition.layout.alignment > 8 {
            definition.layout.alignment as nat
        } else {
            8
        },
    ) + "\n"@ + names[definition.symbol_name.0 as int] + ": resb "@ + decimal(
        definition.layout.size as nat,
    )
}

/// Room for the static variables.
pub open spec fn static_lines(
    names: Seq<Seq<char>>,
    definitions: Map<u32, StaticDefinition>,
) -> Seq<Seq<char>> {
    let ids = ascending(definitions.dom());
    Seq::new(ids.len(), |i: int| static_line(names, definitions[ids[i]]))
}

/// Whether the names in a module are known.
pub open spec fn module_named(names: Seq<Seq<char>>, module: Module) -> bool {
    &&& forall|id: u32|
        module.static_strings@.contains_key(id) ==> ((
        #[trigger] module.static_strings@[id]).0 as int) < names.len()
    &&& forall|id: u32|
        module.static_definitions@.contains_key(id) ==> ((
        #[trigger] module.static_definitions@[id]).symbol_name.0 as int) < names.len()
}

/// Whether all the functions of a module have an assembly.
pub open spec fn module_codes(names: Seq<Seq<char>>, module: Module, debug: bool) -> bool {
    forall|id: u32|
        module.function_definitions@.contains_key(id) ==> function_lines(
            (#[trigger] module.function_definitions@[id])@,
            names,
            debug,
        ) is Some
}

/// The assembly of a function of a module.
pub open spec fn module_function(names: Seq<Seq<char>>, module: Module, debug: bool, i: int) -> Seq<
    Line,
> {
    function_lines(
        module.function_definitions@[ascending(module.function_definitions@.dom())[i]]@,
        names,
        debug,
    )->0
}

/// Whether texts are the assembly of the functions of a module, in order.
pub open spec fn are_bodies(
    bodies: Seq<Seq<char>>,
    names: Seq<Seq<char>>,
    module: Module,
    debug: bool,
) -> bool {
    &&& bodies.len() == ascending(module.function_definitions@.dom()).len()
    &&& forall|i: int|
        0 <= i < bodies.len() ==> is_assembly(
            #[trigger] bodies[i],
            module_function(names, module, debug, i),
        )
}

/// The assembly of a program with the given functions.
pub open spec fn program_text(
    bodies: Seq<Seq<char>>,
    core: Seq<char>,
    strings: Seq<Seq<char>>,
    statics: Seq<Seq<char>>,
) -> Seq<char> {
    "global _start\n\nbits 64\nsection .text\n\n; program entrypoint\n_start:\n    call main\n\n    ; exit syscall using code passed in rax\n    mov rdi, rax\n    mov rax, 60\n    syscall\n\n; user code\n"@
        + joined(bodies, "\n\n"@) + "\n\n; built-in functions\n"@ + core
        + "\n\n; readonly static data\nsection .rodata\n\n; utf-8 strings\n"@ + joined(
        strings,
        "\n"@,
    ) + "\n\n; zeroed static data\nsection .bss\nalign 4096\n\n; definitions\n"@ + joined(
        statics,
        "\n"@,
    ) + "\n"@
}

/// The strings of a module in static memory.
fn write_strings(module: &Module, names: &Interner) -> (r: Vec<String>)
    requires
        module_named(names@, *module),
    ensures
        texts(r@) == string_lines(names@, module.static_strings@),
{
    let ids = sorted_keys(&module.static_strings);
    let ghost all = string_lines(names@, module.static_strings@);
    let mut out: Vec<String> = Vec::new();
    let mut i: usize = 0;
    assert(texts(out@) =~= all.take(0));
    while i < ids.len()
        invariant
            0 <= i <= ids@.len(),
            ids@ == ascending(module.static_strings@.dom()),
            crate::collections::lists(ids@, module.static_strings@.dom()),
            module_named(names@, *module),
            all == string_lines(names@, module.static_strings@),
            texts(out@) == all.take(i as int),
        decreases ids@.len() - i,
    {
        assert(ids@.contains(ids@[i as int]));
        match module.static_strings.get(&ids[i]) {
            Some(symbol) => {
                assert(*symbol == module.static_strings@[ids@[i as int]]);
                let mut text = "__$static_alloc_".to_owned();
                push_decimal(&mut text, ids[i] as u64);
                text.append(": db ");
                text.append(format_nasm_string(names.value(*symbol)).as_str());
                proof {
                    lemma_texts_push(out@, text);
                    assert(all.take(i + 1) =~= all.take(i as int).push(all[i as int]));
                }
                out.push(text);
            }
            None => vstd::pervasive::unreached(),
        }
        i = i + 1;
    }
    assert(all.take(i as int) =~= all);
    out
}

/// Room for the static variables of a module.
fn write_statics(module: &Module, names: &Interner) -> (r: Vec<String>)
    requires
        module_named(names@, *module),
    ensures
        texts(r@) == static_lines(names@, module.static_definitions@),
{
    let ids = sorted_keys(&module.static_definitions);
    let ghost all = static_lines(names@, module.static_definitions@);
    let mut out: Vec<String> = Vec::new();
    let mut i: usize = 0;
    assert(texts(out@) =~= all.take(0));
    while i < ids.len()
        invariant
            0 <= i <= ids@.len(),
            ids@ == ascending(module.static_definitions@.dom()),
            crate::collections::lists(ids@, module.static_definitions@.dom()),
            module_named(names@, *module),
            all == static_lines(names@, module.static_definitions@),
            texts(out@) == all.take(i as int),
        decreases ids@.len() - i,
    {
        assert(ids@.contains(ids@[i as int]));
        match module.static_definitions.get(&ids[i]) {
            Some(definition) => {
                assert(*definition == module.static_definitions@[ids@[i as int]]);
                let mut text = "alignb ".to_owned();
                push_decimal(
                    &mut text,
                    if definition.layout.alignment > 8 {
                        definition.layout.alignment as u64
                    } else {
                        8
                    },
                );
                text.append("\n");
                text.append(names.value(definition.symbol_name));
                text.append(": resb ");
                push_decimal(&mut text, definition.layout.size as u64);
                proof {
                    lemma_texts_push(out@, text);
                    assert(all.take(i + 1) =~= all.take(i as int).push(all[i as int]));
                }
                out.push(text);
            }
            None => vstd::pervasive::unreached(),
        }
        i = i + 1;
    }
    assert(all.take(i as int) =~= all);
    out
}

/// The assembly of the functions of a module.
fn write_functions(module: &Module, options: &CodegenOptions, names: &Interner) -> (r: Vec<String>)
    requires
        module_codes(names@, *module, options.emit_debug_info),
    ensures
        are_bodies(texts(r@), names@, *module, options.emit_debug_info),
{
    let ids = sorted_keys(&module.function_definitions);
    let ghost debug = options.emit_debug_info;
    let mut out: Vec<String> = Vec::new();
    let mut i: usize = 0;
    while i < ids.len()
        invariant
            0 <= i <= ids@.len(),
            ids@ == ascending(module.function_definitions@.dom()),
            crate::collections::lists(ids@, module.function_definitions@.dom()),
            debug == options.emit_debug_info,
            module_codes(names@, *module, debug),
            texts(out@).len() == i,
            forall|k: int|
                0 <= k < i ==> is_assembly(
                    #[trigger] texts(out@)[k],
                    module_function(names@, *module, debug, k),
                ),
        decreases ids@.len() - i,
    {
        assert(ids@.contains(ids@[i as int]));
        match module.function_definitions.get(&ids[i]) {
            Some(function) => {
                assert(*function == module.function_definitions@[ids@[i as int]]);
                let text = codegen_function(function, options, names);
                proof {
                    lemma_texts_push(out@, text);
                }
                out.push(text);
            }
            None => vstd::pervasive::unreached(),
        }
        i = i + 1;
    }
    out
}

/// Generates code for x86-64 machines with Linux.
pub struct CodeGeneratorX86_64LinuxGnu;

/// A program that is run with arguments.
pub struct Invocation {
    pub program: String,
    pub arguments: Vec<String>,
}

/// Makes a list of texts.
fn owned(list: &[&str]) -> (r: Vec<String>)
    ensures
        texts(r@) == Seq::new(list@.len(), |i: int| list@[i]@),
{
    let mut out: Vec<String> = Vec::new();
    let mut i: usize = 0;
    while i < list.len()
        invariant
            0 <= i <= list@.len(),
            texts(out@) == Seq::new(i as nat, |i: int| list@[i]@),
        decreases list@.len() - i,
    {
        let text = list[i].to_owned();
        proof {
            lemma_texts_push(out@, text);
        }
        out.push(text);
        i = i + 1;
        assert(texts(out@) =~= Seq::new(i as nat, |i: int| list@[i]@));
    }
    out
}

impl CodeGeneratorX86_64LinuxGnu {
    /// The assembly of a program, with the functions of the runtime in `core`.
    pub fn translate_to_asm(
        &self,
        module: &Module,
        options: &CodegenOptions,
        names: &Interner,
        core: &str,
    ) -> (r: String)
        requires
            module_named(names@, *module),
            module_codes(names@, *module, options.emit_debug_info),
        ensures
            exists|bodies: Seq<Seq<char>>| #[trigger]
                are_bodies(bodies, names@, *module, options.emit_debug_info) && r@ == program_text(
                    bodies,
                    core@,
                    string_lines(names@, module.static_strings@),
                    static_lines(names@, module.static_definitions@),
                ),
    {
        let functions = write_functions(module, options, names);
        let strings = write_strings(module, names);
        let statics = write_statics(module, names);
        let mut out =
            "global _start\n\nbits 64\nsection .text\n\n; program entrypoint\n_start:\n    call main\n\n    ; exit syscall using code passed in rax\n    mov rdi, rax\n    mov rax, 60\n    syscall\n\n; user code\n".to_owned();
        out.append(join(&functions, "\n\n").as_str());
        out.append("\n\n; built-in functions\n");
        out.append(core);
        out.append("\n\n; readonly static data\nsection .rodata\n\n; utf-8 strings\n");
        out.append(join(&strings, "\n").as_str());
        out.append("\n\n; zeroed static data\nsection .bss\nalign 4096\n\n; definitions\n");
        out.append(join(&statics, "\n").as_str());
        out.append("\n");
        assert(are_bodies(texts(functions@), names@, *module, options.emit_debug_info));
        out
    }

    /// How the assembler is run.
    pub fn create_assembler_command(&self, input_file: &str, output_file: &str) -> (r: Invocation)
        ensures
            r.program@ == "nasm"@,
            texts(r.arguments@) == seq![
                "-f"@,
                "elf64"@,
                "-g"@,
                "-o"@,
                output_file@,
                input_file@,
            ],
    {
        let arguments = owned(&["-f", "elf64", "-g", "-o", output_file, input_file]);
        assert(texts(arguments@) =~= seq![
            "-f"@,
            "elf64"@,
            "-g"@,
            "-o"@,
            output_file@,
            input_file@,
        ]);
        Invocation { program: "nasm".to_owned(), arguments }
    }

    /// How the linker is run.
    pub fn create_linker_command(&self, input_file: &str, output_file: &str) -> (r: Invocation)
        ensures
            r.program@ == "ld.lld"@,
            texts(r.arguments@) == seq![
                "--nostdlib"@,
                "-x"@,
                "-g"@,
                "-e"@,
                "_start"@,
                "-o"@,
                output_file@,
                input_file@,
            ],
    {
        let arguments = owned(
            &["--nostdlib", "-x", "-g", "-e", "_start", "-o", output_file, input_file],
        );
        assert(texts(arguments@) =~= seq![
            "--nostdlib"@,
            "-x"@,
            "-g"@,
            "-e"@,
            "_start"@,
            "-o"@,
            output_file@,
            input_file@,
        ]);
        Invocation { program: "ld.lld".to_owned(), arguments }
    }
}

/// The functions of a module whose remarks print have one assembly each.
pub proof fn law_printing_program(
    bodies: Seq<Seq<char>>,
    names: Seq<Seq<char>>,
    module: Module,
    debug: bool,
)
    requires
        are_bodies(bodies, names, module, debug),
        forall|i: int|
            0 <= i < bodies.len() ==> lines_print(
                #[trigger] module_function(names, module, debug, i),
            ),
    ensures
        bodies == Seq::new(
            bodies.len(),
            |i: int| assembly(module_function(names, module, debug, i)),
        ),
{
    let exact = Seq::new(
        bodies.len(),
        |i: int| assembly(module_function(names, module, debug, i)),
    );
    assert forall|i: int| 0 <= i < bodies.len() implies bodies[i] == exact[i] by {
        let lines = module_function(names, module, debug, i);
        assert(is_assembly(bodies[i], lines));
        law_printing_assembly(bodies[i], lines);
    }
    assert(bodies =~= exact);
}

} // verus!
