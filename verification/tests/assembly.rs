use drip::backend::assemblers::x86_64::{Assembler, X86FullRegister, X86Register};
use drip::backend::targets::nasm::format_nasm_string;
use drip::backend::targets::x86_64_linux_gnu::CodeGeneratorX86_64LinuxGnu;
use drip::frontend::intern::Interner;
use drip::middle::lir::{
    align_to, FloatWidth, FunctionDefinition, Immediate, IntegerWidth, Operand, Register,
    RegisterId, StaticLabelId, Struct, Type,
};
use std::collections::BTreeMap;
use std::rc::Rc;

#[test]
fn registers_have_parts() {
    let r = X86FullRegister::Rax;
    assert_eq!(r.as_64_bit(), X86Register::Rax);
    assert_eq!(r.as_32_bit(), X86Register::Eax);
    assert_eq!(r.as_16_bit(), X86Register::Ax);
    assert_eq!(r.as_8_bit(), X86Register::Al);
    assert_eq!(X86FullRegister::R10.with_size_bytes(4), X86Register::R10d);
    assert_eq!(X86FullRegister::Rsi.with_size_bytes(1), X86Register::Sil);
    assert_eq!(X86FullRegister::Rsp.with_size_bytes(2), X86Register::Sp);
    assert_eq!(X86FullRegister::R8.with_size_bytes(8), X86Register::R8);
}

#[test]
fn registers_have_names() {
    assert_eq!(X86FullRegister::Rdi.name(), "rdi");
    assert_eq!(X86FullRegister::R15.name(), "r15");
    assert_eq!(X86Register::R9w.name(), "r9w");
    assert_eq!(X86Register::Bpl.name(), "bpl");
    assert_eq!(X86Register::Ch.name(), "ch");
    assert_eq!(X86Register::Dl.name(), "dl");
}

#[test]
fn strings_are_split_at_breaks() {
    assert_eq!(format_nasm_string(""), "");
    assert_eq!(format_nasm_string("abc"), "\"abc\"");
    assert_eq!(format_nasm_string("a\nb\r\0"), "\"a\", 0xA, \"b\", 0xD, 0x0");
    assert_eq!(format_nasm_string("\n\n"), "0xA, 0xA");
}

fn function(types: Vec<Type>) -> FunctionDefinition {
    let mut names = Interner::new();
    let mut registers = BTreeMap::new();
    for (i, ty) in types.into_iter().enumerate() {
        registers.insert(i as u32, Register { id: RegisterId(i as u32), ty });
    }
    FunctionDefinition {
        symbol_name: names.intern("f"),
        registers,
        struct_return: None,
        arguments: vec![],
        blocks: BTreeMap::new(),
    }
}

#[test]
fn operands_are_loaded_by_size() {
    let f = function(vec![Type::Integer(IntegerWidth::I16), Type::Pointer]);
    let offsets: BTreeMap<u32, usize> = BTreeMap::from([(0, 2), (1, 16)]);
    let mut names = Interner::new();
    let label = names.intern("spot");
    let mut a = Assembler::new(&f, &offsets, &names);
    let r = a.load_operand(
        X86FullRegister::Rcx,
        Operand::Immediate(Immediate::Int(7, IntegerWidth::I64)),
    );
    assert_eq!(r, X86Register::Rcx);
    a.load_operand(X86FullRegister::Rax, Operand::Immediate(Immediate::Bool(true)));
    a.load_operand(
        X86FullRegister::Rax,
        Operand::Immediate(Immediate::AnonymousStaticLabel(StaticLabelId(3))),
    );
    a.load_operand(X86FullRegister::Rax, Operand::Immediate(Immediate::NamedStaticLabel(label)));
    let r = a.load_operand(X86FullRegister::Rdx, Operand::Register(RegisterId(0)));
    assert_eq!(r, X86Register::Dx);
    a.load_operand(X86FullRegister::Rdx, Operand::Register(RegisterId(1)));
    a.store_operand(RegisterId(0), X86FullRegister::Rax);
    a.load_register_address(X86FullRegister::Rax, RegisterId(1));
    assert_eq!(
        a.into_output(),
        "    mov rcx, 7\n    xor rax, rax\n    mov al, 1\n    mov rax, __$static_alloc_3\n    mov rax, spot\n    xor rdx, rdx\n    mov dx, [rbp - 2]\n    mov rdx, [rbp - 16]\n    mov [rbp - 2], ax\n    lea rax, [rbp - 16]\n"
    );
}

#[test]
fn labels_and_frames() {
    let f = function(vec![]);
    let offsets = BTreeMap::new();
    let names = Interner::new();
    let mut a = Assembler::new(&f, &offsets, &names);
    a.global_label("f");
    a.function_prologue(24);
    a.label(".label_0");
    a.comment("note");
    a.emit("nop");
    a.function_epilogue();
    assert_eq!(
        a.into_output(),
        "global f\nf:\n    push rbp\n    mov rbp, rsp\n    sub rsp, 24\n.label_0:\n    ; note\n    nop\n.exit:\n    mov rsp, rbp\n    pop rbp\n    ret\n"
    );
}

#[test]
fn tools_are_run_with_arguments() {
    let nasm = CodeGeneratorX86_64LinuxGnu.create_assembler_command("a.S", "a.o");
    assert_eq!(nasm.program, "nasm");
    assert_eq!(nasm.arguments, vec!["-f", "elf64", "-g", "-o", "a.o", "a.S"]);
    let ld = CodeGeneratorX86_64LinuxGnu.create_linker_command("a.o", "a.out");
    assert_eq!(ld.program, "ld.lld");
    assert_eq!(
        ld.arguments,
        vec!["--nostdlib", "-x", "-g", "-e", "_start", "-o", "a.out", "a.o"]
    );
}

#[test]
fn offsets_are_aligned() {
    assert_eq!(align_to(0, 8), 0);
    assert_eq!(align_to(1, 8), 8);
    assert_eq!(align_to(8, 8), 8);
    assert_eq!(align_to(9, 4), 12);
}

#[test]
fn structures_are_laid_out() {
    let s = Struct(Rc::new(vec![
        Type::Integer(IntegerWidth::I8),
        Type::Integer(IntegerWidth::I32),
        Type::Integer(IntegerWidth::I16),
    ]));
    assert_eq!(s.layout().size, 12);
    assert_eq!(s.layout().alignment, 4);
    assert_eq!(s.offset_of(0), 0);
    assert_eq!(s.offset_of(1), 1);
    assert_eq!(s.offset_of(2), 8);
    assert_eq!(s.layout_of(1).size, 4);
    assert_eq!(Struct::slice().layout().size, 16);
    assert_eq!(Struct::slice().num_integer_fields(), 2);
    assert_eq!(Struct::slice().num_non_integer_fields(), 0);
}

#[test]
fn types_are_laid_out() {
    let array = Type::Array(Rc::new(Type::Integer(IntegerWidth::I32)), 5);
    assert_eq!(array.layout().size, 20);
    assert_eq!(array.layout().alignment, 4);
    assert!(array.is_aggregate());
    assert!(Type::Pointer.is_scalar());
    assert_eq!(Type::Float(FloatWidth::F32).layout().size, 4);
    assert_eq!(Type::Float(FloatWidth::F32).layout().alignment, 4);
    assert_eq!(Type::Float(FloatWidth::F64).layout().size, 8);
    assert_eq!(Type::Float(FloatWidth::F64).layout().alignment, 8);
    let pair = Struct(Rc::new(vec![
        Type::Float(FloatWidth::F64),
        Type::Integer(IntegerWidth::I8),
    ]));
    assert_eq!(pair.offset_of(1), 8);
    assert_eq!(pair.layout().size, 16);
    assert_eq!(array.display(), "[i32; 5]");
    assert_eq!(Struct::slice().display(), "{ ptr, i64 }");
}

#[test]
fn operands_have_types() {
    let f = function(vec![Type::Integer(IntegerWidth::I16)]);
    assert_eq!(f.type_of_operand(Operand::Register(RegisterId(0))).display(), "i16");
    assert_eq!(
        f.type_of_operand(Operand::Immediate(Immediate::Bool(true))).display(),
        "i8"
    );
    assert_eq!(
        f.type_of_operand(Operand::Immediate(Immediate::AnonymousStaticLabel(StaticLabelId(0))))
            .display(),
        "ptr"
    );
}
