use drip::backend::ssa_destruction::destruct_ssa;
use drip::backend::targets::x86_64_linux_gnu::codegen_function;
use drip::backend::CodegenOptions;
use drip::frontend::intern::Interner;
use drip::frontend::lexer::{Lexer, Span, TokenKind};
use drip::frontend::{SourceFile, SourceFileOrigin};
use drip::middle::lir::pretty_print::pretty_print_lir;
use drip::middle::lir::{
    Block, BlockId, FunctionDefinition, Immediate, Instruction, IntegerWidth, Operand, Register,
    RegisterId, Type,
};
use drip::middle::optimization::pre_ssa::perform_pre_ssa_optimizations;
use drip::style::{render, Styled};
use std::collections::{BTreeMap, BTreeSet};

fn plain(parts: &Vec<Styled>) -> String {
    let mut out = String::new();
    for part in parts {
        match part {
            Styled::Text(text) => out.push_str(text),
            Styled::Paint(_, inner) => out.push_str(&plain(inner)),
        }
    }
    out
}

fn number(n: u64) -> Operand {
    Operand::Immediate(Immediate::Int(n, IntegerWidth::I32))
}

fn block(id: u32, predecessors: &[u32], instructions: Vec<Instruction>) -> (u32, Block) {
    (
        id,
        Block {
            id: BlockId(id),
            instructions,
            predecessors: predecessors.iter().copied().collect::<BTreeSet<u32>>(),
        },
    )
}

fn function(names: &mut Interner, types: Vec<Type>, blocks: Vec<(u32, Block)>) -> FunctionDefinition {
    let mut registers = BTreeMap::new();
    for (i, ty) in types.into_iter().enumerate() {
        registers.insert(i as u32, Register { id: RegisterId(i as u32), ty });
    }
    FunctionDefinition {
        symbol_name: names.intern("f"),
        registers,
        struct_return: None,
        arguments: vec![],
        blocks: blocks.into_iter().collect(),
    }
}

fn successors(block: &Block) -> Vec<u32> {
    match block.instructions.last() {
        Some(Instruction::Jump { destination }) => vec![destination.0],
        Some(Instruction::Branch { positive, negative, .. }) => vec![positive.0, negative.0],
        _ => vec![],
    }
}

#[test]
fn code_behind_a_return_is_dropped() {
    let mut names = Interner::new();
    let mut f = function(
        &mut names,
        vec![],
        vec![block(
            0,
            &[],
            vec![
                Instruction::Return { value: Some(number(1)) },
                Instruction::Return { value: Some(number(2)) },
            ],
        )],
    );
    perform_pre_ssa_optimizations(&mut f);
    assert_eq!(plain(&pretty_print_lir(&f, &names)), "fn f() {\n.label_0:\n    ret 1\n}\n");
}

#[test]
fn unreachable_blocks_are_dropped() {
    let mut names = Interner::new();
    let mut f = function(
        &mut names,
        vec![],
        vec![
            block(0, &[], vec![Instruction::Return { value: None }]),
            block(1, &[], vec![Instruction::Return { value: None }]),
        ],
    );
    perform_pre_ssa_optimizations(&mut f);
    assert!(f.blocks.contains_key(&0));
    assert!(!f.blocks.contains_key(&1));
}

/// Block 1 loses its only predecessor when the branch of a later block is
/// decided.
#[test]
fn blocks_orphaned_by_later_ones_are_dropped() {
    let mut names = Interner::new();
    let mut f = function(
        &mut names,
        vec![],
        vec![
            block(
                0,
                &[],
                vec![
                    Instruction::Comment("start".to_string()),
                    Instruction::Jump { destination: BlockId(2) },
                ],
            ),
            block(1, &[2], vec![Instruction::Return { value: Some(number(1)) }]),
            block(
                2,
                &[0],
                vec![Instruction::Branch {
                    condition: Operand::Immediate(Immediate::Bool(false)),
                    positive: BlockId(1),
                    negative: BlockId(3),
                }],
            ),
            block(3, &[2], vec![Instruction::Return { value: Some(number(3)) }]),
        ],
    );
    perform_pre_ssa_optimizations(&mut f);
    assert_eq!(
        plain(&pretty_print_lir(&f, &names)),
        "fn f() {\n.label_0:\n    ; start\n    ret 3\n}\n"
    );
}

/// Dropping block 4 leaves block 1 without a predecessor.
#[test]
fn chains_of_dead_blocks_are_dropped() {
    let mut names = Interner::new();
    let mut f = function(
        &mut names,
        vec![],
        vec![
            block(0, &[], vec![Instruction::Return { value: None }]),
            block(1, &[4], vec![Instruction::Return { value: None }]),
            block(4, &[], vec![Instruction::Jump { destination: BlockId(1) }]),
        ],
    );
    perform_pre_ssa_optimizations(&mut f);
    assert_eq!(f.blocks.keys().copied().collect::<Vec<u32>>(), vec![0]);
}

#[test]
fn chains_of_blocks_are_joined() {
    let mut names = Interner::new();
    let mut f = function(
        &mut names,
        vec![],
        vec![
            block(
                0,
                &[],
                vec![
                    Instruction::Comment("note".to_string()),
                    Instruction::Jump { destination: BlockId(1) },
                ],
            ),
            block(1, &[0], vec![Instruction::Return { value: Some(number(7)) }]),
        ],
    );
    perform_pre_ssa_optimizations(&mut f);
    assert_eq!(
        plain(&pretty_print_lir(&f, &names)),
        "fn f() {\n.label_0:\n    ; note\n    ret 7\n}\n"
    );
}

#[test]
fn blocks_that_only_jump_are_threaded() {
    let mut names = Interner::new();
    let mut f = function(
        &mut names,
        vec![],
        vec![
            block(0, &[], vec![Instruction::Jump { destination: BlockId(1) }]),
            block(1, &[0], vec![Instruction::Return { value: Some(number(7)) }]),
        ],
    );
    perform_pre_ssa_optimizations(&mut f);
    assert_eq!(plain(&pretty_print_lir(&f, &names)), "fn f() {\n.label_1:\n    ret 7\n}\n");
}

#[test]
fn threading_keeps_the_graph() {
    let mut names = Interner::new();
    let note = || Instruction::Comment("note".to_string());
    let mut f = function(
        &mut names,
        vec![Type::Integer(IntegerWidth::I8)],
        vec![
            block(
                0,
                &[],
                vec![
                    note(),
                    Instruction::Branch {
                        condition: Operand::Register(RegisterId(0)),
                        positive: BlockId(1),
                        negative: BlockId(2),
                    },
                ],
            ),
            block(1, &[0], vec![Instruction::Jump { destination: BlockId(3) }]),
            block(2, &[0], vec![note(), Instruction::Return { value: None }]),
            block(3, &[1], vec![note(), Instruction::Return { value: None }]),
        ],
    );
    perform_pre_ssa_optimizations(&mut f);
    assert!(!f.blocks.contains_key(&1));
    assert_eq!(successors(&f.blocks[&0]), vec![3, 2]);
    assert_eq!(f.blocks[&3].predecessors.iter().copied().collect::<Vec<u32>>(), vec![0]);
}

#[test]
fn decided_branches_become_jumps() {
    let mut names = Interner::new();
    let mut f = function(
        &mut names,
        vec![],
        vec![
            block(
                0,
                &[],
                vec![Instruction::Branch {
                    condition: Operand::Immediate(Immediate::Bool(false)),
                    positive: BlockId(1),
                    negative: BlockId(2),
                }],
            ),
            block(1, &[0], vec![Instruction::Return { value: Some(number(1)) }]),
            block(2, &[0], vec![Instruction::Return { value: Some(number(2)) }]),
        ],
    );
    perform_pre_ssa_optimizations(&mut f);
    assert_eq!(plain(&pretty_print_lir(&f, &names)), "fn f() {\n.label_2:\n    ret 2\n}\n");
}

fn diamond(names: &mut Interner) -> FunctionDefinition {
    function(
        names,
        vec![Type::Integer(IntegerWidth::I8), Type::Integer(IntegerWidth::I32)],
        vec![
            block(
                0,
                &[],
                vec![Instruction::Branch {
                    condition: Operand::Register(RegisterId(0)),
                    positive: BlockId(1),
                    negative: BlockId(2),
                }],
            ),
            block(1, &[0], vec![Instruction::Jump { destination: BlockId(2) }]),
            block(
                2,
                &[0, 1],
                vec![
                    Instruction::Phi {
                        destination: RegisterId(1),
                        sources: BTreeMap::from([(0, number(5)), (1, number(6))]),
                    },
                    Instruction::Return { value: Some(Operand::Register(RegisterId(1))) },
                ],
            ),
        ],
    )
}

#[test]
fn phis_become_copies_and_edges_are_split() {
    let mut names = Interner::new();
    let mut f = diamond(&mut names);
    destruct_ssa(&mut f);
    let mut copies = 0;
    for block in f.blocks.values() {
        for instruction in &block.instructions {
            assert!(!matches!(instruction, Instruction::Phi { .. }));
            if matches!(instruction, Instruction::Copy { .. }) {
                copies += 1;
            }
        }
    }
    assert!(copies >= 2);
    for block in f.blocks.values() {
        let next = successors(block);
        if next.len() > 1 {
            for id in next {
                assert_eq!(f.blocks[&id].predecessors.len(), 1);
            }
        }
    }
}

/// Two phis that swap their registers whenever the loop is gone through.
#[test]
fn phis_that_swap_read_before_they_write() {
    let mut names = Interner::new();
    let i32_type = || Type::Integer(IntegerWidth::I32);
    let mut f = function(
        &mut names,
        vec![i32_type(), i32_type(), Type::Integer(IntegerWidth::I8)],
        vec![
            block(0, &[], vec![Instruction::Jump { destination: BlockId(1) }]),
            block(
                1,
                &[0, 1],
                vec![
                    Instruction::Phi {
                        destination: RegisterId(0),
                        sources: BTreeMap::from([
                            (0, number(1)),
                            (1, Operand::Register(RegisterId(1))),
                        ]),
                    },
                    Instruction::Phi {
                        destination: RegisterId(1),
                        sources: BTreeMap::from([
                            (0, number(2)),
                            (1, Operand::Register(RegisterId(0))),
                        ]),
                    },
                    Instruction::Branch {
                        condition: Operand::Register(RegisterId(2)),
                        positive: BlockId(1),
                        negative: BlockId(2),
                    },
                ],
            ),
            block(2, &[1], vec![Instruction::Return { value: None }]),
        ],
    );
    destruct_ssa(&mut f);
    assert_eq!(
        plain(&pretty_print_lir(&f, &names)),
        "fn f() {\n.label_0:\n    %0 = copy 1\n    %1 = copy 2\n    jmp .label_1\n.label_1:\n    br %2 .label_3 .label_2\n.label_2:\n    ret\n.label_3:\n    %3 = copy %1\n    %4 = copy %0\n    %0 = copy %3\n    %1 = copy %4\n    jmp .label_1\n}\n"
    );
}

#[test]
fn room_on_the_stack_is_aligned() {
    let mut names = Interner::new();
    let f = function(
        &mut names,
        vec![Type::Pointer, Type::Pointer],
        vec![block(
            0,
            &[],
            vec![
                Instruction::AllocStack {
                    destination: RegisterId(0),
                    ty: Type::Integer(IntegerWidth::I8),
                },
                Instruction::AllocStack {
                    destination: RegisterId(1),
                    ty: Type::Integer(IntegerWidth::I64),
                },
                Instruction::Return { value: None },
            ],
        )],
    );
    let text = codegen_function(&f, &CodegenOptions { emit_debug_info: false }, &names);
    assert!(text.contains("    sub rsp, 1\n    mov [rbp - 8], rsp\n"));
    assert!(text.contains("    sub rsp, 8\n    and rsp, -8\n    mov [rbp - 16], rsp\n"));
}

#[test]
fn remarks_hold_no_colors() {
    colored::control::set_override(true);
    let mut names = Interner::new();
    let f = function(
        &mut names,
        vec![],
        vec![block(0, &[], vec![Instruction::Return { value: Some(number(3)) }])],
    );
    assert!(render(&pretty_print_lir(&f, &names)).contains("\u{1b}[36mret\u{1b}[0m"));
    let text = codegen_function(&f, &CodegenOptions { emit_debug_info: true }, &names);
    assert!(text.contains("    ; ret 3\n"));
    assert!(!text.contains('\u{1b}'));
}

#[test]
fn registers_have_places_apart() {
    let mut names = Interner::new();
    let f = function(
        &mut names,
        vec![
            Type::Integer(IntegerWidth::I8),
            Type::Integer(IntegerWidth::I64),
            Type::Integer(IntegerWidth::I16),
        ],
        vec![block(
            0,
            &[],
            vec![
                Instruction::Copy {
                    destination: RegisterId(0),
                    source: Operand::Immediate(Immediate::Bool(true)),
                },
                Instruction::Copy {
                    destination: RegisterId(1),
                    source: Operand::Immediate(Immediate::Int(9, IntegerWidth::I64)),
                },
                Instruction::Copy {
                    destination: RegisterId(2),
                    source: Operand::Immediate(Immediate::Int(9, IntegerWidth::I16)),
                },
                Instruction::Return { value: None },
            ],
        )],
    );
    let text = codegen_function(&f, &CodegenOptions { emit_debug_info: false }, &names);
    assert!(text.contains("    sub rsp, 18\n"));
    assert!(text.contains("    mov [rbp - 1], al\n"));
    assert!(text.contains("    mov [rbp - 16], rax\n"));
    assert!(text.contains("    mov [rbp - 18], ax\n"));
}

fn file(text: &str) -> SourceFile {
    SourceFile { contents: text.to_string(), origin: SourceFileOrigin::File("a.drip".to_string()) }
}

#[test]
fn positions_are_counted_from_one() {
    let source = file("ab\ncde\n");
    assert_eq!(source.row_for_position(0), 1);
    assert_eq!(source.column_for_position(0), 1);
    assert_eq!(source.row_for_position(4), 2);
    assert_eq!(source.column_for_position(4), 2);
    assert_eq!(source.format_span_position(Span::new(5, 6)), "a.drip:2:3");
    assert_eq!(source.value_of_span(Span::new(3, 6)), "cde");
    assert_eq!(source.as_path(), "a.drip");
}

#[test]
fn spans_are_marked() {
    let source = file("let a = b;\n");
    let (parts, error) = source.highlight_span(Span::new(8, 9));
    assert!(error.is_none());
    let text = plain(&parts);
    let lines: Vec<&str> = text.lines().collect();
    let mark = lines[lines.len() - 2];
    assert_eq!(mark.trim_start(), "^");
    assert_eq!(mark.len() - 1, 13);
    assert_eq!(lines[lines.len() - 1].trim_start(), "here");
    assert!(lines[0].contains("let a = b;"));
}

#[test]
fn tokens_that_do_not_end_are_refused() {
    for (text, message) in [
        ("\"abc", "Reached end of file while reading wrapped literal: StringLiteral"),
        ("'a\n", "Reached end of line while reading wrapped literal: CharLiteral"),
        ("$", "Unexpected character in stream: `$`"),
        ("\u{e9}", "Unexpected non-ascii character in stream: `\u{e9}`"),
    ] {
        let source = file(text);
        let mut lexer = Lexer::new(&source);
        match lexer.next() {
            Err(e) => assert_eq!(e.message(), message),
            Ok(_) => panic!("{text}"),
        }
    }
}

#[test]
fn operators_have_classes() {
    let source = file("+= == << - * !");
    let mut lexer = Lexer::new(&source);
    let mut kinds: Vec<TokenKind> = vec![];
    while let Ok(Some(token)) = lexer.next() {
        kinds.push(token.kind);
    }
    assert!(kinds[0].is_assignment_operator());
    assert!(kinds[1].is_comparison_operator());
    assert!(kinds[2].is_bit_shift_operator());
    assert!(kinds[3].is_term_operator());
    assert!(kinds[4].is_factor_operator());
    assert!(kinds[5].is_unary_operator());
    assert!(!kinds[5].is_term_operator());
}
