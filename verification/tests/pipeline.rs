use drip::backend::ssa_destruction::destruct_ssa;
use drip::backend::targets::x86_64_linux_gnu::{codegen_function, CodeGeneratorX86_64LinuxGnu};
use drip::backend::CodegenOptions;
use drip::frontend::ast::{BinaryOperatorKind, UnaryOperatorKind};
use drip::frontend::intern::{InternedSymbol, Interner};
use drip::frontend::lexer::Span;
use drip::index::IndexVec;
use drip::middle::hir;
use drip::middle::hir::{
    ArrayInitializer, Block, Body, BodyId, Definition, DefinitionKind, Expression, ExpressionKind,
    FunctionParameter, FunctionSignature, HirId, Identifier, Item, ItemKind, ItemLocalId,
    LetStatement, Literal, LiteralIntegerKind, LocalDefId, Module, Node, Owner, ParentedNode, Path,
    PathSegment, Resolution, Statement, StatementKind,
};
use drip::middle::lir;
use drip::middle::lir::hir_lowering::{lower_to_lir, lower_with_options, LoweringOptions};
use drip::middle::lir::pretty_print::pretty_print_lir;
use drip::middle::lir::{FunctionDefinition, Instruction};
use drip::middle::optimization::pre_ssa::perform_pre_ssa_optimizations;
use drip::middle::optimization::OptimizationLevel;
use drip::middle::primitive::{IntKind, PrimitiveKind};
use drip::middle::type_check::error::TypeErrorKind;
use drip::middle::type_check::{type_check_module, Complaint, ModuleTypeCheckResults};
use drip::style::Styled;
use std::collections::BTreeMap;
use std::rc::Rc;

fn plain(parts: &Vec<Styled>) -> String {
    let mut out = String::new();
    for part in parts {
        match part {
            Styled::Text(text) => out.push_str(text),
            Styled::Paint(_, inner) => out.push_str(&plain(inner)),
        }
    }
    out
}

/// Builds the nodes of one function.
struct Builder {
    names: Interner,
    next: u32,
    owner: u32,
}

impl Builder {
    fn new() -> Builder {
        Builder { names: Interner::new(), next: 1, owner: 0 }
    }

    fn id(&mut self) -> HirId {
        let id = HirId { owner: LocalDefId(self.owner), local_id: ItemLocalId(self.next) };
        self.next += 1;
        id
    }

    fn name(&mut self, text: &str) -> Identifier {
        Identifier { symbol: self.names.intern(text), span: Span::new(0, 1) }
    }

    fn path(&mut self, text: &str, resolution: Resolution<ItemLocalId>) -> Path {
        let hir_id = self.id();
        let identifier = self.name(text);
        Path {
            segments: vec![Rc::new(PathSegment {
                hir_id,
                identifier,
                resolution,
                span: Span::new(0, 1),
            })],
            span: Span::new(0, 1),
        }
    }

    fn ty(&mut self, kind: PrimitiveKind) -> Rc<hir::Type> {
        let hir_id = self.id();
        let path = self.path(kind.name(), Resolution::Primitive(kind));
        Rc::new(hir::Type { hir_id, kind: hir::TypeKind::Path(path), span: Span::new(0, 1) })
    }

    fn expr(&mut self, kind: ExpressionKind) -> Rc<Expression> {
        let hir_id = self.id();
        Rc::new(Expression { hir_id, kind, span: Span::new(0, 1) })
    }

    fn number(&mut self, value: u64) -> Rc<Expression> {
        self.expr(ExpressionKind::Literal(Literal::Integer(
            value,
            LiteralIntegerKind::Unsuffixed,
        )))
    }

    fn text(&mut self, value: &str) -> Rc<Expression> {
        let symbol = self.names.intern(value);
        self.expr(ExpressionKind::Literal(Literal::String(symbol)))
    }

    fn local(&mut self, text: &str, id: HirId) -> Rc<Expression> {
        let path = self.path(text, Resolution::Local(id.local_id));
        self.expr(ExpressionKind::Path(path))
    }

    fn binary(
        &mut self,
        lhs: Rc<Expression>,
        operator: BinaryOperatorKind,
        rhs: Rc<Expression>,
    ) -> Rc<Expression> {
        self.expr(ExpressionKind::Binary { lhs, operator, rhs })
    }

    fn block(
        &mut self,
        statements: Vec<Rc<Statement>>,
        expression: Option<Rc<Expression>>,
    ) -> Rc<Block> {
        let hir_id = self.id();
        Rc::new(Block { hir_id, statements, expression, is_const: false, span: Span::new(0, 1) })
    }

    fn binding(
        &mut self,
        text: &str,
        ty: Option<Rc<hir::Type>>,
        initializer: Option<Rc<Expression>>,
    ) -> (HirId, Rc<Statement>) {
        self.variable(text, true, ty, initializer)
    }

    fn variable(
        &mut self,
        text: &str,
        is_mutable: bool,
        ty: Option<Rc<hir::Type>>,
        initializer: Option<Rc<Expression>>,
    ) -> (HirId, Rc<Statement>) {
        let hir_id = self.id();
        let name = self.name(text);
        let binding = Rc::new(LetStatement {
            hir_id,
            is_mutable,
            name,
            ty,
            initializer,
            span: Span::new(0, 1),
        });
        let outer = self.id();
        (
            hir_id,
            Rc::new(Statement {
                hir_id: outer,
                kind: StatementKind::Let(binding),
                span: Span::new(0, 1),
            }),
        )
    }

    fn semi(&mut self, e: Rc<Expression>) -> Rc<Statement> {
        let hir_id = self.id();
        Rc::new(Statement { hir_id, kind: StatementKind::SemiExpression(e), span: Span::new(0, 1) })
    }

    fn intrinsic(&mut self, name: &str, arguments: Vec<Rc<Expression>>) -> Rc<Expression> {
        let symbol = self.names.intern(name);
        let path = self.path(name, Resolution::IntrinsicFunction(symbol));
        let target = self.expr(ExpressionKind::Path(path));
        self.expr(ExpressionKind::FunctionCall { target, arguments })
    }

    fn parameter(&mut self, text: &str) -> Rc<FunctionParameter> {
        let hir_id = self.id();
        let name = self.name(text);
        Rc::new(FunctionParameter {
            hir_id,
            is_mutable: false,
            name,
            ty_span: Span::new(0, 1),
            span: Span::new(0, 1),
        })
    }

    fn function(
        &mut self,
        text: &str,
        params: Vec<(Rc<FunctionParameter>, Rc<hir::Type>)>,
        return_type: Option<Rc<hir::Type>>,
        block: Rc<Block>,
    ) -> Owner {
        let owner_id = LocalDefId(self.owner);
        let name = self.path(
            text,
            Resolution::Definition(DefinitionKind::Function, owner_id),
        );
        let body = BodyId { hir_id: block.hir_id };
        let mut parameters = vec![];
        let mut list = vec![];
        for (param, ty) in params {
            list.push(param);
            parameters.push(ty);
        }
        let item = Rc::new(Item {
            owner_id,
            kind: ItemKind::Function {
                name,
                signature: FunctionSignature {
                    self_parameter: None,
                    parameters,
                    variadic_type: None,
                    return_type,
                    span: Span::new(0, 1),
                },
                body,
            },
            span: Span::new(0, 1),
        });
        let owner = Owner {
            nodes: IndexVec::from_raw(vec![ParentedNode {
                parent: ItemLocalId(0),
                node: Node::Item(item),
            }]),
            parenting: BTreeMap::new(),
            body: Some(Rc::new(Body { params: list, block })),
        };
        self.owner += 1;
        self.next = 1;
        owner
    }
}

fn module(owners: Vec<Owner>) -> Module {
    let mut definitions = BTreeMap::new();
    for i in 0..owners.len() {
        definitions.insert(i as u32, Definition::Owner);
    }
    Module { owners: IndexVec::from_raw(owners), definitions }
}

fn checked(module: &Module, names: &Interner) -> ModuleTypeCheckResults {
    match type_check_module(module, names) {
        Ok(types) => types,
        Err(complaints) => {
            let said: Vec<String> = complaints
                .iter()
                .map(|c| match c {
                    Complaint::Error(e) => plain(&e.message(names)),
                    Complaint::UnknownType(id) => format!("unknown {}", id.0),
                })
                .collect();
            panic!("{said:?}")
        }
    }
}

fn complaints(module: &Module, names: &Interner) -> Vec<String> {
    match type_check_module(module, names) {
        Ok(_) => vec![],
        Err(complaints) => complaints
            .iter()
            .map(|c| match c {
                Complaint::Error(e) => plain(&e.message(names)),
                Complaint::UnknownType(id) => format!("unknown {}", id.0),
            })
            .collect(),
    }
}

fn lowered(module: &Module, names: &mut Interner) -> lir::Module {
    let types = checked(module, names);
    lower_to_lir(module, &types, names)
}

fn listing(function: &FunctionDefinition, names: &Interner) -> String {
    plain(&pretty_print_lir(function, names))
}

/// `fn main() { let x = 1; }`
fn bind_one(b: &mut Builder) -> Module {
    let one = b.number(1);
    let (_, statement) = b.binding("x", None, Some(one));
    let block = b.block(vec![statement], None);
    let owner = b.function("main", vec![], None, block);
    module(vec![owner])
}

/// `fn pick(a: i32) -> i32 { if a < 2 { 10 } else { 20 } }`
fn pick(b: &mut Builder) -> Module {
    let i32_kind = PrimitiveKind::Int(IntKind::I32);
    let a = b.parameter("a");
    let a_ty = b.ty(i32_kind);
    let returned = b.ty(i32_kind);
    let lhs = b.local("a", a.hir_id);
    let two = b.number(2);
    let condition = b.binary(lhs, BinaryOperatorKind::LessThan, two);
    let ten = b.number(10);
    let positive = b.block(vec![], Some(ten));
    let twenty = b.number(20);
    let other = b.block(vec![], Some(twenty));
    let negative = b.expr(ExpressionKind::Block(other));
    let choice = b.expr(ExpressionKind::If { condition, positive, negative: Some(negative) });
    let block = b.block(vec![], Some(choice));
    let owner = b.function("pick", vec![(a, a_ty)], Some(returned), block);
    module(vec![owner])
}

#[test]
fn main_returns_zero() {
    let mut b = Builder::new();
    let m = bind_one(&mut b);
    let code = lowered(&m, &mut b.names);
    assert_eq!(
        listing(&code.function_definitions[&0], &b.names),
        "fn main() {\n.label_0:\n    ; let x = ...\n    %0 = alloc i32\n    store %0 <- 1\n    ret 0\n}\n"
    );
    assert!(code.static_strings.is_empty());
    assert!(code.static_c_strings.is_empty());
    assert!(code.static_definitions.is_empty());
}

#[test]
fn main_in_assembly() {
    let mut b = Builder::new();
    let m = bind_one(&mut b);
    let code = lowered(&m, &mut b.names);
    let text = codegen_function(
        &code.function_definitions[&0],
        &CodegenOptions { emit_debug_info: true },
        &b.names,
    );
    assert_eq!(
        text,
        "global main\nmain:\n    push rbp\n    mov rbp, rsp\n    sub rsp, 8\n.label_0:\n    ; ; let x = ...\n    ; let x = ...\n    ; %0 = alloc i32\n    sub rsp, 4\n    and rsp, -4\n    mov [rbp - 8], rsp\n    ; store %0 <- 1\n    xor rax, rax\n    mov eax, 1\n    mov rcx, [rbp - 8]\n    mov [rcx], eax\n    ; ret 0\n    xor rax, rax\n    mov al, 0\n    jmp .exit\n.exit:\n    mov rsp, rbp\n    pop rbp\n    ret\n"
    );
}

#[test]
fn remarks_are_left_out_without_debug_info() {
    let mut b = Builder::new();
    let m = bind_one(&mut b);
    let code = lowered(&m, &mut b.names);
    let text = codegen_function(
        &code.function_definitions[&0],
        &CodegenOptions { emit_debug_info: false },
        &b.names,
    );
    assert!(text.contains("\n    ; ; let x = ...\n    ; %0 = alloc i32\n"));
}

#[test]
fn conditional_selects_by_branch() {
    let mut b = Builder::new();
    let m = pick(&mut b);
    let code = lowered(&m, &mut b.names);
    assert_eq!(
        listing(&code.function_definitions[&0], &b.names),
        "fn pick(%0) {\n.label_0:\n    %1 = %0 < 2\n    br %1 .label_1 .label_2\n.label_1:\n    jmp .label_3\n.label_2:\n    jmp .label_3\n.label_3:\n    %2 = phi(.label_1 -> 10, .label_2 -> 20)\n    ret %2\n}\n"
    );
}

#[test]
fn blocks_and_registers_are_found_by_number() {
    let mut b = Builder::new();
    let m = pick(&mut b);
    let code = lowered(&m, &mut b.names);
    let function = &code.function_definitions[&0];
    for (id, block) in &function.blocks {
        assert_eq!(block.id.0, *id);
    }
    for (id, register) in &function.registers {
        assert_eq!(register.id.0, *id);
    }
    assert_eq!(function.blocks[&3].predecessors.iter().copied().collect::<Vec<u32>>(), vec![1, 2]);
}

#[test]
fn no_phis_are_left_for_assembly() {
    let mut b = Builder::new();
    let m = pick(&mut b);
    let mut code = lowered(&m, &mut b.names);
    let function = code.function_definitions.get_mut(&0).unwrap();
    destruct_ssa(function);
    for block in function.blocks.values() {
        for instruction in &block.instructions {
            assert!(!matches!(instruction, Instruction::Phi { .. }));
        }
    }
    let text = codegen_function(function, &CodegenOptions { emit_debug_info: true }, &b.names);
    assert!(text.starts_with("global pick\npick:\n    push rbp\n"));
    assert!(text.contains("    ; store arg %0 into its stack register\n    mov [rbp - 4], edi\n"));
    assert!(text.ends_with(".exit:\n    mov rsp, rbp\n    pop rbp\n    ret\n"));
}

#[test]
fn optimizing_keeps_the_entry() {
    let mut b = Builder::new();
    let m = bind_one(&mut b);
    let mut code = lowered(&m, &mut b.names);
    let function = code.function_definitions.get_mut(&0).unwrap();
    perform_pre_ssa_optimizations(function);
    assert!(function.blocks.contains_key(&0));
    assert_eq!(
        listing(function, &b.names),
        "fn main() {\n.label_0:\n    ; let x = ...\n    %0 = alloc i32\n    store %0 <- 1\n    ret 0\n}\n"
    );
}

#[test]
fn strings_go_to_static_memory() {
    let mut b = Builder::new();
    let hello = b.text("hi\n");
    let call = b.intrinsic("print", vec![hello]);
    let statement = b.semi(call);
    let block = b.block(vec![statement], None);
    let owner = b.function("main", vec![], None, block);
    let m = module(vec![owner]);
    let code = lowered(&m, &mut b.names);
    let symbol: InternedSymbol = code.static_strings[&0];
    assert_eq!(b.names.value(symbol), "hi\n");
    assert_eq!(
        listing(&code.function_definitions[&0], &b.names),
        "fn main() {\n.label_0:\n    %0 = alloc { ptr, i64 }\n    %1 = get_struct_element_ptr %0, { ptr, i64 }, 0\n    store %1 <- __$static_alloc_0\n    %2 = get_struct_element_ptr %0, { ptr, i64 }, 1\n    store %2 <- 3\n    %3 = get_struct_element_ptr %0, { ptr, i64 }, 0\n    %4 = load %3\n    %5 = get_struct_element_ptr %0, { ptr, i64 }, 1\n    %6 = load %5\n    %7 = call __$print_str(%4, %6)\n    ret 0\n}\n"
    );
    let program = CodeGeneratorX86_64LinuxGnu.translate_to_asm(
        &code,
        &CodegenOptions { emit_debug_info: true },
        &b.names,
        "; core",
    );
    assert!(program.starts_with("global _start\n\nbits 64\nsection .text\n\n; program entrypoint\n_start:\n    call main\n\n    ; exit syscall using code passed in rax\n    mov rdi, rax\n    mov rax, 60\n    syscall\n\n; user code\nglobal main\n"));
    assert!(program.contains("\n\n; built-in functions\n; core\n\n; readonly static data\nsection .rodata\n\n; utf-8 strings\n__$static_alloc_0: db \"hi\", 0xA\n\n; zeroed static data\nsection .bss\nalign 4096\n\n; definitions\n\n"));
    assert!(program.contains("    call __$print_str\n"));
}

#[test]
fn formatted_arguments_are_printed_one_by_one() {
    let mut b = Builder::new();
    let i32_kind = PrimitiveKind::Int(IntKind::I32);
    let a = b.parameter("a");
    let a_ty = b.ty(i32_kind);
    let format = b.text("n={}");
    let value = b.local("a", a.hir_id);
    let call = b.intrinsic("print", vec![format, value]);
    let statement = b.semi(call);
    let block = b.block(vec![statement], None);
    let owner = b.function("show", vec![(a, a_ty)], None, block);
    let m = module(vec![owner]);
    let code = lowered(&m, &mut b.names);
    let text = listing(&code.function_definitions[&0], &b.names);
    assert!(text.contains(" = call __$print_str("));
    assert!(text.contains(" = call __$print_i32(%0)\n    ret\n}\n"));
    assert_eq!(b.names.value(code.static_strings[&0]), "n=");
    assert_eq!(code.static_strings.len(), 1);
}

#[test]
fn arguments_are_printed_in_order() {
    let mut b = Builder::new();
    let a = b.parameter("a");
    let a_ty = b.ty(PrimitiveKind::Int(IntKind::I32));
    let c = b.parameter("c");
    let c_ty = b.ty(PrimitiveKind::Int(IntKind::I64));
    let format = b.text("{}{}");
    let first = b.local("a", a.hir_id);
    let second = b.local("c", c.hir_id);
    let call = b.intrinsic("print", vec![format, first, second]);
    let statement = b.semi(call);
    let block = b.block(vec![statement], None);
    let owner = b.function("show", vec![(a, a_ty), (c, c_ty)], None, block);
    let m = module(vec![owner]);
    let code = lowered(&m, &mut b.names);
    assert_eq!(
        listing(&code.function_definitions[&0], &b.names),
        "fn show(%0, %1) {\n.label_0:\n    %2 = call __$print_i32(%0)\n    %3 = call __$print_i64(%1)\n    ret\n}\n"
    );
    assert!(code.static_strings.is_empty());
}

#[test]
fn functions_are_called_with_their_arguments() {
    let mut b = Builder::new();
    let i32_kind = PrimitiveKind::Int(IntKind::I32);
    let x = b.parameter("x");
    let x_ty = b.ty(i32_kind);
    let returned = b.ty(i32_kind);
    let value = b.local("x", x.hir_id);
    let block = b.block(vec![], Some(value));
    let same = b.function("same", vec![(x, x_ty)], Some(returned), block);
    let path = b.path("same", Resolution::Definition(DefinitionKind::Function, LocalDefId(0)));
    let target = b.expr(ExpressionKind::Path(path));
    let seven = b.number(7);
    let call = b.expr(ExpressionKind::FunctionCall { target, arguments: vec![seven] });
    let statement = b.semi(call);
    let block = b.block(vec![statement], None);
    let main = b.function("main", vec![], None, block);
    let m = module(vec![same, main]);
    let code = lowered(&m, &mut b.names);
    assert_eq!(
        listing(&code.function_definitions[&0], &b.names),
        "fn same(%0) {\n.label_0:\n    ret %0\n}\n"
    );
    assert_eq!(
        listing(&code.function_definitions[&1], &b.names),
        "fn main() {\n.label_0:\n    %0 = call same(7)\n    ret 0\n}\n"
    );
    let text = codegen_function(
        &code.function_definitions[&1],
        &CodegenOptions { emit_debug_info: true },
        &b.names,
    );
    assert!(text.contains("    ; %0 = call same(7)\n    xor rdi, rdi\n    mov edi, 7\n    call same\n    mov [rbp - 4], eax\n"));
}

#[test]
fn loops_jump_back_and_out() {
    let mut b = Builder::new();
    let zero = b.number(0);
    let (x, first) = b.binding("x", None, Some(zero));
    let lhs = b.local("x", x);
    let three = b.number(3);
    let condition = b.binary(lhs, BinaryOperatorKind::LessThan, three);
    let leave = b.expr(ExpressionKind::Break);
    let leave = b.semi(leave);
    let body = b.block(vec![leave], None);
    let looped = b.expr(ExpressionKind::While { condition, block: body });
    let second = b.semi(looped);
    let block = b.block(vec![first, second], None);
    let owner = b.function("main", vec![], None, block);
    let m = module(vec![owner]);
    let code = lowered(&m, &mut b.names);
    assert_eq!(
        listing(&code.function_definitions[&0], &b.names),
        "fn main() {\n.label_0:\n    ; let x = ...\n    %0 = alloc i32\n    store %0 <- 0\n.label_1:\n    %1 = load %0\n    %2 = %1 < 3\n    br %2 .label_2 .label_3\n.label_2:\n    jmp .label_3\n    jmp .label_1\n.label_3:\n    ret 0\n}\n"
    );
}

#[test]
fn logical_operators_skip_their_second_operand() {
    let mut b = Builder::new();
    let yes = b.expr(ExpressionKind::Literal(Literal::Boolean(true)));
    let no = b.expr(ExpressionKind::Literal(Literal::Boolean(false)));
    let both = b.binary(yes, BinaryOperatorKind::LogicalAnd, no);
    let (_, statement) = b.binding("x", None, Some(both));
    let block = b.block(vec![statement], None);
    let owner = b.function("main", vec![], None, block);
    let m = module(vec![owner]);
    let code = lowered(&m, &mut b.names);
    assert_eq!(
        listing(&code.function_definitions[&0], &b.names),
        "fn main() {\n.label_0:\n    ; let x = ...\n    %0 = alloc i8\n    br true .label_1 .label_3\n.label_1:\n    br false .label_2 .label_3\n.label_2:\n    jmp .label_3\n.label_3:\n    %1 = phi(.label_0 -> false, .label_1 -> false, .label_2 -> true)\n    store %0 <- %1\n    ret 0\n}\n"
    );
}

#[test]
fn arrays_and_tuples_are_built_in_place() {
    let mut b = Builder::new();
    let one = b.number(1);
    let two = b.number(2);
    let array = b.expr(ExpressionKind::Array(ArrayInitializer::Specific(vec![one, two])));
    let (_, first) = b.binding("a", None, Some(array));
    let three = b.number(3);
    let yes = b.expr(ExpressionKind::Literal(Literal::Boolean(true)));
    let tuple = b.expr(ExpressionKind::Tuple(vec![three, yes]));
    let (_, second) = b.binding("t", None, Some(tuple));
    let block = b.block(vec![first, second], None);
    let owner = b.function("main", vec![], None, block);
    let m = module(vec![owner]);
    let code = lowered(&m, &mut b.names);
    assert_eq!(
        listing(&code.function_definitions[&0], &b.names),
        "fn main() {\n.label_0:\n    ; let a = ...\n    %0 = alloc [i32; 2]\n    %1 = get_array_element_ptr %0, i32, 0\n    store %1 <- 1\n    %2 = get_array_element_ptr %0, i32, 1\n    store %2 <- 2\n    ; let t = ...\n    %3 = alloc { i32, i8 }\n    ; field 0\n    %4 = get_struct_element_ptr %3, { i32, i8 }, 0\n    store %4 <- 3\n    ; field 1\n    %5 = get_struct_element_ptr %3, { i32, i8 }, 1\n    store %5 <- true\n    ret 0\n}\n"
    );
}

/// `fn take(t: (i32, bool)) {}`
/// `fn main() { let a = (3, true); let b = a; b = a; take(a); }`
#[test]
fn structures_are_copied() {
    let mut b = Builder::new();
    let number_ty = b.ty(PrimitiveKind::Int(IntKind::I32));
    let bool_ty = b.ty(PrimitiveKind::Bool);
    let hir_id = b.id();
    let pair_ty = Rc::new(hir::Type {
        hir_id,
        kind: hir::TypeKind::Tuple(vec![number_ty, bool_ty]),
        span: Span::new(0, 1),
    });
    let t = b.parameter("t");
    let block = b.block(vec![], None);
    let take = b.function("take", vec![(t, pair_ty)], None, block);

    let three = b.number(3);
    let yes = b.expr(ExpressionKind::Literal(Literal::Boolean(true)));
    let tuple = b.expr(ExpressionKind::Tuple(vec![three, yes]));
    let (first_id, first) = b.binding("a", None, Some(tuple));
    let value = b.local("a", first_id);
    let (second_id, second) = b.binding("b", None, Some(value));
    let lhs = b.local("b", second_id);
    let rhs = b.local("a", first_id);
    let assignment = b.expr(ExpressionKind::Assignment { lhs, rhs });
    let third = b.semi(assignment);
    let path = b.path("take", Resolution::Definition(DefinitionKind::Function, LocalDefId(0)));
    let target = b.expr(ExpressionKind::Path(path));
    let argument = b.local("a", first_id);
    let call = b.expr(ExpressionKind::FunctionCall { target, arguments: vec![argument] });
    let fourth = b.semi(call);
    let variable = match &second.kind {
        StatementKind::Let(binding) => binding.clone(),
        _ => unreachable!(),
    };
    let block = b.block(vec![first, second, third, fourth], None);
    let mut main = b.function("main", vec![], None, block);
    while main.nodes.len() <= second_id.local_id.0 as usize {
        main.nodes.push(ParentedNode {
            parent: ItemLocalId(0),
            node: Node::LetStatement(variable.clone()),
        });
    }
    let m = module(vec![take, main]);
    let code = lowered(&m, &mut b.names);
    assert_eq!(
        listing(&code.function_definitions[&1], &b.names),
        "fn main() {\n.label_0:\n    ; let a = ...\n    %0 = alloc { i32, i8 }\n    ; field 0\n    %1 = get_struct_element_ptr %0, { i32, i8 }, 0\n    store %1 <- 3\n    ; field 1\n    %2 = get_struct_element_ptr %0, { i32, i8 }, 1\n    store %2 <- true\n    ; let b = ...\n    %3 = alloc { i32, i8 }\n    %4 = get_struct_element_ptr %0, { i32, i8 }, 0\n    %5 = load %4\n    %6 = get_struct_element_ptr %3, { i32, i8 }, 0\n    store %6 <- %5\n    %7 = get_struct_element_ptr %0, { i32, i8 }, 1\n    %8 = load %7\n    %9 = get_struct_element_ptr %3, { i32, i8 }, 1\n    store %9 <- %8\n    %10 = get_struct_element_ptr %0, { i32, i8 }, 0\n    %11 = load %10\n    %12 = get_struct_element_ptr %3, { i32, i8 }, 0\n    store %12 <- %11\n    %13 = get_struct_element_ptr %0, { i32, i8 }, 1\n    %14 = load %13\n    %15 = get_struct_element_ptr %3, { i32, i8 }, 1\n    store %15 <- %14\n    %16 = alloc { i32, i8 }\n    %17 = get_struct_element_ptr %0, { i32, i8 }, 0\n    %18 = load %17\n    %19 = get_struct_element_ptr %16, { i32, i8 }, 0\n    store %19 <- %18\n    %20 = get_struct_element_ptr %0, { i32, i8 }, 1\n    %21 = load %20\n    %22 = get_struct_element_ptr %16, { i32, i8 }, 1\n    store %22 <- %21\n    call take(%16)\n    ret 0\n}\n"
    );
}

/// `fn take(t: (i32, bool)) {}`
/// `fn main() { let a = (3, true); let b = a; take(b); }`
fn pass_on(b: &mut Builder, is_mutable: bool, takes_mutable: bool) -> Module {
    let number_ty = b.ty(PrimitiveKind::Int(IntKind::I32));
    let bool_ty = b.ty(PrimitiveKind::Bool);
    let hir_id = b.id();
    let pair_ty = Rc::new(hir::Type {
        hir_id,
        kind: hir::TypeKind::Tuple(vec![number_ty, bool_ty]),
        span: Span::new(0, 1),
    });
    let hir_id = b.id();
    let name = b.name("t");
    let t = Rc::new(FunctionParameter {
        hir_id,
        is_mutable: takes_mutable,
        name,
        ty_span: Span::new(0, 1),
        span: Span::new(0, 1),
    });
    let block = b.block(vec![], None);
    let take = b.function("take", vec![(t, pair_ty)], None, block);

    let three = b.number(3);
    let yes = b.expr(ExpressionKind::Literal(Literal::Boolean(true)));
    let tuple = b.expr(ExpressionKind::Tuple(vec![three, yes]));
    let (first_id, first) = b.variable("a", false, None, Some(tuple));
    let value = b.local("a", first_id);
    let (second_id, second) = b.variable("b", is_mutable, None, Some(value));
    let path = b.path("take", Resolution::Definition(DefinitionKind::Function, LocalDefId(0)));
    let target = b.expr(ExpressionKind::Path(path));
    let argument = b.local("b", second_id);
    let call = b.expr(ExpressionKind::FunctionCall { target, arguments: vec![argument] });
    let third = b.semi(call);
    let mut variables = vec![];
    for statement in [&first, &second] {
        match &statement.kind {
            StatementKind::Let(binding) => variables.push(binding.clone()),
            _ => unreachable!(),
        }
    }
    let block = b.block(vec![first, second, third], None);
    let mut main = b.function("main", vec![], None, block);
    for variable in variables {
        while main.nodes.len() <= variable.hir_id.local_id.0 as usize {
            main.nodes.push(ParentedNode {
                parent: ItemLocalId(0),
                node: Node::LetStatement(variable.clone()),
            });
        }
    }
    module(vec![take, main])
}

fn passed_on(is_mutable: bool, takes_mutable: bool, level: OptimizationLevel) -> String {
    let mut b = Builder::new();
    let m = pass_on(&mut b, is_mutable, takes_mutable);
    let types = checked(&m, &b.names);
    let code = lower_with_options(&m, &types, LoweringOptions::for_level(level), &mut b.names);
    listing(&code.function_definitions[&1], &b.names)
}

#[test]
fn structures_that_do_not_change_are_shared() {
    assert_eq!(
        passed_on(false, false, OptimizationLevel::One),
        "fn main() {\n.label_0:\n    ; let a = ...\n    %0 = alloc { i32, i8 }\n    ; field 0\n    %1 = get_struct_element_ptr %0, { i32, i8 }, 0\n    store %1 <- 3\n    ; field 1\n    %2 = get_struct_element_ptr %0, { i32, i8 }, 1\n    store %2 <- true\n    ; let b = ...\n    call take(%0)\n    ret 0\n}\n"
    );
}

#[test]
fn structures_that_may_change_are_copied() {
    let copied = "fn main() {\n.label_0:\n    ; let a = ...\n    %0 = alloc { i32, i8 }\n    ; field 0\n    %1 = get_struct_element_ptr %0, { i32, i8 }, 0\n    store %1 <- 3\n    ; field 1\n    %2 = get_struct_element_ptr %0, { i32, i8 }, 1\n    store %2 <- true\n    ; let b = ...\n    %3 = alloc { i32, i8 }\n    %4 = get_struct_element_ptr %0, { i32, i8 }, 0\n    %5 = load %4\n    %6 = get_struct_element_ptr %3, { i32, i8 }, 0\n    store %6 <- %5\n    %7 = get_struct_element_ptr %0, { i32, i8 }, 1\n    %8 = load %7\n    %9 = get_struct_element_ptr %3, { i32, i8 }, 1\n    store %9 <- %8\n    %10 = alloc { i32, i8 }\n    %11 = get_struct_element_ptr %3, { i32, i8 }, 0\n    %12 = load %11\n    %13 = get_struct_element_ptr %10, { i32, i8 }, 0\n    store %13 <- %12\n    %14 = get_struct_element_ptr %3, { i32, i8 }, 1\n    %15 = load %14\n    %16 = get_struct_element_ptr %10, { i32, i8 }, 1\n    store %16 <- %15\n    call take(%10)\n    ret 0\n}\n";
    assert_eq!(passed_on(true, true, OptimizationLevel::Two), copied);
    assert_eq!(passed_on(true, false, OptimizationLevel::Two), copied);
    assert_eq!(passed_on(false, false, OptimizationLevel::Zero), copied);
    assert_eq!(passed_on(true, true, OptimizationLevel::Zero), copied);
}

#[test]
fn arguments_are_copied_for_parameters_that_may_change() {
    let text = passed_on(false, true, OptimizationLevel::Three);
    assert!(text.contains("    ; let b = ...\n    %3 = alloc { i32, i8 }\n"));
    assert!(text.contains("    call take(%3)\n"));
}

#[test]
fn addresses_and_negation() {
    let mut b = Builder::new();
    let one = b.number(1);
    let minus = b.expr(ExpressionKind::Unary {
        operator: UnaryOperatorKind::Negate,
        operand: one,
    });
    let (x, first) = b.binding("x", None, Some(minus));
    let place = b.local("x", x);
    let address = b.expr(ExpressionKind::Unary {
        operator: UnaryOperatorKind::AddressOf { is_mutable: false },
        operand: place,
    });
    let (_, second) = b.binding("p", None, Some(address));
    let block = b.block(vec![first, second], None);
    let owner = b.function("main", vec![], None, block);
    let m = module(vec![owner]);
    let code = lowered(&m, &mut b.names);
    assert_eq!(
        listing(&code.function_definitions[&0], &b.names),
        "fn main() {\n.label_0:\n    ; let x = ...\n    %0 = alloc i32\n    %1 = - 1\n    store %0 <- %1\n    ; let p = ...\n    %2 = alloc ptr\n    store %2 <- %0\n    ret 0\n}\n"
    );
}

#[test]
fn types_have_to_match() {
    let mut b = Builder::new();
    let ty = b.ty(PrimitiveKind::Bool);
    let one = b.number(1);
    let (_, statement) = b.binding("x", Some(ty), Some(one));
    let block = b.block(vec![statement], None);
    let owner = b.function("main", vec![], None, block);
    let m = module(vec![owner]);
    let said = complaints(&m, &b.names);
    assert_eq!(said.len(), 1);
    assert!(said[0].contains("bool"), "{}", said[0]);
}

#[test]
fn bindings_need_a_type_or_a_value() {
    let mut b = Builder::new();
    let (_, statement) = b.binding("x", None, None);
    let block = b.block(vec![statement], None);
    let owner = b.function("main", vec![], None, block);
    let m = module(vec![owner]);
    assert_eq!(
        complaints(&m, &b.names),
        vec!["cannot infer the type of this binding without an explicit type or initializer expression"]
    );
}

#[test]
fn loops_are_left_from_within() {
    for (kind, said) in [
        (ExpressionKind::Break, "`break` statement can only be used within loops"),
        (ExpressionKind::Continue, "`continue` statement can only be used within loops"),
    ] {
        let mut b = Builder::new();
        let e = b.expr(kind);
        let statement = b.semi(e);
        let block = b.block(vec![statement], None);
        let owner = b.function("main", vec![], None, block);
        let m = module(vec![owner]);
        assert_eq!(complaints(&m, &b.names), vec![said]);
    }
}

#[test]
fn errors_hold_the_types_to_be_made_precise() {
    let mut b = Builder::new();
    let ty = b.ty(PrimitiveKind::Bool);
    let one = b.number(1);
    let (_, statement) = b.binding("x", Some(ty), Some(one));
    let block = b.block(vec![statement], None);
    let owner = b.function("main", vec![], None, block);
    let m = module(vec![owner]);
    match type_check_module(&m, &b.names) {
        Err(mut list) => match &mut list[0] {
            Complaint::Error(e) => {
                assert!(matches!(e.kind, TypeErrorKind::TypeMismatch { .. }));
                assert_eq!(e.kind.get_substitutable_types_mut().len(), 2);
            }
            Complaint::UnknownType(_) => panic!(),
        },
        Ok(_) => panic!(),
    }
    assert_eq!(TypeErrorKind::CannotInfer.get_substitutable_types_mut().len(), 0);
}
