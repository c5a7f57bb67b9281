use drip::frontend::ast::visit::{walk_module, Node, Visit};
use drip::frontend::ast::{
    Block, EnumDefinition, EnumVariant, Expression, ExpressionKind, FunctionDefinition,
    FunctionParameterList, FunctionSignature, Identifier, Import, Item, ItemKind, Local, LocalKind,
    Module, ModuleId, NodeId, QualifiedIdentifier, Statement, StatementKind, StructDefinition,
    Visibility,
};
use drip::frontend::intern::{InternedSymbol, Interner};
use drip::frontend::lexer::Span;
use drip::frontend::{SourceFile, SourceFileId, SourceFileOrigin};
use drip::index::IndexVec;
use drip::middle::hir::{DefinitionKind, LocalDefId, Resolution};
use drip::middle::resolve::krate::{resolve_crate, CrateError};
use drip::middle::resolve::rules::{NameError, NameFault};
use drip::middle::resolve::scope::ScopeStack;
use drip::middle::resolve::{ResolutionMap, Resolver};
use drip::session::Session;
use drip::style::Styled;

fn plain(parts: &Vec<Styled>) -> String {
    let mut out = String::new();
    for part in parts {
        match part {
            Styled::Text(text) => out.push_str(text),
            Styled::Paint(_, inner) => out.push_str(&plain(inner)),
        }
    }
    out
}

struct Builder {
    names: Interner,
    next: u32,
}

impl Builder {
    fn new() -> Builder {
        Builder { names: Interner::new(), next: 0 }
    }

    fn id(&mut self) -> NodeId {
        self.next += 1;
        NodeId(self.next)
    }

    fn ident(&mut self, text: &str) -> Identifier {
        let id = self.id();
        Identifier { id, span: Span::new(self.next as usize, self.next as usize + 1), symbol: self.names.intern(text) }
    }

    fn name(&mut self, segments: &[&str]) -> QualifiedIdentifier {
        let id = self.id();
        let segments = segments.iter().map(|s| self.ident(s)).collect();
        QualifiedIdentifier { id, span: Span::new(0, 1), segments }
    }

    fn reference(&mut self, segments: &[&str]) -> Expression {
        let id = self.id();
        let name = self.name(segments);
        Expression {
            id,
            span: Span::new(0, 1),
            kind: ExpressionKind::QualifiedIdentifier(Box::new(name)),
        }
    }

    fn block(&mut self, statements: Vec<Statement>) -> Block {
        let id = self.id();
        Block { id, span: Span::new(0, 1), statements }
    }

    fn expression_statement(&mut self, e: Expression) -> Statement {
        let id = self.id();
        Statement { id, span: Span::new(0, 1), kind: StatementKind::SemiExpr(Box::new(e)) }
    }

    fn let_statement(&mut self, text: &str, value: Option<Expression>) -> Statement {
        let id = self.id();
        let name = self.ident(text);
        let local = Local {
            id: self.id(),
            span: Span::new(0, 1),
            is_mutable: false,
            name,
            ty: None,
            kind: match value {
                Some(e) => LocalKind::Initialization(Box::new(e)),
                None => LocalKind::Declaration,
            },
        };
        Statement { id, span: Span::new(0, 1), kind: StatementKind::Local(Box::new(local)) }
    }

    fn function(&mut self, segments: &[&str], body: Block) -> Item {
        let name = self.name(segments);
        let signature = FunctionSignature {
            id: self.id(),
            span: Span::new(0, 1),
            name,
            parameters: FunctionParameterList {
                id: self.id(),
                span: Span::new(0, 1),
                self_parameter: None,
                parameters: vec![],
            },
            return_type: None,
        };
        let function = FunctionDefinition {
            id: self.id(),
            span: Span::new(0, 1),
            visibility: Visibility::Private,
            signature,
            body,
        };
        Item {
            id: self.id(),
            span: Span::new(0, 1),
            kind: ItemKind::FunctionDefinition(Box::new(function)),
        }
    }

    fn structure(&mut self, text: &str) -> Item {
        let name = self.ident(text);
        let definition = StructDefinition {
            id: self.id(),
            span: Span::new(0, 1),
            visibility: Visibility::Public,
            name,
            fields: vec![],
        };
        Item {
            id: self.id(),
            span: Span::new(0, 1),
            kind: ItemKind::StructDefinition(Box::new(definition)),
        }
    }

    fn enumeration(&mut self, text: &str, variants: &[&str]) -> Item {
        let name = self.ident(text);
        let variants = variants
            .iter()
            .map(|v| {
                let name = self.ident(v);
                EnumVariant { id: self.id(), span: Span::new(0, 1), name }
            })
            .collect();
        let definition = EnumDefinition {
            id: self.id(),
            span: Span::new(0, 1),
            visibility: Visibility::Public,
            name,
            variants,
        };
        Item {
            id: self.id(),
            span: Span::new(0, 1),
            kind: ItemKind::EnumDefinition(Box::new(definition)),
        }
    }

    fn import(&mut self, segments: &[&str]) -> Item {
        let name = self.name(segments);
        let import = Import { id: self.id(), span: Span::new(0, 1), name };
        Item { id: self.id(), span: Span::new(0, 1), kind: ItemKind::Import(Box::new(import)) }
    }
}

fn module(id: u32, items: Vec<Item>, children: Vec<(InternedSymbol, ModuleId)>) -> Module {
    Module { id: ModuleId(id), source_file: SourceFileId(id), items, children }
}

fn resolved(b: &mut Builder, modules: Vec<Module>) -> Result<ResolutionMap, CrateError> {
    resolve_crate(&IndexVec::from_raw(modules), &mut b.names)
}

fn fault(b: &mut Builder, modules: Vec<Module>) -> NameFault {
    match resolved(b, modules) {
        Err(e) => e.error.fault,
        Ok(_) => panic!(),
    }
}

#[test]
fn functions_are_numbered_in_order() {
    let mut b = Builder::new();
    let first_body = b.block(vec![]);
    let first = b.function(&["a"], first_body);
    let second_body = b.block(vec![]);
    let second = b.function(&["c"], second_body);
    let (x, y) = (first.id.0, second.id.0);
    let map = resolved(&mut b, vec![module(0, vec![first, second], vec![])]).ok().unwrap();
    assert_eq!(map.node_to_def_id_map[&x], LocalDefId(0));
    assert_eq!(map.node_to_def_id_map[&y], LocalDefId(1));
}

#[test]
fn locals_are_found_from_inside() {
    let mut b = Builder::new();
    let binding = b.let_statement("x", None);
    let local_id = match &binding.kind {
        StatementKind::Local(local) => local.id,
        _ => panic!(),
    };
    let usage = b.reference(&["x"]);
    let usage_id = match &usage.kind {
        ExpressionKind::QualifiedIdentifier(name) => name.id.0,
        _ => panic!(),
    };
    let inner_statement = b.expression_statement(usage);
    let inner = b.block(vec![inner_statement]);
    let inner = Expression {
        id: b.id(),
        span: Span::new(0, 1),
        kind: ExpressionKind::Block(Box::new(inner)),
    };
    let inner = b.expression_statement(inner);
    let body = b.block(vec![binding, inner]);
    let f = b.function(&["main"], body);
    let map = resolved(&mut b, vec![module(0, vec![f], vec![])]).ok().unwrap();
    assert_eq!(map.value_name_resolutions[&usage_id], Resolution::Local(local_id));
}

#[test]
fn locals_are_gone_with_their_scope() {
    let mut b = Builder::new();
    let binding = b.let_statement("x", None);
    let inner = b.block(vec![binding]);
    let inner = Expression {
        id: b.id(),
        span: Span::new(0, 1),
        kind: ExpressionKind::Block(Box::new(inner)),
    };
    let inner = b.expression_statement(inner);
    let usage = b.reference(&["x"]);
    let usage = b.expression_statement(usage);
    let body = b.block(vec![inner, usage]);
    let f = b.function(&["main"], body);
    assert_eq!(
        fault(&mut b, vec![module(0, vec![f], vec![])]),
        NameFault::UnresolvedName
    );
}

#[test]
fn a_name_is_bound_once_in_a_scope() {
    let mut b = Builder::new();
    let one = b.let_statement("x", None);
    let two = b.let_statement("x", None);
    let body = b.block(vec![one, two]);
    let f = b.function(&["main"], body);
    assert_eq!(
        fault(&mut b, vec![module(0, vec![f], vec![])]),
        NameFault::DuplicateBinding
    );
}

#[test]
fn a_name_is_defined_once_in_a_module() {
    let mut b = Builder::new();
    let items = vec![b.structure("S"), b.enumeration("S", &[])];
    assert_eq!(
        fault(&mut b, vec![module(0, items, vec![])]),
        NameFault::DuplicateDefinition
    );
    let mut b = Builder::new();
    let items = vec![b.enumeration("E", &["A", "A"])];
    assert_eq!(
        fault(&mut b, vec![module(0, items, vec![])]),
        NameFault::DuplicateDefinition
    );
}

#[test]
fn names_of_functions_have_two_segments_at_most() {
    let mut b = Builder::new();
    let body = b.block(vec![]);
    let f = b.function(&["a", "b", "c"], body);
    assert_eq!(
        fault(&mut b, vec![module(0, vec![f], vec![])]),
        NameFault::IllegalFunctionName
    );
}

#[test]
fn methods_and_variants_are_found_through_their_type() {
    let mut b = Builder::new();
    let e = b.enumeration("E", &["A", "B"]);
    let method_body = b.block(vec![]);
    let method = b.function(&["E", "new"], method_body);
    let variant = b.reference(&["E", "B"]);
    let variant_id = match &variant.kind {
        ExpressionKind::QualifiedIdentifier(name) => name.id.0,
        _ => panic!(),
    };
    let call = b.reference(&["E", "new"]);
    let call_id = match &call.kind {
        ExpressionKind::QualifiedIdentifier(name) => name.id.0,
        _ => panic!(),
    };
    let s1 = b.expression_statement(variant);
    let s2 = b.expression_statement(call);
    let body = b.block(vec![s1, s2]);
    let main = b.function(&["main"], body);
    let map = resolved(&mut b, vec![module(0, vec![e, method, main], vec![])]).ok().unwrap();
    assert_eq!(
        map.value_name_resolutions[&variant_id],
        Resolution::Definition(DefinitionKind::EnumVariant, LocalDefId(2))
    );
    assert_eq!(
        map.value_name_resolutions[&call_id],
        Resolution::Definition(DefinitionKind::AssociatedFunction, LocalDefId(3))
    );
}

#[test]
fn built_in_functions_need_no_definition() {
    let mut b = Builder::new();
    let print = b.reference(&["print"]);
    let id = match &print.kind {
        ExpressionKind::QualifiedIdentifier(name) => name.id.0,
        _ => panic!(),
    };
    let statement = b.expression_statement(print);
    let body = b.block(vec![statement]);
    let f = b.function(&["main"], body);
    let map = resolved(&mut b, vec![module(0, vec![f], vec![])]).ok().unwrap();
    let symbol = b.names.intern("print");
    assert_eq!(map.value_name_resolutions[&id], Resolution::IntrinsicFunction(symbol));
}

#[test]
fn imports_lead_to_other_modules() {
    let mut b = Builder::new();
    let import = b.import(&["crate", "sub", "helper"]);
    let call = b.reference(&["helper"]);
    let id = match &call.kind {
        ExpressionKind::QualifiedIdentifier(name) => name.id.0,
        _ => panic!(),
    };
    let statement = b.expression_statement(call);
    let body = b.block(vec![statement]);
    let main = b.function(&["main"], body);
    let helper_body = b.block(vec![]);
    let helper = b.function(&["helper"], helper_body);
    let sub = b.names.intern("sub");
    let map = resolved(
        &mut b,
        vec![
            module(0, vec![import, main], vec![(sub, ModuleId(1))]),
            module(1, vec![helper], vec![]),
        ],
    )
    .ok()
    .unwrap();
    assert_eq!(
        map.value_name_resolutions[&id],
        Resolution::Definition(DefinitionKind::Function, LocalDefId(1))
    );
}

#[test]
fn imports_that_lead_nowhere_are_refused() {
    for segments in [vec!["crate"], vec!["crate", "nowhere", "f"], vec!["crate", "sub", "f"]] {
        let mut b = Builder::new();
        let import = b.import(&segments);
        let sub = b.names.intern("sub");
        assert_eq!(
            fault(
                &mut b,
                vec![
                    module(0, vec![import], vec![(sub, ModuleId(1))]),
                    module(1, vec![], vec![]),
                ]
            ),
            NameFault::UnresolvedImport
        );
    }
}

#[test]
fn a_module_is_walked_in_order() {
    let mut b = Builder::new();
    let binding = b.let_statement("x", None);
    let body = b.block(vec![binding]);
    let f = b.function(&["main"], body);
    let m = module(0, vec![f], vec![]);
    let visits = walk_module(&m);
    assert!(matches!(visits[0], Visit::Enter(Node::Item(_))));
    assert!(matches!(visits[1], Visit::Enter(Node::FunctionDefinition(_))));
    assert!(matches!(visits[visits.len() - 1], Visit::Leave(Node::Item(_))));
    let enters = visits.iter().filter(|v| matches!(v, Visit::Enter(_))).count();
    assert_eq!(enters * 2, visits.len());
}

#[test]
fn steps_can_be_taken_one_by_one() {
    let mut b = Builder::new();
    let body = b.block(vec![]);
    let f = b.function(&["main"], body);
    let modules = IndexVec::from_raw(vec![module(0, vec![f], vec![])]);
    let mut resolver = Resolver::new(&modules, &mut b.names);
    assert!(resolver.collect_definitions(ModuleId(0)).is_ok());
    assert!(resolver.resolve_names(ModuleId(0), &b.names).is_ok());
    assert_eq!(resolver.into_outputs().node_to_def_id_map.len(), 1);
}

#[test]
fn scopes_hide_and_forget() {
    let mut names = Interner::new();
    let x = names.intern("x");
    let y = names.intern("y");
    let mut scopes: ScopeStack<u8> = ScopeStack::new();
    assert_eq!(scopes.get_binding(x), None);
    scopes.push_shallow_scope();
    scopes.add_shallow_binding(x, 1);
    scopes.push_shallow_scope();
    assert_eq!(scopes.get_binding(x), Some(1));
    assert_eq!(scopes.get_shallow_binding(x), None);
    scopes.add_shallow_binding(x, 2);
    scopes.add_shallow_binding(y, 3);
    assert_eq!(scopes.get_binding(x), Some(2));
    assert_eq!(scopes.get_shallow_binding(y), Some(3));
    scopes.pop_shallow_scope();
    assert_eq!(scopes.get_binding(x), Some(1));
    assert_eq!(scopes.get_binding(y), None);
}

#[test]
fn name_errors_are_reported() {
    let source = SourceFile {
        contents: "let a = b;\n".to_string(),
        origin: SourceFileOrigin::Memory,
    };
    for (fault, first_line) in [
        (
            NameFault::DuplicateDefinition,
            "error: duplicate definition for global identifier `b` (at <memory>:1:9)",
        ),
        (NameFault::IllegalFunctionName, "error: function name `b` is malformed at <memory>:1:9"),
        (NameFault::UnresolvedImport, "error: failed to resolve import `b` (at <memory>:1:9)"),
        (
            NameFault::DuplicateBinding,
            "error: duplicate definition for identifier `b` (at <memory>:1:9)",
        ),
        (
            NameFault::UnresolvedName,
            "error: unresolved name for identifier `b` (at <memory>:1:9)",
        ),
    ] {
        let (parts, error) = NameError { fault, span: Span::new(8, 9) }.report(&source);
        assert!(error.is_none());
        let text = plain(&parts);
        assert_eq!(text.lines().next(), Some(first_line));
        assert!(text.contains("^"));
    }
}

#[test]
fn sessions_hold_source_files() {
    let mut session = Session::new();
    let file = SourceFile { contents: "x".to_string(), origin: SourceFileOrigin::Memory };
    let id = session.insert_source_file(file);
    assert_eq!(id, SourceFileId(0));
    assert_eq!(session.get_source_file(id).unwrap().contents, "x");
    assert!(session.get_source_file(SourceFileId(1)).is_none());
}
