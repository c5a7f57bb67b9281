//! How names are bound and found in a whole module.

use crate::frontend::ast::visit::{
    around, block_visit, block_walk, expression_visit, expression_walk, expressions_walk,
    fields_walk, function_walk, initializers_walk, item_visit, item_walk, items_walk, leaf,
    local_walk, module_walk, name_visit, parameter_walk, parameters_walk, segments_walk,
    signature_walk, statement_walk, statements_walk, static_walk, struct_walk, type_visit,
    type_walk, types_walk, variants_walk, Node, Visit,
};
use crate::frontend::ast::{
    ArrayInitializer, Block, EnumVariant, Expression, ExpressionKind, FunctionDefinition,
    FunctionParameter, Identifier, Item, ItemKind, Local, LocalKind, Module, ModuleId,
    QualifiedIdentifier, Statement, StatementKind, Static, StructField, StructInitializerField,
    Type, TypeKind,
};
use crate::middle::resolve::rules::{
    name_bound, names_along, pair_key, visit_resolved, Builtins, NameError, Naming, Resolving,
};
use crate::middle::resolve::Namespace;
use vstd::prelude::*;

verus! {

/// What the names along a walk come to.
pub open spec fn run(builtins: Builtins, r: Resolving, module: ModuleId, visits: Seq<Visit<'_>>) -> Option<
    Result<Resolving, NameError>,
> {
    names_along(builtins, r, module, visits, visits.len())
}

/// Whether a step of a walk comes across names that can be resolved: names of
/// values have one or two segments, names of types have one, and a method has
/// been defined.
pub open spec fn is_plain(st: Naming, module: ModuleId, visit: Visit<'_>) -> bool {
    match visit {
        Visit::Enter(Node::QualifiedIdentifier(name, Some(namespace))) => {
            ||| name.segments@.len() == 1
            ||| name.segments@.len() == 2 && namespace is Value
        },
        Visit::Enter(Node::FunctionDefinition(function)) => {
            let segments = function.signature.name.segments@;
            segments.len() == 2 ==> st.definitions[module.0].methods.contains_key(
                pair_key(segments[0].symbol.0, segments[1].symbol.0),
            )
        },
        _ => true,
    }
}

/// Whether all the steps of a walk are plain.
pub open spec fn all_plain(st: Naming, module: ModuleId, visits: Seq<Visit<'_>>) -> bool {
    forall|i: int| 0 <= i < visits.len() ==> is_plain(st, module, #[trigger] visits[i])
}

/// Whether the global names of a module are known.
pub open spec fn is_ready(st: Naming, module: ModuleId) -> bool {
    st.definitions.contains_key(module.0) && st.globals.contains_key(module.0)
}

/// Whether definitions and global names are the same.
pub open spec fn same_globals(a: Naming, b: Naming) -> bool {
    a.definitions == b.definitions && a.globals == b.globals
}

/// Whether a walk comes to an end, or to an error, and leaves the scopes
/// around it as they were.
pub open spec fn keeps_scopes(
    builtins: Builtins,
    r: Resolving,
    module: ModuleId,
    visits: Seq<Visit<'_>>,
) -> bool {
    match run(builtins, r, module, visits) {
        None => false,
        Some(Err(_)) => true,
        Some(Ok(done)) => done.scopes == r.scopes && same_globals(done.st, r.st),
    }
}

/// Whether a walk comes to an end, or to an error, and changes nothing but the
/// innermost scope.
pub open spec fn keeps_outer(
    builtins: Builtins,
    r: Resolving,
    module: ModuleId,
    visits: Seq<Visit<'_>>,
) -> bool {
    match run(builtins, r, module, visits) {
        None => false,
        Some(Err(_)) => true,
        Some(Ok(done)) => {
            &&& done.scopes.len() == r.scopes.len()
            &&& r.scopes.len() > 0
            &&& done.scopes.drop_last() == r.scopes.drop_last()
            &&& same_globals(done.st, r.st)
        },
    }
}

proof fn lemma_names_same(
    builtins: Builtins,
    r: Resolving,
    module: ModuleId,
    a: Seq<Visit<'_>>,
    b: Seq<Visit<'_>>,
    n: nat,
)
    requires
        n <= a.len(),
        n <= b.len(),
        forall|i: int| 0 <= i < n ==> a[i] == b[i],
    ensures
        names_along(builtins, r, module, a, n) == names_along(builtins, r, module, b, n),
    decreases n,
{
    if n > 0 {
        lemma_names_same(builtins, r, module, a, b, (n - 1) as nat);
    }
}

/// A walk is resolved piece by piece.
proof fn lemma_run_concat(
    builtins: Builtins,
    r: Resolving,
    module: ModuleId,
    a: Seq<Visit<'_>>,
    b: Seq<Visit<'_>>,
)
    ensures
        run(builtins, r, module, a + b) == (match run(builtins, r, module, a) {
            Some(Ok(mid)) => run(builtins, mid, module, b),
            other => other,
        }),
    decreases b.len(),
{
    if b.len() == 0 {
        assert(a + b =~= a);
    } else {
        let front = b.drop_last();
        lemma_run_concat(builtins, r, module, a, front);
        assert((a + b).drop_last() =~= a + front);
        lemma_names_same(builtins, r, module, a + b, a + front, (a + front).len());
        assert((a + b).last() == b.last());
        match run(builtins, r, module, a) {
            Some(Ok(mid)) => {
                lemma_names_same(builtins, mid, module, b, front, front.len());
            },
            _ => {},
        }
    }
}

proof fn lemma_run_one(builtins: Builtins, r: Resolving, module: ModuleId, visit: Visit<'_>)
    ensures
        run(builtins, r, module, seq![visit]) == visit_resolved(builtins, r, module, visit),
{
    reveal_with_fuel(names_along, 2);
}

proof fn lemma_plain_split(st: Naming, module: ModuleId, a: Seq<Visit<'_>>, b: Seq<Visit<'_>>)
    requires
        all_plain(st, module, a + b),
    ensures
        all_plain(st, module, a),
        all_plain(st, module, b),
{
    assert forall|i: int| 0 <= i < a.len() implies is_plain(st, module, #[trigger] a[i]) by {
        assert((a + b)[i] == a[i]);
    }
    assert forall|i: int| 0 <= i < b.len() implies is_plain(st, module, #[trigger] b[i]) by {
        assert((a + b)[a.len() + i] == b[i]);
    }
}

proof fn lemma_plain_same(a: Naming, b: Naming, module: ModuleId, visits: Seq<Visit<'_>>)
    requires
        all_plain(a, module, visits),
        same_globals(a, b),
    ensures
        all_plain(b, module, visits),
{
    assert forall|i: int| 0 <= i < visits.len() implies is_plain(
        b,
        module,
        #[trigger] visits[i],
    ) by {
        assert(is_plain(a, module, visits[i]));
    }
}

/// Two walks that keep the scopes keep them together.
proof fn lemma_then(
    builtins: Builtins,
    r: Resolving,
    module: ModuleId,
    a: Seq<Visit<'_>>,
    b: Seq<Visit<'_>>,
)
    requires
        keeps_scopes(builtins, r, module, a),
        run(builtins, r, module, a)->0 is Ok ==> keeps_scopes(
            builtins,
            run(builtins, r, module, a)->0->Ok_0,
            module,
            b,
        ),
    ensures
        keeps_scopes(builtins, r, module, a + b),
{
    lemma_run_concat(builtins, r, module, a, b);
}

/// A node whose own steps mean nothing keeps what is kept within it.
proof fn lemma_around_nothing(
    builtins: Builtins,
    r: Resolving,
    module: ModuleId,
    node: Node<'_>,
    inner: Seq<Visit<'_>>,
)
    requires
        forall|s: Resolving|
            #![trigger visit_resolved(builtins, s, module, Visit::Enter(node))]
            visit_resolved(builtins, s, module, Visit::Enter(node)) == Some(
                Ok::<Resolving, NameError>(s),
            ),
        forall|s: Resolving|
            #![trigger visit_resolved(builtins, s, module, Visit::Leave(node))]
            visit_resolved(builtins, s, module, Visit::Leave(node)) == Some(
                Ok::<Resolving, NameError>(s),
            ),
    ensures
        run(builtins, r, module, around(node, inner)) == run(builtins, r, module, inner),
{
    let enter = seq![Visit::Enter(node)];
    let leave = seq![Visit::Leave(node)];
    lemma_run_one(builtins, r, module, Visit::Enter(node));
    lemma_run_concat(builtins, r, module, enter, inner);
    lemma_run_concat(builtins, r, module, enter + inner, leave);
    match run(builtins, r, module, inner) {
        Some(Ok(done)) => lemma_run_one(builtins, done, module, Visit::Leave(node)),
        _ => {},
    }
}

/// A node with nothing within it means nothing.
proof fn lemma_leaf(builtins: Builtins, r: Resolving, module: ModuleId, node: Node<'_>)
    requires
        node is Identifier || node is Literal,
    ensures
        run(builtins, r, module, leaf(node)) == Some(Ok::<Resolving, NameError>(r)),
        keeps_scopes(builtins, r, module, leaf(node)),
{
    lemma_run_one(builtins, r, module, Visit::Enter(node));
    lemma_run_one(builtins, r, module, Visit::Leave(node));
    lemma_run_concat(
        builtins,
        r,
        module,
        seq![Visit::Enter(node)],
        seq![Visit::Leave(node)],
    );
    assert(leaf(node) =~= seq![Visit::Enter(node)] + seq![Visit::Leave(node)]);
}

proof fn lemma_segments(
    builtins: Builtins,
    r: Resolving,
    module: ModuleId,
    list: &Vec<Identifier>,
    n: nat,
)
    ensures
        run(builtins, r, module, segments_walk(list, n)) == Some(Ok::<Resolving, NameError>(r)),
    decreases n,
{
    if n > 0 && n <= list@.len() {
        lemma_segments(builtins, r, module, list, (n - 1) as nat);
        lemma_leaf(builtins, r, module, Node::Identifier(&list@[n - 1]));
        lemma_run_concat(
            builtins,
            r,
            module,
            segments_walk(list, (n - 1) as nat),
            leaf(Node::Identifier(&list@[n - 1])),
        );
    }
}

proof fn lemma_name(
    builtins: Builtins,
    r: Resolving,
    module: ModuleId,
    name: &QualifiedIdentifier,
    namespace: Option<Namespace>,
)
    requires
        is_ready(r.st, module),
        all_plain(r.st, module, name_visit(name, namespace)),
    ensures
        keeps_scopes(builtins, r, module, name_visit(name, namespace)),
{
    let node = Node::QualifiedIdentifier(name, namespace);
    let inner = segments_walk(&name.segments, name.segments@.len());
    assert(name_visit(name, namespace)[0] == Visit::Enter(node));
    lemma_run_one(builtins, r, module, Visit::Enter(node));
    lemma_run_concat(builtins, r, module, seq![Visit::Enter(node)], inner);
    lemma_run_concat(
        builtins,
        r,
        module,
        seq![Visit::Enter(node)] + inner,
        seq![Visit::Leave(node)],
    );
    match visit_resolved(builtins, r, module, Visit::Enter(node)) {
        Some(Ok(entered)) => {
            lemma_segments(builtins, entered, module, &name.segments, name.segments@.len());
            lemma_run_one(builtins, entered, module, Visit::Leave(node));
        },
        _ => {},
    }
}

proof fn lemma_plain_around(st: Naming, module: ModuleId, node: Node<'_>, inner: Seq<Visit<'_>>)
    requires
        all_plain(st, module, around(node, inner)),
    ensures
        all_plain(st, module, inner),
{
    lemma_plain_split(
        st,
        module,
        seq![Visit::Enter(node)] + inner,
        seq![Visit::Leave(node)],
    );
    lemma_plain_split(st, module, seq![Visit::Enter(node)], inner);
}

proof fn lemma_types(
    builtins: Builtins,
    r: Resolving,
    module: ModuleId,
    list: &Vec<Type>,
    n: nat,
)
    requires
        is_ready(r.st, module),
        all_plain(r.st, module, types_walk(list, n)),
    ensures
        keeps_scopes(builtins, r, module, types_walk(list, n)),
    decreases list, n,
{
    if n > 0 && n <= list@.len() {
        let front = types_walk(list, (n - 1) as nat);
        let last = type_visit(&list@[n - 1]);
        lemma_plain_split(r.st, module, front, last);
        lemma_types(builtins, r, module, list, (n - 1) as nat);
        match run(builtins, r, module, front) {
            Some(Ok(mid)) => {
                lemma_plain_same(r.st, mid.st, module, last);
                lemma_plain_around(
                    mid.st,
                    module,
                    Node::Type(&list@[n - 1]),
                    type_walk(&list@[n - 1]),
                );
                lemma_type(builtins, mid, module, &list@[n - 1]);
                lemma_around_nothing(
                    builtins,
                    mid,
                    module,
                    Node::Type(&list@[n - 1]),
                    type_walk(&list@[n - 1]),
                );
            },
            _ => {},
        }
        lemma_then(builtins, r, module, front, last);
    }
}

proof fn lemma_type(builtins: Builtins, r: Resolving, module: ModuleId, ty: &Type)
    requires
        is_ready(r.st, module),
        all_plain(r.st, module, type_walk(ty)),
    ensures
        keeps_scopes(builtins, r, module, type_walk(ty)),
    decreases ty, 0nat,
{
    match ty.kind {
        TypeKind::QualifiedIdentifier(name) => {
            lemma_name(builtins, r, module, &name, Some(Namespace::Type));
        },
        TypeKind::Pointer(inner) => {
            lemma_plain_around(r.st, module, Node::Type(&*inner), type_walk(&*inner));
            lemma_type(builtins, r, module, &*inner);
            lemma_around_nothing(builtins, r, module, Node::Type(&*inner), type_walk(&*inner));
        },
        TypeKind::Slice(inner) => {
            lemma_plain_around(r.st, module, Node::Type(&*inner), type_walk(&*inner));
            lemma_type(builtins, r, module, &*inner);
            lemma_around_nothing(builtins, r, module, Node::Type(&*inner), type_walk(&*inner));
        },
        TypeKind::Array { ty: inner, .. } => {
            lemma_plain_around(r.st, module, Node::Type(&*inner), type_walk(&*inner));
            lemma_type(builtins, r, module, &*inner);
            lemma_around_nothing(builtins, r, module, Node::Type(&*inner), type_walk(&*inner));
        },
        TypeKind::Tuple(list) => {
            lemma_types(builtins, r, module, &list, list@.len());
        },
        TypeKind::Unit | TypeKind::Any => {},
    }
}

proof fn lemma_type_visit(builtins: Builtins, r: Resolving, module: ModuleId, ty: &Type)
    requires
        is_ready(r.st, module),
        all_plain(r.st, module, type_visit(ty)),
    ensures
        keeps_scopes(builtins, r, module, type_visit(ty)),
{
    lemma_plain_around(r.st, module, Node::Type(ty), type_walk(ty));
    lemma_type(builtins, r, module, ty);
    lemma_around_nothing(builtins, r, module, Node::Type(ty), type_walk(ty));
}

proof fn lemma_expressions(
    builtins: Builtins,
    r: Resolving,
    module: ModuleId,
    list: &Vec<Expression>,
    n: nat,
)
    requires
        is_ready(r.st, module),
        all_plain(r.st, module, expressions_walk(list, n)),
    ensures
        keeps_scopes(builtins, r, module, expressions_walk(list, n)),
    decreases list, n,
{
    if n > 0 && n <= list@.len() {
        let front = expressions_walk(list, (n - 1) as nat);
        let last = expression_visit(&list@[n - 1]);
        lemma_plain_split(r.st, module, front, last);
        lemma_expressions(builtins, r, module, list, (n - 1) as nat);
        match run(builtins, r, module, front) {
            Some(Ok(mid)) => {
                lemma_plain_same(r.st, mid.st, module, last);
                lemma_expression_visit(builtins, mid, module, &list@[n - 1]);
            },
            _ => {},
        }
        lemma_then(builtins, r, module, front, last);
    }
}

proof fn lemma_initializers(
    builtins: Builtins,
    r: Resolving,
    module: ModuleId,
    list: &Vec<StructInitializerField>,
    n: nat,
)
    requires
        is_ready(r.st, module),
        all_plain(r.st, module, initializers_walk(list, n)),
    ensures
        keeps_scopes(builtins, r, module, initializers_walk(list, n)),
    decreases list, n,
{
    if n > 0 && n <= list@.len() {
        let front = initializers_walk(list, (n - 1) as nat);
        let field = &list@[n - 1];
        let name = leaf(Node::Identifier(&field.name));
        let value = expression_visit(&*field.value);
        let last = around(Node::StructInitializerField(field), name + value);
        lemma_plain_split(r.st, module, front, last);
        lemma_initializers(builtins, r, module, list, (n - 1) as nat);
        match run(builtins, r, module, front) {
            Some(Ok(mid)) => {
                lemma_plain_same(r.st, mid.st, module, last);
                lemma_plain_around(
                    mid.st,
                    module,
                    Node::StructInitializerField(field),
                    name + value,
                );
                lemma_plain_split(mid.st, module, name, value);
                lemma_leaf(builtins, mid, module, Node::Identifier(&field.name));
                lemma_expression_visit(builtins, mid, module, &*field.value);
                lemma_then(builtins, mid, module, name, value);
                lemma_around_nothing(
                    builtins,
                    mid,
                    module,
                    Node::StructInitializerField(field),
                    name + value,
                );
            },
            _ => {},
        }
        lemma_then(builtins, r, module, front, last);
    }
}

proof fn lemma_statements(
    builtins: Builtins,
    r: Resolving,
    module: ModuleId,
    list: &Vec<Statement>,
    n: nat,
)
    requires
        is_ready(r.st, module),
        r.scopes.len() > 0,
        all_plain(r.st, module, statements_walk(list, n)),
    ensures
        keeps_outer(builtins, r, module, statements_walk(list, n)),
    decreases list, n,
{
    if n > 0 && n <= list@.len() {
        let front = statements_walk(list, (n - 1) as nat);
        let statement = &list@[n - 1];
        let last = around(Node::Statement(statement), statement_walk(statement));
        lemma_plain_split(r.st, module, front, last);
        lemma_statements(builtins, r, module, list, (n - 1) as nat);
        match run(builtins, r, module, front) {
            Some(Ok(mid)) => {
                lemma_plain_same(r.st, mid.st, module, last);
                lemma_plain_around(
                    mid.st,
                    module,
                    Node::Statement(statement),
                    statement_walk(statement),
                );
                lemma_statement(builtins, mid, module, statement);
                lemma_around_nothing(
                    builtins,
                    mid,
                    module,
                    Node::Statement(statement),
                    statement_walk(statement),
                );
            },
            _ => {},
        }
        lemma_run_concat(builtins, r, module, front, last);
    }
}

proof fn lemma_statement(
    builtins: Builtins,
    r: Resolving,
    module: ModuleId,
    statement: &Statement,
)
    requires
        is_ready(r.st, module),
        r.scopes.len() > 0,
        all_plain(r.st, module, statement_walk(statement)),
    ensures
        keeps_outer(builtins, r, module, statement_walk(statement)),
    decreases statement, 0nat,
{
    match statement.kind {
        StatementKind::Local(local) => {
            lemma_plain_around(r.st, module, Node::Local(&*local), local_walk(&*local));
            lemma_local(builtins, r, module, &*local);
            let node = Node::Local(&*local);
            let enter = seq![Visit::Enter(node)];
            let inner = local_walk(&*local);
            lemma_run_one(builtins, r, module, Visit::Enter(node));
            lemma_run_concat(builtins, r, module, enter, inner);
            lemma_run_concat(builtins, r, module, enter + inner, seq![Visit::Leave(node)]);
            match run(builtins, r, module, inner) {
                Some(Ok(mid)) => {
                    lemma_run_one(builtins, mid, module, Visit::Leave(node));
                    match name_bound(mid, local.name, local.id) {
                        Some(Ok(done)) => {
                            assert(done.scopes.drop_last() =~= mid.scopes.drop_last());
                        },
                        _ => {},
                    }
                },
                _ => {},
            }
        },
        StatementKind::BareExpr(e) => {
            lemma_expression_visit(builtins, r, module, &*e);
        },
        StatementKind::SemiExpr(e) => {
            lemma_expression_visit(builtins, r, module, &*e);
        },
        StatementKind::Empty => {},
    }
}

proof fn lemma_local(builtins: Builtins, r: Resolving, module: ModuleId, local: &Local)
    requires
        is_ready(r.st, module),
        all_plain(r.st, module, local_walk(local)),
    ensures
        keeps_scopes(builtins, r, module, local_walk(local)),
    decreases local, 0nat,
{
    let name = leaf(Node::Identifier(&local.name));
    let ty = match local.ty {
        Some(t) => type_visit(&t),
        None => Seq::empty(),
    };
    let value = match local.kind {
        LocalKind::Declaration => Seq::empty(),
        LocalKind::Initialization(e) => expression_visit(&*e),
    };
    lemma_plain_split(r.st, module, name + ty, value);
    lemma_plain_split(r.st, module, name, ty);
    lemma_leaf(builtins, r, module, Node::Identifier(&local.name));
    match local.ty {
        Some(t) => {
            lemma_type_visit(builtins, r, module, &t);
        },
        None => {},
    }
    lemma_then(builtins, r, module, name, ty);
    match run(builtins, r, module, name + ty) {
        Some(Ok(mid)) => {
            lemma_plain_same(r.st, mid.st, module, value);
            match local.kind {
                LocalKind::Declaration => {},
                LocalKind::Initialization(e) => {
                    lemma_expression_visit(builtins, mid, module, &*e);
                },
            }
        },
        _ => {},
    }
    lemma_then(builtins, r, module, name + ty, value);
}

/// A block leaves the scopes around it as they were.
proof fn lemma_block_visit(builtins: Builtins, r: Resolving, module: ModuleId, block: &Block)
    requires
        is_ready(r.st, module),
        all_plain(r.st, module, block_visit(block)),
    ensures
        keeps_scopes(builtins, r, module, block_visit(block)),
    decreases block, 1nat,
{
    let node = Node::Block(block);
    let enter = seq![Visit::Enter(node)];
    let inner = block_walk(block);
    lemma_plain_around(r.st, module, node, inner);
    lemma_run_one(builtins, r, module, Visit::Enter(node));
    lemma_statements(builtins, r.inside(), module, &block.statements, block.statements@.len());
    lemma_run_concat(builtins, r, module, enter, inner);
    lemma_run_concat(builtins, r, module, enter + inner, seq![Visit::Leave(node)]);
    match run(builtins, r.inside(), module, inner) {
        Some(Ok(mid)) => {
            lemma_run_one(builtins, mid, module, Visit::Leave(node));
            assert(r.inside().scopes.drop_last() =~= r.scopes);
        },
        _ => {},
    }
}

proof fn lemma_expression_visit(
    builtins: Builtins,
    r: Resolving,
    module: ModuleId,
    expression: &Expression,
)
    requires
        is_ready(r.st, module),
        all_plain(r.st, module, expression_visit(expression)),
    ensures
        keeps_scopes(builtins, r, module, expression_visit(expression)),
    decreases expression, 1nat,
{
    let node = Node::Expression(expression);
    lemma_plain_around(r.st, module, node, expression_walk(expression));
    lemma_expression(builtins, r, module, expression);
    lemma_around_nothing(builtins, r, module, node, expression_walk(expression));
}

proof fn lemma_expression(
    builtins: Builtins,
    r: Resolving,
    module: ModuleId,
    expression: &Expression,
)
    requires
        is_ready(r.st, module),
        all_plain(r.st, module, expression_walk(expression)),
    ensures
        keeps_scopes(builtins, r, module, expression_walk(expression)),
    decreases expression, 0nat,
{
    match expression.kind {
        ExpressionKind::Literal(literal) => {
            lemma_leaf(builtins, r, module, Node::Literal(&*literal));
        },
        ExpressionKind::QualifiedIdentifier(name) => {
            lemma_name(builtins, r, module, &*name, Some(Namespace::Value));
        },
        ExpressionKind::This | ExpressionKind::Break | ExpressionKind::Continue => {},
        ExpressionKind::Grouping(e) => {
            lemma_expression_visit(builtins, r, module, &*e);
        },
        ExpressionKind::Tuple(list) => {
            lemma_expressions(builtins, r, module, &list, list@.len());
        },
        ExpressionKind::Array(initializer) => match *initializer {
            ArrayInitializer::Repeated { value, length } => {
                let front = expression_visit(&*value);
                let last = leaf(Node::Literal(&*length));
                lemma_plain_split(r.st, module, front, last);
                lemma_expression_visit(builtins, r, module, &*value);
                match run(builtins, r, module, front) {
                    Some(Ok(mid)) => {
                        lemma_leaf(builtins, mid, module, Node::Literal(&*length));
                    },
                    _ => {},
                }
                lemma_then(builtins, r, module, front, last);
            },
            ArrayInitializer::Specific(list) => {
                lemma_expressions(builtins, r, module, &list, list@.len());
            },
        },
        ExpressionKind::Struct { name, fields } => {
            let front = name_visit(&name, Some(Namespace::Type));
            let last = initializers_walk(&fields, fields@.len());
            lemma_plain_split(r.st, module, front, last);
            lemma_name(builtins, r, module, &name, Some(Namespace::Type));
            match run(builtins, r, module, front) {
                Some(Ok(mid)) => {
                    lemma_plain_same(r.st, mid.st, module, last);
                    lemma_initializers(builtins, mid, module, &fields, fields@.len());
                },
                _ => {},
            }
            lemma_then(builtins, r, module, front, last);
        },
        ExpressionKind::Block(block) => {
            lemma_block_visit(builtins, r, module, &*block);
        },
        ExpressionKind::FieldAccess { target, name, .. } => {
            let front = expression_visit(&*target);
            let last = leaf(Node::Identifier(&name));
            lemma_plain_split(r.st, module, front, last);
            lemma_expression_visit(builtins, r, module, &*target);
            match run(builtins, r, module, front) {
                Some(Ok(mid)) => {
                    lemma_leaf(builtins, mid, module, Node::Identifier(&name));
                },
                _ => {},
            }
            lemma_then(builtins, r, module, front, last);
        },
        ExpressionKind::FunctionCall { target, arguments } => {
            let front = expression_visit(&*target);
            let list = expressions_walk(&arguments.arguments, arguments.arguments@.len());
            let node = Node::FunctionCallArgumentList(&*arguments);
            let last = around(node, list);
            lemma_plain_split(r.st, module, front, last);
            lemma_expression_visit(builtins, r, module, &*target);
            match run(builtins, r, module, front) {
                Some(Ok(mid)) => {
                    lemma_plain_same(r.st, mid.st, module, last);
                    lemma_plain_around(mid.st, module, node, list);
                    lemma_expressions(
                        builtins,
                        mid,
                        module,
                        &arguments.arguments,
                        arguments.arguments@.len(),
                    );
                    lemma_around_nothing(builtins, mid, module, node, list);
                },
                _ => {},
            }
            lemma_then(builtins, r, module, front, last);
        },
        ExpressionKind::Subscript { target, index } => {
            let front = expression_visit(&*target);
            let last = expression_visit(&*index);
            lemma_plain_split(r.st, module, front, last);
            lemma_expression_visit(builtins, r, module, &*target);
            match run(builtins, r, module, front) {
                Some(Ok(mid)) => {
                    lemma_plain_same(r.st, mid.st, module, last);
                    lemma_expression_visit(builtins, mid, module, &*index);
                },
                _ => {},
            }
            lemma_then(builtins, r, module, front, last);
        },
        ExpressionKind::Binary { lhs, rhs, .. } => {
            let front = expression_visit(&*lhs);
            let last = expression_visit(&*rhs);
            lemma_plain_split(r.st, module, front, last);
            lemma_expression_visit(builtins, r, module, &*lhs);
            match run(builtins, r, module, front) {
                Some(Ok(mid)) => {
                    lemma_plain_same(r.st, mid.st, module, last);
                    lemma_expression_visit(builtins, mid, module, &*rhs);
                },
                _ => {},
            }
            lemma_then(builtins, r, module, front, last);
        },
        ExpressionKind::Unary { operand, .. } => {
            lemma_expression_visit(builtins, r, module, &*operand);
        },
        ExpressionKind::Cast { expression: e, ty } => {
            let front = expression_visit(&*e);
            let last = type_visit(&*ty);
            lemma_plain_split(r.st, module, front, last);
            lemma_expression_visit(builtins, r, module, &*e);
            match run(builtins, r, module, front) {
                Some(Ok(mid)) => {
                    lemma_plain_same(r.st, mid.st, module, last);
                    lemma_type_visit(builtins, mid, module, &*ty);
                },
                _ => {},
            }
            lemma_then(builtins, r, module, front, last);
        },
        ExpressionKind::If { condition, positive, negative } => {
            let test = expression_visit(&*condition);
            let taken = block_visit(&*positive);
            let other = match negative {
                Some(e) => expression_visit(&*e),
                None => Seq::empty(),
            };
            lemma_plain_split(r.st, module, test + taken, other);
            lemma_plain_split(r.st, module, test, taken);
            lemma_expression_visit(builtins, r, module, &*condition);
            match run(builtins, r, module, test) {
                Some(Ok(mid)) => {
                    lemma_plain_same(r.st, mid.st, module, taken);
                    lemma_block_visit(builtins, mid, module, &*positive);
                },
                _ => {},
            }
            lemma_then(builtins, r, module, test, taken);
            match run(builtins, r, module, test + taken) {
                Some(Ok(mid)) => {
                    lemma_plain_same(r.st, mid.st, module, other);
                    match negative {
                        Some(e) => {
                            lemma_expression_visit(builtins, mid, module, &*e);
                        },
                        None => {},
                    }
                },
                _ => {},
            }
            lemma_then(builtins, r, module, test + taken, other);
        },
        ExpressionKind::While { condition, block } => {
            let front = expression_visit(&*condition);
            let last = block_visit(&*block);
            lemma_plain_split(r.st, module, front, last);
            lemma_expression_visit(builtins, r, module, &*condition);
            match run(builtins, r, module, front) {
                Some(Ok(mid)) => {
                    lemma_plain_same(r.st, mid.st, module, last);
                    lemma_block_visit(builtins, mid, module, &*block);
                },
                _ => {},
            }
            lemma_then(builtins, r, module, front, last);
        },
        ExpressionKind::Assignment { lhs, rhs } => {
            let front = expression_visit(&*lhs);
            let last = expression_visit(&*rhs);
            lemma_plain_split(r.st, module, front, last);
            lemma_expression_visit(builtins, r, module, &*lhs);
            match run(builtins, r, module, front) {
                Some(Ok(mid)) => {
                    lemma_plain_same(r.st, mid.st, module, last);
                    lemma_expression_visit(builtins, mid, module, &*rhs);
                },
                _ => {},
            }
            lemma_then(builtins, r, module, front, last);
        },
        ExpressionKind::OperatorAssignment { lhs, rhs, .. } => {
            let front = expression_visit(&*lhs);
            let last = expression_visit(&*rhs);
            lemma_plain_split(r.st, module, front, last);
            lemma_expression_visit(builtins, r, module, &*lhs);
            match run(builtins, r, module, front) {
                Some(Ok(mid)) => {
                    lemma_plain_same(r.st, mid.st, module, last);
                    lemma_expression_visit(builtins, mid, module, &*rhs);
                },
                _ => {},
            }
            lemma_then(builtins, r, module, front, last);
        },
        ExpressionKind::Return(value) => match value {
            Some(e) => {
                lemma_expression_visit(builtins, r, module, &*e);
            },
            None => {},
        },
    }
}

/// A walk that keeps the outer scopes keeps them with one that keeps all.
proof fn lemma_then_outer(
    builtins: Builtins,
    r: Resolving,
    module: ModuleId,
    a: Seq<Visit<'_>>,
    b: Seq<Visit<'_>>,
)
    requires
        keeps_outer(builtins, r, module, a),
        run(builtins, r, module, a)->0 is Ok ==> keeps_outer(
            builtins,
            run(builtins, r, module, a)->0->Ok_0,
            module,
            b,
        ),
    ensures
        keeps_outer(builtins, r, module, a + b),
{
    lemma_run_concat(builtins, r, module, a, b);
}

proof fn lemma_parameters(
    builtins: Builtins,
    r: Resolving,
    module: ModuleId,
    list: &Vec<FunctionParameter>,
    n: nat,
)
    requires
        is_ready(r.st, module),
        r.scopes.len() > 0,
        all_plain(r.st, module, parameters_walk(list, n)),
    ensures
        keeps_outer(builtins, r, module, parameters_walk(list, n)),
    decreases n,
{
    if n > 0 && n <= list@.len() {
        let front = parameters_walk(list, (n - 1) as nat);
        let parameter = &list@[n - 1];
        let node = Node::FunctionParameter(parameter);
        let inner = parameter_walk(parameter);
        let last = around(node, inner);
        lemma_plain_split(r.st, module, front, last);
        lemma_parameters(builtins, r, module, list, (n - 1) as nat);
        match run(builtins, r, module, front) {
            Some(Ok(mid)) => {
                lemma_plain_same(r.st, mid.st, module, last);
                lemma_parameter(builtins, mid, module, parameter);
            },
            _ => {},
        }
        lemma_then_outer(builtins, r, module, front, last);
    }
}

proof fn lemma_parameter(
    builtins: Builtins,
    r: Resolving,
    module: ModuleId,
    parameter: &FunctionParameter,
)
    requires
        is_ready(r.st, module),
        r.scopes.len() > 0,
        all_plain(
            r.st,
            module,
            around(Node::FunctionParameter(parameter), parameter_walk(parameter)),
        ),
    ensures
        keeps_outer(
            builtins,
            r,
            module,
            around(Node::FunctionParameter(parameter), parameter_walk(parameter)),
        ),
{
    let node = Node::FunctionParameter(parameter);
    let inner = parameter_walk(parameter);
    let name = leaf(Node::Identifier(&parameter.name));
    let ty = type_visit(&*parameter.ty);
    lemma_plain_around(r.st, module, node, inner);
    lemma_plain_split(r.st, module, name, ty);
    lemma_run_one(builtins, r, module, Visit::Enter(node));
    lemma_run_concat(builtins, r, module, seq![Visit::Enter(node)], inner);
    lemma_run_concat(
        builtins,
        r,
        module,
        seq![Visit::Enter(node)] + inner,
        seq![Visit::Leave(node)],
    );
    match name_bound(r, parameter.name, parameter.id) {
        Some(Ok(bound)) => {
            assert(bound.scopes.drop_last() =~= r.scopes.drop_last());
            lemma_leaf(builtins, bound, module, Node::Identifier(&parameter.name));
            lemma_type_visit(builtins, bound, module, &*parameter.ty);
            lemma_then(builtins, bound, module, name, ty);
            match run(builtins, bound, module, inner) {
                Some(Ok(mid)) => lemma_run_one(builtins, mid, module, Visit::Leave(node)),
                _ => {},
            }
        },
        _ => {},
    }
}

proof fn lemma_function(
    builtins: Builtins,
    r: Resolving,
    module: ModuleId,
    function: &FunctionDefinition,
)
    requires
        is_ready(r.st, module),
        r.scopes.len() == 0,
        all_plain(
            r.st,
            module,
            around(Node::FunctionDefinition(function), function_walk(function)),
        ),
    ensures
        keeps_scopes(
            builtins,
            r,
            module,
            around(Node::FunctionDefinition(function), function_walk(function)),
        ),
{
    let node = Node::FunctionDefinition(function);
    let inner = function_walk(function);
    let visits = around(node, inner);
    assert(visits[0] == Visit::Enter(node));
    assert(is_plain(r.st, module, visits[0]));
    lemma_plain_around(r.st, module, node, inner);
    lemma_run_one(builtins, r, module, Visit::Enter(node));
    lemma_run_concat(builtins, r, module, seq![Visit::Enter(node)], inner);
    lemma_run_concat(
        builtins,
        r,
        module,
        seq![Visit::Enter(node)] + inner,
        seq![Visit::Leave(node)],
    );
    match visit_resolved(builtins, r, module, Visit::Enter(node)) {
        Some(Ok(entered)) => {
            lemma_plain_same(r.st, entered.st, module, inner);
            lemma_function_inner(builtins, entered, module, function);
            match run(builtins, entered, module, inner) {
                Some(Ok(mid)) => {
                    lemma_run_one(builtins, mid, module, Visit::Leave(node));
                    assert(mid.scopes.drop_last() =~= r.scopes);
                },
                _ => {},
            }
        },
        _ => {},
    }
}

proof fn lemma_signature(
    builtins: Builtins,
    r: Resolving,
    module: ModuleId,
    function: &FunctionDefinition,
)
    requires
        is_ready(r.st, module),
        r.scopes.len() > 0,
        all_plain(r.st, module, signature_walk(&function.signature)),
    ensures
        keeps_outer(builtins, r, module, signature_walk(&function.signature)),
{
    let signature = &function.signature;
    let name = name_visit(&signature.name, Some(Namespace::Value));
    let list = &signature.parameters.parameters;
    let node = Node::FunctionParameterList(&signature.parameters);
    let params = around(node, parameters_walk(list, list@.len()));
    let ty = match signature.return_type {
        Some(t) => type_visit(&*t),
        None => Seq::empty(),
    };
    lemma_plain_split(r.st, module, name + params, ty);
    lemma_plain_split(r.st, module, name, params);
    lemma_name(builtins, r, module, &signature.name, Some(Namespace::Value));
    match run(builtins, r, module, name) {
        Some(Ok(mid)) => {
            lemma_plain_same(r.st, mid.st, module, params);
            lemma_plain_around(mid.st, module, node, parameters_walk(list, list@.len()));
            lemma_parameters(builtins, mid, module, list, list@.len());
            lemma_around_nothing(
                builtins,
                mid,
                module,
                node,
                parameters_walk(list, list@.len()),
            );
        },
        _ => {},
    }
    lemma_then_outer(builtins, r, module, name, params);
    match run(builtins, r, module, name + params) {
        Some(Ok(mid)) => {
            lemma_plain_same(r.st, mid.st, module, ty);
            match signature.return_type {
                Some(t) => {
                    lemma_type_visit(builtins, mid, module, &*t);
                },
                None => {},
            }
        },
        _ => {},
    }
    lemma_then_outer(builtins, r, module, name + params, ty);
}

proof fn lemma_function_inner(
    builtins: Builtins,
    r: Resolving,
    module: ModuleId,
    function: &FunctionDefinition,
)
    requires
        is_ready(r.st, module),
        r.scopes.len() > 0,
        all_plain(r.st, module, function_walk(function)),
    ensures
        keeps_outer(builtins, r, module, function_walk(function)),
{
    let node = Node::FunctionSignature(&function.signature);
    let head = around(node, signature_walk(&function.signature));
    let body = block_visit(&function.body);
    lemma_plain_split(r.st, module, head, body);
    lemma_plain_around(r.st, module, node, signature_walk(&function.signature));
    lemma_signature(builtins, r, module, function);
    lemma_around_nothing(builtins, r, module, node, signature_walk(&function.signature));
    match run(builtins, r, module, head) {
        Some(Ok(mid)) => {
            lemma_plain_same(r.st, mid.st, module, body);
            lemma_block_visit(builtins, mid, module, &function.body);
        },
        _ => {},
    }
    lemma_then_outer(builtins, r, module, head, body);
}

proof fn lemma_fields(
    builtins: Builtins,
    r: Resolving,
    module: ModuleId,
    list: &Vec<StructField>,
    n: nat,
)
    requires
        is_ready(r.st, module),
        all_plain(r.st, module, fields_walk(list, n)),
    ensures
        keeps_scopes(builtins, r, module, fields_walk(list, n)),
    decreases n,
{
    if n > 0 && n <= list@.len() {
        let front = fields_walk(list, (n - 1) as nat);
        let field = &list@[n - 1];
        let node = Node::StructField(field);
        let name = leaf(Node::Identifier(&field.name));
        let ty = type_visit(&*field.ty);
        let last = around(node, name + ty);
        lemma_plain_split(r.st, module, front, last);
        lemma_fields(builtins, r, module, list, (n - 1) as nat);
        match run(builtins, r, module, front) {
            Some(Ok(mid)) => {
                lemma_plain_same(r.st, mid.st, module, last);
                lemma_plain_around(mid.st, module, node, name + ty);
                lemma_named_type(builtins, mid, module, &field.name, &*field.ty);
                lemma_around_nothing(builtins, mid, module, node, name + ty);
            },
            _ => {},
        }
        lemma_then(builtins, r, module, front, last);
    }
}

/// A name with a type behind it.
proof fn lemma_named_type(
    builtins: Builtins,
    r: Resolving,
    module: ModuleId,
    name: &Identifier,
    ty: &Type,
)
    requires
        is_ready(r.st, module),
        all_plain(r.st, module, leaf(Node::Identifier(name)) + type_visit(ty)),
    ensures
        keeps_scopes(builtins, r, module, leaf(Node::Identifier(name)) + type_visit(ty)),
{
    let front = leaf(Node::Identifier(name));
    lemma_plain_split(r.st, module, front, type_visit(ty));
    lemma_leaf(builtins, r, module, Node::Identifier(name));
    lemma_type_visit(builtins, r, module, ty);
    lemma_then(builtins, r, module, front, type_visit(ty));
}

proof fn lemma_variants(
    builtins: Builtins,
    r: Resolving,
    module: ModuleId,
    list: &Vec<EnumVariant>,
    n: nat,
)
    ensures
        keeps_scopes(builtins, r, module, variants_walk(list, n)),
    decreases n,
{
    if n > 0 && n <= list@.len() {
        let front = variants_walk(list, (n - 1) as nat);
        let variant = &list@[n - 1];
        let node = Node::EnumVariant(variant);
        let name = leaf(Node::Identifier(&variant.name));
        lemma_variants(builtins, r, module, list, (n - 1) as nat);
        match run(builtins, r, module, front) {
            Some(Ok(mid)) => {
                lemma_leaf(builtins, mid, module, Node::Identifier(&variant.name));
                lemma_around_nothing(builtins, mid, module, node, name);
            },
            _ => {},
        }
        lemma_then(builtins, r, module, front, around(node, name));
    }
}

proof fn lemma_static(builtins: Builtins, r: Resolving, module: ModuleId, static_: &Static)
    requires
        is_ready(r.st, module),
        r.scopes.len() == 0,
        all_plain(r.st, module, around(Node::Static(static_), static_walk(static_))),
    ensures
        keeps_scopes(
            builtins,
            r,
            module,
            around(Node::Static(static_), static_walk(static_)),
        ),
{
    let node = Node::Static(static_);
    let inner = static_walk(static_);
    let front = leaf(Node::Identifier(&static_.name)) + type_visit(&*static_.ty);
    let last = expression_visit(&*static_.initializer);
    lemma_plain_around(r.st, module, node, inner);
    lemma_plain_split(r.st, module, front, last);
    lemma_run_one(builtins, r, module, Visit::Enter(node));
    lemma_run_concat(builtins, r, module, seq![Visit::Enter(node)], inner);
    lemma_run_concat(
        builtins,
        r,
        module,
        seq![Visit::Enter(node)] + inner,
        seq![Visit::Leave(node)],
    );
    let entered = r.inside();
    lemma_named_type(builtins, entered, module, &static_.name, &*static_.ty);
    match run(builtins, entered, module, front) {
        Some(Ok(mid)) => {
            lemma_plain_same(r.st, mid.st, module, last);
            lemma_expression_visit(builtins, mid, module, &*static_.initializer);
        },
        _ => {},
    }
    lemma_then(builtins, entered, module, front, last);
    match run(builtins, entered, module, inner) {
        Some(Ok(mid)) => {
            lemma_run_one(builtins, mid, module, Visit::Leave(node));
            assert(entered.scopes.drop_last() =~= r.scopes);
        },
        _ => {},
    }
}

proof fn lemma_item(builtins: Builtins, r: Resolving, module: ModuleId, item: &Item)
    requires
        is_ready(r.st, module),
        r.scopes.len() == 0,
        all_plain(r.st, module, item_walk(item)),
    ensures
        keeps_scopes(builtins, r, module, item_walk(item)),
{
    match item.kind {
        ItemKind::FunctionDefinition(function) => {
            lemma_function(builtins, r, module, &*function);
        },
        ItemKind::StructDefinition(definition) => {
            let node = Node::StructDefinition(&*definition);
            let name = leaf(Node::Identifier(&definition.name));
            let fields = fields_walk(&definition.fields, definition.fields@.len());
            lemma_plain_around(r.st, module, node, struct_walk(&*definition));
            lemma_plain_split(r.st, module, name, fields);
            lemma_leaf(builtins, r, module, Node::Identifier(&definition.name));
            lemma_fields(builtins, r, module, &definition.fields, definition.fields@.len());
            lemma_then(builtins, r, module, name, fields);
            lemma_around_nothing(builtins, r, module, node, struct_walk(&*definition));
        },
        ItemKind::EnumDefinition(definition) => {
            let node = Node::EnumDefinition(&*definition);
            let name = leaf(Node::Identifier(&definition.name));
            let variants = variants_walk(&definition.variants, definition.variants@.len());
            lemma_leaf(builtins, r, module, Node::Identifier(&definition.name));
            lemma_variants(builtins, r, module, &definition.variants, definition.variants@.len());
            lemma_then(builtins, r, module, name, variants);
            lemma_around_nothing(builtins, r, module, node, name + variants);
        },
        ItemKind::TypeAlias(alias) => {
            let node = Node::TypeAlias(&*alias);
            let inner = leaf(Node::Identifier(&alias.name)) + type_visit(&*alias.ty);
            lemma_plain_around(r.st, module, node, inner);
            lemma_named_type(builtins, r, module, &alias.name, &*alias.ty);
            lemma_around_nothing(builtins, r, module, node, inner);
        },
        ItemKind::Static(static_) => {
            lemma_static(builtins, r, module, &*static_);
        },
        ItemKind::Module(name) => {
            lemma_leaf(builtins, r, module, Node::Identifier(&name));
        },
        ItemKind::Import(import) => {
            let node = Node::Import(&*import);
            let inner = name_visit(&import.name, None);
            lemma_plain_around(r.st, module, node, inner);
            lemma_name(builtins, r, module, &import.name, None);
            lemma_around_nothing(builtins, r, module, node, inner);
        },
    }
}

proof fn lemma_items(
    builtins: Builtins,
    r: Resolving,
    module: ModuleId,
    list: &Vec<Item>,
    n: nat,
)
    requires
        is_ready(r.st, module),
        r.scopes.len() == 0,
        all_plain(r.st, module, items_walk(list, n)),
    ensures
        keeps_scopes(builtins, r, module, items_walk(list, n)),
    decreases n,
{
    if n > 0 && n <= list@.len() {
        let front = items_walk(list, (n - 1) as nat);
        let item = &list@[n - 1];
        let last = item_visit(item);
        lemma_plain_split(r.st, module, front, last);
        lemma_items(builtins, r, module, list, (n - 1) as nat);
        match run(builtins, r, module, front) {
            Some(Ok(mid)) => {
                lemma_plain_same(r.st, mid.st, module, last);
                lemma_plain_around(mid.st, module, Node::Item(item), item_walk(item));
                lemma_item(builtins, mid, module, item);
                lemma_around_nothing(builtins, mid, module, Node::Item(item), item_walk(item));
            },
            _ => {},
        }
        lemma_then(builtins, r, module, front, last);
    }
}

/// Resolving the names of an expression comes to an end or to an error, and
/// leaves the scopes around it as they were.
pub proof fn law_expression_keeps_scopes(
    builtins: Builtins,
    r: Resolving,
    module: ModuleId,
    expression: &Expression,
)
    requires
        is_ready(r.st, module),
        all_plain(r.st, module, expression_visit(expression)),
    ensures
        keeps_scopes(builtins, r, module, expression_visit(expression)),
{
    lemma_expression_visit(builtins, r, module, expression);
}

/// Resolving the names of a block comes to an end or to an error, and leaves
/// the scopes around it as they were.
pub proof fn law_block_keeps_scopes(
    builtins: Builtins,
    r: Resolving,
    module: ModuleId,
    block: &Block,
)
    requires
        is_ready(r.st, module),
        all_plain(r.st, module, block_visit(block)),
    ensures
        keeps_scopes(builtins, r, module, block_visit(block)),
{
    lemma_block_visit(builtins, r, module, block);
}

/// Resolving the names of a module from outside of all scopes comes to an end
/// or to an error, outside of all scopes.
pub proof fn law_module_resolves(
    builtins: Builtins,
    st: Naming,
    module: &Module,
)
    requires
        is_ready(st, module.id),
        all_plain(st, module.id, module_walk(module)),
    ensures
        keeps_scopes(
            builtins,
            (Resolving { st, scopes: Seq::empty() }),
            module.id,
            module_walk(module),
        ),
{
    lemma_items(
        builtins,
        Resolving { st, scopes: Seq::empty() },
        module.id,
        &module.items,
        module.items@.len(),
    );
}

} // verus!
