//! Walks the tree in DFS order

use crate::frontend::ast::{
    ArrayInitializer, Block, EnumDefinition, EnumVariant, Expression, ExpressionKind,
    FunctionCallArgumentList, FunctionDefinition, FunctionParameter, FunctionParameterList,
    FunctionSignature, Identifier, Import, Item, ItemKind, Literal, Local, LocalKind, Module,
    QualifiedIdentifier, Statement, StatementKind, Static, StructDefinition, StructField,
    StructInitializerField, Type, TypeAlias, TypeKind,
};
use crate::middle::resolve::Namespace;
use vstd::prelude::*;

verus! {

/// A node of the tree.
#[derive(Clone, Copy)]
pub enum Node<'ast> {
    Item(&'ast Item),
    FunctionDefinition(&'ast FunctionDefinition),
    FunctionSignature(&'ast FunctionSignature),
    FunctionParameterList(&'ast FunctionParameterList),
    FunctionParameter(&'ast FunctionParameter),
    StructDefinition(&'ast StructDefinition),
    StructField(&'ast StructField),
    EnumDefinition(&'ast EnumDefinition),
    EnumVariant(&'ast EnumVariant),
    TypeAlias(&'ast TypeAlias),
    Static(&'ast Static),
    Import(&'ast Import),
    Identifier(&'ast Identifier),
    Type(&'ast Type),
    /// The names in imports stand for both values and types.
    QualifiedIdentifier(&'ast QualifiedIdentifier, Option<Namespace>),
    Block(&'ast Block),
    Statement(&'ast Statement),
    Local(&'ast Local),
    Expression(&'ast Expression),
    StructInitializerField(&'ast StructInitializerField),
    Literal(&'ast Literal),
    FunctionCallArgumentList(&'ast FunctionCallArgumentList),
}

/// A step of a walk: a node is entered before the nodes within it, and left
/// after them.
#[derive(Clone, Copy)]
pub enum Visit<'ast> {
    Enter(Node<'ast>),
    Leave(Node<'ast>),
}

/// A node with what is walked within it.
pub open spec fn around<'ast>(node: Node<'ast>, inner: Seq<Visit<'ast>>) -> Seq<Visit<'ast>> {
    seq![Visit::Enter(node)] + inner + seq![Visit::Leave(node)]
}

/// A node with nothing within it.
pub open spec fn leaf<'ast>(node: Node<'ast>) -> Seq<Visit<'ast>> {
    seq![Visit::Enter(node), Visit::Leave(node)]
}

/// The segments of a name, up to the first `n`.
pub open spec fn segments_walk<'ast>(list: &'ast Vec<Identifier>, n: nat) -> Seq<Visit<'ast>>
    decreases n,
{
    if n == 0 || n > list@.len() {
        Seq::empty()
    } else {
        segments_walk(list, (n - 1) as nat) + leaf(Node::Identifier(&list@[n - 1]))
    }
}

/// A name with its segments.
pub open spec fn name_visit<'ast>(
    name: &'ast QualifiedIdentifier,
    namespace: Option<Namespace>,
) -> Seq<Visit<'ast>> {
    around(
        Node::QualifiedIdentifier(name, namespace),
        segments_walk(&name.segments, name.segments@.len()),
    )
}

/// The types of a list, up to the first `n`.
pub open spec fn types_walk<'ast>(list: &'ast Vec<Type>, n: nat) -> Seq<Visit<'ast>>
    decreases list, n,
{
    if n == 0 || n > list@.len() {
        Seq::empty()
    } else {
        types_walk(list, (n - 1) as nat) + around(
            Node::Type(&list@[n - 1]),
            type_walk(&list@[n - 1]),
        )
    }
}

/// What is within a type.
pub open spec fn type_walk<'ast>(ty: &'ast Type) -> Seq<Visit<'ast>>
    decreases ty, 0nat,
{
    match ty.kind {
        TypeKind::QualifiedIdentifier(name) => name_visit(&name, Some(Namespace::Type)),
        TypeKind::Pointer(inner) => around(Node::Type(&*inner), type_walk(&*inner)),
        TypeKind::Slice(inner) => around(Node::Type(&*inner), type_walk(&*inner)),
        TypeKind::Array { ty: inner, .. } => around(Node::Type(&*inner), type_walk(&*inner)),
        TypeKind::Tuple(list) => types_walk(&list, list@.len()),
        TypeKind::Unit | TypeKind::Any => Seq::empty(),
    }
}

/// A type.
pub open spec fn type_visit<'ast>(ty: &'ast Type) -> Seq<Visit<'ast>> {
    around(Node::Type(ty), type_walk(ty))
}

/// The expressions of a list, up to the first `n`.
pub open spec fn expressions_walk<'ast>(list: &'ast Vec<Expression>, n: nat) -> Seq<Visit<'ast>>
    decreases list, n,
{
    if n == 0 || n > list@.len() {
        Seq::empty()
    } else {
        expressions_walk(list, (n - 1) as nat) + around(
            Node::Expression(&list@[n - 1]),
            expression_walk(&list@[n - 1]),
        )
    }
}

/// The fields of a structure with their values, up to the first `n`.
pub open spec fn initializers_walk<'ast>(
    list: &'ast Vec<StructInitializerField>,
    n: nat,
) -> Seq<Visit<'ast>>
    decreases list, n,
{
    if n == 0 || n > list@.len() {
        Seq::empty()
    } else {
        initializers_walk(list, (n - 1) as nat) + around(
            Node::StructInitializerField(&list@[n - 1]),
            leaf(Node::Identifier(&list@[n - 1].name)) + around(
                Node::Expression(&*list@[n - 1].value),
                expression_walk(&*list@[n - 1].value),
            ),
        )
    }
}

/// The statements of a list, up to the first `n`.
pub open spec fn statements_walk<'ast>(list: &'ast Vec<Statement>, n: nat) -> Seq<Visit<'ast>>
    decreases list, n,
{
    if n == 0 || n > list@.len() {
        Seq::empty()
    } else {
        statements_walk(list, (n - 1) as nat) + around(
            Node::Statement(&list@[n - 1]),
            statement_walk(&list@[n - 1]),
        )
    }
}

/// What is within a block.
pub open spec fn block_walk<'ast>(block: &'ast Block) -> Seq<Visit<'ast>>
    decreases block, 0nat,
{
    statements_walk(&block.statements, block.statements@.len())
}

/// What is within a statement.
pub open spec fn statement_walk<'ast>(statement: &'ast Statement) -> Seq<Visit<'ast>>
    decreases statement, 0nat,
{
    match statement.kind {
        StatementKind::Local(local) => around(Node::Local(&*local), local_walk(&*local)),
        StatementKind::BareExpr(e) => around(Node::Expression(&*e), expression_walk(&*e)),
        StatementKind::SemiExpr(e) => around(Node::Expression(&*e), expression_walk(&*e)),
        StatementKind::Empty => Seq::empty(),
    }
}

/// What is within a binding.
pub open spec fn local_walk<'ast>(local: &'ast Local) -> Seq<Visit<'ast>>
    decreases local, 0nat,
{
    leaf(Node::Identifier(&local.name)) + (match local.ty {
        Some(ty) => type_visit(&ty),
        None => Seq::empty(),
    }) + (match local.kind {
        LocalKind::Declaration => Seq::empty(),
        LocalKind::Initialization(e) => around(Node::Expression(&*e), expression_walk(&*e)),
    })
}

/// What is within an expression.
pub open spec fn expression_walk<'ast>(expression: &'ast Expression) -> Seq<Visit<'ast>>
    decreases expression, 0nat,
{
    match expression.kind {
        ExpressionKind::Literal(literal) => leaf(Node::Literal(&*literal)),
        ExpressionKind::QualifiedIdentifier(name) => name_visit(&*name, Some(Namespace::Value)),
        ExpressionKind::This | ExpressionKind::Break | ExpressionKind::Continue => Seq::empty(),
        ExpressionKind::Grouping(e) => around(Node::Expression(&*e), expression_walk(&*e)),
        ExpressionKind::Tuple(list) => expressions_walk(&list, list@.len()),
        ExpressionKind::Array(initializer) => match *initializer {
            ArrayInitializer::Repeated { value, length } => around(
                Node::Expression(&*value),
                expression_walk(&*value),
            ) + leaf(Node::Literal(&*length)),
            ArrayInitializer::Specific(list) => expressions_walk(&list, list@.len()),
        },
        ExpressionKind::Struct { name, fields } => name_visit(&name, Some(Namespace::Type))
            + initializers_walk(&fields, fields@.len()),
        ExpressionKind::Block(block) => around(Node::Block(&*block), block_walk(&*block)),
        ExpressionKind::FieldAccess { target, name, .. } => around(
            Node::Expression(&*target),
            expression_walk(&*target),
        ) + leaf(Node::Identifier(&name)),
        ExpressionKind::FunctionCall { target, arguments } => around(
            Node::Expression(&*target),
            expression_walk(&*target),
        ) + around(
            Node::FunctionCallArgumentList(&*arguments),
            expressions_walk(&arguments.arguments, arguments.arguments@.len()),
        ),
        ExpressionKind::Subscript { target, index } => around(
            Node::Expression(&*target),
            expression_walk(&*target),
        ) + around(Node::Expression(&*index), expression_walk(&*index)),
        ExpressionKind::Binary { lhs, rhs, .. } => around(
            Node::Expression(&*lhs),
            expression_walk(&*lhs),
        ) + around(Node::Expression(&*rhs), expression_walk(&*rhs)),
        ExpressionKind::Unary { operand, .. } => around(
            Node::Expression(&*operand),
            expression_walk(&*operand),
        ),
        ExpressionKind::Cast { expression: e, ty } => around(
            Node::Expression(&*e),
            expression_walk(&*e),
        ) + type_visit(&*ty),
        ExpressionKind::If { condition, positive, negative } => around(
            Node::Expression(&*condition),
            expression_walk(&*condition),
        ) + around(Node::Block(&*positive), block_walk(&*positive)) + (match negative {
            Some(e) => around(Node::Expression(&*e), expression_walk(&*e)),
            None => Seq::empty(),
        }),
        ExpressionKind::While { condition, block } => around(
            Node::Expression(&*condition),
            expression_walk(&*condition),
        ) + around(Node::Block(&*block), block_walk(&*block)),
        ExpressionKind::Assignment { lhs, rhs } => around(
            Node::Expression(&*lhs),
            expression_walk(&*lhs),
        ) + around(Node::Expression(&*rhs), expression_walk(&*rhs)),
        ExpressionKind::OperatorAssignment { lhs, rhs, .. } => around(
            Node::Expression(&*lhs),
            expression_walk(&*lhs),
        ) + around(Node::Expression(&*rhs), expression_walk(&*rhs)),
        ExpressionKind::Return(value) => match value {
            Some(e) => around(Node::Expression(&*e), expression_walk(&*e)),
            None => Seq::empty(),
        },
    }
}

/// An expression.
pub open spec fn expression_visit<'ast>(expression: &'ast Expression) -> Seq<Visit<'ast>> {
    around(Node::Expression(expression), expression_walk(expression))
}

/// A block.
pub open spec fn block_visit<'ast>(block: &'ast Block) -> Seq<Visit<'ast>> {
    around(Node::Block(block), block_walk(block))
}

/// The parameters of a function, up to the first `n`.
pub open spec fn parameters_walk<'ast>(list: &'ast Vec<FunctionParameter>, n: nat) -> Seq<
    Visit<'ast>,
>
    decreases n,
{
    if n == 0 || n > list@.len() {
        Seq::empty()
    } else {
        parameters_walk(list, (n - 1) as nat) + around(
            Node::FunctionParameter(&list@[n - 1]),
            parameter_walk(&list@[n - 1]),
        )
    }
}

/// What is within a parameter.
pub open spec fn parameter_walk<'ast>(parameter: &'ast FunctionParameter) -> Seq<Visit<'ast>> {
    leaf(Node::Identifier(&parameter.name)) + type_visit(&*parameter.ty)
}

/// What is within the signature of a function.
pub open spec fn signature_walk<'ast>(signature: &'ast FunctionSignature) -> Seq<Visit<'ast>> {
    name_visit(&signature.name, Some(Namespace::Value)) + around(
        Node::FunctionParameterList(&signature.parameters),
        parameters_walk(
            &signature.parameters.parameters,
            signature.parameters.parameters@.len(),
        ),
    ) + (match signature.return_type {
        Some(ty) => type_visit(&*ty),
        None => Seq::empty(),
    })
}

/// What is within a function.
pub open spec fn function_walk<'ast>(function: &'ast FunctionDefinition) -> Seq<Visit<'ast>> {
    around(
        Node::FunctionSignature(&function.signature),
        signature_walk(&function.signature),
    ) + block_visit(&function.body)
}

/// The fields of a structure, up to the first `n`.
pub open spec fn fields_walk<'ast>(list: &'ast Vec<StructField>, n: nat) -> Seq<Visit<'ast>>
    decreases n,
{
    if n == 0 || n > list@.len() {
        Seq::empty()
    } else {
        fields_walk(list, (n - 1) as nat) + around(
            Node::StructField(&list@[n - 1]),
            leaf(Node::Identifier(&list@[n - 1].name)) + type_visit(&*list@[n - 1].ty),
        )
    }
}

/// The variants of an enum, up to the first `n`.
pub open spec fn variants_walk<'ast>(list: &'ast Vec<EnumVariant>, n: nat) -> Seq<Visit<'ast>>
    decreases n,
{
    if n == 0 || n > list@.len() {
        Seq::empty()
    } else {
        variants_walk(list, (n - 1) as nat) + around(
            Node::EnumVariant(&list@[n - 1]),
            leaf(Node::Identifier(&list@[n - 1].name)),
        )
    }
}

/// What is within a structure.
pub open spec fn struct_walk<'ast>(definition: &'ast StructDefinition) -> Seq<Visit<'ast>> {
    leaf(Node::Identifier(&definition.name)) + fields_walk(
        &definition.fields,
        definition.fields@.len(),
    )
}

/// What is within an enum.
pub open spec fn enum_walk<'ast>(definition: &'ast EnumDefinition) -> Seq<Visit<'ast>> {
    leaf(Node::Identifier(&definition.name)) + variants_walk(
        &definition.variants,
        definition.variants@.len(),
    )
}

/// What is within an alias.
pub open spec fn alias_walk<'ast>(alias: &'ast TypeAlias) -> Seq<Visit<'ast>> {
    leaf(Node::Identifier(&alias.name)) + type_visit(&*alias.ty)
}

/// What is within a static variable.
pub open spec fn static_walk<'ast>(static_: &'ast Static) -> Seq<Visit<'ast>> {
    leaf(Node::Identifier(&static_.name)) + type_visit(&*static_.ty) + expression_visit(
        &*static_.initializer,
    )
}

/// What is within an item.
pub open spec fn item_walk<'ast>(item: &'ast Item) -> Seq<Visit<'ast>> {
    match item.kind {
        ItemKind::FunctionDefinition(function) => around(
            Node::FunctionDefinition(&*function),
            function_walk(&*function),
        ),
        ItemKind::StructDefinition(definition) => around(
            Node::StructDefinition(&*definition),
            struct_walk(&*definition),
        ),
        ItemKind::EnumDefinition(definition) => around(
            Node::EnumDefinition(&*definition),
            enum_walk(&*definition),
        ),
        ItemKind::TypeAlias(alias) => around(Node::TypeAlias(&*alias), alias_walk(&*alias)),
        ItemKind::Static(static_) => around(Node::Static(&*static_), static_walk(&*static_)),
        ItemKind::Module(name) => leaf(Node::Identifier(&name)),
        ItemKind::Import(import) => around(
            Node::Import(&*import),
            name_visit(&import.name, None),
        ),
    }
}

/// An item.
pub open spec fn item_visit<'ast>(item: &'ast Item) -> Seq<Visit<'ast>> {
    around(Node::Item(item), item_walk(item))
}

/// The items of a module, up to the first `n`.
pub open spec fn items_walk<'ast>(list: &'ast Vec<Item>, n: nat) -> Seq<Visit<'ast>>
    decreases n,
{
    if n == 0 || n > list@.len() {
        Seq::empty()
    } else {
        items_walk(list, (n - 1) as nat) + item_visit(&list@[n - 1])
    }
}

/// What is within a module.
pub open spec fn module_walk<'ast>(module: &'ast Module) -> Seq<Visit<'ast>> {
    items_walk(&module.items, module.items@.len())
}

/// Visits a node with nothing within it.
fn visit_leaf<'ast>(visits: &mut Vec<Visit<'ast>>, node: Node<'ast>)
    ensures
        final(visits)@ == old(visits)@ + leaf(node),
{
    visits.push(Visit::Enter(node));
    visits.push(Visit::Leave(node));
    assert(visits@ =~= old(visits)@ + leaf(node));
}

/// Walks the segments of a name.
pub fn walk_qualified_identifier<'ast>(
    visits: &mut Vec<Visit<'ast>>,
    name: &'ast QualifiedIdentifier,
)
    ensures
        final(visits)@ == old(visits)@ + segments_walk(&name.segments, name.segments@.len()),
{
    let list = &name.segments;
    let ghost start = visits@;
    let mut i: usize = 0;
    assert(visits@ =~= start + segments_walk(list, 0));
    while i < list.len()
        invariant
            0 <= i <= list@.len(),
            *list == name.segments,
            visits@ == start + segments_walk(list, i as nat),
        decreases list@.len() - i,
    {
        visit_leaf(visits, Node::Identifier(&list[i]));
        i = i + 1;
        assert(visits@ =~= start + segments_walk(list, i as nat));
    }
}

fn visit_qualified_identifier<'ast>(
    visits: &mut Vec<Visit<'ast>>,
    name: &'ast QualifiedIdentifier,
    namespace: Option<Namespace>,
)
    ensures
        final(visits)@ == old(visits)@ + name_visit(name, namespace),
{
    visits.push(Visit::Enter(Node::QualifiedIdentifier(name, namespace)));
    walk_qualified_identifier(visits, name);
    visits.push(Visit::Leave(Node::QualifiedIdentifier(name, namespace)));
    assert(visits@ =~= old(visits)@ + name_visit(name, namespace));
}

fn visit_type<'ast>(visits: &mut Vec<Visit<'ast>>, ty: &'ast Type)
    ensures
        final(visits)@ == old(visits)@ + around(Node::Type(ty), type_walk(ty)),
    decreases ty, 1nat,
{
    visits.push(Visit::Enter(Node::Type(ty)));
    walk_type(visits, ty);
    visits.push(Visit::Leave(Node::Type(ty)));
    assert(visits@ =~= old(visits)@ + around(Node::Type(ty), type_walk(ty)));
}

/// Walks a type.
pub fn walk_type<'ast>(visits: &mut Vec<Visit<'ast>>, ty: &'ast Type)
    ensures
        final(visits)@ == old(visits)@ + type_walk(ty),
    decreases ty, 0nat,
{
    let ghost start = visits@;
    match &ty.kind {
        TypeKind::QualifiedIdentifier(name) => {
            visit_qualified_identifier(visits, name, Some(Namespace::Type))
        }
        TypeKind::Pointer(inner) => visit_type(visits, inner),
        TypeKind::Slice(inner) => visit_type(visits, inner),
        TypeKind::Array { ty: inner, .. } => visit_type(visits, inner),
        TypeKind::Tuple(list) => {
            let mut i: usize = 0;
            assert(visits@ =~= start + types_walk(list, 0));
            while i < list.len()
                invariant
                    0 <= i <= list@.len(),
                    ty.kind matches TypeKind::Tuple(l) && l == *list,
                    visits@ == start + types_walk(list, i as nat),
                decreases list@.len() - i,
            {
                visit_type(visits, &list[i]);
                i = i + 1;
                assert(visits@ =~= start + types_walk(list, i as nat));
            }
        }
        TypeKind::Unit | TypeKind::Any => {}
    }
    assert(visits@ =~= start + type_walk(ty));
}

/// Visits the expressions of a list.
fn visit_expressions<'ast>(visits: &mut Vec<Visit<'ast>>, list: &'ast Vec<Expression>)
    ensures
        final(visits)@ == old(visits)@ + expressions_walk(list, list@.len()),
    decreases list, 2nat,
{
    let ghost start = visits@;
    let mut i: usize = 0;
    assert(visits@ =~= start + expressions_walk(list, 0));
    while i < list.len()
        invariant
            0 <= i <= list@.len(),
            visits@ == start + expressions_walk(list, i as nat),
        decreases list@.len() - i,
    {
        visit_expression(visits, &list[i]);
        i = i + 1;
        assert(visits@ =~= start + expressions_walk(list, i as nat));
    }
}

/// Visits the fields of a structure with their values.
fn visit_initializers<'ast>(visits: &mut Vec<Visit<'ast>>, list: &'ast Vec<StructInitializerField>)
    ensures
        final(visits)@ == old(visits)@ + initializers_walk(list, list@.len()),
    decreases list, 2nat,
{
    let ghost start = visits@;
    let mut i: usize = 0;
    assert(visits@ =~= start + initializers_walk(list, 0));
    while i < list.len()
        invariant
            0 <= i <= list@.len(),
            visits@ == start + initializers_walk(list, i as nat),
        decreases list@.len() - i,
    {
        let ghost before = visits@;
        visits.push(Visit::Enter(Node::StructInitializerField(&list[i])));
        walk_struct_initializer_field(visits, &list[i]);
        visits.push(Visit::Leave(Node::StructInitializerField(&list[i])));
        assert(visits@ =~= before + around(
            Node::StructInitializerField(&list@[i as int]),
            leaf(Node::Identifier(&list@[i as int].name)) + expression_visit(
                &*list@[i as int].value,
            ),
        ));
        i = i + 1;
        assert(visits@ =~= start + initializers_walk(list, i as nat));
    }
}

/// Walks a field of a structure with its value.
pub fn walk_struct_initializer_field<'ast>(
    visits: &mut Vec<Visit<'ast>>,
    field: &'ast StructInitializerField,
)
    ensures
        final(visits)@ == old(visits)@ + (leaf(Node::Identifier(&field.name)) + expression_visit(
            &*field.value,
        )),
    decreases field, 1nat,
{
    visit_leaf(visits, Node::Identifier(&field.name));
    visit_expression(visits, &field.value);
    assert(visits@ =~= old(visits)@ + (leaf(Node::Identifier(&field.name)) + expression_visit(
        &*field.value,
    )));
}

/// Walks the arguments of a call.
pub fn walk_function_call_argument_list<'ast>(
    visits: &mut Vec<Visit<'ast>>,
    arguments: &'ast FunctionCallArgumentList,
)
    ensures
        final(visits)@ == old(visits)@ + expressions_walk(
            &arguments.arguments,
            arguments.arguments@.len(),
        ),
    decreases arguments, 2nat,
{
    visit_expressions(visits, &arguments.arguments);
}

/// Walks the statements of a block.
pub fn walk_block<'ast>(visits: &mut Vec<Visit<'ast>>, block: &'ast Block)
    ensures
        final(visits)@ == old(visits)@ + statements_walk(
            &block.statements,
            block.statements@.len(),
        ),
    decreases block, 0nat,
{
    let list = &block.statements;
    let ghost start = visits@;
    let mut i: usize = 0;
    assert(visits@ =~= start + statements_walk(list, 0));
    while i < list.len()
        invariant
            0 <= i <= list@.len(),
            *list == block.statements,
            visits@ == start + statements_walk(list, i as nat),
        decreases list@.len() - i,
    {
        visit_statement(visits, &list[i]);
        i = i + 1;
        assert(visits@ =~= start + statements_walk(list, i as nat));
    }
}

fn visit_block<'ast>(visits: &mut Vec<Visit<'ast>>, block: &'ast Block)
    ensures
        final(visits)@ == old(visits)@ + around(Node::Block(block), block_walk(block)),
    decreases block, 1nat,
{
    visits.push(Visit::Enter(Node::Block(block)));
    walk_block(visits, block);
    visits.push(Visit::Leave(Node::Block(block)));
    assert(visits@ =~= old(visits)@ + around(Node::Block(block), block_walk(block)));
}

fn visit_statement<'ast>(visits: &mut Vec<Visit<'ast>>, statement: &'ast Statement)
    ensures
        final(visits)@ == old(visits)@ + around(
            Node::Statement(statement),
            statement_walk(statement),
        ),
    decreases statement, 1nat,
{
    visits.push(Visit::Enter(Node::Statement(statement)));
    walk_statement(visits, statement);
    visits.push(Visit::Leave(Node::Statement(statement)));
    assert(visits@ =~= old(visits)@ + around(
        Node::Statement(statement),
        statement_walk(statement),
    ));
}

/// Walks a statement.
pub fn walk_statement<'ast>(visits: &mut Vec<Visit<'ast>>, statement: &'ast Statement)
    ensures
        final(visits)@ == old(visits)@ + statement_walk(statement),
    decreases statement, 0nat,
{
    match &statement.kind {
        StatementKind::Local(local) => visit_local(visits, local),
        StatementKind::BareExpr(expression) => visit_expression(visits, expression),
        StatementKind::SemiExpr(expression) => visit_expression(visits, expression),
        StatementKind::Empty => {}
    }
    assert(visits@ =~= old(visits)@ + statement_walk(statement));
}

fn visit_local<'ast>(visits: &mut Vec<Visit<'ast>>, local: &'ast Local)
    ensures
        final(visits)@ == old(visits)@ + around(Node::Local(local), local_walk(local)),
    decreases local, 1nat,
{
    visits.push(Visit::Enter(Node::Local(local)));
    walk_local(visits, local);
    visits.push(Visit::Leave(Node::Local(local)));
    assert(visits@ =~= old(visits)@ + around(Node::Local(local), local_walk(local)));
}

/// Walks a binding.
pub fn walk_local<'ast>(visits: &mut Vec<Visit<'ast>>, local: &'ast Local)
    ensures
        final(visits)@ == old(visits)@ + local_walk(local),
    decreases local, 0nat,
{
    visit_leaf(visits, Node::Identifier(&local.name));
    match &local.ty {
        Some(ty) => visit_type(visits, ty),
        None => {}
    }
    match &local.kind {
        LocalKind::Declaration => {}
        LocalKind::Initialization(expression) => visit_expression(visits, expression),
    }
    assert(visits@ =~= old(visits)@ + local_walk(local));
}

fn visit_expression<'ast>(visits: &mut Vec<Visit<'ast>>, expression: &'ast Expression)
    ensures
        final(visits)@ == old(visits)@ + around(
            Node::Expression(expression),
            expression_walk(expression),
        ),
    decreases expression, 1nat,
{
    visits.push(Visit::Enter(Node::Expression(expression)));
    walk_expression(visits, expression);
    visits.push(Visit::Leave(Node::Expression(expression)));
    assert(visits@ =~= old(visits)@ + around(
        Node::Expression(expression),
        expression_walk(expression),
    ));
}

/// Walks an expression.
pub fn walk_expression<'ast>(visits: &mut Vec<Visit<'ast>>, expression: &'ast Expression)
    ensures
        final(visits)@ == old(visits)@ + expression_walk(expression),
    decreases expression, 0nat,
{
    match &expression.kind {
        ExpressionKind::Literal(literal) => visit_leaf(visits, Node::Literal(literal)),
        ExpressionKind::QualifiedIdentifier(name) => {
            visit_qualified_identifier(visits, name, Some(Namespace::Value))
        }
        ExpressionKind::This | ExpressionKind::Break | ExpressionKind::Continue => {}
        ExpressionKind::Grouping(e) => visit_expression(visits, e),
        ExpressionKind::Tuple(list) => visit_expressions(visits, list),
        ExpressionKind::Array(initializer) => match &**initializer {
            ArrayInitializer::Repeated { value, length } => {
                visit_expression(visits, value);
                visit_leaf(visits, Node::Literal(length));
            }
            ArrayInitializer::Specific(list) => visit_expressions(visits, list),
        },
        ExpressionKind::Struct { name, fields } => {
            visit_qualified_identifier(visits, name, Some(Namespace::Type));
            visit_initializers(visits, fields);
        }
        ExpressionKind::Block(block) => visit_block(visits, block),
        ExpressionKind::FieldAccess { target, name, .. } => {
            visit_expression(visits, target);
            visit_leaf(visits, Node::Identifier(name));
        }
        ExpressionKind::FunctionCall { target, arguments } => {
            visit_expression(visits, target);
            visits.push(Visit::Enter(Node::FunctionCallArgumentList(arguments)));
            walk_function_call_argument_list(visits, arguments);
            visits.push(Visit::Leave(Node::FunctionCallArgumentList(arguments)));
        }
        ExpressionKind::Subscript { target, index } => {
            visit_expression(visits, target);
            visit_expression(visits, index);
        }
        ExpressionKind::Binary { lhs, rhs, .. } => {
            visit_expression(visits, lhs);
            visit_expression(visits, rhs);
        }
        ExpressionKind::Unary { operand, .. } => visit_expression(visits, operand),
        ExpressionKind::Cast { expression: e, ty } => {
            visit_expression(visits, e);
            visit_type(visits, ty);
        }
        ExpressionKind::If { condition, positive, negative } => {
            visit_expression(visits, condition);
            visit_block(visits, positive);
            match negative {
                Some(n) => visit_expression(visits, n),
                None => {}
            }
        }
        ExpressionKind::While { condition, block } => {
            visit_expression(visits, condition);
            visit_block(visits, block);
        }
        ExpressionKind::Assignment { lhs, rhs } => {
            visit_expression(visits, lhs);
            visit_expression(visits, rhs);
        }
        ExpressionKind::OperatorAssignment { lhs, rhs, .. } => {
            visit_expression(visits, lhs);
            visit_expression(visits, rhs);
        }
        ExpressionKind::Return(value) => match value {
            Some(e) => visit_expression(visits, e),
            None => {}
        },
    }
    assert(visits@ =~= old(visits)@ + expression_walk(expression));
}

/// Walks a parameter of a function.
pub fn walk_function_parameter<'ast>(
    visits: &mut Vec<Visit<'ast>>,
    parameter: &'ast FunctionParameter,
)
    ensures
        final(visits)@ == old(visits)@ + parameter_walk(parameter),
{
    visit_leaf(visits, Node::Identifier(&parameter.name));
    visit_type(visits, &parameter.ty);
    assert(visits@ =~= old(visits)@ + parameter_walk(parameter));
}

fn visit_function_parameter<'ast>(visits: &mut Vec<Visit<'ast>>, parameter: &'ast FunctionParameter)
    ensures
        final(visits)@ == old(visits)@ + around(
            Node::FunctionParameter(parameter),
            parameter_walk(parameter),
        ),
{
    visits.push(Visit::Enter(Node::FunctionParameter(parameter)));
    walk_function_parameter(visits, parameter);
    visits.push(Visit::Leave(Node::FunctionParameter(parameter)));
    assert(visits@ =~= old(visits)@ + around(
        Node::FunctionParameter(parameter),
        parameter_walk(parameter),
    ));
}

/// Walks the parameters of a function.
pub fn walk_function_parameter_list<'ast>(
    visits: &mut Vec<Visit<'ast>>,
    parameters: &'ast FunctionParameterList,
)
    ensures
        final(visits)@ == old(visits)@ + parameters_walk(
            &parameters.parameters,
            parameters.parameters@.len(),
        ),
{
    let list = &parameters.parameters;
    let ghost start = visits@;
    let mut i: usize = 0;
    assert(visits@ =~= start + parameters_walk(list, 0));
    while i < list.len()
        invariant
            0 <= i <= list@.len(),
            *list == parameters.parameters,
            visits@ == start + parameters_walk(list, i as nat),
        decreases list@.len() - i,
    {
        visit_function_parameter(visits, &list[i]);
        i = i + 1;
        assert(visits@ =~= start + parameters_walk(list, i as nat));
    }
}

/// Walks the signature of a function.
pub fn walk_function_signature<'ast>(
    visits: &mut Vec<Visit<'ast>>,
    signature: &'ast FunctionSignature,
)
    ensures
        final(visits)@ == old(visits)@ + signature_walk(signature),
{
    visit_qualified_identifier(visits, &signature.name, Some(Namespace::Value));
    visits.push(Visit::Enter(Node::FunctionParameterList(&signature.parameters)));
    walk_function_parameter_list(visits, &signature.parameters);
    visits.push(Visit::Leave(Node::FunctionParameterList(&signature.parameters)));
    match &signature.return_type {
        Some(ty) => visit_type(visits, ty),
        None => {}
    }
    assert(visits@ =~= old(visits)@ + signature_walk(signature));
}

/// Walks a function.
pub fn walk_function_definition<'ast>(
    visits: &mut Vec<Visit<'ast>>,
    function: &'ast FunctionDefinition,
)
    ensures
        final(visits)@ == old(visits)@ + function_walk(function),
{
    visits.push(Visit::Enter(Node::FunctionSignature(&function.signature)));
    walk_function_signature(visits, &function.signature);
    visits.push(Visit::Leave(Node::FunctionSignature(&function.signature)));
    visit_block(visits, &function.body);
    assert(visits@ =~= old(visits)@ + function_walk(function));
}

/// Walks a field of a structure.
pub fn walk_struct_field<'ast>(visits: &mut Vec<Visit<'ast>>, field: &'ast StructField)
    ensures
        final(visits)@ == old(visits)@ + (leaf(Node::Identifier(&field.name)) + type_visit(
            &*field.ty,
        )),
{
    visit_leaf(visits, Node::Identifier(&field.name));
    visit_type(visits, &field.ty);
    assert(visits@ =~= old(visits)@ + (leaf(Node::Identifier(&field.name)) + type_visit(
        &*field.ty,
    )));
}

fn visit_struct_field<'ast>(visits: &mut Vec<Visit<'ast>>, field: &'ast StructField)
    ensures
        final(visits)@ == old(visits)@ + around(
            Node::StructField(field),
            leaf(Node::Identifier(&field.name)) + type_visit(&*field.ty),
        ),
{
    visits.push(Visit::Enter(Node::StructField(field)));
    walk_struct_field(visits, field);
    visits.push(Visit::Leave(Node::StructField(field)));
    assert(visits@ =~= old(visits)@ + around(
        Node::StructField(field),
        leaf(Node::Identifier(&field.name)) + type_visit(&*field.ty),
    ));
}

/// Walks a structure.
pub fn walk_struct_definition<'ast>(
    visits: &mut Vec<Visit<'ast>>,
    definition: &'ast StructDefinition,
)
    ensures
        final(visits)@ == old(visits)@ + struct_walk(definition),
{
    visit_leaf(visits, Node::Identifier(&definition.name));
    let list = &definition.fields;
    let ghost start = visits@;
    let mut i: usize = 0;
    assert(visits@ =~= start + fields_walk(list, 0));
    while i < list.len()
        invariant
            0 <= i <= list@.len(),
            visits@ == start + fields_walk(list, i as nat),
        decreases list@.len() - i,
    {
        visit_struct_field(visits, &list[i]);
        i = i + 1;
        assert(visits@ =~= start + fields_walk(list, i as nat));
    }
    assert(visits@ =~= old(visits)@ + struct_walk(definition));
}

/// Walks an enum.
pub fn walk_enum_definition<'ast>(visits: &mut Vec<Visit<'ast>>, definition: &'ast EnumDefinition)
    ensures
        final(visits)@ == old(visits)@ + enum_walk(definition),
{
    visit_leaf(visits, Node::Identifier(&definition.name));
    let list = &definition.variants;
    let ghost start = visits@;
    let mut i: usize = 0;
    assert(visits@ =~= start + variants_walk(list, 0));
    while i < list.len()
        invariant
            0 <= i <= list@.len(),
            visits@ == start + variants_walk(list, i as nat),
        decreases list@.len() - i,
    {
        let ghost before = visits@;
        visits.push(Visit::Enter(Node::EnumVariant(&list[i])));
        visit_leaf(visits, Node::Identifier(&list[i].name));
        visits.push(Visit::Leave(Node::EnumVariant(&list[i])));
        assert(visits@ =~= before + around(
            Node::EnumVariant(&list@[i as int]),
            leaf(Node::Identifier(&list@[i as int].name)),
        ));
        i = i + 1;
        assert(visits@ =~= start + variants_walk(list, i as nat));
    }
    assert(visits@ =~= old(visits)@ + enum_walk(definition));
}

/// Walks an alias.
pub fn walk_type_alias<'ast>(visits: &mut Vec<Visit<'ast>>, alias: &'ast TypeAlias)
    ensures
        final(visits)@ == old(visits)@ + alias_walk(alias),
{
    visit_leaf(visits, Node::Identifier(&alias.name));
    visit_type(visits, &alias.ty);
    assert(visits@ =~= old(visits)@ + alias_walk(alias));
}

/// Walks a static variable.
pub fn walk_static<'ast>(visits: &mut Vec<Visit<'ast>>, static_: &'ast Static)
    ensures
        final(visits)@ == old(visits)@ + static_walk(static_),
{
    visit_leaf(visits, Node::Identifier(&static_.name));
    visit_type(visits, &static_.ty);
    visit_expression(visits, &static_.initializer);
    assert(visits@ =~= old(visits)@ + static_walk(static_));
}

/// Walks an item.
pub fn walk_item<'ast>(visits: &mut Vec<Visit<'ast>>, item: &'ast Item)
    ensures
        final(visits)@ == old(visits)@ + item_walk(item),
{
    match &item.kind {
        ItemKind::FunctionDefinition(function) => {
            visits.push(Visit::Enter(Node::FunctionDefinition(function)));
            walk_function_definition(visits, function);
            visits.push(Visit::Leave(Node::FunctionDefinition(function)));
        }
        ItemKind::StructDefinition(definition) => {
            visits.push(Visit::Enter(Node::StructDefinition(definition)));
            walk_struct_definition(visits, definition);
            visits.push(Visit::Leave(Node::StructDefinition(definition)));
        }
        ItemKind::EnumDefinition(definition) => {
            visits.push(Visit::Enter(Node::EnumDefinition(definition)));
            walk_enum_definition(visits, definition);
            visits.push(Visit::Leave(Node::EnumDefinition(definition)));
        }
        ItemKind::TypeAlias(alias) => {
            visits.push(Visit::Enter(Node::TypeAlias(alias)));
            walk_type_alias(visits, alias);
            visits.push(Visit::Leave(Node::TypeAlias(alias)));
        }
        ItemKind::Static(static_) => {
            visits.push(Visit::Enter(Node::Static(static_)));
            walk_static(visits, static_);
            visits.push(Visit::Leave(Node::Static(static_)));
        }
        ItemKind::Module(name) => visit_leaf(visits, Node::Identifier(name)),
        ItemKind::Import(import) => {
            visits.push(Visit::Enter(Node::Import(import)));
            visit_qualified_identifier(visits, &import.name, None);
            visits.push(Visit::Leave(Node::Import(import)));
        }
    }
    assert(visits@ =~= old(visits)@ + item_walk(item));
}

fn visit_item<'ast>(visits: &mut Vec<Visit<'ast>>, item: &'ast Item)
    ensures
        final(visits)@ == old(visits)@ + around(Node::Item(item), item_walk(item)),
{
    visits.push(Visit::Enter(Node::Item(item)));
    walk_item(visits, item);
    visits.push(Visit::Leave(Node::Item(item)));
    assert(visits@ =~= old(visits)@ + around(Node::Item(item), item_walk(item)));
}

/// Walks a module: all its nodes in order.
pub fn walk_module<'ast>(module: &'ast Module) -> (r: Vec<Visit<'ast>>)
    ensures
        r@ == module_walk(module),
{
    let mut visits: Vec<Visit<'ast>> = Vec::new();
    let mut i: usize = 0;
    assert(visits@ =~= items_walk(&module.items, 0));
    while i < module.items.len()
        invariant
            0 <= i <= module.items@.len(),
            visits@ == items_walk(&module.items, i as nat),
        decreases module.items@.len() - i,
    {
        visit_item(&mut visits, &module.items[i]);
        i = i + 1;
    }
    visits
}

} // verus!
