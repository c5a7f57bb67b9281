//! A high level intermediate representation of the source code. Some
//! unnecessary information from the AST is removed like node IDs and spans for
//! individual pieces of syntax. Certain constructs from the AST are removed and
//! blocks are collected and separated from their owning nodes.

use crate::collections::share;
use crate::frontend::ast::{AssignmentOperatorKind, BinaryOperatorKind, UnaryOperatorKind};
use crate::frontend::intern::{interned, symbol_of, InternedSymbol, Interner};
use crate::frontend::lexer::Span;
use crate::index::IndexVec;
use crate::middle::primitive::{FloatKind, IntKind, PrimitiveKind, UIntKind};
use crate::text::joined;
use std::collections::BTreeMap;
use std::rc::Rc;
use vstd::prelude::*;
use vstd::std_specs::convert::FromSpecImpl;

pub mod id;

pub use crate::middle::hir::id::{BodyId, CrateNum, DefId, HirId, ItemLocalId, LocalDefId};

verus! {

pub struct Module {
    /// All the item definitions within the module including those nested within
    /// other items
    pub owners: IndexVec<LocalDefId, Owner>,
    /// What each definition is, by its number
    pub definitions: BTreeMap<u32, Definition>,
}

/// What a definition stands for in the HIR
#[derive(Debug, Clone, Copy, PartialEq, Eq, Structural)]
pub enum Definition {
    /// An item of its own
    Owner,
    /// A node within some item
    NonOwner(HirId),
}

/// Represents a top level owner within a module. HIR owners may be nested
pub struct Owner {
    /// Contains all the HIR nodes for this owner. The first node is always the
    /// owner itself. This is how nodes are looked up by LocalId within an owner
    /// which is much faster than traversing the tree searching for it.
    /// Important to note is that this owner may contain nested owner nodes
    /// (i.e. functions defined within another function or functions defined
    /// within an impl block)
    pub nodes: IndexVec<ItemLocalId, ParentedNode>,
    /// Map from the numbers of nested owners to their local ID within this owner
    pub parenting: BTreeMap<u32, ItemLocalId>,
    /// If present, the executable body within the owner. Will not be set for
    /// items like type definitions.
    pub body: Option<Rc<Body>>,
}

/// An HIR node coupled with the ID of it's parent node. This makes the tree
/// structure of the HIR traversable easily in both directions.
///
/// When the node is a top level owner in the module, the parent id is always
/// invalid. However, it will be set if the owner is a nested owner.
pub struct ParentedNode {
    pub parent: ItemLocalId,
    pub node: Node,
}

pub enum Node {
    Item(Rc<Item>),
    FunctionParameter(Rc<FunctionParameter>),
    StructField(Rc<StructField>),
    Expression(Rc<Expression>),
    Block(Rc<Block>),
    Statement(Rc<Statement>),
    /// Exists so that we can resolve local variable references to a node ID
    LetStatement(Rc<LetStatement>),
    Type(Rc<Type>),
    PathSegment(Rc<PathSegment>),
    StructInitializerField(Rc<StructInitializerField>),
}

/// Represents an HIR node that can be a top level owner
pub enum OwnerNode {
    Item(Rc<Item>),
}

#[derive(Debug, Clone, Copy)]
pub struct Identifier {
    pub symbol: InternedSymbol,
    pub span: Span,
}

pub struct Item {
    pub owner_id: LocalDefId,
    pub kind: ItemKind,
    pub span: Span,
}

#[allow(inconsistent_fields)]
pub enum ItemKind {
    Function { name: Path, signature: FunctionSignature, body: BodyId },
    Struct { name: Identifier, fields: Vec<Rc<StructField>> },
    Enum { name: Identifier, variants: Vec<Rc<EnumVariant>> },
    TypeAlias { name: Identifier, ty: Rc<Type> },
    Static { is_mutable: bool, name: Identifier, ty: Rc<Type>, initializer: Rc<Expression> },
}

pub struct StructField {
    pub hir_id: HirId,
    pub name: Identifier,
    pub ty: Rc<Type>,
    pub span: Span,
}

pub struct EnumVariant {
    pub def_id: LocalDefId,
    pub hir_id: HirId,
    pub name: Identifier,
    pub span: Span,
}

pub struct FunctionSignature {
    pub self_parameter: Option<SelfParameter>,
    /// List of inputs to the function
    pub parameters: Vec<Rc<Type>>,
    /// If present, is the expected variadic type (`any` for compat with c
    /// variadics)
    pub variadic_type: Option<Rc<Type>>,
    /// None if no return type is specified (defaults to `()` in this case)
    pub return_type: Option<Rc<Type>>,
    // Span of the function decl without body
    pub span: Span,
}

#[derive(Debug, Clone, Copy, PartialEq, Eq, Structural, PartialOrd, Ord, Hash)]
pub enum SelfParameter {
    Owned,
    Pointer { is_mutable: bool },
}

/// The body of a function or constant value
pub struct Body {
    pub params: Vec<Rc<FunctionParameter>>,
    pub block: Rc<Block>,
}

pub struct FunctionParameter {
    pub hir_id: HirId,
    /// Whether it is declared with `mut`
    pub is_mutable: bool,
    pub name: Identifier,
    pub ty_span: Span,
    pub span: Span,
}

pub struct Block {
    pub hir_id: HirId,
    pub statements: Vec<Rc<Statement>>,
    /// An expression at the end of the block without a semicolon, if any. (Used
    /// to infer the type of the block later)
    pub expression: Option<Rc<Expression>>,
    pub is_const: bool,
    pub span: Span,
}

pub struct Statement {
    pub hir_id: HirId,
    pub kind: StatementKind,
    pub span: Span,
}

pub enum StatementKind {
    Let(Rc<LetStatement>),
    /// An expression without a trailing semi-colon (must have unit type).
    BareExpression(Rc<Expression>),
    /// An expression with a trailing semi-colon (may have any type).
    SemiExpression(Rc<Expression>),
}

pub struct LetStatement {
    pub hir_id: HirId,
    pub is_mutable: bool,
    pub name: Identifier,
    pub ty: Option<Rc<Type>>,
    pub initializer: Option<Rc<Expression>>,
    pub span: Span,
}

pub enum ArrayInitializer {
    Repeated { value: Rc<Expression>, length: usize },
    Specific(Vec<Rc<Expression>>),
}

pub struct StructInitializerField {
    pub hir_id: HirId,
    pub name: Identifier,
    pub value: Rc<Expression>,
    pub span: Span,
}

pub struct Expression {
    pub hir_id: HirId,
    pub kind: ExpressionKind,
    pub span: Span,
}

#[allow(inconsistent_fields)]
pub enum ExpressionKind {
    Literal(Literal),
    Path(Path),
    This,
    Array(ArrayInitializer),
    Tuple(Vec<Rc<Expression>>),
    Struct { name: Path, fields: Vec<Rc<StructInitializerField>> },
    Block(Rc<Block>),
    FieldAccess {
        target: Rc<Expression>,
        name: Identifier,
        is_method_call: bool,
        /// Whether a pointer is followed to reach the structure
        dereference: bool,
    },
    FunctionCall { target: Rc<Expression>, arguments: Vec<Rc<Expression>> },
    Subscript { target: Rc<Expression>, index: Rc<Expression> },
    Binary { lhs: Rc<Expression>, operator: BinaryOperatorKind, rhs: Rc<Expression> },
    Unary { operator: UnaryOperatorKind, operand: Rc<Expression> },
    Cast { expression: Rc<Expression>, ty: Rc<Type> },
    If {
        condition: Rc<Expression>,
        positive: Rc<Block>,
        /// must be a block expression or an if expression
        negative: Option<Rc<Expression>>,
    },
    While { condition: Rc<Expression>, block: Rc<Block> },
    Assignment { lhs: Rc<Expression>, rhs: Rc<Expression> },
    OperatorAssignment {
        operator: AssignmentOperatorKind,
        lhs: Rc<Expression>,
        rhs: Rc<Expression>,
    },
    Break,
    Continue,
    // Least priority
    Return(Option<Rc<Expression>>),
}

pub enum Literal {
    Boolean(bool),
    Char(char),
    Integer(u64, LiteralIntegerKind),
    Float(InternedSymbol, LiteralFloatKind),
    String(InternedSymbol),
    ByteString(Vec<u8>),
    CString(Vec<u8>),
}

#[derive(Debug, Clone, Copy, PartialEq, Eq, Structural)]
pub enum LiteralIntegerKind {
    /// e.g. `42_i32`
    Signed(IntKind),
    /// e.g. `42_u32`
    Unsigned(UIntKind),
    /// e.g. `42`
    Unsuffixed,
}

#[derive(Debug, Clone, Copy, PartialEq, Eq, Structural)]
pub enum LiteralFloatKind {
    Suffixed(FloatKind),
    Unsuffixed,
}

pub struct Type {
    pub hir_id: HirId,
    pub kind: TypeKind,
    pub span: Span,
}

pub enum TypeKind {
    Unit,
    /// core::string::String | u32 | some_local
    Path(Path),
    /// *T
    Pointer(Rc<Type>),
    /// [T]
    Slice(Rc<Type>),
    /// [T; 1024]
    Array { ty: Rc<Type>, length: usize },
    /// (i32, u8, str)
    Tuple(Vec<Rc<Type>>),
    /// fn(T1, T2, ... *any) -> T3
    FunctionPointer {
        parameters: Vec<Rc<Type>>,
        return_type: Option<Rc<Type>>,
        is_variadic: bool,
    },
    /// any
    Any,
}

/// A path made up of multiple segments separated by `::`.
pub struct Path {
    pub segments: Vec<Rc<PathSegment>>,
    pub span: Span,
}

pub struct PathSegment {
    pub hir_id: HirId,
    pub identifier: Identifier,
    pub resolution: Resolution<ItemLocalId>,
    pub span: Span,
}

#[derive(Debug, Clone, Copy, PartialEq, Eq)]
pub enum Resolution<R> {
    // Any namespace
    Definition(DefinitionKind, LocalDefId),
    // Value namespace
    Local(R),
    IntrinsicFunction(InternedSymbol),
    // Type namespace
    Primitive(PrimitiveKind),
}

#[derive(Debug, Clone, Copy, PartialEq, Eq, Structural, Hash)]
pub enum DefinitionKind {
    // Value namespace
    Function,
    AssociatedFunction,
    EnumVariant,
    Constant,
    Static,
    // Type namespace
    Struct,
    Enum,
    Union,
    Alias,
}

impl<R> Resolution<R> {
    /// The function that a name stands for.
    pub fn as_function_definition(self) -> (r: Option<LocalDefId>)
        ensures
            r == (match self {
                Resolution::Definition(DefinitionKind::Function, local_def_id) => Some(
                    local_def_id,
                ),
                _ => None,
            }),
    {
        match self {
            Resolution::Definition(DefinitionKind::Function, local_def_id) => Some(local_def_id),
            _ => None,
        }
    }

    /// The static that a name stands for.
    pub fn as_static_definition(self) -> (r: Option<LocalDefId>)
        ensures
            r == (match self {
                Resolution::Definition(DefinitionKind::Static, local_def_id) => Some(local_def_id),
                _ => None,
            }),
    {
        match self {
            Resolution::Definition(DefinitionKind::Static, local_def_id) => Some(local_def_id),
            _ => None,
        }
    }
}

impl Literal {
    /// The text of a string literal.
    pub fn as_string(&self) -> (r: Option<InternedSymbol>)
        ensures
            r == (match *self {
                Literal::String(s) => Some(s),
                _ => None,
            }),
    {
        if let Literal::String(s) = self {
            Some(*s)
        } else {
            None
        }
    }

    /// The text of a literal that is a string.
    pub fn expect_string(&self) -> (r: InternedSymbol)
        requires
            *self is String,
        ensures
            r == self->String_0,
    {
        match self.as_string() {
            Some(s) => s,
            None => vstd::pervasive::unreached(),
        }
    }
}

impl ExpressionKind {
    /// The literal that an expression is.
    pub fn as_literal(&self) -> (r: Option<&Literal>)
        ensures
            match *self {
                ExpressionKind::Literal(v) => r == Some(&v),
                _ => r is None,
            },
    {
        if let ExpressionKind::Literal(v) = self {
            Some(v)
        } else {
            None
        }
    }

    /// The literal that an expression has to be.
    pub fn expect_literal(&self) -> (r: &Literal)
        requires
            *self is Literal,
        ensures
            *r == self->Literal_0,
    {
        match self {
            ExpressionKind::Literal(v) => v,
            _ => vstd::pervasive::unreached(),
        }
    }

    /// The parts of the tuple that an expression is.
    pub fn as_tuple(&self) -> (r: Option<&Vec<Rc<Expression>>>)
        ensures
            match *self {
                ExpressionKind::Tuple(v) => r == Some(&v),
                _ => r is None,
            },
    {
        if let ExpressionKind::Tuple(v) = self {
            Some(v)
        } else {
            None
        }
    }

    /// The parts of the tuple that an expression has to be.
    pub fn expect_tuple(&self) -> (r: &Vec<Rc<Expression>>)
        requires
            *self is Tuple,
        ensures
            *r == self->Tuple_0,
    {
        match self {
            ExpressionKind::Tuple(v) => v,
            _ => vstd::pervasive::unreached(),
        }
    }
}

impl Item {
    /// The node of the item.
    pub fn hir_id(&self) -> (r: HirId)
        ensures
            r == (HirId { owner: self.owner_id, local_id: ItemLocalId(0) }),
    {
        HirId::from_def_id(self.owner_id)
    }
}

impl Body {
    /// The ID of the body is that of its block.
    pub open spec fn body_id(&self) -> BodyId {
        BodyId { hir_id: self.block.hir_id }
    }

    /// The ID of the body is that of its block.
    pub fn id(&self) -> (r: BodyId)
        ensures
            r == self.body_id(),
    {
        BodyId { hir_id: self.block.hir_id }
    }
}

impl OwnerNode {
    /// The ID of the node.
    pub fn hir_id(&self) -> (r: HirId)
        ensures
            r == (HirId { owner: self->Item_0.owner_id, local_id: ItemLocalId(0) }),
    {
        match self {
            OwnerNode::Item(item) => item.hir_id(),
        }
    }

    /// The item that the node is.
    pub fn as_item(&self) -> (r: Option<Rc<Item>>)
        ensures
            r == Some(self->Item_0),
    {
        match self {
            OwnerNode::Item(item) => Some(share(item)),
        }
    }
}

impl From<OwnerNode> for Node {
    fn from(value: OwnerNode) -> (r: Self) {
        match value {
            OwnerNode::Item(item) => Node::Item(item),
        }
    }
}

impl FromSpecImpl<OwnerNode> for Node {
    open spec fn obeys_from_spec() -> bool {
        true
    }

    open spec fn from_spec(value: OwnerNode) -> Self {
        match value {
            OwnerNode::Item(item) => Node::Item(item),
        }
    }
}

impl Node {
    /// The ID of a node.
    pub open spec fn hir_id(&self) -> HirId {
        match *self {
            Node::Item(v) => HirId { owner: v.owner_id, local_id: ItemLocalId(0) },
            Node::FunctionParameter(v) => v.hir_id,
            Node::StructField(v) => v.hir_id,
            Node::Expression(v) => v.hir_id,
            Node::Block(v) => v.hir_id,
            Node::Statement(v) => v.hir_id,
            Node::LetStatement(v) => v.hir_id,
            Node::Type(v) => v.hir_id,
            Node::PathSegment(v) => v.hir_id,
            Node::StructInitializerField(v) => v.hir_id,
        }
    }

    /// The ID of a node.
    pub fn id(&self) -> (r: HirId)
        ensures
            r == self.hir_id(),
    {
        match self {
            Node::Item(v) => v.hir_id(),
            Node::FunctionParameter(v) => v.hir_id,
            Node::StructField(v) => v.hir_id,
            Node::Expression(v) => v.hir_id,
            Node::Block(v) => v.hir_id,
            Node::Statement(v) => v.hir_id,
            Node::LetStatement(v) => v.hir_id,
            Node::Type(v) => v.hir_id,
            Node::PathSegment(v) => v.hir_id,
            Node::StructInitializerField(v) => v.hir_id,
        }
    }

    /// Another handle on the same node.
    pub fn duplicate(&self) -> (r: Node)
        ensures
            r == *self,
    {
        match self {
            Node::Item(v) => Node::Item(share(v)),
            Node::FunctionParameter(v) => Node::FunctionParameter(share(v)),
            Node::StructField(v) => Node::StructField(share(v)),
            Node::Expression(v) => Node::Expression(share(v)),
            Node::Block(v) => Node::Block(share(v)),
            Node::Statement(v) => Node::Statement(share(v)),
            Node::LetStatement(v) => Node::LetStatement(share(v)),
            Node::Type(v) => Node::Type(share(v)),
            Node::PathSegment(v) => Node::PathSegment(share(v)),
            Node::StructInitializerField(v) => Node::StructInitializerField(share(v)),
        }
    }

    /// The owner that a node is.
    pub fn as_owner(self) -> (r: Option<OwnerNode>)
        ensures
            match self {
                Node::Item(item) => r == Some(OwnerNode::Item(item)),
                _ => r is None,
            },
    {
        match self {
            Node::Item(item) => Some(OwnerNode::Item(item)),
            _ => None,
        }
    }

    /// The item that a node is.
    pub fn as_item(&self) -> (r: Option<Rc<Item>>)
        ensures
            match *self {
                Node::Item(item) => r == Some(item),
                _ => r is None,
            },
    {
        match self {
            Node::Item(item) => Some(share(item)),
            _ => None,
        }
    }

    /// The let statement that a node is.
    pub fn as_let_statement(&self) -> (r: Option<Rc<LetStatement>>)
        ensures
            match *self {
                Node::LetStatement(let_stmt) => r == Some(let_stmt),
                _ => r is None,
            },
    {
        match self {
            Node::LetStatement(let_stmt) => Some(share(let_stmt)),
            _ => None,
        }
    }
}

impl Owner {
    /// Whether the first node is the owner's own.
    pub open spec fn is_item(&self) -> bool {
        self.nodes@.len() > 0 && self.nodes@[0].node is Item
    }

    /// The item that the owner is.
    pub open spec fn item(&self) -> Item {
        *self.nodes@[0].node->Item_0
    }

    /// Returns the associated owner node kind
    pub fn node(&self) -> (r: OwnerNode)
        requires
            self.is_item(),
        ensures
            r == OwnerNode::Item(self.nodes@[0].node->Item_0),
    {
        match self.nodes.get(ItemLocalId::zero()) {
            Some(first) => match &first.node {
                Node::Item(item) => OwnerNode::Item(share(item)),
                _ => vstd::pervasive::unreached(),
            },
            None => vstd::pervasive::unreached(),
        }
    }
}

impl Module {
    /// Whether an owner exists.
    pub open spec fn has_owner(&self, def_id: LocalDefId) -> bool {
        (def_id.0 as int) < self.owners@.len()
    }

    /// The owner with an ID.
    pub open spec fn owner(&self, def_id: LocalDefId) -> Owner {
        self.owners@[def_id.0 as int]
    }

    /// Whether a body exists.
    pub open spec fn has_body(&self, id: BodyId) -> bool {
        &&& self.has_owner(id.hir_id.owner)
        &&& self.owner(id.hir_id.owner).body is Some
        &&& self.owner(id.hir_id.owner).body->0.body_id() == id
    }

    /// The body with an ID.
    pub open spec fn body(&self, id: BodyId) -> Rc<Body> {
        self.owner(id.hir_id.owner).body->0
    }

    /// The body with an ID.
    pub fn get_body(&self, id: BodyId) -> (r: Rc<Body>)
        requires
            self.has_body(id),
        ensures
            r == self.body(id),
    {
        match &self.get_owner(id.hir_id.owner).body {
            Some(body) => share(body),
            None => vstd::pervasive::unreached(),
        }
    }

    /// The IDs of the bodies of the first `n` owners.
    pub open spec fn bodies_upto(&self, n: nat) -> Seq<BodyId>
        decreases n,
    {
        if n == 0 {
            Seq::empty()
        } else {
            let before = self.bodies_upto((n - 1) as nat);
            match self.owners@[n - 1].body {
                Some(body) => before.push(body.body_id()),
                None => before,
            }
        }
    }

    /// The IDs of the bodies of all owners, in order.
    pub fn get_bodies(&self) -> (r: Vec<BodyId>)
        ensures
            r@ == self.bodies_upto(self.owners@.len()),
    {
        let mut ids: Vec<BodyId> = Vec::new();
        let mut i: usize = 0;
        let entries = self.owners.enumerate();
        while i < entries.len()
            invariant
                0 <= i <= entries@.len(),
                entries@.len() == self.owners@.len(),
                forall|k: int| 0 <= k < entries@.len() ==> *(#[trigger] entries@[k]).1 == self.owners@[k],
                ids@ == self.bodies_upto(i as nat),
            decreases entries@.len() - i,
        {
            let (_, owner) = entries[i];
            assert(*entries@[i as int].1 == self.owners@[i as int]);
            if let Some(body) = &owner.body {
                ids.push(body.id());
            }
            i = i + 1;
        }
        ids
    }

    /// The owner with an ID.
    pub fn get_owner(&self, def_id: LocalDefId) -> (r: &Owner)
        requires
            self.has_owner(def_id),
        ensures
            *r == self.owner(def_id),
    {
        match self.owners.get(def_id) {
            Some(owner) => owner,
            None => vstd::pervasive::unreached(),
        }
    }

    /// The IDs of all owners, in order.
    pub fn get_owners(&self) -> (r: Vec<LocalDefId>)
        ensures
            r@.len() == self.owners@.len(),
            forall|i: int|
                0 <= i < r@.len() ==> (#[trigger] r@[i]).0 as int == crate::index::wrap32(i),
    {
        let ids = self.owners.indices();
        proof {
            assert forall|i: int| 0 <= i < ids@.len() implies (#[trigger] ids@[i]).0 as int
                == crate::index::wrap32(i) by {
                assert(crate::index::Index::ix(ids@[i]) == crate::index::wrap32(i));
            }
        }
        ids
    }

    /// Whether a node exists.
    pub open spec fn has_node(&self, hir_id: HirId) -> bool {
        self.has_owner(hir_id.owner) && (hir_id.local_id.0 as int) < self.owner(
            hir_id.owner,
        ).nodes@.len()
    }

    /// The node with an ID, and the ID of its parent.
    pub open spec fn parented(&self, hir_id: HirId) -> ParentedNode {
        self.owner(hir_id.owner).nodes@[hir_id.local_id.0 as int]
    }

    /// Finds the parent of the provided node in the tree. Returns None if the
    /// requested ID is an owner and this has no parent
    pub fn get_parent_of(&self, hir_id: HirId) -> (r: Option<Node>)
        requires
            self.has_node(hir_id),
            !self.parented(hir_id).parent.is_invalid() ==> self.has_node(
                HirId { owner: hir_id.owner, local_id: self.parented(hir_id).parent },
            ),
        ensures
            r == (if self.parented(hir_id).parent.is_invalid() {
                None
            } else {
                Some(
                    self.parented(
                        HirId { owner: hir_id.owner, local_id: self.parented(hir_id).parent },
                    ).node,
                )
            }),
    {
        let owner = self.get_owner(hir_id.owner);
        let parent = match owner.nodes.get(hir_id.local_id) {
            Some(node) => node.parent,
            None => vstd::pervasive::unreached(),
        };
        if parent == ItemLocalId::invalid() {
            None
        } else {
            match owner.nodes.get(parent) {
                Some(node) => Some(node.node.duplicate()),
                None => vstd::pervasive::unreached(),
            }
        }
    }

    /// Given a path, generate the mangled global symbol which can be used in
    /// the assembly. This symbol uses the module name and parent hierarchy to
    /// remove name conflicts from other translation units
    pub fn global_symbol_for(&self, path: &Path, names: &mut Interner) -> (r: InternedSymbol)
        requires
            old(names).well_formed(),
            path.is_known(old(names)@),
            old(names)@.contains(path.shown(old(names)@)) || old(names)@.len() < 0x1_0000_0000,
        ensures
            final(names).well_formed(),
            final(names)@ == interned(old(names)@, path.shown(old(names)@)),
            r.0 as int == symbol_of(old(names)@, path.shown(old(names)@)),
    {
        path.as_local_symbol(names)
    }
}

impl Path {
    /// Whether the names of all segments are known.
    pub open spec fn is_known(&self, names: Seq<Seq<char>>) -> bool {
        forall|i: int|
            0 <= i < self.segments@.len() ==> (#[trigger] self.segments@[i]).identifier.symbol.0
                < names.len()
    }

    /// The names of the segments with colons between them.
    pub open spec fn shown(&self, names: Seq<Seq<char>>) -> Seq<char> {
        joined(
            Seq::new(
                self.segments@.len(),
                |i: int| names[self.segments@[i].identifier.symbol.0 as int],
            ),
            "::"@,
        )
    }

    /// Returns the final resolution in the path (last segment)
    pub fn resolution(&self) -> (r: &Resolution<ItemLocalId>)
        requires
            self.segments@.len() > 0,
        ensures
            *r == self.segments@.last().resolution,
    {
        &self.segments[self.segments.len() - 1].resolution
    }

    /// The names of the segments with colons between them.
    fn text(&self, names: &Interner) -> (r: String)
        requires
            self.is_known(names@),
        ensures
            r@ == self.shown(names@),
    {
        let ghost parts = Seq::new(
            self.segments@.len(),
            |i: int| names@[self.segments@[i].identifier.symbol.0 as int],
        );
        let mut out = String::new();
        let mut i: usize = 0;
        assert(parts.take(0) =~= Seq::<Seq<char>>::empty());
        assert(out@ =~= joined(parts.take(0), "::"@));
        while i < self.segments.len()
            invariant
                0 <= i <= self.segments@.len(),
                self.is_known(names@),
                parts == Seq::new(
                    self.segments@.len(),
                    |i: int| names@[self.segments@[i].identifier.symbol.0 as int],
                ),
                out@ == joined(parts.take(i as int), "::"@),
            decreases self.segments@.len() - i,
        {
            let ghost before = out@;
            assert(parts.take(i + 1).drop_last() =~= parts.take(i as int));
            assert(parts.take(i + 1).last() == parts[i as int]);
            assert(self.segments@[i as int].identifier.symbol.0 < names@.len());
            if i > 0 {
                out.append("::");
            }
            out.append(names.value(self.segments[i].identifier.symbol));
            assert(out@ =~= joined(parts.take(i + 1), "::"@));
            i = i + 1;
        }
        assert(parts.take(i as int) =~= parts);
        out
    }

    /// Returns a string representation of the path which can be used for
    /// symbols
    pub fn as_local_symbol(&self, names: &mut Interner) -> (r: InternedSymbol)
        requires
            old(names).well_formed(),
            self.is_known(old(names)@),
            old(names)@.contains(self.shown(old(names)@)) || old(names)@.len() < 0x1_0000_0000,
        ensures
            final(names).well_formed(),
            final(names)@ == interned(old(names)@, self.shown(old(names)@)),
            r.0 as int == symbol_of(old(names)@, self.shown(old(names)@)),
    {
        let text = self.text(names);
        names.intern(text.as_str())
    }
}

} // verus!
