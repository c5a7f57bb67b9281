//! The types of the language.

use crate::collections::{ids_in, share, IdSet};
use crate::frontend::intern::{InternedSymbol, Interner};
use crate::index::{low_word, Index};
use crate::middle::hir::LocalDefId;
use crate::middle::primitive::{FloatKind, IntKind, PrimitiveKind, UIntKind};
use crate::style::{doc, Shade, Styled, StyledView};
use crate::text::{decimal, push_decimal};
use std::rc::Rc;
use vstd::prelude::*;

verus! {

/// A handle on a type. Types that come from one [`TypeTable`] share what is
/// equal.
pub struct Type(pub Rc<TypeKind>);

pub enum TypeKind {
    /// !
    Never,
    /// ()
    Unit,
    // true, false
    Bool,
    // 'a', '\n'
    Char,
    /// i32, i64, etc.
    Integer(IntKind),
    /// u8, u32, etc.
    UnsignedInteger(UIntKind),
    /// f32, f64
    Float(FloatKind),
    /// str
    ///
    /// A pointer and length to some UTF-8 data
    Str,
    /// cstr
    ///
    /// A raw pointer which is guaranteed to point to a valid, null terminated,
    /// ASCII C-style string
    CStr,
    /// *T
    ///
    /// A raw pointer to a T
    Pointer(Type),
    /// [T]
    ///
    /// A pointer and length to some amount of T's
    Slice(Type),
    /// [T; <length>]
    ///
    /// A raw pointer to a fixed size allocation of T's
    Array { ty: Type, length: usize },
    /// (f32, u8, str)
    ///
    /// A fixed size list of different types
    Tuple(Vec<Type>),
    /// struct T {
    ///     a: i32,
    ///     b: f64,
    ///     b: (bool, String)
    /// }
    ///
    /// A user defined type with named fields
    Struct {
        /// Allows structs with the same layout to be distinct types
        def_id: LocalDefId,
        name: InternedSymbol,
        fields: Vec<StructField>,
    },
    /// enum T {
    ///     A.
    ///     B.
    ///     C.
    /// }
    ///
    /// A user defined discrete set of allowed values
    Enum { def_id: LocalDefId, name: InternedSymbol },
    /// fn(i32, str, *T) -> u8
    ///
    /// A raw pointer to a function body
    FunctionPointer { parameters: Vec<Type>, return_type: Type, is_variadic: bool },
    /// *any
    ///
    /// A raw pointer to some data of an unknown type. `any` can not be used on
    /// its own since it has an unknown size, so it must be used as a pointer.
    Any,
    /// An unresolved type variable whose type must be inferred
    Infer(TypeVariable),
    /// The type which is created as a result of some illegal operation which we
    /// can't compute the type of. If you find this in your type, there is no
    /// use emitting another error since one has already been created.
    Error,
}

pub struct StructField {
    pub name: InternedSymbol,
    pub ty: Type,
}

#[derive(Debug, Clone, Copy, PartialEq, Eq, Structural, Hash)]
pub enum TypeVariable {
    Int(IntVariableId),
    Float(FloatVariableId),
}

/// An integral type variable to be inferred
#[derive(Clone, Copy, Debug, PartialEq, Eq, Structural, PartialOrd, Ord, Hash)]
pub struct IntVariableId(pub u32);

impl Index for IntVariableId {
    open spec fn ix(self) -> int {
        self.0 as int
    }

    fn new(idx: usize) -> (r: Self) {
        IntVariableId(low_word(idx))
    }

    fn index(self) -> (r: usize) {
        self.0 as usize
    }
}

/// A floating point type variable to be inferred
#[derive(Clone, Copy, Debug, PartialEq, Eq, Structural, PartialOrd, Ord, Hash)]
pub struct FloatVariableId(pub u32);

impl Index for FloatVariableId {
    open spec fn ix(self) -> int {
        self.0 as int
    }

    fn new(idx: usize) -> (r: Self) {
        FloatVariableId(low_word(idx))
    }

    fn index(self) -> (r: usize) {
        self.0 as usize
    }
}

/// What a [`Type`] is.
pub enum Ty {
    Never,
    Unit,
    Bool,
    Char,
    Integer(IntKind),
    UnsignedInteger(UIntKind),
    Float(FloatKind),
    Str,
    CStr,
    Pointer(Box<Ty>),
    Slice(Box<Ty>),
    Array { ty: Box<Ty>, length: usize },
    Tuple(Seq<Ty>),
    Struct { def_id: LocalDefId, name: InternedSymbol, fields: Seq<(InternedSymbol, Ty)> },
    Enum { def_id: LocalDefId, name: InternedSymbol },
    FunctionPointer { parameters: Seq<Ty>, return_type: Box<Ty>, is_variadic: bool },
    Any,
    Infer(TypeVariable),
    Error,
}

impl Type {
    /// What the type is.
    pub open spec fn model(self) -> Ty
        decreases self,
    {
        match *self.0 {
            TypeKind::Never => Ty::Never,
            TypeKind::Unit => Ty::Unit,
            TypeKind::Bool => Ty::Bool,
            TypeKind::Char => Ty::Char,
            TypeKind::Integer(kind) => Ty::Integer(kind),
            TypeKind::UnsignedInteger(kind) => Ty::UnsignedInteger(kind),
            TypeKind::Float(kind) => Ty::Float(kind),
            TypeKind::Str => Ty::Str,
            TypeKind::CStr => Ty::CStr,
            TypeKind::Pointer(inner) => Ty::Pointer(Box::new(inner.model())),
            TypeKind::Slice(inner) => Ty::Slice(Box::new(inner.model())),
            TypeKind::Array { ty, length } => Ty::Array { ty: Box::new(ty.model()), length },
            TypeKind::Tuple(types) => Ty::Tuple(
                Seq::new(
                    types@.len(),
                    |i: int|
                        if 0 <= i < types@.len() {
                            types@[i].model()
                        } else {
                            Ty::Never
                        },
                ),
            ),
            TypeKind::Struct { def_id, name, fields } => Ty::Struct {
                def_id,
                name,
                fields: Seq::new(
                    fields@.len(),
                    |i: int|
                        (
                            fields@[i].name,
                            if 0 <= i < fields@.len() {
                                fields@[i].ty.model()
                            } else {
                                Ty::Never
                            },
                        ),
                ),
            },
            TypeKind::Enum { def_id, name } => Ty::Enum { def_id, name },
            TypeKind::FunctionPointer {
                parameters,
                return_type,
                is_variadic,
            } => Ty::FunctionPointer {
                parameters: Seq::new(
                    parameters@.len(),
                    |i: int|
                        if 0 <= i < parameters@.len() {
                            parameters@[i].model()
                        } else {
                            Ty::Never
                        },
                ),
                return_type: Box::new(return_type.model()),
                is_variadic,
            },
            TypeKind::Any => Ty::Any,
            TypeKind::Infer(variable) => Ty::Infer(variable),
            TypeKind::Error => Ty::Error,
        }
    }
}

impl View for Type {
    type V = Ty;

    open spec fn view(&self) -> Ty {
        self.model()
    }
}

impl TypeKind {
    /// What a type of this kind is.
    pub open spec fn model(self) -> Ty {
        Type(Rc::new(self)).model()
    }
}

/// What a list of types is.
pub open spec fn types(list: Seq<Type>) -> Seq<Ty> {
    Seq::new(list.len(), |i: int| list[i]@)
}

/// What a list of fields is.
pub open spec fn fields_of(list: Seq<StructField>) -> Seq<(InternedSymbol, Ty)> {
    Seq::new(list.len(), |i: int| (list[i].name, list[i].ty@))
}

/// The parts of a type are what its model says.
pub proof fn lemma_parts(kind: TypeKind)
    ensures
        kind matches TypeKind::Tuple(list) ==> kind.model() == Ty::Tuple(types(list@)),
        kind matches TypeKind::Struct { def_id, name, fields } ==> kind.model() == (Ty::Struct {
            def_id,
            name,
            fields: fields_of(fields@),
        }),
        kind matches TypeKind::FunctionPointer { parameters, return_type, is_variadic }
            ==> kind.model() == (Ty::FunctionPointer {
            parameters: types(parameters@),
            return_type: Box::new(return_type@),
            is_variadic,
        }),
{
    match kind {
        TypeKind::Tuple(list) => {
            assert(kind.model()->Tuple_0 =~= types(list@));
        },
        TypeKind::Struct { def_id, name, fields } => {
            assert(kind.model()->Struct_fields =~= fields_of(fields@));
        },
        TypeKind::FunctionPointer { parameters, return_type, is_variadic } => {
            assert(kind.model()->parameters =~= types(parameters@));
        },
        _ => {},
    }
}

impl Ty {
    /// Whether values of the type can be calculated with.
    pub open spec fn is_arithmetic(self) -> bool {
        self is Char || self is Integer || self is UnsignedInteger || self is Float
            || self is Infer || self is Pointer || self is Any
    }

    /// Whether the type is an integer type, or will be.
    pub open spec fn is_integer_like(self) -> bool {
        self is Integer || self is UnsignedInteger || (self matches Ty::Infer(TypeVariable::Int(_)))
    }

    /// Whether the type is a floating point type, or will be.
    pub open spec fn is_float_like(self) -> bool {
        self is Float || (self matches Ty::Infer(TypeVariable::Float(_)))
    }

    /// Whether the type is a pointer.
    pub open spec fn is_pointer_like(self) -> bool {
        self is Pointer || self is Any
    }

    /// Whether the type is `!`.
    pub open spec fn is_never(self) -> bool {
        self is Never
    }

    /// Whether the type is `()`.
    pub open spec fn is_unit(self) -> bool {
        self is Unit
    }

    /// Whether the type is `bool`.
    pub open spec fn is_bool(self) -> bool {
        self is Bool
    }

    /// Whether the type could not be computed.
    pub open spec fn is_error(self) -> bool {
        self is Error
    }

    /// Whether the type is a structure.
    pub open spec fn is_struct(self) -> bool {
        self is Struct
    }

    /// Whether values of the type are made up of several.
    pub open spec fn is_aggregate(self) -> bool {
        self is Str || self is Slice || self is Tuple || self is Struct || self is Array
    }

}

impl TypeKind {
    /// Whether values of the type can be calculated with.
    pub fn is_arithmetic(&self) -> (r: bool)
        ensures
            r == self.model().is_arithmetic(),
    {
        match self {
            TypeKind::Char
            | TypeKind::Integer(_)
            | TypeKind::UnsignedInteger(_)
            | TypeKind::Float(_)
            | TypeKind::Infer(_)
            | TypeKind::Pointer(_)
            | TypeKind::Any => true,
            TypeKind::Never
            | TypeKind::Unit
            | TypeKind::Bool
            | TypeKind::Slice(_)
            | TypeKind::Str
            | TypeKind::CStr
            | TypeKind::Array { .. }
            | TypeKind::Tuple(_)
            | TypeKind::Struct { .. }
            | TypeKind::Enum { .. }
            | TypeKind::FunctionPointer { .. }
            | TypeKind::Error => false,
        }
    }

    /// Whether the type is an integer type, or will be.
    pub fn is_integer_like(&self) -> (r: bool)
        ensures
            r == self.model().is_integer_like(),
    {
        matches!(
            self,
            TypeKind::Integer(_)
                | TypeKind::UnsignedInteger(_)
                | TypeKind::Infer(TypeVariable::Int(_))
        )
    }

    /// Whether the type is a floating point type, or will be.
    pub fn is_float_like(&self) -> (r: bool)
        ensures
            r == self.model().is_float_like(),
    {
        matches!(self, TypeKind::Float(_) | TypeKind::Infer(TypeVariable::Float(_)))
    }

    /// Whether the type is a pointer.
    pub fn is_pointer_like(&self) -> (r: bool)
        ensures
            r == self.model().is_pointer_like(),
    {
        matches!(self, TypeKind::Pointer(_) | TypeKind::Any)
    }

    /// Whether the type is `!`.
    pub fn is_never(&self) -> (r: bool)
        ensures
            r == self.model().is_never(),
    {
        matches!(self, TypeKind::Never)
    }

    /// Whether the type is `()`.
    pub fn is_unit(&self) -> (r: bool)
        ensures
            r == self.model().is_unit(),
    {
        matches!(self, TypeKind::Unit)
    }

    /// Whether the type is `bool`.
    pub fn is_bool(&self) -> (r: bool)
        ensures
            r == self.model().is_bool(),
    {
        matches!(self, TypeKind::Bool)
    }

    /// Whether the type could not be computed.
    pub fn is_error(&self) -> (r: bool)
        ensures
            r == self.model().is_error(),
    {
        matches!(self, TypeKind::Error)
    }

    /// Whether the type is a structure.
    pub fn is_struct(&self) -> (r: bool)
        ensures
            r == self.model().is_struct(),
    {
        matches!(self, TypeKind::Struct { .. })
    }

    /// Whether values of the type are made up of several.
    pub fn is_aggregate(&self) -> (r: bool)
        ensures
            r == self.model().is_aggregate(),
    {
        matches!(
            self,
            TypeKind::Str
                | TypeKind::Slice(_)
                | TypeKind::Tuple(_)
                | TypeKind::Struct { .. }
                | TypeKind::Array { .. }
        )
    }
}

impl Type {
    /// A handle on a type that a table holds.
    pub fn new_from_reference_only_for_interning(kind: Rc<TypeKind>) -> (r: Type)
        ensures
            r@ == (*kind).model(),
            r == Type(kind),
    {
        Type(kind)
    }

    /// What the handle refers to.
    pub fn kind(&self) -> (r: &TypeKind)
        ensures
            *r == *self.0,
            r.model() == self@,
    {
        &*self.0
    }

    /// Another handle on the same type.
    pub fn duplicate(&self) -> (r: Type)
        ensures
            r == *self,
    {
        Type(share(&self.0))
    }
}

/// Whether two lists hold the same types.
fn same_types(a: &Vec<Type>, b: &Vec<Type>) -> (r: bool)
    ensures
        r == (types(a@) == types(b@)),
    decreases a,
{
    if a.len() != b.len() {
        assert(types(a@).len() != types(b@).len());
        return false;
    }
    let mut i: usize = 0;
    while i < a.len()
        invariant
            0 <= i <= a@.len(),
            a@.len() == b@.len(),
            forall|k: int| 0 <= k < i ==> #[trigger] types(a@)[k] == types(b@)[k],
        decreases a@.len() - i,
    {
        if !same_type(&a[i], &b[i]) {
            assert(types(a@)[i as int] != types(b@)[i as int]);
            return false;
        }
        i = i + 1;
    }
    assert(types(a@) =~= types(b@));
    true
}

fn same_fields(a: &Vec<StructField>, b: &Vec<StructField>) -> (r: bool)
    ensures
        r == (fields_of(a@) == fields_of(b@)),
    decreases a,
{
    if a.len() != b.len() {
        assert(fields_of(a@).len() != fields_of(b@).len());
        return false;
    }
    let mut i: usize = 0;
    while i < a.len()
        invariant
            0 <= i <= a@.len(),
            a@.len() == b@.len(),
            forall|k: int| 0 <= k < i ==> #[trigger] fields_of(a@)[k] == fields_of(b@)[k],
        decreases a@.len() - i,
    {
        if a[i].name != b[i].name || !same_type(&a[i].ty, &b[i].ty) {
            assert(fields_of(a@)[i as int] != fields_of(b@)[i as int]);
            return false;
        }
        i = i + 1;
    }
    assert(fields_of(a@) =~= fields_of(b@));
    true
}

/// Whether two kinds are those of the same type.
pub fn same_kind(a: &TypeKind, b: &TypeKind) -> (r: bool)
    ensures
        r == (a.model() == b.model()),
    decreases a,
{
    proof {
        lemma_parts(*a);
        lemma_parts(*b);
    }
    match (a, b) {
        (TypeKind::Never, TypeKind::Never) => true,
        (TypeKind::Unit, TypeKind::Unit) => true,
        (TypeKind::Bool, TypeKind::Bool) => true,
        (TypeKind::Char, TypeKind::Char) => true,
        (TypeKind::Integer(x), TypeKind::Integer(y)) => *x == *y,
        (TypeKind::UnsignedInteger(x), TypeKind::UnsignedInteger(y)) => *x == *y,
        (TypeKind::Float(x), TypeKind::Float(y)) => *x == *y,
        (TypeKind::Str, TypeKind::Str) => true,
        (TypeKind::CStr, TypeKind::CStr) => true,
        (TypeKind::Pointer(x), TypeKind::Pointer(y)) => same_type(x, y),
        (TypeKind::Slice(x), TypeKind::Slice(y)) => same_type(x, y),
        (TypeKind::Array { ty: x, length: n }, TypeKind::Array { ty: y, length: m }) => {
            *n == *m && same_type(x, y)
        }
        (TypeKind::Tuple(x), TypeKind::Tuple(y)) => same_types(x, y),
        (
            TypeKind::Struct { def_id: d, name: n, fields: x },
            TypeKind::Struct { def_id: e, name: m, fields: y },
        ) => *d == *e && *n == *m && same_fields(x, y),
        (TypeKind::Enum { def_id: d, name: n }, TypeKind::Enum { def_id: e, name: m }) => {
            *d == *e && *n == *m
        }
        (
            TypeKind::FunctionPointer { parameters: p, return_type: x, is_variadic: v },
            TypeKind::FunctionPointer { parameters: q, return_type: y, is_variadic: w },
        ) => *v == *w && same_types(p, q) && same_type(x, y),
        (TypeKind::Any, TypeKind::Any) => true,
        (TypeKind::Infer(x), TypeKind::Infer(y)) => *x == *y,
        (TypeKind::Error, TypeKind::Error) => true,
        _ => false,
    }
}

/// Whether two types are the same.
pub fn same_type(a: &Type, b: &Type) -> (r: bool)
    ensures
        r == (a@ == b@),
    decreases a,
{
    same_kind(&*a.0, &*b.0)
}

/// The type variables in the first `n` types of a list.
pub open spec fn free_upto(list: Seq<Ty>, n: nat) -> Set<TypeVariable>
    decreases list, n,
{
    if n == 0 || n > list.len() {
        Set::empty()
    } else {
        free_upto(list, (n - 1) as nat).union(free(list[n - 1]))
    }
}

/// The type variables in the first `n` fields of a list.
pub open spec fn free_fields_upto(list: Seq<(InternedSymbol, Ty)>, n: nat) -> Set<TypeVariable>
    decreases list, n,
{
    if n == 0 || n > list.len() {
        Set::empty()
    } else {
        free_fields_upto(list, (n - 1) as nat).union(free(list[n - 1].1))
    }
}

/// The type variables that occur in a type.
pub open spec fn free(ty: Ty) -> Set<TypeVariable>
    decreases ty, 0nat,
{
    match ty {
        Ty::Pointer(inner) => free(*inner),
        Ty::Slice(inner) => free(*inner),
        Ty::Array { ty: inner, .. } => free(*inner),
        Ty::Struct { fields, .. } => free_fields_upto(fields, fields.len()),
        Ty::Tuple(list) => free_upto(list, list.len()),
        Ty::FunctionPointer { parameters, return_type, .. } => free_upto(
            parameters,
            parameters.len(),
        ).union(free(*return_type)),
        Ty::Infer(variable) => Set::empty().insert(variable),
        _ => Set::empty(),
    }
}

/// A set of type variables that remembers the order in which they came.
pub struct VariableSet {
    ints: IdSet,
    floats: IdSet,
    list: Vec<TypeVariable>,
}

impl View for VariableSet {
    type V = Set<TypeVariable>;

    closed spec fn view(&self) -> Set<TypeVariable> {
        self.list@.to_set()
    }
}

impl VariableSet {
    /// The two sets hold what the list does.
    pub closed spec fn well_formed(&self) -> bool {
        &&& forall|id: u32| #[trigger]
            ids_in(self.ints).contains(id) <==> self.list@.contains(
                TypeVariable::Int(IntVariableId(id)),
            )
        &&& forall|id: u32| #[trigger]
            ids_in(self.floats).contains(id) <==> self.list@.contains(
                TypeVariable::Float(FloatVariableId(id)),
            )
        &&& self.list@.no_duplicates()
    }

    /// The variables in the order in which they came.
    pub closed spec fn members(&self) -> Seq<TypeVariable> {
        self.list@
    }

    /// The variables in the order in which they came.
    pub fn as_list(&self) -> (r: &Vec<TypeVariable>)
        ensures
            r@ == self.members(),
            r@.to_set() == self@,
    {
        &self.list
    }

    /// The set without members.
    pub fn new() -> (r: VariableSet)
        ensures
            r.well_formed(),
            r@ == Set::<TypeVariable>::empty(),
            r.members() == Seq::<TypeVariable>::empty(),
    {
        let r = VariableSet { ints: IdSet::new(), floats: IdSet::new(), list: Vec::new() };
        assert(r@ =~= Set::<TypeVariable>::empty());
        r
    }

    /// Adds a variable.
    pub fn insert(&mut self, variable: TypeVariable)
        requires
            old(self).well_formed(),
        ensures
            final(self).well_formed(),
            final(self)@ == old(self)@.insert(variable),
            final(self).members() == (if old(self)@.contains(variable) {
                old(self).members()
            } else {
                old(self).members().push(variable)
            }),
    {
        let fresh = match variable {
            TypeVariable::Int(id) => self.ints.insert(id.0),
            TypeVariable::Float(id) => self.floats.insert(id.0),
        };
        if fresh {
            self.list.push(variable);
        }
        proof {
            let before = old(self).list@;
            let after = self.list@;
            if fresh {
                assert(after[before.len() as int] == variable);
                assert forall|v: TypeVariable| #[trigger] after.contains(v) <==> before.contains(v) || v
                    == variable by {
                    if before.contains(v) {
                        let k = before.index_of(v);
                        assert(after[k] == v);
                    }
                    if after.contains(v) {
                        let k = after.index_of(v);
                        if k < before.len() {
                            assert(before[k] == v);
                        }
                    }
                }
            }
            assert(self@ =~= old(self)@.insert(variable));
            if let TypeVariable::Int(id) = variable {
                assert(variable == TypeVariable::Int(IntVariableId(id.0)));
            }
            if let TypeVariable::Float(id) = variable {
                assert(variable == TypeVariable::Float(FloatVariableId(id.0)));
            }
        }
    }

    /// Whether a variable is a member.
    pub fn contains(&self, variable: TypeVariable) -> (r: bool)
        requires
            self.well_formed(),
        ensures
            r == self@.contains(variable),
    {
        match variable {
            TypeVariable::Int(id) => self.ints.contains(id.0),
            TypeVariable::Float(id) => self.floats.contains(id.0),
        }
    }

    /// Whether there are no members.
    pub fn is_empty(&self) -> (r: bool)
        ensures
            r == (self@ == Set::<TypeVariable>::empty()),
    {
        proof {
            if self.list@.len() > 0 {
                assert(self@.contains(self.list@[0]));
            } else {
                assert(self@ =~= Set::<TypeVariable>::empty());
            }
        }
        self.list.len() == 0
    }
}

/// Adds the type variables of a list of types.
fn collect_list(list: &Vec<Type>, out: &mut VariableSet)
    requires
        old(out).well_formed(),
    ensures
        final(out).well_formed(),
        final(out)@ == old(out)@.union(free_upto(types(list@), list@.len())),
    decreases list,
{
    let ghost all = types(list@);
    let mut i: usize = 0;
    assert(out@ =~= out@.union(free_upto(all, 0)));
    while i < list.len()
        invariant
            0 <= i <= list@.len(),
            all == types(list@),
            out.well_formed(),
            out@ == old(out)@.union(free_upto(all, i as nat)),
        decreases list@.len() - i,
    {
        assert(all[i as int] == list@[i as int]@);
        collect_kind(&*list[i].0, out);
        i = i + 1;
        assert(out@ =~= old(out)@.union(free_upto(all, i as nat)));
    }
}

fn collect_fields(list: &Vec<StructField>, out: &mut VariableSet)
    requires
        old(out).well_formed(),
    ensures
        final(out).well_formed(),
        final(out)@ == old(out)@.union(free_fields_upto(fields_of(list@), list@.len())),
    decreases list,
{
    let ghost all = fields_of(list@);
    let mut i: usize = 0;
    assert(out@ =~= out@.union(free_fields_upto(all, 0)));
    while i < list.len()
        invariant
            0 <= i <= list@.len(),
            all == fields_of(list@),
            out.well_formed(),
            out@ == old(out)@.union(free_fields_upto(all, i as nat)),
        decreases list@.len() - i,
    {
        assert(all[i as int].1 == list@[i as int].ty@);
        collect_kind(&*list[i].ty.0, out);
        i = i + 1;
        assert(out@ =~= old(out)@.union(free_fields_upto(all, i as nat)));
    }
}

/// Adds the type variables of a type.
fn collect_kind(kind: &TypeKind, out: &mut VariableSet)
    requires
        old(out).well_formed(),
    ensures
        final(out).well_formed(),
        final(out)@ == old(out)@.union(free(kind.model())),
    decreases kind,
{
    proof {
        lemma_parts(*kind);
    }
    match kind {
        TypeKind::Pointer(inner) => collect_kind(&*inner.0, out),
        TypeKind::Slice(inner) => collect_kind(&*inner.0, out),
        TypeKind::Array { ty: inner, .. } => collect_kind(&*inner.0, out),
        TypeKind::Struct { fields, .. } => collect_fields(fields, out),
        TypeKind::Tuple(list) => collect_list(list, out),
        TypeKind::FunctionPointer { parameters, return_type, .. } => {
            collect_list(parameters, out);
            collect_kind(&*return_type.0, out);
        }
        TypeKind::Infer(variable) => out.insert(*variable),
        _ => {}
    }
    assert(out@ =~= old(out)@.union(free(kind.model())));
}

impl TypeKind {
    /// Collects the list of free type variables in this type, traversing
    /// recursive inner types if necessary
    pub fn free_type_variables(&self) -> (r: VariableSet)
        ensures
            r.well_formed(),
            r@ == free(self.model()),
    {
        let mut out = VariableSet::new();
        collect_kind(self, &mut out);
        assert(out@ =~= free(self.model()));
        out
    }
}

/// How the first `n` types of a list are written, with commas between them and
/// a comma behind the last if `open`.
pub open spec fn shown_list(names: Seq<Seq<char>>, list: Seq<Ty>, n: nat, open_end: bool) -> Seq<
    StyledView,
>
    decreases list, n,
{
    if n == 0 || n > list.len() {
        Seq::empty()
    } else {
        shown_list(names, list, (n - 1) as nat, open_end) + shown_kind(names, list[n - 1]) + (if n
            < list.len() || open_end {
            seq![StyledView::Text(", "@)]
        } else {
            Seq::empty()
        })
    }
}

/// How a type is written.
pub open spec fn shown_kind(names: Seq<Seq<char>>, ty: Ty) -> Seq<StyledView>
    decreases ty, 0nat,
{
    match ty {
        Ty::Never => seq![StyledView::Text("!"@)],
        Ty::Unit => seq![StyledView::Text("()"@)],
        Ty::Bool => seq![StyledView::Text("bool"@)],
        Ty::Char => seq![StyledView::Text("char"@)],
        Ty::Integer(kind) => seq![StyledView::Text(PrimitiveKind::Int(kind).shown())],
        Ty::UnsignedInteger(kind) => seq![StyledView::Text(PrimitiveKind::UInt(kind).shown())],
        Ty::Float(kind) => seq![StyledView::Text(PrimitiveKind::Float(kind).shown())],
        Ty::Str => seq![StyledView::Text("str"@)],
        Ty::CStr => seq![StyledView::Text("cstr"@)],
        Ty::Pointer(inner) => seq![StyledView::Text("*"@)] + shown_kind(names, *inner),
        Ty::Slice(inner) => seq![StyledView::Text("["@)] + shown_kind(names, *inner) + seq![
            StyledView::Text("]"@),
        ],
        Ty::Array { ty: inner, length } => seq![StyledView::Text("["@)] + shown_kind(names, *inner)
            + seq![StyledView::Text("; "@ + decimal(length as nat) + "]"@)],
        Ty::Tuple(list) => seq![StyledView::Text("("@)] + shown_list(
            names,
            list,
            list.len(),
            false,
        ) + seq![StyledView::Text(")"@)],
        Ty::Struct { name, .. } => seq![StyledView::Text(names[name.0 as int])],
        Ty::Enum { name, .. } => seq![StyledView::Text(names[name.0 as int])],
        Ty::FunctionPointer { parameters, return_type, is_variadic } => seq![
            StyledView::Text("fn ("@),
        ] + shown_list(names, parameters, parameters.len(), is_variadic) + seq![
            StyledView::Text(if is_variadic {
                "..."@
            } else {
                ""@
            }),
            StyledView::Text(") -> "@),
            StyledView::Paint(Shade::Yellow, shown_kind(names, *return_type)),
        ],
        Ty::Any => seq![StyledView::Text("*any"@)],
        Ty::Infer(TypeVariable::Int(id)) => seq![
            StyledView::Text("{integer@"@ + decimal(id.0 as nat) + "}"@),
        ],
        Ty::Infer(TypeVariable::Float(id)) => seq![
            StyledView::Text("{float@"@ + decimal(id.0 as nat) + "}"@),
        ],
        Ty::Error => seq![StyledView::Text("{unknown}"@)],
    }
}

/// A type in its color.
pub open spec fn shown_type(names: Seq<Seq<char>>, ty: Ty) -> StyledView {
    StyledView::Paint(Shade::Yellow, shown_kind(names, ty))
}

/// Whether the names of the first `n` types of a list are known.
pub open spec fn names_upto(names: Seq<Seq<char>>, list: Seq<Ty>, n: nat) -> bool
    decreases list, n,
{
    n == 0 || n > list.len() || (names_upto(names, list, (n - 1) as nat) && names_known(
        names,
        list[n - 1],
    ))
}

/// Whether the names that are written for a type are known.
pub open spec fn names_known(names: Seq<Seq<char>>, ty: Ty) -> bool
    decreases ty, 0nat,
{
    match ty {
        Ty::Pointer(inner) => names_known(names, *inner),
        Ty::Slice(inner) => names_known(names, *inner),
        Ty::Array { ty: inner, .. } => names_known(names, *inner),
        Ty::Tuple(list) => names_upto(names, list, list.len()),
        Ty::Struct { name, .. } => (name.0 as int) < names.len(),
        Ty::Enum { name, .. } => (name.0 as int) < names.len(),
        Ty::FunctionPointer { parameters, return_type, .. } => names_upto(
            names,
            parameters,
            parameters.len(),
        ) && names_known(names, *return_type),
        _ => true,
    }
}

proof fn lemma_names_upto(names: Seq<Seq<char>>, list: Seq<Ty>, i: nat, n: nat)
    requires
        i < n <= list.len(),
        names_upto(names, list, n),
    ensures
        names_known(names, list[i as int]),
    decreases n,
{
    if i < n - 1 {
        lemma_names_upto(names, list, i, (n - 1) as nat);
    }
}

fn push_list(parts: &mut Vec<Styled>, list: &Vec<Type>, open_end: bool, names: &Interner)
    requires
        names_upto(names@, types(list@), list@.len()),
    ensures
        doc(final(parts)@) == doc(old(parts)@) + shown_list(
            names@,
            types(list@),
            list@.len(),
            open_end,
        ),
    decreases list,
{
    let ghost all = types(list@);
    let ghost start = doc(parts@);
    let mut i: usize = 0;
    assert(start + shown_list(names@, all, 0, open_end) =~= start);
    while i < list.len()
        invariant
            0 <= i <= list@.len(),
            all == types(list@),
            names_upto(names@, all, list@.len()),
            doc(parts@) == start + shown_list(names@, all, i as nat, open_end),
        decreases list@.len() - i,
    {
        assert(all[i as int] == list@[i as int]@);
        proof {
            lemma_names_upto(names@, all, i as nat, list@.len());
        }
        push_kind(parts, &*list[i].0, names);
        if i != list.len() - 1 || open_end {
            crate::style::push_str(parts, ", ");
        }
        i = i + 1;
        assert(doc(parts@) =~= start + shown_list(names@, all, i as nat, open_end));
    }
}

/// Appends how a type is written.
pub fn push_kind(parts: &mut Vec<Styled>, kind: &TypeKind, names: &Interner)
    requires
        names_known(names@, kind.model()),
    ensures
        doc(final(parts)@) == doc(old(parts)@) + shown_kind(names@, kind.model()),
    decreases kind,
{
    proof {
        lemma_parts(*kind);
    }
    let ghost start = doc(parts@);
    match kind {
        TypeKind::Never => crate::style::push_str(parts, "!"),
        TypeKind::Unit => crate::style::push_str(parts, "()"),
        TypeKind::Bool => crate::style::push_str(parts, "bool"),
        TypeKind::Char => crate::style::push_str(parts, "char"),
        TypeKind::Integer(kind) => {
            crate::style::push_str(parts, PrimitiveKind::Int(*kind).name())
        }
        TypeKind::UnsignedInteger(kind) => {
            crate::style::push_str(parts, PrimitiveKind::UInt(*kind).name())
        }
        TypeKind::Float(kind) => {
            crate::style::push_str(parts, PrimitiveKind::Float(*kind).name())
        }
        TypeKind::Str => crate::style::push_str(parts, "str"),
        TypeKind::CStr => crate::style::push_str(parts, "cstr"),
        TypeKind::Pointer(inner) => {
            crate::style::push_str(parts, "*");
            push_kind(parts, &*inner.0, names);
        }
        TypeKind::Slice(inner) => {
            crate::style::push_str(parts, "[");
            push_kind(parts, &*inner.0, names);
            crate::style::push_str(parts, "]");
        }
        TypeKind::Array { ty: inner, length } => {
            crate::style::push_str(parts, "[");
            push_kind(parts, &*inner.0, names);
            let mut tail = "; ".to_owned();
            push_decimal(&mut tail, *length as u64);
            tail.append("]");
            crate::style::push_text(parts, tail);
        }
        TypeKind::Tuple(list) => {
            crate::style::push_str(parts, "(");
            push_list(parts, list, false, names);
            crate::style::push_str(parts, ")");
        }
        TypeKind::Struct { name, .. } => crate::style::push_str(parts, names.value(*name)),
        TypeKind::Enum { name, .. } => crate::style::push_str(parts, names.value(*name)),
        TypeKind::FunctionPointer { parameters, return_type, is_variadic } => {
            crate::style::push_str(parts, "fn (");
            push_list(parts, parameters, *is_variadic, names);
            crate::style::push_str(
                parts,
                if *is_variadic {
                    "..."
                } else {
                    ""
                },
            );
            crate::style::push_str(parts, ") -> ");
            let mut inner: Vec<Styled> = Vec::new();
            assert(doc(inner@) =~= Seq::<StyledView>::empty());
            push_kind(&mut inner, &*return_type.0, names);
            assert(doc(inner@) =~= shown_kind(names@, return_type@));
            crate::style::push_painted(parts, inner, Shade::Yellow);
        }
        TypeKind::Any => crate::style::push_str(parts, "*any"),
        TypeKind::Infer(TypeVariable::Int(id)) => {
            let mut text = "{integer@".to_owned();
            push_decimal(&mut text, id.0 as u64);
            text.append("}");
            crate::style::push_text(parts, text);
        }
        TypeKind::Infer(TypeVariable::Float(id)) => {
            let mut text = "{float@".to_owned();
            push_decimal(&mut text, id.0 as u64);
            text.append("}");
            crate::style::push_text(parts, text);
        }
        TypeKind::Error => crate::style::push_str(parts, "{unknown}"),
    }
    assert(doc(parts@) =~= start + shown_kind(names@, kind.model()));
}

impl Type {
    /// How the type is written, without its color.
    pub fn colored(&self, names: &Interner) -> (r: Vec<Styled>)
        requires
            names_known(names@, self@),
        ensures
            doc(r@) == shown_kind(names@, self@),
    {
        let mut parts: Vec<Styled> = Vec::new();
        push_kind(&mut parts, self.kind(), names);
        assert(doc(parts@) =~= shown_kind(names@, self@));
        parts
    }

    /// Appends the type in its color.
    pub fn push_to(&self, parts: &mut Vec<Styled>, names: &Interner)
        requires
            names_known(names@, self@),
        ensures
            doc(final(parts)@) == doc(old(parts)@).push(shown_type(names@, self@)),
    {
        let inner = self.colored(names);
        crate::style::push_painted(parts, inner, Shade::Yellow);
    }
}

} // verus!
