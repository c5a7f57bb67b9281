//! Holds each type once.

use crate::collections::{entries_in, IdMap};
use crate::middle::primitive::PrimitiveKind;
use crate::middle::ty::{same_kind, Ty, Type, TypeKind, TypeVariable};
use std::rc::Rc;
use vstd::prelude::*;

verus! {

/// A type in a table, and the number of the type before it that has the same
/// digest.
pub struct Entry {
    pub ty: Type,
    pub previous: Option<u32>,
}

/// Type interning table to prevent duplicate types. The types of one digest
/// are linked to each other, and `heads` knows the last of them.
pub struct TypeTable {
    entries: Vec<Entry>,
    heads: IdMap,
}

/// A number that equal types share.
pub open spec fn digest(ty: Ty) -> u32 {
    match ty {
        Ty::Never => 0,
        Ty::Unit => 1,
        Ty::Bool => 2,
        Ty::Char => 3,
        Ty::Integer(_) => 4,
        Ty::UnsignedInteger(_) => 5,
        Ty::Float(_) => 6,
        Ty::Str => 7,
        Ty::CStr => 8,
        Ty::Pointer(_) => 9,
        Ty::Slice(_) => 10,
        Ty::Array { .. } => 11,
        Ty::Tuple(_) => 12,
        Ty::Struct { def_id, .. } => def_id.0,
        Ty::Enum { def_id, .. } => def_id.0,
        Ty::FunctionPointer { .. } => 13,
        Ty::Any => 14,
        Ty::Infer(TypeVariable::Int(id)) => id.0,
        Ty::Infer(TypeVariable::Float(id)) => id.0,
        Ty::Error => 15,
    }
}

fn digest_of(kind: &TypeKind) -> (r: u32)
    ensures
        r == digest(kind.model()),
{
    match kind {
        TypeKind::Never => 0,
        TypeKind::Unit => 1,
        TypeKind::Bool => 2,
        TypeKind::Char => 3,
        TypeKind::Integer(_) => 4,
        TypeKind::UnsignedInteger(_) => 5,
        TypeKind::Float(_) => 6,
        TypeKind::Str => 7,
        TypeKind::CStr => 8,
        TypeKind::Pointer(_) => 9,
        TypeKind::Slice(_) => 10,
        TypeKind::Array { .. } => 11,
        TypeKind::Tuple(_) => 12,
        TypeKind::Struct { def_id, .. } => def_id.0,
        TypeKind::Enum { def_id, .. } => def_id.0,
        TypeKind::FunctionPointer { .. } => 13,
        TypeKind::Any => 14,
        TypeKind::Infer(TypeVariable::Int(id)) => id.0,
        TypeKind::Infer(TypeVariable::Float(id)) => id.0,
        TypeKind::Error => 15,
    }
}

/// Whether the links from entry `from` on lead to entry `k`.
spec fn leads_to(entries: Seq<Entry>, from: int, k: int) -> bool
    decreases from,
{
    if from == k {
        true
    } else if 0 <= from < entries.len() {
        match entries[from].previous {
            Some(p) => p < from && leads_to(entries, p as int, k),
            None => false,
        }
    } else {
        false
    }
}

proof fn lemma_leads_to_push(entries: Seq<Entry>, entry: Entry, from: int, k: int)
    requires
        0 <= from < entries.len(),
    ensures
        leads_to(entries.push(entry), from, k) == leads_to(entries, from, k),
    decreases from,
{
    if from != k {
        assert(entries.push(entry)[from] == entries[from]);
        if let Some(p) = entries[from].previous {
            if p < from {
                lemma_leads_to_push(entries, entry, p as int, k);
            }
        }
    }
}

/// The type of a primitive.
pub open spec fn primitive_ty(primitive: PrimitiveKind) -> Ty {
    match primitive {
        PrimitiveKind::Never => Ty::Never,
        PrimitiveKind::Unit => Ty::Unit,
        PrimitiveKind::Bool => Ty::Bool,
        PrimitiveKind::Char => Ty::Char,
        PrimitiveKind::Int(kind) => Ty::Integer(kind),
        PrimitiveKind::UInt(kind) => Ty::UnsignedInteger(kind),
        PrimitiveKind::Float(kind) => Ty::Float(kind),
        PrimitiveKind::Str => Ty::Str,
        PrimitiveKind::CStr => Ty::CStr,
    }
}

impl View for TypeTable {
    type V = Seq<Ty>;

    closed spec fn view(&self) -> Seq<Ty> {
        Seq::new(self.entries@.len(), |i: int| self.entries@[i].ty@)
    }
}

impl TypeTable {
    /// Every type is held once, and is found by its digest.
    pub closed spec fn well_formed(&self) -> bool {
        &&& self@.no_duplicates()
        &&& forall|i: int|
            0 <= i < self.entries@.len() ==> {
                let d = digest((#[trigger] self.entries@[i]).ty@);
                &&& entries_in(self.heads).contains_key(d)
                &&& leads_to(self.entries@, entries_in(self.heads)[d] as int, i)
            }
        &&& forall|i: int|
            0 <= i < self.entries@.len() ==> ((#[trigger] self.entries@[i]).previous matches Some(p)
                ==> p < i)
        &&& forall|d: u32| #[trigger]
            entries_in(self.heads).contains_key(d) ==> entries_in(self.heads)[d]
                < self.entries@.len()
    }

    /// A table without types.
    pub fn new() -> (r: TypeTable)
        ensures
            r.well_formed(),
            r@ == Seq::<Ty>::empty(),
    {
        let r = TypeTable { entries: Vec::new(), heads: IdMap::new() };
        assert(r@ =~= Seq::<Ty>::empty());
        r
    }

    /// The type in the table that is the same as `kind`.
    fn find(&self, kind: &TypeKind) -> (r: Option<Type>)
        requires
            self.well_formed(),
        ensures
            match r {
                Some(ty) => ty@ == kind.model() && self@.contains(kind.model()),
                None => !self@.contains(kind.model()),
            },
    {
        let ghost goal = kind.model();
        let code: u32 = digest_of(kind);
        let mut at: Option<u32> = self.heads.get(code);
        proof {
            assert forall|k: int| 0 <= k < self.entries@.len() && self.entries@[k].ty@ == goal implies
                at is Some && leads_to(self.entries@, at->0 as int, k) by {
                assert(digest(self.entries@[k].ty@) == code);
            }
        }
        while at.is_some()
            invariant
                self.well_formed(),
                goal == kind.model(),
                at matches Some(i) ==> i < self.entries@.len(),
                forall|k: int|
                    0 <= k < self.entries@.len() && (#[trigger] self.entries@[k]).ty@ == goal ==> at is Some
                        && leads_to(self.entries@, at->0 as int, k),
            decreases (match at {
                Some(i) => i as int + 1,
                None => 0,
            }),
        {
            let i: u32 = at.unwrap();
            let entry = &self.entries[i as usize];
            if same_kind(entry.ty.kind(), kind) {
                assert(self@[i as int] == goal);
                return Some(entry.ty.duplicate());
            }
            at = entry.previous;
            proof {
                assert forall|k: int|
                    0 <= k < self.entries@.len() && (#[trigger] self.entries@[k]).ty@
                        == goal implies at is Some && leads_to(
                    self.entries@,
                    at->0 as int,
                    k,
                ) by {
                    assert(leads_to(self.entries@, i as int, k));
                    assert(k != i);
                }
            }
        }
        proof {
            if self@.contains(goal) {
                let k = self@.index_of(goal);
                assert(self.entries@[k].ty@ == goal);
            }
        }
        None
    }

    /// The type of a kind, which is held from then on.
    pub fn intern_type(&mut self, kind: TypeKind) -> (r: Type)
        requires
            old(self).well_formed(),
        ensures
            final(self).well_formed(),
            r@ == kind.model(),
            old(self)@.len() < u32::MAX ==> final(self)@ == (if old(self)@.contains(kind.model()) {
                old(self)@
            } else {
                old(self)@.push(kind.model())
            }),
    {
        if let Some(ty) = self.find(&kind) {
            return ty;
        }
        let ghost goal = kind.model();
        let ghost entries = self.entries@;
        let ghost heads = entries_in(self.heads);
        let code: u32 = digest_of(&kind);
        let ty = Type::new_from_reference_only_for_interning(Rc::new(kind));
        if self.entries.len() >= u32::MAX as usize {
            return ty;
        }
        let n: u32 = self.entries.len() as u32;
        let previous = self.heads.insert(code, n);
        let entry = Entry { ty: ty.duplicate(), previous };
        self.entries.push(entry);
        proof {
            assert(self@ =~= old(self)@.push(goal));
            assert forall|i: int| 0 <= i < self.entries@.len() implies ({
                let d = digest((#[trigger] self.entries@[i]).ty@);
                &&& entries_in(self.heads).contains_key(d)
                &&& leads_to(self.entries@, entries_in(self.heads)[d] as int, i)
            }) by {
                let d = digest(self.entries@[i].ty@);
                if i < n {
                    assert(entries[i] == self.entries@[i]);
                    lemma_leads_to_push(entries, entry, heads[d] as int, i);
                    if d == code {
                        assert(self.entries@[n as int].previous == Some(heads[d]));
                    }
                }
            }
        }
        ty
    }

    /// The type that stands for one that could not be computed.
    pub fn get_error_type(&mut self) -> (r: Type)
        requires
            old(self).well_formed(),
        ensures
            final(self).well_formed(),
            r@ == Ty::Error,
            old(self)@.len() < u32::MAX ==> final(self)@ == (if old(self)@.contains(Ty::Error) {
                old(self)@
            } else {
                old(self)@.push(Ty::Error)
            }),
    {
        self.intern_type(TypeKind::Error)
    }

    /// The type `()`.
    pub fn get_unit_type(&mut self) -> (r: Type)
        requires
            old(self).well_formed(),
        ensures
            final(self).well_formed(),
            r@ == Ty::Unit,
            old(self)@.len() < u32::MAX ==> final(self)@ == (if old(self)@.contains(Ty::Unit) {
                old(self)@
            } else {
                old(self)@.push(Ty::Unit)
            }),
    {
        self.get_primitive_type(PrimitiveKind::Unit)
    }

    /// The type of a primitive.
    pub fn get_primitive_type(&mut self, primitive: PrimitiveKind) -> (r: Type)
        requires
            old(self).well_formed(),
        ensures
            final(self).well_formed(),
            r@ == primitive_ty(primitive),
            old(self)@.len() < u32::MAX ==> final(self)@ == (if old(self)@.contains(primitive_ty(primitive)) {
                old(self)@
            } else {
                old(self)@.push(primitive_ty(primitive))
            }),
    {
        match primitive {
            PrimitiveKind::Never => self.intern_type(TypeKind::Never),
            PrimitiveKind::Unit => self.intern_type(TypeKind::Unit),
            PrimitiveKind::Int(kind) => self.intern_type(TypeKind::Integer(kind)),
            PrimitiveKind::UInt(kind) => self.intern_type(TypeKind::UnsignedInteger(kind)),
            PrimitiveKind::Float(kind) => self.intern_type(TypeKind::Float(kind)),
            PrimitiveKind::Bool => self.intern_type(TypeKind::Bool),
            PrimitiveKind::Char => self.intern_type(TypeKind::Char),
            PrimitiveKind::Str => self.intern_type(TypeKind::Str),
            PrimitiveKind::CStr => self.intern_type(TypeKind::CStr),
        }
    }
}

} // verus!
