//! The types that are built into the language.

use vstd::prelude::*;

verus! {

#[derive(Debug, Clone, Copy, PartialEq, Eq, Structural, Hash)]
pub enum IntKind {
    I8,
    I16,
    I32,
    I64,
    ISize,
}

#[derive(Debug, Clone, Copy, PartialEq, Eq, Structural, Hash)]
pub enum UIntKind {
    U8,
    U16,
    U32,
    U64,
    USize,
}

#[derive(Debug, Clone, Copy, PartialEq, Eq, Structural, Hash)]
pub enum FloatKind {
    F32,
    F64,
}

#[derive(Debug, Clone, Copy, PartialEq, Eq, Structural, Hash)]
pub enum PrimitiveKind {
    Never,
    Unit,
    Bool,
    Char,
    Int(IntKind),
    UInt(UIntKind),
    Float(FloatKind),
    Str,
    CStr,
}

impl PrimitiveKind {
    /// The name of the type in source code.
    pub open spec fn shown(self) -> Seq<char> {
        match self {
            PrimitiveKind::Never => "!"@,
            PrimitiveKind::Unit => "()"@,
            PrimitiveKind::Bool => "bool"@,
            PrimitiveKind::Char => "char"@,
            PrimitiveKind::Int(IntKind::I8) => "i8"@,
            PrimitiveKind::Int(IntKind::I16) => "i16"@,
            PrimitiveKind::Int(IntKind::I32) => "i32"@,
            PrimitiveKind::Int(IntKind::I64) => "i64"@,
            PrimitiveKind::Int(IntKind::ISize) => "isize"@,
            PrimitiveKind::UInt(UIntKind::U8) => "u8"@,
            PrimitiveKind::UInt(UIntKind::U16) => "u16"@,
            PrimitiveKind::UInt(UIntKind::U32) => "u32"@,
            PrimitiveKind::UInt(UIntKind::U64) => "u64"@,
            PrimitiveKind::UInt(UIntKind::USize) => "usize"@,
            PrimitiveKind::Float(FloatKind::F32) => "f32"@,
            PrimitiveKind::Float(FloatKind::F64) => "f64"@,
            PrimitiveKind::Str => "str"@,
            PrimitiveKind::CStr => "cstr"@,
        }
    }

    /// The name of the type in source code.
    pub fn name(self) -> (r: &'static str)
        ensures
            r@ == self.shown(),
    {
        match self {
            PrimitiveKind::Never => "!",
            PrimitiveKind::Unit => "()",
            PrimitiveKind::Bool => "bool",
            PrimitiveKind::Char => "char",
            PrimitiveKind::Int(IntKind::I8) => "i8",
            PrimitiveKind::Int(IntKind::I16) => "i16",
            PrimitiveKind::Int(IntKind::I32) => "i32",
            PrimitiveKind::Int(IntKind::I64) => "i64",
            PrimitiveKind::Int(IntKind::ISize) => "isize",
            PrimitiveKind::UInt(UIntKind::U8) => "u8",
            PrimitiveKind::UInt(UIntKind::U16) => "u16",
            PrimitiveKind::UInt(UIntKind::U32) => "u32",
            PrimitiveKind::UInt(UIntKind::U64) => "u64",
            PrimitiveKind::UInt(UIntKind::USize) => "usize",
            PrimitiveKind::Float(FloatKind::F32) => "f32",
            PrimitiveKind::Float(FloatKind::F64) => "f64",
            PrimitiveKind::Str => "str",
            PrimitiveKind::CStr => "cstr",
        }
    }
}

/// All the primitive types.
pub open spec fn all_primitives() -> Seq<PrimitiveKind> {
    seq![
        PrimitiveKind::Never,
        PrimitiveKind::Unit,
        PrimitiveKind::Bool,
        PrimitiveKind::Char,
        PrimitiveKind::Int(IntKind::I8),
        PrimitiveKind::Int(IntKind::I16),
        PrimitiveKind::Int(IntKind::I32),
        PrimitiveKind::Int(IntKind::I64),
        PrimitiveKind::Int(IntKind::ISize),
        PrimitiveKind::UInt(UIntKind::U8),
        PrimitiveKind::UInt(UIntKind::U16),
        PrimitiveKind::UInt(UIntKind::U32),
        PrimitiveKind::UInt(UIntKind::U64),
        PrimitiveKind::UInt(UIntKind::USize),
        PrimitiveKind::Float(FloatKind::F32),
        PrimitiveKind::Float(FloatKind::F64),
        PrimitiveKind::Str,
        PrimitiveKind::CStr,
    ]
}

impl PrimitiveKind {
    /// All the primitive types.
    pub fn all() -> (r: Vec<PrimitiveKind>)
        ensures
            r@ == all_primitives(),
    {
        let r = vec![
            PrimitiveKind::Never,
            PrimitiveKind::Unit,
            PrimitiveKind::Bool,
            PrimitiveKind::Char,
            PrimitiveKind::Int(IntKind::I8),
            PrimitiveKind::Int(IntKind::I16),
            PrimitiveKind::Int(IntKind::I32),
            PrimitiveKind::Int(IntKind::I64),
            PrimitiveKind::Int(IntKind::ISize),
            PrimitiveKind::UInt(UIntKind::U8),
            PrimitiveKind::UInt(UIntKind::U16),
            PrimitiveKind::UInt(UIntKind::U32),
            PrimitiveKind::UInt(UIntKind::U64),
            PrimitiveKind::UInt(UIntKind::USize),
            PrimitiveKind::Float(FloatKind::F32),
            PrimitiveKind::Float(FloatKind::F64),
            PrimitiveKind::Str,
            PrimitiveKind::CStr,
        ];
        assert(r@ =~= all_primitives());
        r
    }
}

} // verus!
