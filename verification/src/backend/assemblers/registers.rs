//! The registers of the x86-64 instruction set.

use vstd::prelude::*;

verus! {

/// General Purpose Register 64-bit
#[derive(Debug, Clone, Copy, PartialEq, Eq, Structural)]
pub enum X86FullRegister {
    Rax,
    Rbx,
    Rcx,
    Rdx,
    Rsi,
    Rdi,
    Rbp,
    Rsp,
    R8,
    R9,
    R10,
    R11,
    R12,
    R13,
    R14,
    R15,
}

#[derive(Debug, Clone, Copy, PartialEq, Eq, Structural)]
pub enum X86Register {
    // 64-bit
    Rax,
    Rbx,
    Rcx,
    Rdx,
    Rsi,
    Rdi,
    Rbp,
    Rsp,
    R8,
    R9,
    R10,
    R11,
    R12,
    R13,
    R14,
    R15,
    // 32-bit
    Eax,
    Ebx,
    Ecx,
    Edx,
    Esi,
    Edi,
    Ebp,
    Esp,
    R8d,
    R9d,
    R10d,
    R11d,
    R12d,
    R13d,
    R14d,
    R15d,
    // 16-bit
    Ax,
    Bx,
    Cx,
    Dx,
    Si,
    Di,
    Bp,
    Sp,
    R8w,
    R9w,
    R10w,
    R11w,
    R12w,
    R13w,
    R14w,
    R15w,
    // 8-bit low
    Al,
    Bl,
    Cl,
    Dl,
    Sil,
    Dil,
    Bpl,
    Spl,
    R8b,
    R9b,
    R10b,
    R11b,
    R12b,
    R13b,
    R14b,
    R15b,
    // 8-bit high (only for legacy GPRs)
    Ah,
    Bh,
    Ch,
    Dh,
}

impl X86FullRegister {
    /// What the names of all the parts of a register have in common.
    pub open spec fn stem(self) -> Seq<char> {
        match self {
            X86FullRegister::Rax => "ax"@,
            X86FullRegister::Rbx => "bx"@,
            X86FullRegister::Rcx => "cx"@,
            X86FullRegister::Rdx => "dx"@,
            X86FullRegister::Rsi => "si"@,
            X86FullRegister::Rdi => "di"@,
            X86FullRegister::Rbp => "bp"@,
            X86FullRegister::Rsp => "sp"@,
            X86FullRegister::R8 => "r8"@,
            X86FullRegister::R9 => "r9"@,
            X86FullRegister::R10 => "r10"@,
            X86FullRegister::R11 => "r11"@,
            X86FullRegister::R12 => "r12"@,
            X86FullRegister::R13 => "r13"@,
            X86FullRegister::R14 => "r14"@,
            X86FullRegister::R15 => "r15"@,
        }
    }

    /// Whether the register is one of those with a number.
    pub open spec fn is_numbered(self) -> bool {
        !(self is Rax || self is Rbx || self is Rcx || self is Rdx || self is Rsi || self is Rdi
            || self is Rbp || self is Rsp)
    }

    /// Whether the second byte of the register has a name of its own.
    pub open spec fn is_lettered(self) -> bool {
        self is Rax || self is Rbx || self is Rcx || self is Rdx
    }

    /// The name of the low part of a register of so many bits.
    pub open spec fn low_part(self, bits: int) -> Seq<char> {
        if bits == 64 {
            if self.is_numbered() {
                self.stem()
            } else {
                "r"@ + self.stem()
            }
        } else if bits == 32 {
            if self.is_numbered() {
                self.stem() + "d"@
            } else {
                "e"@ + self.stem()
            }
        } else if bits == 16 {
            if self.is_numbered() {
                self.stem() + "w"@
            } else {
                self.stem()
            }
        } else if self.is_numbered() {
            self.stem() + "b"@
        } else if self.is_lettered() {
            self.stem().drop_last() + "l"@
        } else {
            self.stem() + "l"@
        }
    }

    /// The part of the register that holds so many bytes.
    pub fn with_size_bytes(self, size: usize) -> (r: X86Register)
        requires
            size == 8 || size == 4 || size == 2 || size == 1,
        ensures
            r.full() == self,
            r.bits() == 8 * size,
            !r.is_high(),
    {
        if size == 8 {
            self.as_64_bit()
        } else if size == 4 {
            self.as_32_bit()
        } else if size == 2 {
            self.as_16_bit()
        } else {
            self.as_8_bit()
        }
    }

    /// The low 64 bits of the register.
    pub fn as_64_bit(self) -> (r: X86Register)
        ensures
            r.full() == self,
            r.bits() == 64,
            !r.is_high(),
    {
        match self {
            X86FullRegister::Rax => X86Register::Rax,
            X86FullRegister::Rbx => X86Register::Rbx,
            X86FullRegister::Rcx => X86Register::Rcx,
            X86FullRegister::Rdx => X86Register::Rdx,
            X86FullRegister::Rsi => X86Register::Rsi,
            X86FullRegister::Rdi => X86Register::Rdi,
            X86FullRegister::Rbp => X86Register::Rbp,
            X86FullRegister::Rsp => X86Register::Rsp,
            X86FullRegister::R8 => X86Register::R8,
            X86FullRegister::R9 => X86Register::R9,
            X86FullRegister::R10 => X86Register::R10,
            X86FullRegister::R11 => X86Register::R11,
            X86FullRegister::R12 => X86Register::R12,
            X86FullRegister::R13 => X86Register::R13,
            X86FullRegister::R14 => X86Register::R14,
            X86FullRegister::R15 => X86Register::R15,
        }
    }

    /// The low 32 bits of the register.
    pub fn as_32_bit(self) -> (r: X86Register)
        ensures
            r.full() == self,
            r.bits() == 32,
            !r.is_high(),
    {
        match self {
            X86FullRegister::Rax => X86Register::Eax,
            X86FullRegister::Rbx => X86Register::Ebx,
            X86FullRegister::Rcx => X86Register::Ecx,
            X86FullRegister::Rdx => X86Register::Edx,
            X86FullRegister::Rsi => X86Register::Esi,
            X86FullRegister::Rdi => X86Register::Edi,
            X86FullRegister::Rbp => X86Register::Ebp,
            X86FullRegister::Rsp => X86Register::Esp,
            X86FullRegister::R8 => X86Register::R8d,
            X86FullRegister::R9 => X86Register::R9d,
            X86FullRegister::R10 => X86Register::R10d,
            X86FullRegister::R11 => X86Register::R11d,
            X86FullRegister::R12 => X86Register::R12d,
            X86FullRegister::R13 => X86Register::R13d,
            X86FullRegister::R14 => X86Register::R14d,
            X86FullRegister::R15 => X86Register::R15d,
        }
    }

    /// The low 16 bits of the register.
    pub fn as_16_bit(self) -> (r: X86Register)
        ensures
            r.full() == self,
            r.bits() == 16,
            !r.is_high(),
    {
        match self {
            X86FullRegister::Rax => X86Register::Ax,
            X86FullRegister::Rbx => X86Register::Bx,
            X86FullRegister::Rcx => X86Register::Cx,
            X86FullRegister::Rdx => X86Register::Dx,
            X86FullRegister::Rsi => X86Register::Si,
            X86FullRegister::Rdi => X86Register::Di,
            X86FullRegister::Rbp => X86Register::Bp,
            X86FullRegister::Rsp => X86Register::Sp,
            X86FullRegister::R8 => X86Register::R8w,
            X86FullRegister::R9 => X86Register::R9w,
            X86FullRegister::R10 => X86Register::R10w,
            X86FullRegister::R11 => X86Register::R11w,
            X86FullRegister::R12 => X86Register::R12w,
            X86FullRegister::R13 => X86Register::R13w,
            X86FullRegister::R14 => X86Register::R14w,
            X86FullRegister::R15 => X86Register::R15w,
        }
    }

    /// The low 8 bits of the register.
    pub fn as_8_bit(self) -> (r: X86Register)
        ensures
            r.full() == self,
            r.bits() == 8,
            !r.is_high(),
    {
        match self {
            X86FullRegister::Rax => X86Register::Al,
            X86FullRegister::Rbx => X86Register::Bl,
            X86FullRegister::Rcx => X86Register::Cl,
            X86FullRegister::Rdx => X86Register::Dl,
            X86FullRegister::Rsi => X86Register::Sil,
            X86FullRegister::Rdi => X86Register::Dil,
            X86FullRegister::Rbp => X86Register::Bpl,
            X86FullRegister::Rsp => X86Register::Spl,
            X86FullRegister::R8 => X86Register::R8b,
            X86FullRegister::R9 => X86Register::R9b,
            X86FullRegister::R10 => X86Register::R10b,
            X86FullRegister::R11 => X86Register::R11b,
            X86FullRegister::R12 => X86Register::R12b,
            X86FullRegister::R13 => X86Register::R13b,
            X86FullRegister::R14 => X86Register::R14b,
            X86FullRegister::R15 => X86Register::R15b,
        }
    }

    /// The name of the register.
    pub fn name(self) -> (r: &'static str)
        ensures
            r@ == self.low_part(64),
    {
        self.as_64_bit().name()
    }
}

impl X86Register {
    /// The register that this one is a part of.
    pub open spec fn full(self) -> X86FullRegister {
        match self {
            X86Register::Rax
            | X86Register::Eax
            | X86Register::Ax
            | X86Register::Al
            | X86Register::Ah => X86FullRegister::Rax,
            X86Register::Rbx
            | X86Register::Ebx
            | X86Register::Bx
            | X86Register::Bl
            | X86Register::Bh => X86FullRegister::Rbx,
            X86Register::Rcx
            | X86Register::Ecx
            | X86Register::Cx
            | X86Register::Cl
            | X86Register::Ch => X86FullRegister::Rcx,
            X86Register::Rdx
            | X86Register::Edx
            | X86Register::Dx
            | X86Register::Dl
            | X86Register::Dh => X86FullRegister::Rdx,
            X86Register::Rsi
            | X86Register::Esi
            | X86Register::Si
            | X86Register::Sil => X86FullRegister::Rsi,
            X86Register::Rdi
            | X86Register::Edi
            | X86Register::Di
            | X86Register::Dil => X86FullRegister::Rdi,
            X86Register::Rbp
            | X86Register::Ebp
            | X86Register::Bp
            | X86Register::Bpl => X86FullRegister::Rbp,
            X86Register::Rsp
            | X86Register::Esp
            | X86Register::Sp
            | X86Register::Spl => X86FullRegister::Rsp,
            X86Register::R8
            | X86Register::R8d
            | X86Register::R8w
            | X86Register::R8b => X86FullRegister::R8,
            X86Register::R9
            | X86Register::R9d
            | X86Register::R9w
            | X86Register::R9b => X86FullRegister::R9,
            X86Register::R10
            | X86Register::R10d
            | X86Register::R10w
            | X86Register::R10b => X86FullRegister::R10,
            X86Register::R11
            | X86Register::R11d
            | X86Register::R11w
            | X86Register::R11b => X86FullRegister::R11,
            X86Register::R12
            | X86Register::R12d
            | X86Register::R12w
            | X86Register::R12b => X86FullRegister::R12,
            X86Register::R13
            | X86Register::R13d
            | X86Register::R13w
            | X86Register::R13b => X86FullRegister::R13,
            X86Register::R14
            | X86Register::R14d
            | X86Register::R14w
            | X86Register::R14b => X86FullRegister::R14,
            X86Register::R15
            | X86Register::R15d
            | X86Register::R15w
            | X86Register::R15b => X86FullRegister::R15,
        }
    }

    /// The number of bits of the register.
    pub open spec fn bits(self) -> int {
        match self {
            X86Register::Rax
            | X86Register::Rbx
            | X86Register::Rcx
            | X86Register::Rdx
            | X86Register::Rsi
            | X86Register::Rdi
            | X86Register::Rbp
            | X86Register::Rsp
            | X86Register::R8
            | X86Register::R9
            | X86Register::R10
            | X86Register::R11
            | X86Register::R12
            | X86Register::R13
            | X86Register::R14
            | X86Register::R15 => 64,
            X86Register::Eax
            | X86Register::Ebx
            | X86Register::Ecx
            | X86Register::Edx
            | X86Register::Esi
            | X86Register::Edi
            | X86Register::Ebp
            | X86Register::Esp
            | X86Register::R8d
            | X86Register::R9d
            | X86Register::R10d
            | X86Register::R11d
            | X86Register::R12d
            | X86Register::R13d
            | X86Register::R14d
            | X86Register::R15d => 32,
            X86Register::Ax
            | X86Register::Bx
            | X86Register::Cx
            | X86Register::Dx
            | X86Register::Si
            | X86Register::Di
            | X86Register::Bp
            | X86Register::Sp
            | X86Register::R8w
            | X86Register::R9w
            | X86Register::R10w
            | X86Register::R11w
            | X86Register::R12w
            | X86Register::R13w
            | X86Register::R14w
            | X86Register::R15w => 16,
            _ => 8,
        }
    }

    /// Whether the register is the second byte of another one, and not its
    /// low part.
    pub open spec fn is_high(self) -> bool {
        self is Ah || self is Bh || self is Ch || self is Dh
    }

    /// What the register is called.
    pub open spec fn called(self) -> Seq<char> {
        if self.is_high() {
            self.full().stem().drop_last() + "h"@
        } else {
            self.full().low_part(self.bits())
        }
    }

    /// The name of the register.
    pub fn name(self) -> (r: &'static str)
        ensures
            r@ == self.called(),
    {
        proof {
            lemma_name(self);
        }
        match self {
            X86Register::Rax => "rax",
            X86Register::Rbx => "rbx",
            X86Register::Rcx => "rcx",
            X86Register::Rdx => "rdx",
            X86Register::Rsi => "rsi",
            X86Register::Rdi => "rdi",
            X86Register::Rbp => "rbp",
            X86Register::Rsp => "rsp",
            X86Register::R8 => "r8",
            X86Register::R9 => "r9",
            X86Register::R10 => "r10",
            X86Register::R11 => "r11",
            X86Register::R12 => "r12",
            X86Register::R13 => "r13",
            X86Register::R14 => "r14",
            X86Register::R15 => "r15",
            X86Register::Eax => "eax",
            X86Register::Ebx => "ebx",
            X86Register::Ecx => "ecx",
            X86Register::Edx => "edx",
            X86Register::Esi => "esi",
            X86Register::Edi => "edi",
            X86Register::Ebp => "ebp",
            X86Register::Esp => "esp",
            X86Register::R8d => "r8d",
            X86Register::R9d => "r9d",
            X86Register::R10d => "r10d",
            X86Register::R11d => "r11d",
            X86Register::R12d => "r12d",
            X86Register::R13d => "r13d",
            X86Register::R14d => "r14d",
            X86Register::R15d => "r15d",
            X86Register::Ax => "ax",
            X86Register::Bx => "bx",
            X86Register::Cx => "cx",
            X86Register::Dx => "dx",
            X86Register::Si => "si",
            X86Register::Di => "di",
            X86Register::Bp => "bp",
            X86Register::Sp => "sp",
            X86Register::R8w => "r8w",
            X86Register::R9w => "r9w",
            X86Register::R10w => "r10w",
            X86Register::R11w => "r11w",
            X86Register::R12w => "r12w",
            X86Register::R13w => "r13w",
            X86Register::R14w => "r14w",
            X86Register::R15w => "r15w",
            X86Register::Al => "al",
            X86Register::Bl => "bl",
            X86Register::Cl => "cl",
            X86Register::Dl => "dl",
            X86Register::Sil => "sil",
            X86Register::Dil => "dil",
            X86Register::Bpl => "bpl",
            X86Register::Spl => "spl",
            X86Register::R8b => "r8b",
            X86Register::R9b => "r9b",
            X86Register::R10b => "r10b",
            X86Register::R11b => "r11b",
            X86Register::R12b => "r12b",
            X86Register::R13b => "r13b",
            X86Register::R14b => "r14b",
            X86Register::R15b => "r15b",
            X86Register::Ah => "ah",
            X86Register::Bh => "bh",
            X86Register::Ch => "ch",
            X86Register::Dh => "dh",
        }
    }
}

/// The name of a register as a text that stands here.
spec fn name_text(r: X86Register) -> Seq<char> {
    match r {
        X86Register::Rax => "rax"@,
        X86Register::Rbx => "rbx"@,
        X86Register::Rcx => "rcx"@,
        X86Register::Rdx => "rdx"@,
        X86Register::Rsi => "rsi"@,
        X86Register::Rdi => "rdi"@,
        X86Register::Rbp => "rbp"@,
        X86Register::Rsp => "rsp"@,
        X86Register::R8 => "r8"@,
        X86Register::R9 => "r9"@,
        X86Register::R10 => "r10"@,
        X86Register::R11 => "r11"@,
        X86Register::R12 => "r12"@,
        X86Register::R13 => "r13"@,
        X86Register::R14 => "r14"@,
        X86Register::R15 => "r15"@,
        X86Register::Eax => "eax"@,
        X86Register::Ebx => "ebx"@,
        X86Register::Ecx => "ecx"@,
        X86Register::Edx => "edx"@,
        X86Register::Esi => "esi"@,
        X86Register::Edi => "edi"@,
        X86Register::Ebp => "ebp"@,
        X86Register::Esp => "esp"@,
        X86Register::R8d => "r8d"@,
        X86Register::R9d => "r9d"@,
        X86Register::R10d => "r10d"@,
        X86Register::R11d => "r11d"@,
        X86Register::R12d => "r12d"@,
        X86Register::R13d => "r13d"@,
        X86Register::R14d => "r14d"@,
        X86Register::R15d => "r15d"@,
        X86Register::Ax => "ax"@,
        X86Register::Bx => "bx"@,
        X86Register::Cx => "cx"@,
        X86Register::Dx => "dx"@,
        X86Register::Si => "si"@,
        X86Register::Di => "di"@,
        X86Register::Bp => "bp"@,
        X86Register::Sp => "sp"@,
        X86Register::R8w => "r8w"@,
        X86Register::R9w => "r9w"@,
        X86Register::R10w => "r10w"@,
        X86Register::R11w => "r11w"@,
        X86Register::R12w => "r12w"@,
        X86Register::R13w => "r13w"@,
        X86Register::R14w => "r14w"@,
        X86Register::R15w => "r15w"@,
        X86Register::Al => "al"@,
        X86Register::Bl => "bl"@,
        X86Register::Cl => "cl"@,
        X86Register::Dl => "dl"@,
        X86Register::Sil => "sil"@,
        X86Register::Dil => "dil"@,
        X86Register::Bpl => "bpl"@,
        X86Register::Spl => "spl"@,
        X86Register::R8b => "r8b"@,
        X86Register::R9b => "r9b"@,
        X86Register::R10b => "r10b"@,
        X86Register::R11b => "r11b"@,
        X86Register::R12b => "r12b"@,
        X86Register::R13b => "r13b"@,
        X86Register::R14b => "r14b"@,
        X86Register::R15b => "r15b"@,
        X86Register::Ah => "ah"@,
        X86Register::Bh => "bh"@,
        X86Register::Ch => "ch"@,
        X86Register::Dh => "dh"@,
    }
}

proof fn lemma_name(r: X86Register)
    ensures
        name_text(r) == r.called(),
{
    reveal_strlit("r");
    reveal_strlit("e");
    reveal_strlit("d");
    reveal_strlit("w");
    reveal_strlit("b");
    reveal_strlit("l");
    reveal_strlit("h");
    match r.full() {
        X86FullRegister::Rax => {
            reveal_strlit("ax");
            reveal_strlit("rax");
            reveal_strlit("eax");
            reveal_strlit("al");
            reveal_strlit("ah");
            assert(name_text(r) =~= r.called());
        },
        X86FullRegister::Rbx => {
            reveal_strlit("bx");
            reveal_strlit("rbx");
            reveal_strlit("ebx");
            reveal_strlit("bl");
            reveal_strlit("bh");
            assert(name_text(r) =~= r.called());
        },
        X86FullRegister::Rcx => {
            reveal_strlit("cx");
            reveal_strlit("rcx");
            reveal_strlit("ecx");
            reveal_strlit("cl");
            reveal_strlit("ch");
            assert(name_text(r) =~= r.called());
        },
        X86FullRegister::Rdx => {
            reveal_strlit("dx");
            reveal_strlit("rdx");
            reveal_strlit("edx");
            reveal_strlit("dl");
            reveal_strlit("dh");
            assert(name_text(r) =~= r.called());
        },
        X86FullRegister::Rsi => {
            reveal_strlit("si");
            reveal_strlit("rsi");
            reveal_strlit("esi");
            reveal_strlit("sil");
            assert(name_text(r) =~= r.called());
        },
        X86FullRegister::Rdi => {
            reveal_strlit("di");
            reveal_strlit("rdi");
            reveal_strlit("edi");
            reveal_strlit("dil");
            assert(name_text(r) =~= r.called());
        },
        X86FullRegister::Rbp => {
            reveal_strlit("bp");
            reveal_strlit("rbp");
            reveal_strlit("ebp");
            reveal_strlit("bpl");
            assert(name_text(r) =~= r.called());
        },
        X86FullRegister::Rsp => {
            reveal_strlit("sp");
            reveal_strlit("rsp");
            reveal_strlit("esp");
            reveal_strlit("spl");
            assert(name_text(r) =~= r.called());
        },
        X86FullRegister::R8 => {
            reveal_strlit("r8");
            reveal_strlit("r8d");
            reveal_strlit("r8w");
            reveal_strlit("r8b");
            assert(name_text(r) =~= r.called());
        },
        X86FullRegister::R9 => {
            reveal_strlit("r9");
            reveal_strlit("r9d");
            reveal_strlit("r9w");
            reveal_strlit("r9b");
            assert(name_text(r) =~= r.called());
        },
        X86FullRegister::R10 => {
            reveal_strlit("r10");
            reveal_strlit("r10d");
            reveal_strlit("r10w");
            reveal_strlit("r10b");
            assert(name_text(r) =~= r.called());
        },
        X86FullRegister::R11 => {
            reveal_strlit("r11");
            reveal_strlit("r11d");
            reveal_strlit("r11w");
            reveal_strlit("r11b");
            assert(name_text(r) =~= r.called());
        },
        X86FullRegister::R12 => {
            reveal_strlit("r12");
            reveal_strlit("r12d");
            reveal_strlit("r12w");
            reveal_strlit("r12b");
            assert(name_text(r) =~= r.called());
        },
        X86FullRegister::R13 => {
            reveal_strlit("r13");
            reveal_strlit("r13d");
            reveal_strlit("r13w");
            reveal_strlit("r13b");
            assert(name_text(r) =~= r.called());
        },
        X86FullRegister::R14 => {
            reveal_strlit("r14");
            reveal_strlit("r14d");
            reveal_strlit("r14w");
            reveal_strlit("r14b");
            assert(name_text(r) =~= r.called());
        },
        X86FullRegister::R15 => {
            reveal_strlit("r15");
            reveal_strlit("r15d");
            reveal_strlit("r15w");
            reveal_strlit("r15b");
            assert(name_text(r) =~= r.called());
        },
    }
}

/// A register is told apart by the register it is a part of, its size, and
/// whether it is a high byte.
pub proof fn law_register_is_its_part(a: X86Register, b: X86Register)
    requires
        a.full() == b.full(),
        a.bits() == b.bits(),
        a.is_high() == b.is_high(),
    ensures
        a == b,
{
}

} // verus!
