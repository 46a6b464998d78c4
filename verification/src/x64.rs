use vstd::prelude::*;

verus! {

/// The operations the assembler understands.
#[derive(Debug, Clone, Copy, PartialEq, Eq, Structural)]
pub enum Op {
    Mov,
    Syscall,
    Data(Size),
    DataString,
}

/// The sixteen 64-bit general-purpose registers, in the order of their
/// 4-bit x86-64 encoding.
#[derive(Debug, Clone, Copy, PartialEq, Eq, Structural)]
pub enum Reg {
    RAX,
    RCX,
    RDX,
    RBX,
    RSP,
    RBP,
    RSI,
    RDI,
    R8,
    R9,
    R10,
    R11,
    R12,
    R13,
    R14,
    R15,
}

/// Widths of a data directive, in bytes: 1, 2, 4 or 8.
#[derive(Debug, Clone, Copy, PartialEq, Eq, Structural)]
pub enum Size {
    Byte,
    Word,
    Long,
    Quad,
}

/// The 4-bit x86-64 register index. The low 3 bits go into a ModRM field;
/// bit 3 becomes a REX extension bit.
pub open spec fn reg_code(r: Reg) -> u8 {
    match r {
        Reg::RAX => 0,
        Reg::RCX => 1,
        Reg::RDX => 2,
        Reg::RBX => 3,
        Reg::RSP => 4,
        Reg::RBP => 5,
        Reg::RSI => 6,
        Reg::RDI => 7,
        Reg::R8 => 8,
        Reg::R9 => 9,
        Reg::R10 => 10,
        Reg::R11 => 11,
        Reg::R12 => 12,
        Reg::R13 => 13,
        Reg::R14 => 14,
        Reg::R15 => 15,
    }
}

/// The register that carries a given 4-bit index: the inverse of
/// `reg_code` on `0..16`.
pub open spec fn reg_of_code(c: u8) -> Reg {
    if c == 0 {
        Reg::RAX
    } else if c == 1 {
        Reg::RCX
    } else if c == 2 {
        Reg::RDX
    } else if c == 3 {
        Reg::RBX
    } else if c == 4 {
        Reg::RSP
    } else if c == 5 {
        Reg::RBP
    } else if c == 6 {
        Reg::RSI
    } else if c == 7 {
        Reg::RDI
    } else if c == 8 {
        Reg::R8
    } else if c == 9 {
        Reg::R9
    } else if c == 10 {
        Reg::R10
    } else if c == 11 {
        Reg::R11
    } else if c == 12 {
        Reg::R12
    } else if c == 13 {
        Reg::R13
    } else if c == 14 {
        Reg::R14
    } else {
        Reg::R15
    }
}

impl Reg {
    /// The low 3 bits of the register index, as placed in a ModRM field.
    pub fn modrm_bits(self) -> (b: u8)
        ensures
            b == reg_code(self) % 8,
    {
        match self {
            Reg::RAX => 0,
            Reg::RCX => 1,
            Reg::RDX => 2,
            Reg::RBX => 3,
            Reg::RSP => 4,
            Reg::RBP => 5,
            Reg::RSI => 6,
            Reg::RDI => 7,
            Reg::R8 => 0,
            Reg::R9 => 1,
            Reg::R10 => 2,
            Reg::R11 => 3,
            Reg::R12 => 4,
            Reg::R13 => 5,
            Reg::R14 => 6,
            Reg::R15 => 7,
        }
    }

    /// Bit 3 of the register index: the REX extension bit that selects the
    /// upper eight registers.
    pub fn rex_bit(self) -> (b: u8)
        ensures
            b == reg_code(self) / 8,
    {
        match self {
            Reg::RAX => 0,
            Reg::RCX => 0,
            Reg::RDX => 0,
            Reg::RBX => 0,
            Reg::RSP => 0,
            Reg::RBP => 0,
            Reg::RSI => 0,
            Reg::RDI => 0,
            Reg::R8 => 1,
            Reg::R9 => 1,
            Reg::R10 => 1,
            Reg::R11 => 1,
            Reg::R12 => 1,
            Reg::R13 => 1,
            Reg::R14 => 1,
            Reg::R15 => 1,
        }
    }
}

/// Splitting a register index into its ModRM bits and REX bit loses
/// nothing: the two parts always reassemble into the original 4-bit code.
pub proof fn lemma_reg_code_split(r: Reg)
    ensures
        reg_code(r) == 8 * (reg_code(r) / 8) + reg_code(r) % 8,
        reg_code(r) < 16,
        reg_of_code(reg_code(r)) == r,
{
}

/// Every 4-bit index is the code of exactly one register.
pub proof fn lemma_reg_code_of_code(c: u8)
    requires
        c < 16,
    ensures
        reg_code(reg_of_code(c)) == c,
{
}

} // verus!
