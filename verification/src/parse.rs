use vstd::prelude::*;

use crate::err::AsmError;
use crate::x64::Op;
use crate::x64::Reg;
use crate::x64::Size;

verus! {

/// An ASCII decimal digit.
pub open spec fn is_digit(c: u8) -> bool {
    48 <= c <= 57
}

/// The data size a one-character suffix selects, if any.
pub open spec fn spec_parse_size(c: u8) -> Option<Size> {
    if c == 98 {  // 'b'
        Some(Size::Byte)
    } else if c == 119 {  // 'w'
        Some(Size::Word)
    } else if c == 108 {  // 'l'
        Some(Size::Long)
    } else if c == 113 {  // 'q'
        Some(Size::Quad)
    } else {
        None
    }
}

/// The register a mnemonic names, if any. Only the second and (where
/// needed) third characters decide: a digit after the first character
/// selects the numbered registers, otherwise the classic two-letter names
/// are resolved, with `d`, `b` and `s` disambiguated by the third
/// character.
pub open spec fn spec_parse_reg(s: Seq<u8>) -> Option<Reg> {
    if s.len() < 2 {
        None
    } else if is_digit(s[1]) {
        if s[1] == 56 {  // '8'
            Some(Reg::R8)
        } else if s[1] == 57 {  // '9'
            Some(Reg::R9)
        } else if s.len() < 3 {
            None
        } else if s[2] == 48 {  // '0'
            Some(Reg::R10)
        } else if s[2] == 49 {  // '1'
            Some(Reg::R11)
        } else if s[2] == 50 {  // '2'
            Some(Reg::R12)
        } else if s[2] == 51 {  // '3'
            Some(Reg::R13)
        } else if s[2] == 52 {  // '4'
            Some(Reg::R14)
        } else if s[2] == 53 {  // '5'
            Some(Reg::R15)
        } else {
            None
        }
    } else if s[1] == 97 {  // 'a'
        Some(Reg::RAX)
    } else if s[1] == 99 {  // 'c'
        Some(Reg::RCX)
    } else if s[1] == 100 {  // 'd'
        if s.len() < 3 {
            None
        } else if s[2] == 105 {  // 'i'
            Some(Reg::RDI)
        } else if s[2] == 120 {  // 'x'
            Some(Reg::RDX)
        } else {
            None
        }
    } else if s[1] == 98 {  // 'b'
        if s.len() < 3 {
            None
        } else if s[2] == 112 {  // 'p'
            Some(Reg::RBP)
        } else if s[2] == 120 {  // 'x'
            Some(Reg::RBX)
        } else {
            None
        }
    } else if s[1] == 115 {  // 's'
        if s.len() < 3 {
            None
        } else if s[2] == 112 {  // 'p'
            Some(Reg::RSP)
        } else if s[2] == 105 {  // 'i'
            Some(Reg::RSI)
        } else {
            None
        }
    } else {
        None
    }
}

/// The operation a mnemonic token names, if any.
pub open spec fn spec_parse_op(s: Seq<u8>) -> Option<Op> {
    if s.len() == 3 && s[0] == 109 && s[1] == 111 && s[2] == 118 {  // "mov"
        Some(Op::Mov)
    } else if s.len() == 7 && s[0] == 115 && s[1] == 121 && s[2] == 115 && s[3] == 99 && s[4]
        == 97 && s[5] == 108 && s[6] == 108 {  // "syscall"
        Some(Op::Syscall)
    } else if s.len() == 2 && s[0] == 100 {  // 'd'
        if s[1] == 98 {  // 'b'
            Some(Op::Data(Size::Byte))
        } else if s[1] == 119 {  // 'w'
            Some(Op::Data(Size::Word))
        } else if s[1] == 108 {  // 'l'
            Some(Op::Data(Size::Long))
        } else if s[1] == 113 {  // 'q'
            Some(Op::Data(Size::Quad))
        } else if s[1] == 115 {  // 's'
            Some(Op::DataString)
        } else {
            None
        }
    } else {
        None
    }
}

/// The value of a digit string read in base 10, most significant digit
/// first; unbounded, so overflow can be stated exactly.
pub open spec fn dec_val(s: Seq<u8>) -> int
    decreases s.len(),
{
    if s.len() == 0 {
        0
    } else {
        dec_val(s.drop_last()) * 10 + (s.last() - 48)
    }
}

/// Whether every character of the token is a decimal digit.
pub open spec fn all_digits(s: Seq<u8>) -> bool {
    forall|i: int| 0 <= i < s.len() ==> is_digit(#[trigger] s[i])
}

/// The 64-bit value a decimal token denotes: defined exactly when the
/// token is a non-empty digit string whose value fits in 64 bits.
pub open spec fn spec_parse_imm(s: Seq<u8>) -> Option<u64> {
    if s.len() > 0 && all_digits(s) && dec_val(s) <= u64::MAX {
        Some(dec_val(s) as u64)
    } else {
        None
    }
}

/// A digit string's value never shrinks as the string grows.
proof fn lemma_dec_val_grows(s: Seq<u8>, i: int)
    requires
        0 <= i <= s.len(),
        all_digits(s),
    ensures
        0 <= dec_val(s.subrange(0, i)) <= dec_val(s),
    decreases s.len() - i,
{
    assert forall|m: int| 0 <= m < s.subrange(0, i).len() implies is_digit(
        #[trigger] s.subrange(0, i)[m],
    ) by {
        assert(s.subrange(0, i)[m] == s[m]);
    }
    lemma_dec_val_nonneg(s.subrange(0, i));
    if i < s.len() {
        let t = s.subrange(0, i + 1);
        assert(t.drop_last() =~= s.subrange(0, i));
        assert(dec_val(s.subrange(0, i)) <= dec_val(t));
        lemma_dec_val_grows(s, i + 1);
        assert(s.subrange(0, s.len() as int) =~= s);
    } else {
        assert(s.subrange(0, i) =~= s);
    }
}

proof fn lemma_dec_val_nonneg(s: Seq<u8>)
    requires
        all_digits(s),
    ensures
        dec_val(s) >= 0,
    decreases s.len(),
{
    if s.len() > 0 {
        assert forall|i: int| 0 <= i < s.drop_last().len() implies is_digit(
            #[trigger] s.drop_last()[i],
        ) by {
            assert(s.drop_last()[i] == s[i]);
        }
        lemma_dec_val_nonneg(s.drop_last());
    }
}

/// The canonical mnemonic of each register, as written in source text.
pub open spec fn reg_name(r: Reg) -> Seq<u8> {
    match r {
        Reg::RAX => seq![114u8, 97, 120],  // "rax"
        Reg::RCX => seq![114u8, 99, 120],  // "rcx"
        Reg::RDX => seq![114u8, 100, 120],  // "rdx"
        Reg::RBX => seq![114u8, 98, 120],  // "rbx"
        Reg::RSP => seq![114u8, 115, 112],  // "rsp"
        Reg::RBP => seq![114u8, 98, 112],  // "rbp"
        Reg::RSI => seq![114u8, 115, 105],  // "rsi"
        Reg::RDI => seq![114u8, 100, 105],  // "rdi"
        Reg::R8 => seq![114u8, 56],  // "r8"
        Reg::R9 => seq![114u8, 57],  // "r9"
        Reg::R10 => seq![114u8, 49, 48],  // "r10"
        Reg::R11 => seq![114u8, 49, 49],  // "r11"
        Reg::R12 => seq![114u8, 49, 50],  // "r12"
        Reg::R13 => seq![114u8, 49, 51],  // "r13"
        Reg::R14 => seq![114u8, 49, 52],  // "r14"
        Reg::R15 => seq![114u8, 49, 53],  // "r15"
    }
}

/// Round trip over every register: resolving a register's canonical
/// mnemonic yields that register again, and splitting its 4-bit code into
/// ModRM bits and REX bit reassembles into the same code. This covers all
/// sixteen names, both the digit-based and the classic naming branches.
pub proof fn lemma_reg_roundtrip(r: Reg)
    ensures
        spec_parse_reg(reg_name(r)) == Some(r),
        8 * (crate::x64::reg_code(r) / 8) + crate::x64::reg_code(r) % 8 == crate::x64::reg_code(r),
        crate::x64::reg_of_code(crate::x64::reg_code(r)) == r,
{
    crate::x64::lemma_reg_code_split(r);
}

/// Map a size-suffix character to the width it selects.
pub fn size(c: u8) -> (r: Result<Size, AsmError>)
    ensures
        match r {
            Ok(sz) => spec_parse_size(c) == Some(sz),
            Err(e) => spec_parse_size(c) is None && e == AsmError::InvalidSizeSuffix,
        },
{
    match c {
        98 => Ok(Size::Byte),
        119 => Ok(Size::Word),
        108 => Ok(Size::Long),
        113 => Ok(Size::Quad),
        _ => Err(AsmError::InvalidSizeSuffix),
    }
}

/// Resolve a register mnemonic to its register.
pub fn reg(s: &[u8]) -> (r: Result<Reg, AsmError>)
    ensures
        match r {
            Ok(rr) => spec_parse_reg(s@) == Some(rr),
            Err(e) => spec_parse_reg(s@) is None && e == AsmError::InvalidRegister,
        },
{
    if s.len() < 2 {
        return Err(AsmError::InvalidRegister);
    }
    let c1 = s[1];
    if 48 <= c1 && c1 <= 57 {
        if c1 == 56 {
            Ok(Reg::R8)
        } else if c1 == 57 {
            Ok(Reg::R9)
        } else if s.len() < 3 {
            Err(AsmError::InvalidRegister)
        } else {
            match s[2] {
                48 => Ok(Reg::R10),
                49 => Ok(Reg::R11),
                50 => Ok(Reg::R12),
                51 => Ok(Reg::R13),
                52 => Ok(Reg::R14),
                53 => Ok(Reg::R15),
                _ => Err(AsmError::InvalidRegister),
            }
        }
    } else if c1 == 97 {
        Ok(Reg::RAX)
    } else if c1 == 99 {
        Ok(Reg::RCX)
    } else if c1 == 100 {
        if s.len() < 3 {
            Err(AsmError::InvalidRegister)
        } else if s[2] == 105 {
            Ok(Reg::RDI)
        } else if s[2] == 120 {
            Ok(Reg::RDX)
        } else {
            Err(AsmError::InvalidRegister)
        }
    } else if c1 == 98 {
        if s.len() < 3 {
            Err(AsmError::InvalidRegister)
        } else if s[2] == 112 {
            Ok(Reg::RBP)
        } else if s[2] == 120 {
            Ok(Reg::RBX)
        } else {
            Err(AsmError::InvalidRegister)
        }
    } else if c1 == 115 {
        if s.len() < 3 {
            Err(AsmError::InvalidRegister)
        } else if s[2] == 112 {
            Ok(Reg::RSP)
        } else if s[2] == 105 {
            Ok(Reg::RSI)
        } else {
            Err(AsmError::InvalidRegister)
        }
    } else {
        Err(AsmError::InvalidRegister)
    }
}

/// Resolve a mnemonic token to the operation it names.
pub fn op(s: &[u8]) -> (r: Result<Op, AsmError>)
    ensures
        match r {
            Ok(o) => spec_parse_op(s@) == Some(o),
            Err(e) => spec_parse_op(s@) is None && e == AsmError::UnknownOpcode,
        },
{
    if s.len() == 3 && s[0] == 109 && s[1] == 111 && s[2] == 118 {
        Ok(Op::Mov)
    } else if s.len() == 7 && s[0] == 115 && s[1] == 121 && s[2] == 115 && s[3] == 99 && s[4]
        == 97 && s[5] == 108 && s[6] == 108 {
        Ok(Op::Syscall)
    } else if s.len() == 2 && s[0] == 100 {
        match s[1] {
            98 => Ok(Op::Data(Size::Byte)),
            119 => Ok(Op::Data(Size::Word)),
            108 => Ok(Op::Data(Size::Long)),
            113 => Ok(Op::Data(Size::Quad)),
            115 => Ok(Op::DataString),
            _ => Err(AsmError::UnknownOpcode),
        }
    } else {
        Err(AsmError::UnknownOpcode)
    }
}

/// Parse a decimal immediate into a 64-bit value.
pub fn imm(s: &[u8]) -> (r: Result<u64, AsmError>)
    ensures
        match r {
            Ok(v) => spec_parse_imm(s@) == Some(v),
            Err(e) => spec_parse_imm(s@) is None && e == AsmError::ImmediateParse,
        },
{
    if s.len() == 0 {
        return Err(AsmError::ImmediateParse);
    }
    let mut v: u64 = 0;
    let mut i: usize = 0;
    while i < s.len()
        invariant
            0 < s@.len(),
            i <= s@.len(),
            all_digits(s@.subrange(0, i as int)),
            v == dec_val(s@.subrange(0, i as int)),
        decreases s@.len() - i,
    {
        let c = s[i];
        if c < 48 || c > 57 {
            assert(!is_digit(s@[i as int]));
            return Err(AsmError::ImmediateParse);
        }
        let d = (c - 48) as u64;
        proof {
            assert(s@.subrange(0, i + 1).drop_last() =~= s@.subrange(0, i as int));
            assert(all_digits(s@.subrange(0, i + 1))) by {
                assert forall|j: int| 0 <= j < i + 1 implies is_digit(
                    #[trigger] s@.subrange(0, i + 1)[j],
                ) by {
                    if j < i {
                        assert(s@.subrange(0, i + 1)[j] == s@.subrange(0, i as int)[j]);
                    }
                }
            }
        }
        if v > u64::MAX / 10 || (v == u64::MAX / 10 && d > u64::MAX % 10) {
            // the value of the full token can only grow from here
            proof {
                assert(dec_val(s@.subrange(0, i + 1)) == v * 10 + d);
                assert(v * 10 + d > u64::MAX) by (nonlinear_arith)
                    requires
                        v > u64::MAX / 10 || (v == u64::MAX / 10 && d > u64::MAX % 10),
                        d < 10,
                ;
                if all_digits(s@) {
                    lemma_dec_val_grows(s@, i + 1);
                }
            }
            return Err(AsmError::ImmediateParse);
        }
        proof {
            assert(v * 10 + d <= u64::MAX) by (nonlinear_arith)
                requires
                    v <= u64::MAX / 10,
                    v < u64::MAX / 10 || d <= u64::MAX % 10,
                    d < 10,
            ;
        }
        v = v * 10 + d;
        i = i + 1;
    }
    proof {
        assert(s@.subrange(0, s@.len() as int) =~= s@);
    }
    Ok(v)
}

} // verus!
