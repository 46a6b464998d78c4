use vstd::prelude::*;

use crate::x64::Reg;
use crate::x64::reg_code;

verus! {

/// The REX prefix with the W bit set: every instruction here operates on
/// full 64-bit registers.
pub const W: u8 = 0x48;

/// The REX bit for a register named in the ModRM `reg` field, already
/// shifted to its place in the prefix byte.
pub fn reg(r: Reg) -> (b: u8)
    ensures
        b == 4 * (reg_code(r) / 8),
{
    r.rex_bit() * 4
}

/// The REX bit for a register named in the ModRM `rm` field; it sits in
/// the lowest bit of the prefix byte.
pub fn rm(r: Reg) -> (b: u8)
    ensures
        b == reg_code(r) / 8,
{
    r.rex_bit()
}

} // verus!
