use vstd::prelude::*;

use crate::x64::Reg;
use crate::x64::reg_code;

verus! {

/// Mode bits `11`: the `rm` field names a register directly.
pub const MOD_REG: u8 = 0xC0;

/// A register's low 3 bits shifted into the ModRM `reg` field.
pub fn reg(r: Reg) -> (b: u8)
    ensures
        b == 8 * (reg_code(r) % 8),
{
    r.modrm_bits() * 8
}

/// A register's low 3 bits in the ModRM `rm` field.
pub fn rm(r: Reg) -> (b: u8)
    ensures
        b == reg_code(r) % 8,
{
    r.modrm_bits()
}

} // verus!
