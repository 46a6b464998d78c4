use vstd::prelude::*;

verus! {

/// Everything that can go wrong while assembling. The first failure aborts
/// the whole run: no partial output is ever produced.
#[derive(Debug, Clone, Copy, PartialEq, Eq, Structural)]
pub enum AsmError {
    /// A line is missing a required token, or a string directive is
    /// missing one of its two quotes.
    Syntax,
    /// The mnemonic at the start of an instruction line is not known.
    UnknownOpcode,
    /// An operand that should name a register does not.
    InvalidRegister,
    /// A data-size suffix character is not one of `b`, `w`, `l`, `q`.
    InvalidSizeSuffix,
    /// An immediate operand is not a plain decimal number that fits in
    /// 64 bits.
    ImmediateParse,
    /// A label is referenced but never declared.
    UndeclaredLabel,
    /// The operand uses an addressing form (a memory destination) that the
    /// encoder does not support.
    UnsupportedAddressingForm,
    /// More labels are declared than the assembler accepts.
    TooManyLabels,
    /// The code buffer grew past the range a 32-bit displacement can span.
    CodeTooLarge,
}

} // verus!
