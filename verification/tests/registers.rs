use zasm::err::AsmError;
use zasm::parse;
use zasm::x64::Reg;
use zasm::{modrm, rex};

fn code_of(r: Reg) -> u8 {
    (r.rex_bit() << 3) | r.modrm_bits()
}

#[test]
fn all_sixteen_names_round_trip() {
    let names: [(&[u8], Reg, u8); 16] = [
        (b"rax", Reg::RAX, 0),
        (b"rcx", Reg::RCX, 1),
        (b"rdx", Reg::RDX, 2),
        (b"rbx", Reg::RBX, 3),
        (b"rsp", Reg::RSP, 4),
        (b"rbp", Reg::RBP, 5),
        (b"rsi", Reg::RSI, 6),
        (b"rdi", Reg::RDI, 7),
        (b"r8", Reg::R8, 8),
        (b"r9", Reg::R9, 9),
        (b"r10", Reg::R10, 10),
        (b"r11", Reg::R11, 11),
        (b"r12", Reg::R12, 12),
        (b"r13", Reg::R13, 13),
        (b"r14", Reg::R14, 14),
        (b"r15", Reg::R15, 15),
    ];
    for (name, reg, code) in names {
        assert_eq!(parse::reg(name), Ok(reg));
        assert_eq!(code_of(reg), code);
        assert_eq!(reg.modrm_bits(), code & 0b111);
        assert_eq!(reg.rex_bit(), code >> 3);
    }
}

#[test]
fn rex_and_modrm_fields() {
    assert_eq!(rex::W, 0x48);
    assert_eq!(rex::reg(Reg::RAX), 0);
    assert_eq!(rex::reg(Reg::R8), 4);
    assert_eq!(rex::rm(Reg::RDI), 0);
    assert_eq!(rex::rm(Reg::R15), 1);
    assert_eq!(modrm::MOD_REG, 0xC0);
    assert_eq!(modrm::reg(Reg::RBX), 3 << 3);
    assert_eq!(modrm::reg(Reg::R11), 3 << 3);
    assert_eq!(modrm::rm(Reg::RSP), 4);
    assert_eq!(modrm::rm(Reg::R12), 4);
}

#[test]
fn third_character_disambiguation() {
    assert_eq!(parse::reg(b"rdi"), Ok(Reg::RDI));
    assert_eq!(parse::reg(b"rdx"), Ok(Reg::RDX));
    assert_eq!(parse::reg(b"rbp"), Ok(Reg::RBP));
    assert_eq!(parse::reg(b"rbx"), Ok(Reg::RBX));
    assert_eq!(parse::reg(b"rsp"), Ok(Reg::RSP));
    assert_eq!(parse::reg(b"rsi"), Ok(Reg::RSI));
}

#[test]
fn invalid_register_names() {
    assert_eq!(parse::reg(b"rz"), Err(AsmError::InvalidRegister));
    assert_eq!(parse::reg(b"r"), Err(AsmError::InvalidRegister));
    assert_eq!(parse::reg(b""), Err(AsmError::InvalidRegister));
    assert_eq!(parse::reg(b"rd"), Err(AsmError::InvalidRegister));
    assert_eq!(parse::reg(b"r16"), Err(AsmError::InvalidRegister));
    assert_eq!(parse::reg(b"rdq"), Err(AsmError::InvalidRegister));
    assert_eq!(parse::reg(b"rdl"), Err(AsmError::InvalidRegister));
    assert_eq!(parse::reg(b"rbl"), Err(AsmError::InvalidRegister));
}
