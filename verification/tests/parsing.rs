use zasm::bytes;
use zasm::err::AsmError;
use zasm::parse;
use zasm::x64::{Op, Size};

#[test]
fn size_suffixes() {
    assert_eq!(parse::size(b'b'), Ok(Size::Byte));
    assert_eq!(parse::size(b'w'), Ok(Size::Word));
    assert_eq!(parse::size(b'l'), Ok(Size::Long));
    assert_eq!(parse::size(b'q'), Ok(Size::Quad));
    assert_eq!(parse::size(b'z'), Err(AsmError::InvalidSizeSuffix));
}

#[test]
fn opcode_mnemonics() {
    assert_eq!(parse::op(b"mov"), Ok(Op::Mov));
    assert_eq!(parse::op(b"syscall"), Ok(Op::Syscall));
    assert_eq!(parse::op(b"db"), Ok(Op::Data(Size::Byte)));
    assert_eq!(parse::op(b"dw"), Ok(Op::Data(Size::Word)));
    assert_eq!(parse::op(b"dl"), Ok(Op::Data(Size::Long)));
    assert_eq!(parse::op(b"dq"), Ok(Op::Data(Size::Quad)));
    assert_eq!(parse::op(b"ds"), Ok(Op::DataString));
    assert_eq!(parse::op(b"dx"), Err(AsmError::UnknownOpcode));
    assert_eq!(parse::op(b"dd"), Err(AsmError::UnknownOpcode));
    assert_eq!(parse::op(b"movq"), Err(AsmError::UnknownOpcode));
    assert_eq!(parse::op(b""), Err(AsmError::UnknownOpcode));
}

#[test]
fn immediates() {
    assert_eq!(parse::imm(b"0"), Ok(0));
    assert_eq!(parse::imm(b"60"), Ok(60));
    assert_eq!(parse::imm(b"18446744073709551615"), Ok(u64::MAX));
    assert_eq!(parse::imm(b""), Err(AsmError::ImmediateParse));
    assert_eq!(parse::imm(b"12a"), Err(AsmError::ImmediateParse));
    assert_eq!(parse::imm(b"-1"), Err(AsmError::ImmediateParse));
    assert_eq!(parse::imm(b"+5"), Err(AsmError::ImmediateParse));
    assert_eq!(
        parse::imm(b"18446744073709551616"),
        Err(AsmError::ImmediateParse)
    );
}

#[test]
fn byte_emitters_are_little_endian() {
    let mut buf: Vec<u8> = Vec::new();
    bytes::db(&mut buf, 0xAB);
    assert_eq!(buf, vec![0xAB]);
    bytes::dw(&mut buf, 0x1234);
    assert_eq!(buf, vec![0xAB, 0x34, 0x12]);
    let mut buf: Vec<u8> = Vec::new();
    bytes::dd(&mut buf, 0xDEADBEEF);
    assert_eq!(buf, vec![0xEF, 0xBE, 0xAD, 0xDE]);
    let mut buf: Vec<u8> = Vec::new();
    bytes::dq(&mut buf, 0x0102030405060708);
    assert_eq!(buf, vec![8, 7, 6, 5, 4, 3, 2, 1]);
    let mut buf: Vec<u8> = vec![1];
    bytes::ds(&mut buf, b"xyz");
    assert_eq!(buf, vec![1, b'x', b'y', b'z']);
}
