use zasm::assembler::assemble;
use zasm::err::AsmError;

#[test]
fn mov_imm_then_syscall_exact_bytes() {
    let code = assemble(b"mov rax 60\nsyscall\n").unwrap();
    let expected: Vec<u8> = vec![
        0x48, 0xb8, 60, 0, 0, 0, 0, 0, 0, 0,  // mov rax, 60
        0x0f, 0x05,  // syscall
    ];
    assert_eq!(code, expected);
}

#[test]
fn mov_imm_extended_register() {
    let code = assemble(b"mov r9 1\n").unwrap();
    assert_eq!(code, vec![0x4c, 0xb9, 1, 0, 0, 0, 0, 0, 0, 0]);
}

#[test]
fn mov_reg_reg() {
    let code = assemble(b"mov rax rbx\n").unwrap();
    assert_eq!(code, vec![0x48, 0x8b, 0xc3]);
    let code = assemble(b"mov r8 r15\n").unwrap();
    assert_eq!(code, vec![0x4d, 0x8b, 0xc7]);
}

#[test]
fn data_directives_little_endian() {
    assert_eq!(assemble(b"db 255\n").unwrap(), vec![0xff]);
    assert_eq!(assemble(b"dw 65535\n").unwrap(), vec![0xff, 0xff]);
    assert_eq!(assemble(b"dl 305419896\n").unwrap(), vec![0x78, 0x56, 0x34, 0x12]);
    assert_eq!(
        assemble(b"dq 18446744073709551615\n").unwrap(),
        vec![0xff, 0xff, 0xff, 0xff, 0xff, 0xff, 0xff, 0xff]
    );
}

#[test]
fn all_four_data_widths_in_one_program() {
    let code = assemble(b"db 65\ndw 65\ndl 65\ndq 65\n").unwrap();
    let expected: Vec<u8> = vec![
        65,  // db 65
        65, 0,  // dw 65
        65, 0, 0, 0,  // dl 65
        65, 0, 0, 0, 0, 0, 0, 0,  // dq 65
    ];
    assert_eq!(code, expected);
    assert_eq!(code.len(), 15);
}

#[test]
fn data_directives_truncate_to_width() {
    assert_eq!(assemble(b"db 256\n").unwrap(), vec![0]);
    assert_eq!(assemble(b"dw 65536\n").unwrap(), vec![0, 0]);
    assert_eq!(assemble(b"dl 4294967296\n").unwrap(), vec![0, 0, 0, 0]);
}

#[test]
fn ds_emits_raw_bytes_without_terminator() {
    let code = assemble(b"ds \"hello\"\n").unwrap();
    assert_eq!(code, vec![b'h', b'e', b'l', b'l', b'o']);
    assert_eq!(code.len(), 5);
}

#[test]
fn ds_empty_string_and_embedded_spaces() {
    assert_eq!(assemble(b"ds \"\"\n").unwrap(), Vec::<u8>::new());
    assert_eq!(
        assemble(b"ds \"a b\"\n").unwrap(),
        vec![b'a', b' ', b'b']
    );
}

#[test]
fn comma_after_first_operand_is_tolerated() {
    // operand resolution reads only the significant characters, so a
    // trailing comma on a register token changes nothing
    let with_comma = assemble(b"mov rax, 60\nsyscall\n").unwrap();
    let without = assemble(b"mov rax 60\nsyscall\n").unwrap();
    assert_eq!(with_comma, without);
}

#[test]
fn leading_whitespace_and_blank_lines_are_ignored() {
    let a = assemble(b"mov rax 1\nsyscall\n").unwrap();
    let b = assemble(b"  \t mov rax 1\n\n\n   syscall\n\n").unwrap();
    assert_eq!(a, b);
}

#[test]
fn missing_operands_are_syntax_errors() {
    assert_eq!(assemble(b"mov\n"), Err(AsmError::Syntax));
    assert_eq!(assemble(b"mov rax\n"), Err(AsmError::Syntax));
    assert_eq!(assemble(b"db\n"), Err(AsmError::Syntax));
}

#[test]
fn syscall_ignores_extra_tokens() {
    assert_eq!(assemble(b"syscall now\n").unwrap(), vec![0x0f, 0x05]);
}

#[test]
fn unknown_opcode() {
    assert_eq!(assemble(b"frobnicate 1 2\n"), Err(AsmError::UnknownOpcode));
    assert_eq!(assemble(b"dx 1\n"), Err(AsmError::UnknownOpcode));
    assert_eq!(assemble(b"dd 1\n"), Err(AsmError::UnknownOpcode));
}

#[test]
fn invalid_register_in_mov() {
    assert_eq!(assemble(b"mov rz 1\n"), Err(AsmError::InvalidRegister));
    assert_eq!(assemble(b"mov rax rq\n"), Err(AsmError::InvalidRegister));
}

#[test]
fn double_space_makes_an_empty_operand() {
    assert_eq!(assemble(b"mov  rax 1\n"), Err(AsmError::InvalidRegister));
}

#[test]
fn memory_destination_is_unsupported() {
    assert_eq!(
        assemble(b"mov q(rax) 5\n"),
        Err(AsmError::UnsupportedAddressingForm)
    );
    assert_eq!(
        assemble(b"mov z(rax) 5\n"),
        Err(AsmError::InvalidSizeSuffix)
    );
}

#[test]
fn immediate_parse_errors() {
    assert_eq!(assemble(b"mov rax 9x\n"), Err(AsmError::ImmediateParse));
    assert_eq!(
        assemble(b"db 18446744073709551616\n"),
        Err(AsmError::ImmediateParse)
    );
}

#[test]
fn unterminated_string() {
    assert_eq!(assemble(b"ds hello\n"), Err(AsmError::Syntax));
    assert_eq!(assemble(b"ds \"x\n"), Err(AsmError::Syntax));
}
