use zasm::assembler::{assemble, build};
use zasm::err::AsmError;

#[test]
fn forward_reference_to_next_instruction_is_zero() {
    // the label starts exactly where the next instruction would: the
    // RIP-relative displacement is 0
    let code = assemble(b"mov rax .end\n.end\n").unwrap();
    assert_eq!(code, vec![0x48, 0x8d, 0x05, 0, 0, 0, 0]);
}

#[test]
fn label_resolves_forward_and_backward() {
    // three instructions around one label; displacements computed by hand
    // as label_offset - (window_offset + 4)
    let src = b"mov rax .msg\nsyscall\n.msg\nds \"hi\"\nmov rbx .msg\n";
    let code = assemble(src).unwrap();
    let expected: Vec<u8> = vec![
        0x48, 0x8d, 0x05, 2, 0, 0, 0,  // mov rax, .msg: 9 - (3 + 4) = 2
        0x0f, 0x05,  // syscall
        b'h', b'i',  // .msg points here, offset 9
        0x48, 0x8d, 0x1d, 0xf7, 0xff, 0xff, 0xff,  // mov rbx, .msg: 9 - (14 + 4) = -9
    ];
    assert_eq!(code, expected);
}

#[test]
fn undeclared_label_fails_and_produces_nothing() {
    assert_eq!(assemble(b"mov rax .nope\n"), Err(AsmError::UndeclaredLabel));
    assert_eq!(build(b"mov rax .nope\n"), Err(AsmError::UndeclaredLabel));
}

#[test]
fn duplicate_label_first_declaration_wins() {
    // .a is declared at offset 0 and again at offset 7; the reference
    // resolves to the first declaration: 0 - (3 + 4) = -7
    let code = assemble(b".a\nmov rax .a\n.a\n").unwrap();
    assert_eq!(code, vec![0x48, 0x8d, 0x05, 0xf9, 0xff, 0xff, 0xff]);
}

#[test]
fn too_many_labels() {
    let mut src: Vec<u8> = Vec::new();
    for _ in 0..4097 {
        src.extend_from_slice(b".x\n");
    }
    assert_eq!(assemble(&src), Err(AsmError::TooManyLabels));

    let mut src: Vec<u8> = Vec::new();
    for _ in 0..4096 {
        src.extend_from_slice(b".x\n");
    }
    assert!(assemble(&src).is_ok());
}
