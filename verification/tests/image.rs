use zasm::assembler::{assemble, build};
use zasm::elf;

const CODE_OFS: usize = 328;

#[test]
fn header_fields_are_fixed() {
    let src = b"mov rax 60\nsyscall\n";
    let code = assemble(src).unwrap();
    let img = build(src).unwrap();

    assert_eq!(img.len(), CODE_OFS + code.len());
    // ELF magic, class, data encoding
    assert_eq!(&img[0..4], &[0x7f, b'E', b'L', b'F']);
    assert_eq!(img[4], 2);  // ELFCLASS64
    assert_eq!(img[5], 1);  // ELFDATA2LSB
    // e_type = ET_EXEC, e_machine = EM_X86_64
    assert_eq!(&img[16..18], &[2, 0]);
    assert_eq!(&img[18..20], &[62, 0]);
    // e_entry = base address + code offset = 0xF0000000 + 328
    assert_eq!(&img[24..32], &[0x48, 0x01, 0x00, 0xf0, 0, 0, 0, 0]);
    // e_phoff, e_shoff
    assert_eq!(&img[32..40], &[64, 0, 0, 0, 0, 0, 0, 0]);
    assert_eq!(&img[40..48], &[120, 0, 0, 0, 0, 0, 0, 0]);
    // e_phnum, e_shnum, e_shstrndx
    assert_eq!(&img[56..58], &[1, 0]);
    assert_eq!(&img[60..62], &[3, 0]);
    assert_eq!(&img[62..64], &[2, 0]);
    // the code sits at its fixed offset
    assert_eq!(&img[CODE_OFS..], &code[..]);
}

#[test]
fn string_table_contents() {
    let img = elf::link(b"");
    assert_eq!(img.len(), CODE_OFS);
    assert_eq!(&img[312..328], b".text\0.shstrtab\0");
}

#[test]
fn program_header_covers_whole_file() {
    let img = elf::link(&[0x90; 7]);
    let file_sz = (CODE_OFS + 7) as u64;
    // p_type = PT_LOAD, p_flags = PF_R | PF_X
    assert_eq!(&img[64..68], &[1, 0, 0, 0]);
    assert_eq!(&img[68..72], &[5, 0, 0, 0]);
    // p_filesz and p_memsz both equal the file size
    assert_eq!(&img[96..104], &file_sz.to_le_bytes());
    assert_eq!(&img[104..112], &file_sz.to_le_bytes());
}

#[test]
fn assembling_twice_is_byte_identical() {
    let src = b"mov rax .msg\nsyscall\n.msg\nds \"hello\"\nmov r12 .msg\ndq 7\n";
    let first = build(src).unwrap();
    let second = build(src).unwrap();
    assert_eq!(first, second);
    let a = assemble(src).unwrap();
    let b = assemble(src).unwrap();
    assert_eq!(a, b);
}
