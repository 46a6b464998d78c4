use vstd::prelude::*;

use crate::bytes::db;
use crate::bytes::dd;
use crate::bytes::dq;
use crate::bytes::ds;
use crate::bytes::dw;
use crate::bytes::spec_le16;
use crate::bytes::spec_le32;
use crate::bytes::spec_le64;

verus! {

/// Base virtual address of the one loadable segment.
pub const VA: u64 = 0xF000_0000;

/// Segment alignment: 2 MiB.
pub const ALIGN: u64 = 0x20_0000;

/// sizeof(Elf64_Ehdr)
pub const EHDR_SZ: u64 = 64;

/// sizeof(Elf64_Phdr)
pub const PHDR_SZ: u64 = 56;

/// sizeof(Elf64_Shdr)
pub const SHDR_SZ: u64 = 64;

/// All parts of the image are placed back to back: the program header
/// right after the ELF header, then three section headers, the string
/// table, and finally the code.
pub const PHDR_OFS: u64 = 64;

pub const SHDR_OFS: u64 = 120;

pub const STRTAB_OFS: u64 = 312;

pub const STRTAB_SZ: u64 = 16;

pub const CODE_OFS: u64 = 328;

/// The fixed 64-byte ELF header: a 64-bit little-endian executable for
/// EM_X86_64, entered at the start of the code, with one program header
/// and three section headers, of which the third holds the section names.
pub open spec fn spec_elf_header() -> Seq<u8> {
    seq![0x7fu8, 0x45, 0x4c, 0x46]  // EI_MAG: "\x7fELF"
     + seq![2u8]  // EI_CLASS = ELFCLASS64
     + seq![1u8]  // EI_DATA = ELFDATA2LSB
     + seq![1u8]  // EI_VERSION = EV_CURRENT
     + seq![0u8]  // EI_OSABI = ELFOSABI_SYSV
     + spec_le64(0)  // EI_ABIVERSION and padding
     + spec_le16(2)  // e_type = ET_EXEC
     + spec_le16(62)  // e_machine = EM_X86_64
     + spec_le32(1)  // e_version = EV_CURRENT
     + spec_le64((VA + CODE_OFS) as u64)  // e_entry
     + spec_le64(PHDR_OFS)  // e_phoff
     + spec_le64(SHDR_OFS)  // e_shoff
     + spec_le32(0)  // e_flags
     + spec_le16(EHDR_SZ as u16)  // e_ehsize
     + spec_le16(PHDR_SZ as u16)  // e_phentsize
     + spec_le16(1)  // e_phnum
     + spec_le16(SHDR_SZ as u16)  // e_shentsize
     + spec_le16(3)  // e_shnum
     + spec_le16(2)  // e_shstrndx
}

/// The one program header: a PT_LOAD segment, readable and executable,
/// mapping the whole file at the base address.
pub open spec fn spec_program_header(file_sz: u64) -> Seq<u8> {
    spec_le32(1)  // p_type = PT_LOAD
     + spec_le32(5)  // p_flags = PF_R | PF_X
     + spec_le64(0)  // p_offset
     + spec_le64(VA)  // p_vaddr
     + spec_le64(0)  // p_paddr
     + spec_le64(file_sz)  // p_filesz
     + spec_le64(file_sz)  // p_memsz
     + spec_le64(ALIGN)  // p_align
}

/// The reserved null section header: 64 zero bytes.
pub open spec fn spec_null_section() -> Seq<u8> {
    Seq::new(64, |i: int| 0u8)
}

/// The `.text` section header: program bits, allocated and executable,
/// covering the code at the end of the file.
pub open spec fn spec_text_section(code_sz: u64) -> Seq<u8> {
    spec_le32(0)  // sh_name: ".text"
     + spec_le32(1)  // sh_type = SHT_PROGBITS
     + spec_le64(6)  // sh_flags = SHF_ALLOC | SHF_EXECINSTR
     + spec_le64((VA + CODE_OFS) as u64)  // sh_addr
     + spec_le64(CODE_OFS)  // sh_offset
     + spec_le64(code_sz)  // sh_size
     + spec_le32(0)  // sh_link
     + spec_le32(0)  // sh_info
     + spec_le64(ALIGN)  // sh_addralign
     + spec_le64(0)  // sh_entsize
}

/// The `.shstrtab` section header: the string table that names the
/// sections.
pub open spec fn spec_strtab_section() -> Seq<u8> {
    spec_le32(6)  // sh_name: ".shstrtab"
     + spec_le32(3)  // sh_type = SHT_STRTAB
     + spec_le64(0)  // sh_flags
     + spec_le64((VA + STRTAB_OFS) as u64)  // sh_addr
     + spec_le64(STRTAB_OFS)  // sh_offset
     + spec_le64(STRTAB_SZ)  // sh_size
     + spec_le32(0)  // sh_link
     + spec_le32(0)  // sh_info
     + spec_le64(0)  // sh_addralign
     + spec_le64(0)  // sh_entsize
}

/// The 16-byte string table: ".text\0" then ".shstrtab\0".
pub open spec fn spec_strtab() -> Seq<u8> {
    seq![
        0x2eu8, 0x74, 0x65, 0x78, 0x74, 0x00,  // ".text\0"
        0x2e, 0x73, 0x68, 0x73, 0x74, 0x72, 0x74, 0x61, 0x62, 0x00,  // ".shstrtab\0"
    ]
}

/// The whole image: headers, string table, then the code, back to back.
pub open spec fn spec_link(code: Seq<u8>) -> Seq<u8> {
    spec_elf_header() + spec_program_header((CODE_OFS + code.len()) as u64) + spec_null_section()
        + spec_text_section(code.len() as u64) + spec_strtab_section() + spec_strtab() + code
}

fn write_elf_header(buf: &mut Vec<u8>)
    ensures
        final(buf)@ == old(buf)@ + spec_elf_header(),
{
    let ghost pre = buf@;
    db(buf, 0x7f);  // EI_MAG
    db(buf, 0x45);
    db(buf, 0x4c);
    db(buf, 0x46);
    db(buf, 2);  // EI_CLASS = ELFCLASS64
    db(buf, 1);  // EI_DATA = ELFDATA2LSB
    db(buf, 1);  // EI_VERSION = EV_CURRENT
    db(buf, 0);  // EI_OSABI = ELFOSABI_SYSV
    dq(buf, 0);  // EI_ABIVERSION and padding
    dw(buf, 2);  // e_type = ET_EXEC
    dw(buf, 62);  // e_machine = EM_X86_64
    dd(buf, 1);  // e_version = EV_CURRENT
    dq(buf, VA + CODE_OFS);  // e_entry
    dq(buf, PHDR_OFS);  // e_phoff
    dq(buf, SHDR_OFS);  // e_shoff
    dd(buf, 0);  // e_flags
    dw(buf, EHDR_SZ as u16);  // e_ehsize
    dw(buf, PHDR_SZ as u16);  // e_phentsize
    dw(buf, 1);  // e_phnum
    dw(buf, SHDR_SZ as u16);  // e_shentsize
    dw(buf, 3);  // e_shnum
    dw(buf, 2);  // e_shstrndx
    proof {
        assert(buf@ =~= pre + spec_elf_header());
    }
}

fn write_program_header(buf: &mut Vec<u8>, file_sz: u64)
    ensures
        final(buf)@ == old(buf)@ + spec_program_header(file_sz),
{
    let ghost pre = buf@;
    dd(buf, 1);  // p_type = PT_LOAD
    dd(buf, 5);  // p_flags = PF_R | PF_X
    dq(buf, 0);  // p_offset
    dq(buf, VA);  // p_vaddr
    dq(buf, 0);  // p_paddr
    dq(buf, file_sz);  // p_filesz
    dq(buf, file_sz);  // p_memsz
    dq(buf, ALIGN);  // p_align
    proof {
        assert(buf@ =~= pre + spec_program_header(file_sz));
    }
}

fn write_reserved_section(buf: &mut Vec<u8>)
    ensures
        final(buf)@ == old(buf)@ + spec_null_section(),
{
    let mut k: usize = 0;
    while k < 64
        invariant
            k <= 64,
            buf@ == old(buf)@ + Seq::new(k as nat, |i: int| 0u8),
        decreases 64 - k,
    {
        db(buf, 0);
        proof {
            assert(Seq::new(k as nat, |i: int| 0u8) + seq![0u8] =~= Seq::new(
                (k + 1) as nat,
                |i: int| 0u8,
            ));
            assert(buf@ =~= old(buf)@ + Seq::new((k + 1) as nat, |i: int| 0u8));
        }
        k = k + 1;
    }
}

fn write_text_section(buf: &mut Vec<u8>, code_sz: u64)
    ensures
        final(buf)@ == old(buf)@ + spec_text_section(code_sz),
{
    let ghost pre = buf@;
    dd(buf, 0);  // sh_name: ".text"
    dd(buf, 1);  // sh_type = SHT_PROGBITS
    dq(buf, 6);  // sh_flags = SHF_ALLOC | SHF_EXECINSTR
    dq(buf, VA + CODE_OFS);  // sh_addr
    dq(buf, CODE_OFS);  // sh_offset
    dq(buf, code_sz);  // sh_size
    dd(buf, 0);  // sh_link
    dd(buf, 0);  // sh_info
    dq(buf, ALIGN);  // sh_addralign
    dq(buf, 0);  // sh_entsize
    proof {
        assert(buf@ =~= pre + spec_text_section(code_sz));
    }
}

fn write_strtab_section(buf: &mut Vec<u8>)
    ensures
        final(buf)@ == old(buf)@ + spec_strtab_section(),
{
    let ghost pre = buf@;
    dd(buf, 6);  // sh_name: ".shstrtab"
    dd(buf, 3);  // sh_type = SHT_STRTAB
    dq(buf, 0);  // sh_flags
    dq(buf, VA + STRTAB_OFS);  // sh_addr
    dq(buf, STRTAB_OFS);  // sh_offset
    dq(buf, STRTAB_SZ);  // sh_size
    dd(buf, 0);  // sh_link
    dd(buf, 0);  // sh_info
    dq(buf, 0);  // sh_addralign
    dq(buf, 0);  // sh_entsize
    proof {
        assert(buf@ =~= pre + spec_strtab_section());
    }
}

fn write_strtab(buf: &mut Vec<u8>)
    ensures
        final(buf)@ == old(buf)@ + spec_strtab(),
{
    let ghost pre = buf@;
    db(buf, 0x2e);  // ".text\0"
    db(buf, 0x74);
    db(buf, 0x65);
    db(buf, 0x78);
    db(buf, 0x74);
    db(buf, 0x00);
    db(buf, 0x2e);  // ".shstrtab\0"
    db(buf, 0x73);
    db(buf, 0x68);
    db(buf, 0x73);
    db(buf, 0x74);
    db(buf, 0x72);
    db(buf, 0x74);
    db(buf, 0x61);
    db(buf, 0x62);
    db(buf, 0x00);
    proof {
        assert(buf@ =~= pre + spec_strtab());
    }
}

/// Wrap a finished flat code buffer into a complete static ELF64
/// executable image. The structural header fields are fixed, whatever
/// the code: the ELF magic and class, the machine, the entry point at
/// the base address plus the code offset, and the header table offsets
/// and counts; only the sizes and the trailing code bytes depend on the
/// code buffer.
#[verifier::rlimit(100)]
pub fn link(code: &[u8]) -> (image: Vec<u8>)
    requires
        code@.len() + CODE_OFS <= u64::MAX,
    ensures
        image@ == spec_link(code@),
        image@.len() == CODE_OFS + code@.len(),
        image@.subrange(0, 4) == seq![0x7fu8, 0x45, 0x4c, 0x46],
        image@[4] == 2,
        image@[5] == 1,
        image@.subrange(16, 18) == spec_le16(2),
        image@.subrange(18, 20) == spec_le16(62),
        image@.subrange(24, 32) == spec_le64((VA + CODE_OFS) as u64),
        image@.subrange(32, 40) == spec_le64(PHDR_OFS),
        image@.subrange(40, 48) == spec_le64(SHDR_OFS),
        image@.subrange(56, 58) == spec_le16(1),
        image@.subrange(60, 62) == spec_le16(3),
        image@.subrange(62, 64) == spec_le16(2),
        image@.subrange(CODE_OFS as int, CODE_OFS + code@.len()) == code@,
{
    let code_sz = code.len() as u64;
    let image_sz = CODE_OFS + code_sz;

    let mut buf: Vec<u8> = Vec::new();

    write_elf_header(&mut buf);
    write_program_header(&mut buf, image_sz);
    write_reserved_section(&mut buf);
    write_text_section(&mut buf, code_sz);
    write_strtab_section(&mut buf);
    write_strtab(&mut buf);
    ds(&mut buf, code);

    proof {
        assert(buf@ =~= spec_link(code@));
        lemma_link_header_fields(code@);
    }
    buf
}

/// The fixed fields of the produced image, for any code: the ELF magic
/// and class, the machine, the entry point at the base address plus the
/// code offset, the header table offsets and counts, and the code itself
/// at its fixed offset.
#[verifier::rlimit(50)]
proof fn lemma_ehdr_layout()
    ensures
        spec_elf_header().len() == 64,
        spec_elf_header().subrange(0, 4) == seq![0x7fu8, 0x45, 0x4c, 0x46],
        spec_elf_header()[4] == 2,
        spec_elf_header()[5] == 1,
        spec_elf_header().subrange(16, 18) == spec_le16(2),
        spec_elf_header().subrange(18, 20) == spec_le16(62),
        spec_elf_header().subrange(24, 32) == spec_le64((VA + CODE_OFS) as u64),
        spec_elf_header().subrange(32, 40) == spec_le64(PHDR_OFS),
        spec_elf_header().subrange(40, 48) == spec_le64(SHDR_OFS),
        spec_elf_header().subrange(56, 58) == spec_le16(1),
        spec_elf_header().subrange(60, 62) == spec_le16(3),
        spec_elf_header().subrange(62, 64) == spec_le16(2),
{
    let h = spec_elf_header();
    assert(h.subrange(0, 4) =~= seq![0x7fu8, 0x45, 0x4c, 0x46]);
    assert(h.subrange(16, 18) =~= spec_le16(2));
    assert(h.subrange(18, 20) =~= spec_le16(62));
    assert(h.subrange(24, 32) =~= spec_le64((VA + CODE_OFS) as u64));
    assert(h.subrange(32, 40) =~= spec_le64(PHDR_OFS));
    assert(h.subrange(40, 48) =~= spec_le64(SHDR_OFS));
    assert(h.subrange(56, 58) =~= spec_le16(1));
    assert(h.subrange(60, 62) =~= spec_le16(3));
    assert(h.subrange(62, 64) =~= spec_le16(2));
}

/// The total image length: the fixed 328-byte prelude, then the code.
proof fn lemma_link_len(code: Seq<u8>)
    ensures
        spec_link(code).len() == CODE_OFS + code.len(),
{
    let p = spec_program_header((CODE_OFS + code.len()) as u64);
    assert(p.len() == 56);
}

#[verifier::rlimit(100)]
pub proof fn lemma_link_header_fields(code: Seq<u8>)
    ensures
        spec_link(code).len() == CODE_OFS + code.len(),
        spec_link(code).subrange(0, 4) == seq![0x7fu8, 0x45, 0x4c, 0x46],
        spec_link(code)[4] == 2,
        spec_link(code)[5] == 1,
        spec_link(code).subrange(16, 18) == spec_le16(2),
        spec_link(code).subrange(18, 20) == spec_le16(62),
        spec_link(code).subrange(24, 32) == spec_le64((VA + CODE_OFS) as u64),
        spec_link(code).subrange(32, 40) == spec_le64(PHDR_OFS),
        spec_link(code).subrange(40, 48) == spec_le64(SHDR_OFS),
        spec_link(code).subrange(56, 58) == spec_le16(1),
        spec_link(code).subrange(60, 62) == spec_le16(3),
        spec_link(code).subrange(62, 64) == spec_le16(2),
        spec_link(code).subrange(CODE_OFS as int, CODE_OFS + code.len()) == code,
{
    let img = spec_link(code);
    let h = spec_elf_header();
    lemma_ehdr_layout();
    lemma_link_len(code);
    assert(img.subrange(0, 4) =~= h.subrange(0, 4));
    assert(img.subrange(16, 18) =~= h.subrange(16, 18));
    assert(img.subrange(18, 20) =~= h.subrange(18, 20));
    assert(img.subrange(24, 32) =~= h.subrange(24, 32));
    assert(img.subrange(32, 40) =~= h.subrange(32, 40));
    assert(img.subrange(40, 48) =~= h.subrange(40, 48));
    assert(img.subrange(56, 58) =~= h.subrange(56, 58));
    assert(img.subrange(60, 62) =~= h.subrange(60, 62));
    assert(img.subrange(62, 64) =~= h.subrange(62, 64));
    assert(img.subrange(CODE_OFS as int, CODE_OFS + code.len()) =~= code);
}

} // verus!
