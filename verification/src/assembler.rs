use vstd::prelude::*;

use crate::bytes::spec_le16;
use crate::bytes::spec_le32;
use crate::bytes::spec_le64;
use crate::err::AsmError;
use crate::parse::is_digit;
use crate::parse::spec_parse_imm;
use crate::parse::spec_parse_op;
use crate::parse::spec_parse_reg;
use crate::parse::spec_parse_size;
use crate::x64::Op;
use crate::x64::Reg;
use crate::x64::Size;
use crate::x64::reg_code;

verus! {

/// The most labels one program may declare.
pub const MAX_LABELS: usize = 4096;

/// The largest code buffer whose every byte a 32-bit displacement can
/// still reach.
pub const MAX_CODE: usize = 0x7fff_ffff;

/// ASCII whitespace, as trimmed from the start of each line.
pub open spec fn is_ws(c: u8) -> bool {
    c == 32 || c == 9 || c == 10 || c == 12 || c == 13
}

/// The index of the first occurrence of `b`, or -1 if it does not occur.
pub open spec fn find_byte(s: Seq<u8>, b: u8) -> int
    decreases s.len(),
{
    if s.len() == 0 {
        -1
    } else if s[0] == b {
        0
    } else {
        let r = find_byte(s.subrange(1, s.len() as int), b);
        if r == -1 {
            -1
        } else {
            r + 1
        }
    }
}

pub proof fn lemma_find_byte_range(s: Seq<u8>, b: u8)
    ensures
        find_byte(s, b) == -1 || (0 <= find_byte(s, b) < s.len()),
    decreases s.len(),
{
    if s.len() > 0 && s[0] != b {
        lemma_find_byte_range(s.subrange(1, s.len() as int), b);
    }
}

/// Where the first line of `s` ends: at the first newline, or at the end.
pub open spec fn line_break(s: Seq<u8>) -> int {
    let f = find_byte(s, 10);
    if f == -1 {
        s.len() as int
    } else {
        f
    }
}

/// Where the first space-separated token of `s` ends.
pub open spec fn tok_break(s: Seq<u8>) -> int {
    let f = find_byte(s, 32);
    if f == -1 {
        s.len() as int
    } else {
        f
    }
}

/// The sequence with its leading ASCII whitespace removed.
pub open spec fn spec_trim_start(s: Seq<u8>) -> Seq<u8>
    decreases s.len(),
{
    if s.len() > 0 && is_ws(s[0]) {
        spec_trim_start(s.subrange(1, s.len() as int))
    } else {
        s
    }
}

/// The source split at newlines, each line trimmed at the start, with
/// empty lines discarded.
pub open spec fn spec_lines(src: Seq<u8>) -> Seq<Seq<u8>>
    decreases src.len(),
{
    if src.len() == 0 {
        Seq::empty()
    } else {
        let j = line_break(src);
        let line = spec_trim_start(src.subrange(0, j));
        let rest = if j == src.len() {
            Seq::<Seq<u8>>::empty()
        } else {
            proof {
                lemma_find_byte_range(src, 10);
            }
            spec_lines(src.subrange(j + 1, src.len() as int))
        };
        if line.len() == 0 {
            rest
        } else {
            seq![line] + rest
        }
    }
}

/// A line split at single spaces, empty tokens kept; never empty.
pub open spec fn spec_tokens(line: Seq<u8>) -> Seq<Seq<u8>>
    decreases line.len(),
{
    let j = tok_break(line);
    if j == line.len() {
        seq![line]
    } else {
        proof {
            lemma_find_byte_range(line, 32);
        }
        seq![line.subrange(0, j)] + spec_tokens(line.subrange(j + 1, line.len() as int))
    }
}

/// The views of a sequence of byte vectors.
pub open spec fn seqs_of(v: Seq<Vec<u8>>) -> Seq<Seq<u8>> {
    v.map_values(|x: Vec<u8>| x@)
}

proof fn lemma_find_byte_at(s: Seq<u8>, b: u8, j: int)
    requires
        0 <= j <= s.len(),
        forall|k: int| 0 <= k < j ==> s[k] != b,
        j < s.len() ==> s[j] == b,
    ensures
        find_byte(s, b) == if j < s.len() {
            j
        } else {
            -1
        },
    decreases j,
{
    if j > 0 {
        let t = s.subrange(1, s.len() as int);
        assert forall|k: int| 0 <= k < j - 1 implies t[k] != b by {
            assert(t[k] == s[k + 1]);
        }
        lemma_find_byte_at(t, b, j - 1);
    }
}

proof fn lemma_trim_start_at(s: Seq<u8>, k: int)
    requires
        0 <= k <= s.len(),
        forall|i: int| 0 <= i < k ==> is_ws(#[trigger] s[i]),
        k < s.len() ==> !is_ws(s[k]),
    ensures
        spec_trim_start(s) == s.subrange(k, s.len() as int),
    decreases k,
{
    if k == 0 {
        assert(s.subrange(0, s.len() as int) =~= s);
    } else {
        let t = s.subrange(1, s.len() as int);
        assert forall|i: int| 0 <= i < k - 1 implies is_ws(#[trigger] t[i]) by {
            assert(t[i] == s[i + 1]);
        }
        lemma_trim_start_at(t, k - 1);
        assert(t.subrange(k - 1, t.len() as int) =~= s.subrange(k, s.len() as int));
    }
}

/// The first index at or after `start` where `b` occurs, or the length.
fn find_from(s: &[u8], start: usize, b: u8) -> (j: usize)
    requires
        start <= s@.len(),
    ensures
        start <= j <= s@.len(),
        forall|k: int| start <= k < j ==> s@[k] != b,
        j < s@.len() ==> s@[j as int] == b,
{
    let mut j = start;
    while j < s.len() && s[j] != b
        invariant
            start <= j <= s@.len(),
            forall|k: int| start <= k < j ==> s@[k] != b,
        decreases s@.len() - j,
    {
        j = j + 1;
    }
    j
}

/// Copy `s[from..to]` into a fresh vector.
fn copy_range(s: &[u8], from: usize, to: usize) -> (out: Vec<u8>)
    requires
        from <= to <= s@.len(),
    ensures
        out@ == s@.subrange(from as int, to as int),
{
    let mut out: Vec<u8> = Vec::new();
    let mut m = from;
    while m < to
        invariant
            from <= m <= to <= s@.len(),
            out@ == s@.subrange(from as int, m as int),
        decreases to - m,
    {
        out.push(s[m]);
        proof {
            assert(s@.subrange(from as int, m as int).push(s@[m as int]) =~= s@.subrange(
                from as int,
                m + 1,
            ));
        }
        m = m + 1;
    }
    out
}

/// Split the source into its trimmed, non-empty lines.
fn split_lines(src: &[u8]) -> (lines: Vec<Vec<u8>>)
    ensures
        seqs_of(lines@) == spec_lines(src@),
{
    let mut out: Vec<Vec<u8>> = Vec::new();
    let mut i: usize = 0;
    proof {
        assert(src@.subrange(0, src@.len() as int) =~= src@);
        assert(seqs_of(out@) + spec_lines(src@) =~= spec_lines(src@));
    }
    while i < src.len()
        invariant
            i <= src@.len(),
            spec_lines(src@) == seqs_of(out@) + spec_lines(
                src@.subrange(i as int, src@.len() as int),
            ),
        decreases src@.len() - i,
    {
        let ghost out0 = out@;
        let j = find_from(src, i, 10);
        let mut k = i;
        while k < j && (src[k] == 32 || src[k] == 9 || src[k] == 12 || src[k] == 13)
            invariant
                i <= k <= j <= src@.len(),
                forall|m: int| i <= m < k ==> is_ws(#[trigger] src@[m]),
                forall|m: int| i <= m < j ==> src@[m] != 10,
                j < src@.len() ==> src@[j as int] == 10,
            decreases j - k,
        {
            k = k + 1;
        }
        let ghost suf = src@.subrange(i as int, src@.len() as int);
        let ghost raw = src@.subrange(i as int, j as int);
        let ghost rest = if j == src@.len() {
            Seq::<Seq<u8>>::empty()
        } else {
            spec_lines(src@.subrange(j + 1, src@.len() as int))
        };
        proof {
            assert forall|m: int| 0 <= m < j - i implies suf[m] != 10 by {
                assert(suf[m] == src@[i + m]);
            }
            assert(j < src@.len() ==> suf[j - i] == src@[j as int]);
            lemma_find_byte_at(suf, 10, j - i);
            assert(line_break(suf) == j - i);
            assert(suf.subrange(0, j - i) =~= raw);
            assert forall|m: int| 0 <= m < k - i implies is_ws(#[trigger] raw[m]) by {
                assert(raw[m] == src@[i + m]);
            }
            assert(k < j ==> !is_ws(raw[k - i]));
            lemma_trim_start_at(raw, k - i);
            assert(raw.subrange(k - i, raw.len() as int) =~= src@.subrange(k as int, j as int));
            assert(spec_trim_start(raw) == src@.subrange(k as int, j as int));
            if j < src@.len() {
                assert(suf.subrange(j - i + 1, suf.len() as int) =~= src@.subrange(j + 1, src@.len() as int));
            }
            assert(spec_lines(suf) == (if spec_trim_start(raw).len() == 0 {
                rest
            } else {
                seq![spec_trim_start(raw)] + rest
            }));
        }
        if k < j {
            let line = copy_range(src, k, j);
            out.push(line);
            proof {
                assert(seqs_of(out@) =~= seqs_of(out0) + seq![src@.subrange(k as int, j as int)]);
                assert(seqs_of(out0) + (seq![spec_trim_start(raw)] + rest) =~= seqs_of(out@)
                    + rest);
            }
        } else {
            proof {
                assert(src@.subrange(k as int, j as int).len() == 0);
            }
        }
        proof {
            assert(spec_lines(src@) == seqs_of(out@) + rest);
        }
        if j < src.len() {
            i = j + 1;
        } else {
            i = j;
            proof {
                assert(src@.subrange(i as int, src@.len() as int).len() == 0);
                assert(spec_lines(src@.subrange(i as int, src@.len() as int)) =~= Seq::<Seq<u8>>::empty());
            }
        }
    }
    proof {
        assert(src@.subrange(i as int, src@.len() as int).len() == 0);
        assert(spec_lines(src@.subrange(i as int, src@.len() as int)) =~= Seq::<Seq<u8>>::empty());
        assert(seqs_of(out@) + Seq::<Seq<u8>>::empty() =~= seqs_of(out@));
    }
    out
}

/// Split one line into its space-separated tokens.
fn split_tokens(line: &[u8]) -> (toks: Vec<Vec<u8>>)
    ensures
        seqs_of(toks@) == spec_tokens(line@),
        toks@.len() > 0,
{
    let mut out: Vec<Vec<u8>> = Vec::new();
    let mut i: usize = 0;
    let mut done = false;
    proof {
        assert(line@.subrange(0, line@.len() as int) =~= line@);
        assert(seqs_of(out@) + spec_tokens(line@) =~= spec_tokens(line@));
    }
    while !done
        invariant
            i <= line@.len(),
            !done ==> spec_tokens(line@) == seqs_of(out@) + spec_tokens(
                line@.subrange(i as int, line@.len() as int),
            ),
            done ==> spec_tokens(line@) == seqs_of(out@),
            done ==> out@.len() > 0,
        decreases line@.len() - i + (if done {
            0int
        } else {
            1int
        }),
    {
        let ghost out0 = out@;
        let j = find_from(line, i, 32);
        let tok = copy_range(line, i, j);
        out.push(tok);
        let ghost suf = line@.subrange(i as int, line@.len() as int);
        proof {
            assert forall|m: int| 0 <= m < j - i implies suf[m] != 32 by {
                assert(suf[m] == line@[i + m]);
            }
            assert(j < line@.len() ==> suf[j - i] == line@[j as int]);
            lemma_find_byte_at(suf, 32, j - i);
            assert(tok_break(suf) == j - i);
            assert(suf.subrange(0, j - i) =~= line@.subrange(i as int, j as int));
            assert(seqs_of(out@) =~= seqs_of(out0) + seq![line@.subrange(i as int, j as int)]);
            if j < line@.len() {
                assert(suf.subrange(j - i + 1, suf.len() as int) =~= line@.subrange(j + 1, line@.len() as int));
                assert(spec_tokens(suf) == seq![line@.subrange(i as int, j as int)] + spec_tokens(
                    line@.subrange(j + 1, line@.len() as int),
                ));
                assert(seqs_of(out0) + spec_tokens(suf) =~= seqs_of(out@) + spec_tokens(
                    line@.subrange(j + 1, line@.len() as int),
                ));
            } else {
                assert(suf =~= line@.subrange(i as int, j as int));
                assert(spec_tokens(suf) == seq![suf]);
                assert(seqs_of(out0) + spec_tokens(suf) =~= seqs_of(out@));
            }
        }
        if j < line.len() {
            i = j + 1;
        } else {
            done = true;
        }
    }
    out
}

/// The index of the last occurrence of `b`, or -1 if it does not occur.
pub open spec fn rfind_byte(s: Seq<u8>, b: u8) -> int
    decreases s.len(),
{
    if s.len() == 0 {
        -1
    } else if s[s.len() - 1] == b {
        s.len() - 1
    } else {
        rfind_byte(s.drop_last(), b)
    }
}

proof fn lemma_rfind_byte_at(s: Seq<u8>, b: u8, j: int)
    requires
        -1 <= j < s.len(),
        j >= 0 ==> s[j] == b,
        forall|k: int| j < k < s.len() ==> s[k] != b,
    ensures
        rfind_byte(s, b) == j,
    decreases s.len(),
{
    if s.len() > 0 && j < s.len() - 1 {
        let t = s.drop_last();
        assert forall|k: int| j < k < t.len() implies t[k] != b by {
            assert(t[k] == s[k]);
        }
        lemma_rfind_byte_at(t, b, j);
    }
}

/// The label-declaration lines, in declaration order. A label line is one
/// that starts with a dot; the whole line is the label's name.
pub open spec fn spec_labels(lines: Seq<Seq<u8>>) -> Seq<Seq<u8>>
    decreases lines.len(),
{
    if lines.len() == 0 {
        Seq::empty()
    } else {
        let rest = spec_labels(lines.subrange(1, lines.len() as int));
        if lines[0].len() > 0 && lines[0][0] == 46 {
            seq![lines[0]] + rest
        } else {
            rest
        }
    }
}

/// The index of the first label with the given name, or -1. When a name
/// is declared twice, references resolve to the first declaration.
pub open spec fn spec_find_label(labels: Seq<Seq<u8>>, name: Seq<u8>) -> int
    decreases labels.len(),
{
    if labels.len() == 0 {
        -1
    } else if labels[0] == name {
        0
    } else {
        let r = spec_find_label(labels.subrange(1, labels.len() as int), name);
        if r == -1 {
            -1
        } else {
            r + 1
        }
    }
}

proof fn lemma_find_label_at(labels: Seq<Seq<u8>>, name: Seq<u8>, j: int)
    requires
        0 <= j <= labels.len(),
        forall|k: int| 0 <= k < j ==> labels[k] != name,
        j < labels.len() ==> labels[j] == name,
    ensures
        spec_find_label(labels, name) == if j < labels.len() {
            j
        } else {
            -1
        },
    decreases j,
{
    if j > 0 {
        let t = labels.subrange(1, labels.len() as int);
        assert forall|k: int| 0 <= k < j - 1 implies t[k] != name by {
            assert(t[k] == labels[k + 1]);
        }
        lemma_find_label_at(t, name, j - 1);
    }
}

/// The state the encoding pass threads through the lines: the code bytes
/// so far, the pending label references (window offset, label index), and
/// the offsets of the labels already declared.
#[verifier::ext_equal]
pub ghost struct EncodeState {
    pub code: Seq<u8>,
    pub relocs: Seq<(int, int)>,
    pub offs: Seq<int>,
}

/// The state the encoding pass starts from.
pub open spec fn state0() -> EncodeState {
    EncodeState { code: Seq::empty(), relocs: Seq::empty(), offs: Seq::empty() }
}

/// The views of a relocation table.
pub open spec fn relocs_of(v: Seq<(usize, usize)>) -> Seq<(int, int)> {
    v.map_values(|p: (usize, usize)| (p.0 as int, p.1 as int))
}

/// The views of a label-offset table.
pub open spec fn offs_of(v: Seq<usize>) -> Seq<int> {
    v.map_values(|x: usize| x as int)
}

/// `mov <reg>, <imm>`: REX.W with the destination's extension bit, the
/// move-immediate opcode with the destination's low bits, then the 8-byte
/// little-endian immediate.
pub open spec fn mov_imm_bytes(dst: Reg, v: u64) -> Seq<u8> {
    seq![(0x48 + 4 * (reg_code(dst) / 8)) as u8, (0xb8 + reg_code(dst) % 8) as u8] + spec_le64(v)
}

/// `mov <reg>, <reg>`: REX.W with both extension bits, opcode 0x8B, and a
/// register-direct ModRM byte.
pub open spec fn mov_rr_bytes(dst: Reg, src: Reg) -> Seq<u8> {
    seq![
        (0x48 + 4 * (reg_code(dst) / 8) + reg_code(src) / 8) as u8,
        0x8bu8,
        (0xc0 + 8 * (reg_code(dst) % 8) + reg_code(src) % 8) as u8,
    ]
}

/// `mov <reg>, .<label>`: REX.W, the load-effective-address opcode, and a
/// RIP-relative ModRM byte; the 4-byte displacement window follows.
pub open spec fn lea_label_bytes(dst: Reg) -> Seq<u8> {
    seq![(0x48 + 4 * (reg_code(dst) / 8)) as u8, 0x8du8, (5 + 8 * (reg_code(dst) % 8)) as u8]
}

/// A data directive's value, truncated to its width, little-endian.
pub open spec fn data_bytes(sz: Size, v: u64) -> Seq<u8> {
    match sz {
        Size::Byte => seq![(v % 256) as u8],
        Size::Word => spec_le16((v % 0x1_0000) as u16),
        Size::Long => spec_le32((v % 0x1_0000_0000) as u32),
        Size::Quad => spec_le64(v),
    }
}

/// Encode a `mov` line given its operand tokens.
#[verifier::opaque]
pub open spec fn spec_encode_mov(toks: Seq<Seq<u8>>, labels: Seq<Seq<u8>>, st: EncodeState) -> Result<
    EncodeState,
    AsmError,
> {
    if toks.len() < 3 {
        Err(AsmError::Syntax)
    } else {
        let a0 = toks[1];
        let a1 = toks[2];
        if a0.len() >= 2 && a0[1] == 40 {
            // a memory destination such as `q(rax)`: parsed, then refused
            match spec_parse_size(a0[0]) {
                None => Err(AsmError::InvalidSizeSuffix),
                Some(_) => match spec_parse_reg(a0.subrange(2, a0.len() as int)) {
                    None => Err(AsmError::InvalidRegister),
                    Some(_) => Err(AsmError::UnsupportedAddressingForm),
                },
            }
        } else {
            match spec_parse_reg(a0) {
                None => Err(AsmError::InvalidRegister),
                Some(dst) => {
                    if a1.len() == 0 {
                        Err(AsmError::Syntax)
                    } else if is_digit(a1[0]) {
                        match spec_parse_imm(a1) {
                            None => Err(AsmError::ImmediateParse),
                            Some(v) => Ok(
                                EncodeState { code: st.code + mov_imm_bytes(dst, v), ..st },
                            ),
                        }
                    } else if a1[0] == 46 {
                        let idx = spec_find_label(labels, a1);
                        if idx == -1 {
                            Err(AsmError::UndeclaredLabel)
                        } else {
                            Ok(
                                EncodeState {
                                    code: st.code + lea_label_bytes(dst) + seq![0u8, 0, 0, 0],
                                    relocs: st.relocs.push((st.code.len() + 3int, idx)),
                                    offs: st.offs,
                                },
                            )
                        }
                    } else {
                        match spec_parse_reg(a1) {
                            None => Err(AsmError::InvalidRegister),
                            Some(src) => Ok(
                                EncodeState { code: st.code + mov_rr_bytes(dst, src), ..st },
                            ),
                        }
                    }
                },
            }
        }
    }
}

/// Encode a data directive line given its tokens.
#[verifier::opaque]
pub open spec fn spec_encode_data(toks: Seq<Seq<u8>>, sz: Size, st: EncodeState) -> Result<
    EncodeState,
    AsmError,
> {
    if toks.len() < 2 {
        Err(AsmError::Syntax)
    } else {
        match spec_parse_imm(toks[1]) {
            None => Err(AsmError::ImmediateParse),
            Some(v) => Ok(EncodeState { code: st.code + data_bytes(sz, v), ..st }),
        }
    }
}

/// Encode a string directive: the raw bytes between the first and the
/// last double quote of the line, with no escape processing.
#[verifier::opaque]
pub open spec fn spec_encode_ds(line: Seq<u8>, st: EncodeState) -> Result<EncodeState, AsmError> {
    let start = find_byte(line, 34);
    let end = rfind_byte(line, 34);
    if start == -1 || end == start {
        Err(AsmError::Syntax)
    } else {
        Ok(EncodeState { code: st.code + line.subrange(start + 1, end), ..st })
    }
}

/// Encode one line on top of the given state: a label line records the
/// current code length as that label's offset; an instruction line
/// appends its bytes.
#[verifier::opaque]
pub open spec fn spec_encode_line(line: Seq<u8>, labels: Seq<Seq<u8>>, st: EncodeState) -> Result<
    EncodeState,
    AsmError,
> {
    if line.len() == 0 {
        Ok(st)
    } else if line[0] == 46 {
        Ok(EncodeState { offs: st.offs.push(st.code.len() as int), ..st })
    } else {
        let toks = spec_tokens(line);
        match spec_parse_op(toks[0]) {
            None => Err(AsmError::UnknownOpcode),
            Some(o) => match o {
                Op::Mov => spec_encode_mov(toks, labels, st),
                Op::Syscall => Ok(EncodeState { code: st.code + seq![15u8, 5u8], ..st }),
                Op::Data(sz) => spec_encode_data(toks, sz, st),
                Op::DataString => spec_encode_ds(line, st),
            },
        }
    }
}

/// Encode the lines from index `i` on, threading the state; the first
/// failure aborts the whole pass.
pub open spec fn spec_encode(
    lines: Seq<Seq<u8>>,
    labels: Seq<Seq<u8>>,
    i: int,
    st: EncodeState,
) -> Result<EncodeState, AsmError>
    decreases lines.len() - i,
{
    if i < 0 || i >= lines.len() {
        Ok(st)
    } else {
        match spec_encode_line(lines[i], labels, st) {
            Err(e) => Err(e),
            Ok(st2) => spec_encode(lines, labels, i + 1, st2),
        }
    }
}

/// The RIP-relative displacement stored at a 4-byte window: the label's
/// offset minus the offset just past the window, as a 32-bit two's
/// complement value.
pub open spec fn spec_disp(label_off: int, window_off: int) -> u32 {
    ((label_off - (window_off + 4)) % 0x1_0000_0000) as u32
}

/// The code with a 32-bit value stored little-endian at `ofs`.
pub open spec fn spec_store4(code: Seq<u8>, ofs: int, v: u32) -> Seq<u8> {
    code.update(ofs, spec_le32(v)[0]).update(ofs + 1, spec_le32(v)[1]).update(
        ofs + 2,
        spec_le32(v)[2],
    ).update(ofs + 3, spec_le32(v)[3])
}

/// Resolve the pending label references from index `i` on: each window is
/// overwritten with the displacement from just past the window to the
/// label's recorded offset.
pub open spec fn spec_patch(
    code: Seq<u8>,
    relocs: Seq<(int, int)>,
    offs: Seq<int>,
    i: int,
) -> Seq<u8>
    decreases relocs.len() - i,
{
    if i < 0 || i >= relocs.len() {
        code
    } else {
        spec_patch(
            spec_store4(code, relocs[i].0, spec_disp(offs[relocs[i].1], relocs[i].0)),
            relocs,
            offs,
            i + 1,
        )
    }
}

/// Well-formedness of the encoding state: every pending window lies
/// within the code, names a declared label, and the windows are disjoint
/// and in increasing order; every recorded offset lies within the code.
pub open spec fn wf_state(
    code: Seq<u8>,
    relocs: Seq<(int, int)>,
    offs: Seq<int>,
    nlabels: int,
) -> bool {
    &&& forall|k: int|
        0 <= k < relocs.len() ==> 0 <= (#[trigger] relocs[k]).0 && relocs[k].0 + 4 <= code.len()
            && 0 <= relocs[k].1 < nlabels
    &&& forall|k: int|
        0 <= k < relocs.len() - 1 ==> (#[trigger] relocs[k]).0 + 4 <= relocs[k + 1].0
    &&& forall|k: int| 0 <= k < offs.len() ==> 0 <= #[trigger] offs[k] <= code.len()
}

/// What assembling a whole source produces: collect the labels, refuse
/// too many, encode every line, refuse code past the displacement range,
/// then resolve the pending label references.
pub open spec fn spec_assemble(src: Seq<u8>) -> Result<Seq<u8>, AsmError> {
    let lines = spec_lines(src);
    let labels = spec_labels(lines);
    if labels.len() > MAX_LABELS {
        Err(AsmError::TooManyLabels)
    } else {
        match spec_encode(lines, labels, 0, state0()) {
            Err(e) => Err(e),
            Ok(st) => if st.code.len() > MAX_CODE {
                Err(AsmError::CodeTooLarge)
            } else {
                Ok(spec_patch(st.code, st.relocs, st.offs, 0))
            },
        }
    }
}

/// The view of an assembly result.
pub open spec fn res_of(r: Result<Vec<u8>, AsmError>) -> Result<Seq<u8>, AsmError> {
    match r {
        Ok(v) => Ok(v@),
        Err(e) => Err(e),
    }
}

/// The encoding state a set of executable tables stands for.
pub open spec fn st_of(code: Seq<u8>, relocs: Seq<(usize, usize)>, offs: Seq<usize>) -> EncodeState {
    EncodeState { code: code, relocs: relocs_of(relocs), offs: offs_of(offs) }
}

proof fn lemma_wf_extend(
    code: Seq<u8>,
    code2: Seq<u8>,
    relocs: Seq<(int, int)>,
    offs: Seq<int>,
    n: int,
)
    requires
        wf_state(code, relocs, offs, n),
        code.len() <= code2.len(),
    ensures
        wf_state(code2, relocs, offs, n),
{
}

proof fn lemma_wf_push_reloc(
    code: Seq<u8>,
    code2: Seq<u8>,
    relocs: Seq<(int, int)>,
    offs: Seq<int>,
    n: int,
    w: int,
    idx: int,
)
    requires
        wf_state(code, relocs, offs, n),
        code.len() <= code2.len(),
        code.len() <= w,
        w + 4 <= code2.len(),
        0 <= idx < n,
    ensures
        wf_state(code2, relocs.push((w, idx)), offs, n),
{
    let r2 = relocs.push((w, idx));
    assert forall|k: int|
        0 <= k < r2.len() implies 0 <= (#[trigger] r2[k]).0 && r2[k].0 + 4 <= code2.len() && 0 <= r2[k].1
        < n by {
        if k < relocs.len() {
            assert(r2[k] == relocs[k]);
        }
    }
    assert forall|k: int| 0 <= k < r2.len() - 1 implies (#[trigger] r2[k]).0 + 4 <= r2[k + 1].0 by {
        assert(r2[k] == relocs[k]);
        if k < relocs.len() - 1 {
            assert(r2[k + 1] == relocs[k + 1]);
        } else {
            assert(r2[k + 1] == (w, idx));
            assert(relocs[k].0 + 4 <= code.len());
        }
    }
}

proof fn lemma_wf_push_off(
    code: Seq<u8>,
    code2: Seq<u8>,
    relocs: Seq<(int, int)>,
    offs: Seq<int>,
    n: int,
    v: int,
)
    requires
        wf_state(code, relocs, offs, n),
        code.len() <= code2.len(),
        0 <= v <= code2.len(),
    ensures
        wf_state(code2, relocs, offs.push(v), n),
{
    let o2 = offs.push(v);
    assert forall|k: int| 0 <= k < o2.len() implies 0 <= #[trigger] o2[k] <= code2.len() by {
        if k < offs.len() {
            assert(o2[k] == offs[k]);
        }
    }
}

/// Compare two byte strings for equality.
fn bytes_eq(a: &[u8], b: &[u8]) -> (r: bool)
    ensures
        r == (a@ == b@),
{
    if a.len() != b.len() {
        return false;
    }
    let mut i: usize = 0;
    while i < a.len()
        invariant
            i <= a@.len(),
            a@.len() == b@.len(),
            forall|k: int| 0 <= k < i ==> a@[k] == b@[k],
        decreases a@.len() - i,
    {
        if a[i] != b[i] {
            return false;
        }
        i = i + 1;
    }
    proof {
        assert(a@ =~= b@);
    }
    true
}

/// The first declared label with the given name, if any.
fn find_label(labels: &Vec<Vec<u8>>, name: &Vec<u8>) -> (r: Option<usize>)
    ensures
        match r {
            Some(i) => i < labels@.len() && spec_find_label(seqs_of(labels@), name@) == i,
            None => spec_find_label(seqs_of(labels@), name@) == -1,
        },
{
    let mut i: usize = 0;
    while i < labels.len()
        invariant
            i <= labels@.len(),
            forall|k: int| 0 <= k < i ==> seqs_of(labels@)[k] != name@,
        decreases labels@.len() - i,
    {
        if bytes_eq(labels[i].as_slice(), name.as_slice()) {
            proof {
                lemma_find_label_at(seqs_of(labels@), name@, i as int);
            }
            return Some(i);
        }
        i = i + 1;
    }
    proof {
        lemma_find_label_at(seqs_of(labels@), name@, labels@.len() as int);
    }
    None
}

/// The last occurrence of `b`, scanning from the end.
fn find_last(s: &[u8], b: u8) -> (r: Option<usize>)
    ensures
        match r {
            Some(j) => j < s@.len() && s@[j as int] == b && rfind_byte(s@, b) == j,
            None => rfind_byte(s@, b) == -1 && forall|k: int| 0 <= k < s@.len() ==> s@[k] != b,
        },
{
    let mut i = s.len();
    while i > 0
        invariant
            i <= s@.len(),
            forall|k: int| i <= k < s@.len() ==> s@[k] != b,
        decreases i,
    {
        i = i - 1;
        if s[i] == b {
            proof {
                lemma_rfind_byte_at(s@, b, i as int);
            }
            return Some(i);
        }
    }
    proof {
        lemma_rfind_byte_at(s@, b, -1);
    }
    None
}

/// Collect the declared labels, in declaration order.
fn collect_labels(lines: &Vec<Vec<u8>>) -> (labels: Vec<Vec<u8>>)
    ensures
        seqs_of(labels@) == spec_labels(seqs_of(lines@)),
{
    let ghost ls = seqs_of(lines@);
    let mut out: Vec<Vec<u8>> = Vec::new();
    let mut i: usize = 0;
    proof {
        assert(ls.subrange(0, ls.len() as int) =~= ls);
        assert(seqs_of(out@) + spec_labels(ls) =~= spec_labels(ls));
    }
    while i < lines.len()
        invariant
            i <= lines@.len(),
            seqs_of(lines@) == ls,
            spec_labels(ls) == seqs_of(out@) + spec_labels(ls.subrange(i as int, ls.len() as int)),
        decreases lines@.len() - i,
    {
        let ghost out0 = out@;
        let ghost suf = ls.subrange(i as int, ls.len() as int);
        proof {
            assert(suf[0] == ls[i as int]);
            assert(suf.subrange(1, suf.len() as int) =~= ls.subrange(i + 1, ls.len() as int));
        }
        let line = &lines[i];
        if line.len() > 0 && line[0] == 46 {
            let copy = copy_range(line.as_slice(), 0, line.len());
            proof {
                assert(line@.subrange(0, line@.len() as int) =~= line@);
            }
            out.push(copy);
            proof {
                assert(seqs_of(out@) =~= seqs_of(out0) + seq![line@]);
                assert(spec_labels(suf) == seq![ls[i as int]] + spec_labels(
                    ls.subrange(i + 1, ls.len() as int),
                ));
                assert(seqs_of(out0) + spec_labels(suf) =~= seqs_of(out@) + spec_labels(
                    ls.subrange(i + 1, ls.len() as int),
                ));
            }
        } else {
            proof {
                assert(spec_labels(suf) == spec_labels(ls.subrange(i + 1, ls.len() as int)));
            }
        }
        i = i + 1;
    }
    proof {
        assert(spec_labels(ls.subrange(i as int, ls.len() as int)) =~= Seq::<Seq<u8>>::empty());
        assert(seqs_of(out@) + Seq::<Seq<u8>>::empty() =~= seqs_of(out@));
    }
    out
}

/// Encode one line onto the code buffer, the relocation table and the
/// label-offset table, exactly as the specification-level encoder does.
#[verifier::rlimit(100)]
fn encode_line(
    line: &Vec<u8>,
    labels: &Vec<Vec<u8>>,
    code: &mut Vec<u8>,
    relocs: &mut Vec<(usize, usize)>,
    offs: &mut Vec<usize>,
) -> (r: Result<(), AsmError>)
    ensures
        ({
            let st0 = st_of(old(code)@, old(relocs)@, old(offs)@);
            let st1 = st_of(final(code)@, final(relocs)@, final(offs)@);
            match r {
                Ok(_) => spec_encode_line(line@, seqs_of(labels@), st0) == Ok::<
                    EncodeState,
                    AsmError,
                >(st1),
                Err(e) => spec_encode_line(line@, seqs_of(labels@), st0) == Err::<
                    EncodeState,
                    AsmError,
                >(e) && final(code)@ == old(code)@ && final(relocs)@ == old(relocs)@
                    && final(offs)@ == old(offs)@,
            }
        }),
        old(code)@.len() <= final(code)@.len(),
        wf_state(
            old(code)@,
            relocs_of(old(relocs)@),
            offs_of(old(offs)@),
            labels@.len() as int,
        ) ==> wf_state(
            final(code)@,
            relocs_of(final(relocs)@),
            offs_of(final(offs)@),
            labels@.len() as int,
        ),
        line@.len() > 0 && line@[0] == 46 ==> final(offs)@.len() == old(offs)@.len() + 1,
        !(line@.len() > 0 && line@[0] == 46) ==> final(offs)@ == old(offs)@,
{
    proof {
        reveal(spec_encode_line);
        reveal(spec_encode_mov);
        reveal(spec_encode_data);
        reveal(spec_encode_ds);
    }
    let ghost st0 = st_of(old(code)@, old(relocs)@, old(offs)@);
    let ghost nl = labels@.len() as int;
    if line.len() == 0 {
        return Ok(());
    }
    if line[0] == 46 {
        let pos = code.len();
        offs.push(pos);
        proof {
            assert(offs_of(offs@) =~= st0.offs.push(pos as int));
            assert(st_of(code@, relocs@, offs@) =~= EncodeState {
                offs: st0.offs.push(st0.code.len() as int),
                ..st0
            });
            if wf_state(st0.code, st0.relocs, st0.offs, nl) {
                lemma_wf_push_off(st0.code, code@, st0.relocs, st0.offs, nl, pos as int);
            }
        }
        return Ok(());
    }
    let toks = split_tokens(line.as_slice());
    proof {
        assert(seqs_of(toks@)[0] == toks@[0]@);
    }
    let o = match crate::parse::op(toks[0].as_slice()) {
        Ok(o) => o,
        Err(e) => {
            return Err(e);
        },
    };
    match o {
        Op::Mov => {
            if toks.len() < 3 {
                return Err(AsmError::Syntax);
            }
            proof {
                assert(seqs_of(toks@)[1] == toks@[1]@);
                assert(seqs_of(toks@)[2] == toks@[2]@);
            }
            let a0 = &toks[1];
            if a0.len() >= 2 && a0[1] == 40 {
                let _sz = match crate::parse::size(a0[0]) {
                    Ok(s) => s,
                    Err(e) => {
                        return Err(e);
                    },
                };
                let tail = copy_range(a0.as_slice(), 2, a0.len());
                match crate::parse::reg(tail.as_slice()) {
                    Ok(_) => {
                        return Err(AsmError::UnsupportedAddressingForm);
                    },
                    Err(e) => {
                        return Err(e);
                    },
                }
            }
            let dst = match crate::parse::reg(a0.as_slice()) {
                Ok(r) => r,
                Err(e) => {
                    return Err(e);
                },
            };
            proof {
                crate::x64::lemma_reg_code_split(dst);
            }
            let a1 = &toks[2];
            if a1.len() == 0 {
                return Err(AsmError::Syntax);
            }
            let c0 = a1[0];
            if 48 <= c0 && c0 <= 57 {
                let v = match crate::parse::imm(a1.as_slice()) {
                    Ok(v) => v,
                    Err(e) => {
                        return Err(e);
                    },
                };
                crate::bytes::db(code, crate::rex::W + crate::rex::reg(dst));
                crate::bytes::db(code, 0xb8 + crate::modrm::rm(dst));
                crate::bytes::dq(code, v);
                proof {
                    assert(code@ =~= st0.code + mov_imm_bytes(dst, v));
                    assert(st_of(code@, relocs@, offs@) =~= EncodeState {
                        code: st0.code + mov_imm_bytes(dst, v),
                        ..st0
                    });
                    if wf_state(st0.code, st0.relocs, st0.offs, nl) {
                        lemma_wf_extend(st0.code, code@, st0.relocs, st0.offs, nl);
                    }
                }
                Ok(())
            } else if c0 == 46 {
                let idx = match find_label(labels, a1) {
                    Some(i) => i,
                    None => {
                        return Err(AsmError::UndeclaredLabel);
                    },
                };
                crate::bytes::db(code, crate::rex::W + crate::rex::reg(dst));
                crate::bytes::db(code, 0x8d);
                crate::bytes::db(code, 5 + crate::modrm::reg(dst));
                let w = code.len();
                relocs.push((w, idx));
                crate::bytes::db(code, 0);
                crate::bytes::db(code, 0);
                crate::bytes::db(code, 0);
                crate::bytes::db(code, 0);
                proof {
                    assert(code@ =~= st0.code + lea_label_bytes(dst) + seq![0u8, 0, 0, 0]);
                    assert(relocs_of(relocs@) =~= st0.relocs.push((st0.code.len() + 3int, idx as int)));
                    assert(st_of(code@, relocs@, offs@) =~= EncodeState {
                        code: st0.code + lea_label_bytes(dst) + seq![0u8, 0, 0, 0],
                        relocs: st0.relocs.push((st0.code.len() + 3int, idx as int)),
                        offs: st0.offs,
                    });
                    if wf_state(st0.code, st0.relocs, st0.offs, nl) {
                        lemma_wf_push_reloc(
                            st0.code,
                            code@,
                            st0.relocs,
                            st0.offs,
                            nl,
                            st0.code.len() + 3int,
                            idx as int,
                        );
                    }
                }
                Ok(())
            } else {
                let src = match crate::parse::reg(a1.as_slice()) {
                    Ok(r) => r,
                    Err(e) => {
                        return Err(e);
                    },
                };
                proof {
                    crate::x64::lemma_reg_code_split(src);
                }
                crate::bytes::db(code, crate::rex::W + crate::rex::reg(dst) + crate::rex::rm(src));
                crate::bytes::db(code, 0x8b);
                crate::bytes::db(
                    code,
                    crate::modrm::MOD_REG + crate::modrm::reg(dst) + crate::modrm::rm(src),
                );
                proof {
                    assert(code@ =~= st0.code + mov_rr_bytes(dst, src));
                    assert(st_of(code@, relocs@, offs@) =~= EncodeState {
                        code: st0.code + mov_rr_bytes(dst, src),
                        ..st0
                    });
                    if wf_state(st0.code, st0.relocs, st0.offs, nl) {
                        lemma_wf_extend(st0.code, code@, st0.relocs, st0.offs, nl);
                    }
                }
                Ok(())
            }
        },
        Op::Syscall => {
            crate::bytes::db(code, 0x0f);
            crate::bytes::db(code, 0x05);
            proof {
                assert(code@ =~= st0.code + seq![15u8, 5u8]);
                assert(st_of(code@, relocs@, offs@) =~= EncodeState {
                    code: st0.code + seq![15u8, 5u8],
                    ..st0
                });
                if wf_state(st0.code, st0.relocs, st0.offs, nl) {
                    lemma_wf_extend(st0.code, code@, st0.relocs, st0.offs, nl);
                }
            }
            Ok(())
        },
        Op::Data(sz) => {
            if toks.len() < 2 {
                return Err(AsmError::Syntax);
            }
            proof {
                assert(seqs_of(toks@)[1] == toks@[1]@);
            }
            let v = match crate::parse::imm(toks[1].as_slice()) {
                Ok(v) => v,
                Err(e) => {
                    return Err(e);
                },
            };
            match sz {
                Size::Byte => crate::bytes::db(code, (v % 256) as u8),
                Size::Word => crate::bytes::dw(code, (v % 0x1_0000) as u16),
                Size::Long => crate::bytes::dd(code, (v % 0x1_0000_0000) as u32),
                Size::Quad => crate::bytes::dq(code, v),
            }
            proof {
                assert(code@ =~= st0.code + data_bytes(sz, v));
                assert(st_of(code@, relocs@, offs@) =~= EncodeState {
                    code: st0.code + data_bytes(sz, v),
                    ..st0
                });
                if wf_state(st0.code, st0.relocs, st0.offs, nl) {
                    lemma_wf_extend(st0.code, code@, st0.relocs, st0.offs, nl);
                }
            }
            Ok(())
        },
        Op::DataString => {
            let start = find_from(line.as_slice(), 0, 34);
            proof {
                lemma_find_byte_at(line@, 34, start as int);
            }
            if start == line.len() {
                return Err(AsmError::Syntax);
            }
            match find_last(line.as_slice(), 34) {
                None => {
                    proof {
                        assert(false);
                    }
                    Err(AsmError::Syntax)
                },
                Some(end) => {
                    if end == start {
                        return Err(AsmError::Syntax);
                    }
                    proof {
                        if end < start {
                            assert(line@[start as int] == 34);
                            assert(false);
                        }
                    }
                    let svec = copy_range(line.as_slice(), start + 1, end);
                    crate::bytes::ds(code, svec.as_slice());
                    proof {
                        assert(code@ =~= st0.code + line@.subrange(start + 1, end as int));
                        assert(st_of(code@, relocs@, offs@) =~= EncodeState {
                            code: st0.code + line@.subrange(start + 1, end as int),
                            ..st0
                        });
                        if wf_state(st0.code, st0.relocs, st0.offs, nl) {
                            lemma_wf_extend(st0.code, code@, st0.relocs, st0.offs, nl);
                        }
                    }
                    Ok(())
                },
            }
        },
    }
}

proof fn lemma_patch_step(cpre: Seq<u8>, code2: Seq<u8>, rr: Seq<(int, int)>, oo: Seq<int>, idx: int)
    requires
        0 <= idx < rr.len(),
        code2 == spec_store4(cpre, rr[idx].0, spec_disp(oo[rr[idx].1], rr[idx].0)),
    ensures
        spec_patch(cpre, rr, oo, idx) == spec_patch(code2, rr, oo, idx + 1),
{
}

proof fn lemma_store4_window(cpre: Seq<u8>, ofs: int, v: u32)
    requires
        0 <= ofs,
        ofs + 4 <= cpre.len(),
    ensures
        spec_store4(cpre, ofs, v).len() == cpre.len(),
        spec_store4(cpre, ofs, v).subrange(ofs, ofs + 4) == spec_le32(v),
        forall|x: int|
            0 <= x < cpre.len() && !(ofs <= x < ofs + 4) ==> spec_store4(cpre, ofs, v)[x]
                == cpre[x],
{
    assert(spec_store4(cpre, ofs, v).subrange(ofs, ofs + 4) =~= spec_le32(v));
}

proof fn lemma_sorted_chain(relocs: Seq<(int, int)>, k: int, j: int)
    requires
        forall|m: int|
            0 <= m < relocs.len() - 1 ==> (#[trigger] relocs[m]).0 + 4 <= relocs[m + 1].0,
        0 <= k < j < relocs.len(),
    ensures
        relocs[k].0 + 4 <= relocs[j].0,
    decreases j - k,
{
    if k + 1 < j {
        lemma_sorted_chain(relocs, k + 1, j);
    }
}

/// Overwrite the 4-byte window at `w` with the displacement that reaches
/// `lofs` from the end of the window.
fn store_disp(code: &mut Vec<u8>, w: usize, lofs: usize)
    requires
        w + 4 <= old(code)@.len(),
        old(code)@.len() <= MAX_CODE,
        lofs <= old(code)@.len(),
    ensures
        final(code)@ == spec_store4(old(code)@, w as int, spec_disp(lofs as int, w as int)),
        final(code)@.len() == old(code)@.len(),
{
    let next = w + 4;
    let m: u32 = if lofs >= next {
        (lofs - next) as u32
    } else {
        (0x1_0000_0000u64 - ((next - lofs) as u64)) as u32
    };
    proof {
        let d = lofs as int - (w as int + 4);
        if lofs >= next {
            assert(0 <= d < 0x1_0000_0000);
            assert(d % 0x1_0000_0000 == d);
        } else {
            assert(-0x1_0000_0000 < d < 0);
            assert(d % 0x1_0000_0000 == d + 0x1_0000_0000);
        }
        assert(m == spec_disp(lofs as int, w as int));
    }
    code[w] = (m % 256) as u8;
    code[w + 1] = ((m / 0x100) % 256) as u8;
    code[w + 2] = ((m / 0x1_0000) % 256) as u8;
    code[w + 3] = ((m / 0x100_0000) % 256) as u8;
    proof {
        assert(code@ =~= spec_store4(old(code)@, w as int, spec_disp(lofs as int, w as int)));
    }
}

/// Resolve every pending label reference in place: each 4-byte window
/// receives the displacement `label_offset - (window_offset + 4)`, the
/// distance from the end of the window to the label, as a little-endian
/// 32-bit two's complement value. Nothing else in the buffer changes.
#[verifier::rlimit(100)]
pub fn patch_relocs(code: &mut Vec<u8>, relocs: &Vec<(usize, usize)>, offs: &Vec<usize>)
    requires
        wf_state(old(code)@, relocs_of(relocs@), offs_of(offs@), offs@.len() as int),
        old(code)@.len() <= MAX_CODE,
    ensures
        final(code)@ == spec_patch(old(code)@, relocs_of(relocs@), offs_of(offs@), 0),
        final(code)@.len() == old(code)@.len(),
        forall|k: int|
            0 <= k < relocs@.len() ==> final(code)@.subrange(
                (#[trigger] relocs@[k]).0 as int,
                relocs@[k].0 + 4,
            ) == spec_le32(spec_disp(offs@[relocs@[k].1 as int] as int, relocs@[k].0 as int)),
{
    let ghost orig = old(code)@;
    let mut idx: usize = 0;
    while idx < relocs.len()
        invariant
            idx <= relocs@.len(),
            code@.len() == old(code)@.len(),
            old(code)@.len() <= MAX_CODE,
            wf_state(old(code)@, relocs_of(relocs@), offs_of(offs@), offs@.len() as int),
            spec_patch(old(code)@, relocs_of(relocs@), offs_of(offs@), 0) == spec_patch(
                code@,
                relocs_of(relocs@),
                offs_of(offs@),
                idx as int,
            ),
            forall|k: int|
                0 <= k < idx ==> code@.subrange(
                    (#[trigger] relocs@[k]).0 as int,
                    relocs@[k].0 + 4,
                ) == spec_le32(spec_disp(offs@[relocs@[k].1 as int] as int, relocs@[k].0 as int)),
        decreases relocs@.len() - idx,
    {
        let ghost rr = relocs_of(relocs@);
        let ghost oo = offs_of(offs@);
        let p = relocs[idx];
        let w = p.0;
        let li = p.1;
        proof {
            assert(rr[idx as int] == (w as int, li as int));
        }
        let lofs = offs[li];
        proof {
            assert(oo[li as int] == lofs as int);
        }
        let ghost cpre = code@;
        store_disp(code, w, lofs);
        proof {
            let m = spec_disp(lofs as int, w as int);
            lemma_store4_window(cpre, w as int, m);
            lemma_patch_step(cpre, code@, rr, oo, idx as int);
            assert forall|k: int|
                0 <= k < idx + 1 implies code@.subrange(
                (#[trigger] relocs@[k]).0 as int,
                relocs@[k].0 + 4,
            ) == spec_le32(spec_disp(offs@[relocs@[k].1 as int] as int, relocs@[k].0 as int)) by {
                assert(rr[k] == (relocs@[k].0 as int, relocs@[k].1 as int));
                if k < idx {
                    lemma_sorted_chain(rr, k, idx as int);
                    assert(code@.subrange(relocs@[k].0 as int, relocs@[k].0 + 4) =~= cpre.subrange(
                        relocs@[k].0 as int,
                        relocs@[k].0 + 4,
                    ));
                }
            }
        }
        idx = idx + 1;
    }
    proof {
        assert(spec_patch(code@, relocs_of(relocs@), offs_of(offs@), idx as int) == code@);
    }
}

/// Assemble a whole source text into its flat code buffer: collect the
/// declared labels, encode every line, then resolve every label
/// reference. Exactly the sources on which the specification-level
/// assembler succeeds are accepted, with its exact bytes; every failing
/// source is refused with its exact error.
#[verifier::rlimit(100)]
pub fn assemble(src: &[u8]) -> (r: Result<Vec<u8>, AsmError>)
    ensures
        res_of(r) == spec_assemble(src@),
        r matches Ok(v) ==> v@.len() <= MAX_CODE,
{
    let lines = split_lines(src);
    let labels = collect_labels(&lines);
    let ghost ls = seqs_of(lines@);
    let ghost bs = seqs_of(labels@);
    if labels.len() > MAX_LABELS {
        return Err(AsmError::TooManyLabels);
    }
    let mut code: Vec<u8> = Vec::new();
    let mut relocs: Vec<(usize, usize)> = Vec::new();
    let mut offs: Vec<usize> = Vec::new();
    let mut i: usize = 0;
    proof {
        assert(ls.subrange(0, ls.len() as int) =~= ls);
        assert(relocs_of(relocs@) =~= Seq::<(int, int)>::empty());
        assert(offs_of(offs@) =~= Seq::<int>::empty());
        assert(st_of(code@, relocs@, offs@) =~= state0());
    }
    while i < lines.len()
        invariant
            i <= lines@.len(),
            seqs_of(lines@) == ls,
            seqs_of(labels@) == bs,
            ls == spec_lines(src@),
            bs == spec_labels(ls),
            bs.len() <= MAX_LABELS,
            spec_encode(ls, bs, 0, state0()) == spec_encode(
                ls,
                bs,
                i as int,
                st_of(code@, relocs@, offs@),
            ),
            wf_state(code@, relocs_of(relocs@), offs_of(offs@), bs.len() as int),
            offs@.len() + spec_labels(ls.subrange(i as int, ls.len() as int)).len() == bs.len(),
        decreases lines@.len() - i,
    {
        let ghost stpre = st_of(code@, relocs@, offs@);
        let ghost suf = ls.subrange(i as int, ls.len() as int);
        proof {
            assert(seqs_of(lines@)[i as int] == lines@[i as int]@);
            assert(suf[0] == ls[i as int]);
            assert(suf.subrange(1, suf.len() as int) =~= ls.subrange(i + 1, ls.len() as int));
        }
        let line = &lines[i];
        match encode_line(line, &labels, &mut code, &mut relocs, &mut offs) {
            Err(e) => {
                proof {
                    assert(spec_encode(ls, bs, i as int, stpre) == Err::<EncodeState, AsmError>(e));
                    assert(spec_assemble(src@) == Err::<Seq<u8>, AsmError>(e));
                }
                return Err(e);
            },
            Ok(()) => {
                proof {
                    let stpost = st_of(code@, relocs@, offs@);
                    assert(spec_encode(ls, bs, i as int, stpre) == spec_encode(
                        ls,
                        bs,
                        i + 1,
                        stpost,
                    ));
                    if ls[i as int].len() > 0 && ls[i as int][0] == 46 {
                        assert(spec_labels(suf) == seq![ls[i as int]] + spec_labels(
                            ls.subrange(i + 1, ls.len() as int),
                        ));
                    } else {
                        assert(spec_labels(suf) == spec_labels(
                            ls.subrange(i + 1, ls.len() as int),
                        ));
                    }
                }
            },
        }
        i = i + 1;
    }
    proof {
        assert(ls.subrange(i as int, ls.len() as int).len() == 0);
        assert(spec_labels(ls.subrange(i as int, ls.len() as int)).len() == 0);
        assert(spec_encode(ls, bs, i as int, st_of(code@, relocs@, offs@)) == Ok::<
            EncodeState,
            AsmError,
        >(st_of(code@, relocs@, offs@)));
    }
    if code.len() > MAX_CODE {
        return Err(AsmError::CodeTooLarge);
    }
    let ghost stfin = st_of(code@, relocs@, offs@);
    patch_relocs(&mut code, &relocs, &offs);
    proof {
        assert(spec_assemble(src@) == Ok::<Seq<u8>, AsmError>(
            spec_patch(stfin.code, stfin.relocs, stfin.offs, 0),
        ));
    }
    Ok(code)
}

/// What building a whole source produces: the assembled code wrapped
/// into a complete ELF64 image.
pub open spec fn spec_build(src: Seq<u8>) -> Result<Seq<u8>, AsmError> {
    match spec_assemble(src) {
        Err(e) => Err(e),
        Ok(c) => Ok(crate::elf::spec_link(c)),
    }
}

/// Assemble a source text and wrap the code into a runnable ELF64 image.
/// On any failure nothing is produced: there is no partial image.
pub fn build(src: &[u8]) -> (r: Result<Vec<u8>, AsmError>)
    ensures
        res_of(r) == spec_build(src@),
{
    match assemble(src) {
        Err(e) => Err(e),
        Ok(c) => {
            let img = crate::elf::link(c.as_slice());
            Ok(img)
        },
    }
}

/// Assembling the same source twice produces byte-identical images: the
/// whole pipeline is a function of the source text alone.
pub proof fn lemma_build_deterministic(src: Seq<u8>, img1: Seq<u8>, img2: Seq<u8>)
    requires
        spec_build(src) == Ok::<Seq<u8>, AsmError>(img1),
        spec_build(src) == Ok::<Seq<u8>, AsmError>(img2),
    ensures
        img1 == img2,
{
}

} // verus!
