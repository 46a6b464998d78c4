use vstd::prelude::*;

verus! {

/// The two little-endian bytes of a 16-bit value.
pub open spec fn spec_le16(v: u16) -> Seq<u8> {
    seq![(v % 256) as u8, ((v / 256) % 256) as u8]
}

/// The four little-endian bytes of a 32-bit value.
pub open spec fn spec_le32(v: u32) -> Seq<u8> {
    seq![
        (v % 256) as u8,
        ((v / 0x100) % 256) as u8,
        ((v / 0x1_0000) % 256) as u8,
        ((v / 0x100_0000) % 256) as u8,
    ]
}

/// The eight little-endian bytes of a 64-bit value.
pub open spec fn spec_le64(v: u64) -> Seq<u8> {
    seq![
        (v % 256) as u8,
        ((v / 0x100) % 256) as u8,
        ((v / 0x1_0000) % 256) as u8,
        ((v / 0x100_0000) % 256) as u8,
        ((v / 0x1_0000_0000) % 256) as u8,
        ((v / 0x100_0000_0000) % 256) as u8,
        ((v / 0x1_0000_0000_0000) % 256) as u8,
        ((v / 0x100_0000_0000_0000) % 256) as u8,
    ]
}

/// Append a slice of bytes to the buffer.
pub fn ds(f: &mut Vec<u8>, s: &[u8])
    ensures
        final(f)@ == old(f)@ + s@,
{
    let mut i: usize = 0;
    while i < s.len()
        invariant
            i <= s@.len(),
            f@ == old(f)@ + s@.subrange(0, i as int),
        decreases s@.len() - i,
    {
        f.push(s[i]);
        proof {
            assert(s@.subrange(0, i as int).push(s@[i as int]) =~= s@.subrange(0, i + 1));
        }
        i = i + 1;
    }
    proof {
        assert(s@.subrange(0, s@.len() as int) =~= s@);
    }
}

/// Append one byte to the buffer.
pub fn db(f: &mut Vec<u8>, v: u8)
    ensures
        final(f)@ == old(f)@ + seq![v],
{
    f.push(v);
    proof {
        assert(old(f)@.push(v) =~= old(f)@ + seq![v]);
    }
}

/// Append a 16-bit value to the buffer, little-endian.
pub fn dw(f: &mut Vec<u8>, v: u16)
    ensures
        final(f)@ == old(f)@ + spec_le16(v),
{
    f.push((v % 256) as u8);
    f.push(((v / 256) % 256) as u8);
    proof {
        assert(old(f)@.push((v % 256) as u8).push(((v / 256) % 256) as u8) =~= old(f)@
            + spec_le16(v));
    }
}

/// Append a 32-bit value to the buffer, little-endian.
pub fn dd(f: &mut Vec<u8>, v: u32)
    ensures
        final(f)@ == old(f)@ + spec_le32(v),
{
    f.push((v % 256) as u8);
    f.push(((v / 0x100) % 256) as u8);
    f.push(((v / 0x1_0000) % 256) as u8);
    f.push(((v / 0x100_0000) % 256) as u8);
    proof {
        assert(f@ =~= old(f)@ + spec_le32(v));
    }
}

/// Append a 64-bit value to the buffer, little-endian.
pub fn dq(f: &mut Vec<u8>, v: u64)
    ensures
        final(f)@ == old(f)@ + spec_le64(v),
{
    f.push((v % 256) as u8);
    f.push(((v / 0x100) % 256) as u8);
    f.push(((v / 0x1_0000) % 256) as u8);
    f.push(((v / 0x100_0000) % 256) as u8);
    f.push(((v / 0x1_0000_0000) % 256) as u8);
    f.push(((v / 0x100_0000_0000) % 256) as u8);
    f.push(((v / 0x1_0000_0000_0000) % 256) as u8);
    f.push(((v / 0x100_0000_0000_0000) % 256) as u8);
    proof {
        assert(f@ =~= old(f)@ + spec_le64(v));
    }
}

} // verus!
