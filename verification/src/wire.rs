//! Shared byte-level helpers for the strategy wire formats: little-endian
//! 32-bit fields and small buffer utilities.

use vstd::prelude::*;

verus! {

/// The value of the four little-endian bytes at `pos`.
pub open spec fn le32_at(s: Seq<u8>, pos: int) -> int {
    s[pos] + 0x100 * s[pos + 1] + 0x10000 * s[pos + 2] + 0x1000000 * s[pos + 3]
}

/// The four little-endian bytes of a 32-bit value.
pub open spec fn le32_bytes(v: u32) -> Seq<u8> {
    seq![
        (v % 0x100) as u8,
        (v / 0x100 % 0x100) as u8,
        (v / 0x10000 % 0x100) as u8,
        (v / 0x1000000) as u8,
    ]
}

/// Reading back the four bytes written for `v` yields `v`.
pub proof fn lemma_le32_at_bytes(s: Seq<u8>, pos: int, v: u32)
    requires
        0 <= pos,
        pos + 4 <= s.len(),
        s.subrange(pos, pos + 4) == le32_bytes(v),
    ensures
        le32_at(s, pos) == v,
{
    assert(s[pos] == le32_bytes(v)[0]);
    assert(s[pos + 1] == le32_bytes(v)[1]);
    assert(s[pos + 2] == le32_bytes(v)[2]);
    assert(s[pos + 3] == le32_bytes(v)[3]);
    assert(v % 0x100 + 0x100 * (v / 0x100 % 0x100) + 0x10000 * (v / 0x10000 % 0x100)
        + 0x1000000 * (v / 0x1000000) == v) by (nonlinear_arith);
}

/// Read a little-endian `u32` at `pos`.
pub(crate) fn read_le32(data: &[u8], pos: usize) -> (r: u32)
    requires
        pos + 4 <= data@.len(),
    ensures
        r as int == le32_at(data@, pos as int),
{
    let b0 = data[pos] as u32;
    let b1 = data[pos + 1] as u32;
    let b2 = data[pos + 2] as u32;
    let b3 = data[pos + 3] as u32;
    b0 + b1 * 0x100 + b2 * 0x10000 + b3 * 0x1000000
}

/// Append the little-endian bytes of `v`.
pub(crate) fn push_le32(out: &mut Vec<u8>, v: u32)
    ensures
        final(out)@ == old(out)@ + le32_bytes(v),
{
    out.push((v % 0x100) as u8);
    out.push((v / 0x100 % 0x100) as u8);
    out.push((v / 0x10000 % 0x100) as u8);
    out.push((v / 0x1000000) as u8);
    proof {
        assert(out@ =~= old(out)@ + le32_bytes(v));
    }
}

/// Append all bytes of `src`.
pub(crate) fn append_bytes(out: &mut Vec<u8>, src: &Vec<u8>)
    ensures
        final(out)@ == old(out)@ + src@,
{
    let mut j: usize = 0;
    while j < src.len()
        invariant
            j <= src@.len(),
            out@ == old(out)@ + src@.take(j as int),
        decreases src@.len() - j,
    {
        out.push(src[j]);
        proof {
            assert(old(out)@ + src@.take(j as int + 1)
                =~= (old(out)@ + src@.take(j as int)).push(src@[j as int]));
        }
        j = j + 1;
    }
    proof {
        assert(src@.take(src@.len() as int) =~= src@);
    }
}

/// Byte-wise equality of two buffers.
pub(crate) fn bytes_eq(a: &Vec<u8>, b: &Vec<u8>) -> (r: bool)
    ensures
        r == (a@ == b@),
{
    if a.len() != b.len() {
        proof {
            assert(a@ != b@);
        }
        return false;
    }
    let mut j: usize = 0;
    while j < a.len()
        invariant
            a@.len() == b@.len(),
            j <= a@.len(),
            forall|t: int| 0 <= t < j ==> a@[t] == b@[t],
        decreases a@.len() - j,
    {
        if a[j] != b[j] {
            proof {
                assert(a@ != b@);
            }
            return false;
        }
        j = j + 1;
    }
    proof {
        assert(a@ =~= b@);
    }
    true
}

} // verus!
