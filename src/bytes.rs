//! Little-endian integer access on byte sequences.
use vstd::bytes::*;
use vstd::prelude::*;
use vstd::slice::slice_subrange;

verus! {

/// The `u16` stored little-endian at `off`.
pub open spec fn u16_at(b: Seq<u8>, off: int) -> u16 {
    spec_u16_from_le_bytes(b.subrange(off, off + 2))
}

/// The `u32` stored little-endian at `off`.
pub open spec fn u32_at(b: Seq<u8>, off: int) -> u32 {
    spec_u32_from_le_bytes(b.subrange(off, off + 4))
}

/// The `u64` stored little-endian at `off`.
pub open spec fn u64_at(b: Seq<u8>, off: int) -> u64 {
    spec_u64_from_le_bytes(b.subrange(off, off + 8))
}

pub fn read_u16_at(b: &[u8], off: usize) -> (r: u16)
    requires
        off + 2 <= b@.len(),
    ensures
        r == u16_at(b@, off as int),
{
    // The slice length is a usize, so the end offset below is one too.
    let _len = b.len();
    u16_from_le_bytes(slice_subrange(b, off, off + 2))
}

pub fn read_u32_at(b: &[u8], off: usize) -> (r: u32)
    requires
        off + 4 <= b@.len(),
    ensures
        r == u32_at(b@, off as int),
{
    // The slice length is a usize, so the end offset below is one too.
    let _len = b.len();
    u32_from_le_bytes(slice_subrange(b, off, off + 4))
}

pub fn read_u64_at(b: &[u8], off: usize) -> (r: u64)
    requires
        off + 8 <= b@.len(),
    ensures
        r == u64_at(b@, off as int),
{
    // The slice length is a usize, so the end offset below is one too.
    let _len = b.len();
    u64_from_le_bytes(slice_subrange(b, off, off + 8))
}

pub fn push_u16(out: &mut Vec<u8>, x: u16)
    ensures
        final(out)@ == old(out)@ + spec_u16_to_le_bytes(x),
{
    let mut bs = u16_to_le_bytes(x);
    out.append(&mut bs);
}

pub fn push_u32(out: &mut Vec<u8>, x: u32)
    ensures
        final(out)@ == old(out)@ + spec_u32_to_le_bytes(x),
{
    let mut bs = u32_to_le_bytes(x);
    out.append(&mut bs);
}

pub fn push_u64(out: &mut Vec<u8>, x: u64)
    ensures
        final(out)@ == old(out)@ + spec_u64_to_le_bytes(x),
{
    let mut bs = u64_to_le_bytes(x);
    out.append(&mut bs);
}

/// Encoding then reading back at the encoding's position gives the value.
pub proof fn lemma_u32_round_trip(pre: Seq<u8>, x: u32, post: Seq<u8>)
    ensures
        u32_at(pre + spec_u32_to_le_bytes(x) + post, pre.len() as int) == x,
{
    lemma_auto_spec_u32_to_from_le_bytes();
    let s = pre + spec_u32_to_le_bytes(x) + post;
    assert(s.subrange(pre.len() as int, pre.len() as int + 4) =~= spec_u32_to_le_bytes(x));
}

pub proof fn lemma_u64_round_trip(pre: Seq<u8>, x: u64, post: Seq<u8>)
    ensures
        u64_at(pre + spec_u64_to_le_bytes(x) + post, pre.len() as int) == x,
{
    lemma_auto_spec_u64_to_from_le_bytes();
    let s = pre + spec_u64_to_le_bytes(x) + post;
    assert(s.subrange(pre.len() as int, pre.len() as int + 8) =~= spec_u64_to_le_bytes(x));
}

} // verus!
