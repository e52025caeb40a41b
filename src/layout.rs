//! The sparse store file: a 32-byte little-endian header followed by the
//! `gene_ptr`, `cell_idx` and `values` arrays, at offsets fixed by the header.
use vstd::bytes::*;
use vstd::prelude::*;

use crate::bytes::{push_u32, push_u64, read_u32_at, read_u64_at, u32_at, u64_at, lemma_u32_round_trip, lemma_u64_round_trip};
use crate::error::StoreError;

verus! {

pub const VERSION: u32 = 1;

pub const LAYOUT_CSC: u32 = 1;

pub const HEADER_SIZE: usize = 32;

/// The eight magic bytes `KIRAEXPR`.
pub open spec fn store_magic() -> Seq<u8> {
    seq![0x4bu8, 0x49u8, 0x52u8, 0x41u8, 0x45u8, 0x58u8, 0x50u8, 0x52u8]
}

fn store_magic_bytes() -> (r: Vec<u8>)
    ensures
        r@ == store_magic(),
{
    let r = vec![0x4bu8, 0x49u8, 0x52u8, 0x41u8, 0x45u8, 0x58u8, 0x50u8, 0x52u8];
    assert(r@ =~= store_magic());
    r
}

#[derive(Debug, Clone, Copy, PartialEq, Eq, Structural)]
pub struct ExprHeaderV1 {
    pub version: u32,
    pub n_genes: u32,
    pub n_cells: u32,
    pub nnz: u64,
    pub layout: u32,
}

impl ExprHeaderV1 {
    /// A header this library can read back: the supported version and layout.
    pub open spec fn wf(&self) -> bool {
        self.version == VERSION && self.layout == LAYOUT_CSC
    }

    pub open spec fn spec_cell_idx_offset(&self) -> int {
        HEADER_SIZE + 8 * (self.n_genes + 1)
    }

    pub open spec fn spec_values_offset(&self) -> int {
        self.spec_cell_idx_offset() + 4 * self.nnz
    }

    /// Header, `n_genes + 1` u64 pointers, `nnz` u32 cell ids, `nnz` f32 values.
    pub open spec fn spec_expected_len(&self) -> int {
        self.spec_values_offset() + 4 * self.nnz
    }

    pub fn expected_len(&self) -> (r: u128)
        ensures
            r as int == self.spec_expected_len(),
    {
        32u128 + (self.n_genes as u128 + 1) * 8 + self.nnz as u128 * 4 + self.nnz as u128 * 4
    }

    pub fn gene_ptr_offset(&self) -> (r: usize)
        ensures
            r == HEADER_SIZE,
    {
        HEADER_SIZE
    }

    pub fn cell_idx_offset(&self) -> (r: u64)
        ensures
            r as int == self.spec_cell_idx_offset(),
    {
        32u64 + (self.n_genes as u64 + 1) * 8
    }

    pub fn values_offset(&self) -> (r: u128)
        ensures
            r as int == self.spec_values_offset(),
    {
        self.cell_idx_offset() as u128 + self.nnz as u128 * 4
    }
}

/// The 32 bytes that encode a header.
pub open spec fn header_bytes(h: ExprHeaderV1) -> Seq<u8> {
    store_magic() + spec_u32_to_le_bytes(h.version) + spec_u32_to_le_bytes(h.n_genes)
        + spec_u32_to_le_bytes(h.n_cells) + spec_u64_to_le_bytes(h.nnz) + spec_u32_to_le_bytes(
        h.layout,
    )
}

/// What reading a header from the start of `b` yields. Fields are checked in
/// file order, so a buffer that ends early fails at the first field it lacks.
pub open spec fn decode_header(b: Seq<u8>) -> Result<ExprHeaderV1, StoreError> {
    if b.len() < 8 {
        Err(StoreError::Truncated)
    } else if b.subrange(0, 8) != store_magic() {
        Err(StoreError::BadMagic)
    } else if b.len() < 12 {
        Err(StoreError::Truncated)
    } else if u32_at(b, 8) != VERSION {
        Err(StoreError::UnsupportedVersion(u32_at(b, 8)))
    } else if b.len() < 32 {
        Err(StoreError::Truncated)
    } else if u32_at(b, 28) != LAYOUT_CSC {
        Err(StoreError::UnsupportedLayout(u32_at(b, 28)))
    } else {
        Ok(
            ExprHeaderV1 {
                version: u32_at(b, 8),
                n_genes: u32_at(b, 12),
                n_cells: u32_at(b, 16),
                nnz: u64_at(b, 20),
                layout: u32_at(b, 28),
            },
        )
    }
}

pub fn write_header(header: &ExprHeaderV1) -> (r: Vec<u8>)
    ensures
        r@ == header_bytes(*header),
{
    let mut out = store_magic_bytes();
    push_u32(&mut out, header.version);
    push_u32(&mut out, header.n_genes);
    push_u32(&mut out, header.n_cells);
    push_u64(&mut out, header.nnz);
    push_u32(&mut out, header.layout);
    out
}

fn magic_matches(b: &[u8]) -> (r: bool)
    requires
        b@.len() >= 8,
    ensures
        r == (b@.subrange(0, 8) == store_magic()),
{
    let ok = b[0] == 0x4b && b[1] == 0x49 && b[2] == 0x52 && b[3] == 0x41 && b[4] == 0x45
        && b[5] == 0x58 && b[6] == 0x50 && b[7] == 0x52;
    if ok {
        assert(b@.subrange(0, 8) =~= store_magic());
    } else {
        let ghost m = store_magic();
        let ghost s = b@.subrange(0, 8);
        assert(m[0] == 0x4b && m[1] == 0x49 && m[2] == 0x52 && m[3] == 0x41 && m[4] == 0x45
            && m[5] == 0x58 && m[6] == 0x50 && m[7] == 0x52);
        assert(s[0] == b[0] && s[1] == b[1] && s[2] == b[2] && s[3] == b[3] && s[4] == b[4]
            && s[5] == b[5] && s[6] == b[6] && s[7] == b[7]);
    }
    ok
}

pub fn read_header(b: &[u8]) -> (r: Result<ExprHeaderV1, StoreError>)
    ensures
        r == decode_header(b@),
{
    if b.len() < 8 {
        return Err(StoreError::Truncated);
    }
    if !magic_matches(b) {
        return Err(StoreError::BadMagic);
    }
    if b.len() < 12 {
        return Err(StoreError::Truncated);
    }
    let version = read_u32_at(b, 8);
    if version != VERSION {
        return Err(StoreError::UnsupportedVersion(version));
    }
    if b.len() < 32 {
        return Err(StoreError::Truncated);
    }
    let n_genes = read_u32_at(b, 12);
    let n_cells = read_u32_at(b, 16);
    let nnz = read_u64_at(b, 20);
    let layout = read_u32_at(b, 28);
    if layout != LAYOUT_CSC {
        return Err(StoreError::UnsupportedLayout(layout));
    }
    Ok(ExprHeaderV1 { version, n_genes, n_cells, nnz, layout })
}

/// Encoding a header and reading it back gives the same header, and the
/// encoding is exactly `HEADER_SIZE` bytes long.
pub proof fn lemma_header_round_trip(h: ExprHeaderV1)
    requires
        h.wf(),
    ensures
        header_bytes(h).len() == HEADER_SIZE,
        decode_header(header_bytes(h)) == Ok::<ExprHeaderV1, StoreError>(h),
{
    lemma_header_round_trip_with_tail(h, Seq::empty());
    assert(header_bytes(h) + Seq::<u8>::empty() =~= header_bytes(h));
}

/// As above, for a header followed by any further bytes.
pub proof fn lemma_header_round_trip_with_tail(h: ExprHeaderV1, tail: Seq<u8>)
    requires
        h.wf(),
    ensures
        header_bytes(h).len() == HEADER_SIZE,
        decode_header(header_bytes(h) + tail) == Ok::<ExprHeaderV1, StoreError>(h),
{
    lemma_auto_spec_u32_to_from_le_bytes();
    lemma_auto_spec_u64_to_from_le_bytes();
    let m = store_magic();
    let v = spec_u32_to_le_bytes(h.version);
    let g = spec_u32_to_le_bytes(h.n_genes);
    let c = spec_u32_to_le_bytes(h.n_cells);
    let z = spec_u64_to_le_bytes(h.nnz);
    let l = spec_u32_to_le_bytes(h.layout);
    let b = header_bytes(h) + tail;
    assert(b =~= m + v + (g + c + z + l + tail));
    lemma_u32_round_trip(m, h.version, g + c + z + l + tail);
    assert(b =~= (m + v) + g + (c + z + l + tail));
    lemma_u32_round_trip(m + v, h.n_genes, c + z + l + tail);
    assert(b =~= (m + v + g) + c + (z + l + tail));
    lemma_u32_round_trip(m + v + g, h.n_cells, z + l + tail);
    assert(b =~= (m + v + g + c) + z + (l + tail));
    lemma_u64_round_trip(m + v + g + c, h.nnz, l + tail);
    assert(b =~= (m + v + g + c + z) + l + tail);
    lemma_u32_round_trip(m + v + g + c + z, h.layout, tail);
    assert(b.subrange(0, 8) =~= m);
}

} // verus!
