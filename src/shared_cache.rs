//! Ingestion of a shared cache: a 256-byte CRC-protected header, two string
//! tables and a cell-major CSC matrix of integer values. Every stage is a hard
//! gate; a cache is handed out only when all of them pass.
use vstd::prelude::*;
use vstd::slice::slice_subrange;
use vstd::utf8::{decode_utf8, encode_utf8_decode_utf8, encode_utf8_valid_utf8, valid_utf8};

use vstd::bytes::{spec_u16_to_le_bytes, spec_u32_to_le_bytes, spec_u64_to_le_bytes};
use vstd::utf8::encode_utf8;

use crate::bytes::{
    push_u16, push_u32, push_u64, read_u16_at, read_u32_at, read_u64_at, u16_at, u32_at, u64_at,
};
use crate::error::{CacheError, Section};
use crate::store::{
    is_non_decreasing, lemma_non_decreasing_pairs, non_decreasing, push_u32s, push_u64s,
    read_u32_array, read_u64_array, u32_array, u32s_bytes, u64_array, u64s_bytes,
};

verus! {

pub const CACHE_HEADER_SIZE: usize = 256;

/// Position of the header checksum, zeroed while the checksum is computed.
pub const HEADER_CRC_OFFSET: usize = 120;

pub const ENDIAN_TAG_LE: u32 = 0x1234_5678;

/// The CRC-64/ECMA-182 checksum of `data`.
pub uninterp spec fn crc64_ecma_182(data: Seq<u8>) -> u64;

/// Relies on `crc::Crc::<u64>::checksum` with the `CRC_64_ECMA_182`
/// parameters: the checksum depends on the bytes alone.
#[verifier::external_body]
fn crc64(data: &[u8]) -> (r: u64)
    ensures
        r == crc64_ecma_182(data@),
{
    crc::Crc::<u64>::new(&crc::CRC_64_ECMA_182).checksum(data)
}

/// Relies on `std::str::from_utf8`: it accepts exactly the valid UTF-8
/// sequences and decodes them.
#[verifier::external_body]
fn utf8_string(b: &[u8]) -> (r: Option<String>)
    ensures
        r is Some <==> valid_utf8(b@),
        r matches Some(s) ==> s@ == decode_utf8(b@),
{
    std::str::from_utf8(b).ok().map(|s| s.to_string())
}

/// The four magic bytes `KORG`.
pub open spec fn cache_magic() -> Seq<u8> {
    seq![0x4bu8, 0x4fu8, 0x52u8, 0x47u8]
}

#[derive(Debug, Clone, Copy, PartialEq, Eq, Structural)]
pub struct SharedCacheHeaderV1 {
    pub version_major: u16,
    pub version_minor: u16,
    pub n_genes: u64,
    pub n_cells: u64,
    pub nnz: u64,
    pub genes_table_offset: u64,
    pub genes_table_bytes: u64,
    pub barcodes_table_offset: u64,
    pub barcodes_table_bytes: u64,
    pub col_ptr_offset: u64,
    pub row_idx_offset: u64,
    pub values_u32_offset: u64,
    pub n_blocks: u64,
    pub blocks_offset: u64,
    pub file_bytes: u64,
    pub header_crc64: u64,
    pub data_crc64: u64,
}

/// The header fields at their fixed offsets.
pub open spec fn header_fields(b: Seq<u8>) -> SharedCacheHeaderV1 {
    SharedCacheHeaderV1 {
        version_major: u16_at(b, 4),
        version_minor: u16_at(b, 6),
        n_genes: u64_at(b, 16),
        n_cells: u64_at(b, 24),
        nnz: u64_at(b, 32),
        genes_table_offset: u64_at(b, 40),
        genes_table_bytes: u64_at(b, 48),
        barcodes_table_offset: u64_at(b, 56),
        barcodes_table_bytes: u64_at(b, 64),
        col_ptr_offset: u64_at(b, 72),
        row_idx_offset: u64_at(b, 80),
        values_u32_offset: u64_at(b, 88),
        n_blocks: u64_at(b, 96),
        blocks_offset: u64_at(b, 104),
        file_bytes: u64_at(b, 112),
        header_crc64: u64_at(b, 120),
        data_crc64: u64_at(b, 128),
    }
}

/// The structural checks of a header, in order: magic, major version, minor
/// version, endianness tag, declared header size.
pub open spec fn decode_cache_header(b: Seq<u8>) -> Result<SharedCacheHeaderV1, CacheError> {
    if b.subrange(0, 4) != cache_magic() {
        Err(CacheError::BadMagic)
    } else if u16_at(b, 4) != 1 {
        Err(CacheError::UnsupportedMajor(u16_at(b, 4)))
    } else if u16_at(b, 6) != 0 {
        Err(CacheError::UnsupportedMinor(u16_at(b, 6)))
    } else if u32_at(b, 8) != ENDIAN_TAG_LE {
        Err(CacheError::BadEndianTag(u32_at(b, 8)))
    } else if u32_at(b, 12) != CACHE_HEADER_SIZE {
        Err(CacheError::BadHeaderSize(u32_at(b, 12)))
    } else {
        Ok(header_fields(b))
    }
}

/// The header bytes with the checksum field zeroed.
pub open spec fn crc_input(b: Seq<u8>) -> Seq<u8> {
    b.subrange(0, 120) + Seq::new(8, |i: int| 0u8) + b.subrange(128, 256)
}

/// A region `[off, off + len)` that ends past `file_len`.
pub open spec fn out_of_bounds(file_len: int, off: int, len: int) -> bool {
    off + len > file_len
}

/// The file length, unsupported features and region checks, in order.
pub open spec fn bounds_error(file_len: int, h: SharedCacheHeaderV1) -> Option<CacheError> {
    if h.file_bytes != file_len {
        Some(CacheError::FileBytesMismatch { declared: h.file_bytes, actual: file_len as usize })
    } else if h.n_blocks != 0 || h.blocks_offset != 0 || h.data_crc64 != 0 {
        Some(CacheError::UnsupportedBlocks)
    } else if out_of_bounds(file_len, h.genes_table_offset as int, h.genes_table_bytes as int) {
        Some(CacheError::OutOfBounds(Section::GenesTable))
    } else if out_of_bounds(
        file_len,
        h.barcodes_table_offset as int,
        h.barcodes_table_bytes as int,
    ) {
        Some(CacheError::OutOfBounds(Section::BarcodesTable))
    } else if out_of_bounds(file_len, h.col_ptr_offset as int, (h.n_cells + 1) * 8) {
        Some(CacheError::OutOfBounds(Section::ColPtr))
    } else if out_of_bounds(file_len, h.row_idx_offset as int, h.nnz * 4) {
        Some(CacheError::OutOfBounds(Section::RowIdx))
    } else if out_of_bounds(file_len, h.values_u32_offset as int, h.nnz * 4) {
        Some(CacheError::OutOfBounds(Section::ValuesU32))
    } else {
        None
    }
}

fn magic_ok(b: &[u8]) -> (r: bool)
    requires
        b@.len() >= 4,
    ensures
        r == (b@.subrange(0, 4) == cache_magic()),
{
    let ok = b[0] == 0x4b && b[1] == 0x4f && b[2] == 0x52 && b[3] == 0x47;
    let ghost m = cache_magic();
    let ghost s = b@.subrange(0, 4);
    assert(m[0] == 0x4b && m[1] == 0x4f && m[2] == 0x52 && m[3] == 0x47);
    assert(s[0] == b[0] && s[1] == b[1] && s[2] == b[2] && s[3] == b[3]);
    if ok {
        assert(s =~= m);
    }
    ok
}

/// Decodes the fixed header fields and runs the structural checks.
pub fn parse_header(b: &[u8]) -> (r: Result<SharedCacheHeaderV1, CacheError>)
    requires
        b@.len() >= CACHE_HEADER_SIZE,
    ensures
        r == decode_cache_header(b@),
{
    if !magic_ok(b) {
        return Err(CacheError::BadMagic);
    }
    let version_major = read_u16_at(b, 4);
    let version_minor = read_u16_at(b, 6);
    let endian_tag = read_u32_at(b, 8);
    let header_size = read_u32_at(b, 12);
    if version_major != 1 {
        return Err(CacheError::UnsupportedMajor(version_major));
    }
    if version_minor != 0 {
        return Err(CacheError::UnsupportedMinor(version_minor));
    }
    if endian_tag != ENDIAN_TAG_LE {
        return Err(CacheError::BadEndianTag(endian_tag));
    }
    if header_size as usize != CACHE_HEADER_SIZE {
        return Err(CacheError::BadHeaderSize(header_size));
    }
    Ok(
        SharedCacheHeaderV1 {
            version_major,
            version_minor,
            n_genes: read_u64_at(b, 16),
            n_cells: read_u64_at(b, 24),
            nnz: read_u64_at(b, 32),
            genes_table_offset: read_u64_at(b, 40),
            genes_table_bytes: read_u64_at(b, 48),
            barcodes_table_offset: read_u64_at(b, 56),
            barcodes_table_bytes: read_u64_at(b, 64),
            col_ptr_offset: read_u64_at(b, 72),
            row_idx_offset: read_u64_at(b, 80),
            values_u32_offset: read_u64_at(b, 88),
            n_blocks: read_u64_at(b, 96),
            blocks_offset: read_u64_at(b, 104),
            file_bytes: read_u64_at(b, 112),
            header_crc64: read_u64_at(b, 120),
            data_crc64: read_u64_at(b, 128),
        },
    )
}

/// Hashes the header with its checksum field zeroed and compares the result
/// with the stored checksum.
pub fn validate_crc(b: &[u8], header: &SharedCacheHeaderV1) -> (r: Result<(), CacheError>)
    requires
        b@.len() >= CACHE_HEADER_SIZE,
    ensures
        crc64_ecma_182(crc_input(b@)) == header.header_crc64 ==> r is Ok,
        crc64_ecma_182(crc_input(b@)) != header.header_crc64 ==> r == Err::<(), CacheError>(
            CacheError::CrcMismatch {
                expected: header.header_crc64,
                computed: crc64_ecma_182(crc_input(b@)),
            },
        ),
{
    let mut tmp: Vec<u8> = Vec::with_capacity(CACHE_HEADER_SIZE);
    let mut i: usize = 0;
    while i < CACHE_HEADER_SIZE
        invariant
            i <= CACHE_HEADER_SIZE,
            b@.len() >= CACHE_HEADER_SIZE,
            tmp@.len() == i,
            forall|j: int|
                0 <= j < i ==> #[trigger] tmp@[j] == if HEADER_CRC_OFFSET <= j < HEADER_CRC_OFFSET
                    + 8 {
                    0u8
                } else {
                    b@[j]
                },
        decreases CACHE_HEADER_SIZE - i,
    {
        if HEADER_CRC_OFFSET <= i && i < HEADER_CRC_OFFSET + 8 {
            tmp.push(0u8);
        } else {
            tmp.push(b[i]);
        }
        i += 1;
    }
    assert(tmp@ =~= crc_input(b@));
    let computed = crc64(tmp.as_slice());
    if computed != header.header_crc64 {
        return Err(CacheError::CrcMismatch { expected: header.header_crc64, computed });
    }
    Ok(())
}

fn region_out(file_len: usize, off: u64, len: u128) -> (r: bool)
    requires
        len <= 0x1_0000_0000_0000_0000_0000u128,
    ensures
        r == out_of_bounds(file_len as int, off as int, len as int),
{
    off as u128 + len > file_len as u128
}

/// Checks the declared file length, rejects optional blocks, and checks that
/// every declared region lies inside the file.
pub fn validate_section_bounds(file_len: usize, header: &SharedCacheHeaderV1) -> (r: Option<
    CacheError,
>)
    ensures
        r == bounds_error(file_len as int, *header),
{
    if header.file_bytes as u128 != file_len as u128 {
        return Some(CacheError::FileBytesMismatch { declared: header.file_bytes, actual: file_len });
    }
    if header.n_blocks != 0 || header.blocks_offset != 0 || header.data_crc64 != 0 {
        return Some(CacheError::UnsupportedBlocks);
    }
    if region_out(file_len, header.genes_table_offset, header.genes_table_bytes as u128) {
        return Some(CacheError::OutOfBounds(Section::GenesTable));
    }
    if region_out(file_len, header.barcodes_table_offset, header.barcodes_table_bytes as u128) {
        return Some(CacheError::OutOfBounds(Section::BarcodesTable));
    }
    if region_out(file_len, header.col_ptr_offset, (header.n_cells as u128 + 1) * 8) {
        return Some(CacheError::OutOfBounds(Section::ColPtr));
    }
    if region_out(file_len, header.row_idx_offset, header.nnz as u128 * 4) {
        return Some(CacheError::OutOfBounds(Section::RowIdx));
    }
    if region_out(file_len, header.values_u32_offset, header.nnz as u128 * 4) {
        return Some(CacheError::OutOfBounds(Section::ValuesU32));
    }
    None
}

/// Number of strings a table declares.
pub open spec fn table_count(t: Seq<u8>) -> u32 {
    u32_at(t, 0)
}

/// Where the string bytes of a table begin.
pub open spec fn table_blob_offset(t: Seq<u8>) -> int {
    4 + 4 * (table_count(t) + 1)
}

/// The `count + 1` blob offsets of a table.
pub open spec fn table_offsets(t: Seq<u8>) -> Seq<u64> {
    Seq::new((table_count(t) + 1) as nat, |i: int| u32_at(t, 4 + 4 * i) as u64)
}

/// The bytes of string `i` of a table.
pub open spec fn table_entry(t: Seq<u8>, i: int) -> Seq<u8> {
    t.subrange(
        table_blob_offset(t) + table_offsets(t)[i],
        table_blob_offset(t) + table_offsets(t)[i + 1],
    )
}

/// Why the bytes `t` are not a string table of `expected` strings.
pub open spec fn table_error(t: Seq<u8>, expected: u64, section: Section) -> Option<CacheError> {
    if t.len() < 8 {
        Some(CacheError::TableTooSmall(section))
    } else if table_count(t) as u64 != expected {
        Some(
            CacheError::TableCountMismatch { section, expected, found: table_count(t) },
        )
    } else if t.len() < table_blob_offset(t) {
        Some(CacheError::TableOffsetsTruncated(section))
    } else if !non_decreasing(table_offsets(t)) {
        Some(CacheError::TableOffsetsNotMonotonic(section))
    } else if table_offsets(t)[table_count(t) as int] != t.len() - table_blob_offset(t) {
        Some(CacheError::TableTerminalMismatch(section))
    } else if exists|i: int| 0 <= i < table_count(t) && !valid_utf8(#[trigger] table_entry(t, i)) {
        Some(CacheError::InvalidUtf8(section))
    } else {
        None
    }
}

/// The strings of a well-formed table.
pub open spec fn table_strings(t: Seq<u8>) -> Seq<Seq<char>> {
    Seq::new(table_count(t) as nat, |i: int| decode_utf8(table_entry(t, i)))
}

/// Decodes a string table `{count: u32, offsets: [u32; count + 1], blob}`.
#[verifier::spinoff_prover]
#[verifier::rlimit(60)]
pub fn parse_string_table(t: &[u8], expected: u64, section: Section) -> (r: Result<
    Vec<String>,
    CacheError,
>)
    ensures
        match r {
            Ok(v) => {
                &&& table_error(t@, expected, section) is None
                &&& v@.len() == table_strings(t@).len()
                &&& forall|i: int| 0 <= i < v@.len() ==> #[trigger] v@[i]@ == table_strings(t@)[i]
            },
            Err(e) => table_error(t@, expected, section) == Some(e),
        },
{
    if t.len() < 8 {
        return Err(CacheError::TableTooSmall(section));
    }
    let count = read_u32_at(t, 0);
    if count as u64 != expected {
        return Err(CacheError::TableCountMismatch { section, expected, found: count });
    }
    let tlen = t.len();
    if (tlen as u128) < 4 + 4 * (count as u128 + 1) {
        return Err(CacheError::TableOffsetsTruncated(section));
    }
    let n_off = count as usize + 1;
    let blob = 4 + 4 * n_off;
    let mut offsets: Vec<u64> = Vec::with_capacity(n_off);
    let mut i: usize = 0;
    while i < n_off
        invariant
            i <= n_off,
            n_off == table_count(t@) + 1,
            tlen == t@.len(),
            4 + 4 * n_off <= t@.len(),
            offsets@ =~= table_offsets(t@).subrange(0, i as int),
        decreases n_off - i,
    {
        offsets.push(read_u32_at(t, 4 + 4 * i) as u64);
        i += 1;
    }
    assert(offsets@ =~= table_offsets(t@));
    if !is_non_decreasing(&offsets) {
        return Err(CacheError::TableOffsetsNotMonotonic(section));
    }
    let blob_len = t.len() - blob;
    if offsets[count as usize] != blob_len as u64 {
        return Err(CacheError::TableTerminalMismatch(section));
    }
    proof {
        lemma_non_decreasing_pairs(offsets@);
    }
    let mut out: Vec<String> = Vec::with_capacity(count as usize);
    let mut i: usize = 0;
    while i < count as usize
        invariant
            i <= count,
            count == table_count(t@),
            count as u64 == expected,
            t@.len() >= 8,
            non_decreasing(offsets@),
            tlen == t@.len(),
            blob == table_blob_offset(t@),
            offsets@ == table_offsets(t@),
            offsets@.len() == count + 1,
            blob + offsets@[count as int] == t@.len(),
            forall|x: int, y: int| 0 <= x <= y < offsets@.len() ==> offsets@[x] <= offsets@[y],
            out@.len() == i,
            forall|j: int| 0 <= j < i ==> #[trigger] out@[j]@ == decode_utf8(table_entry(t@, j)),
            forall|j: int| 0 <= j < i ==> valid_utf8(#[trigger] table_entry(t@, j)),
        decreases count - i,
    {
        let start = blob + offsets[i] as usize;
        let end = blob + offsets[i + 1] as usize;
        let entry = slice_subrange(t, start, end);
        assert(entry@ == table_entry(t@, i as int));
        match utf8_string(entry) {
            Some(s) => out.push(s),
            None => {
                assert(!valid_utf8(table_entry(t@, i as int)));
                return Err(CacheError::InvalidUtf8(section));
            },
        }
        i += 1;
    }
    Ok(out)
}

/// Column entries are strictly increasing within each column.
pub open spec fn cols_strict(cp: Seq<u64>, row: Seq<u32>) -> bool {
    forall|c: int, k: int|
        #![trigger cp[c], row[k]]
        0 <= c < cp.len() - 1 && cp[c] <= k && k + 1 < cp[c + 1] ==> row[k] < row[k + 1]
}

/// The structural checks of the CSC arrays, in order.
#[verifier::opaque]
pub open spec fn csc_error(n_genes: u64, nnz: u64, cp: Seq<u64>, row: Seq<u32>) -> Option<
    CacheError,
> {
    if cp[0] != 0 {
        Some(CacheError::ColPtrStart)
    } else if !non_decreasing(cp) {
        Some(CacheError::ColPtrNotMonotonic)
    } else if cp[cp.len() - 1] != nnz {
        Some(CacheError::ColPtrEnd)
    } else if !(forall|k: int| 0 <= k < row.len() ==> #[trigger] row[k] < n_genes) {
        Some(CacheError::RowIdxOutOfBounds)
    } else if !cols_strict(cp, row) {
        Some(CacheError::RowIdxNotIncreasing)
    } else {
        None
    }
}

fn rows_below(row: &Vec<u32>, n_genes: u64) -> (r: bool)
    ensures
        r == (forall|k: int| 0 <= k < row@.len() ==> #[trigger] row@[k] < n_genes),
{
    let mut k: usize = 0;
    while k < row.len()
        invariant
            forall|j: int| 0 <= j < k && j < row@.len() ==> #[trigger] row@[j] < n_genes,
        decreases row.len() - k,
    {
        if row[k] as u64 >= n_genes {
            return false;
        }
        k += 1;
    }
    true
}

fn are_cols_strict(cp: &Vec<u64>, row: &Vec<u32>) -> (r: bool)
    requires
        cp@.len() >= 1,
        non_decreasing(cp@),
        cp@[cp@.len() - 1] == row@.len(),
    ensures
        r == cols_strict(cp@, row@),
{
    proof {
        lemma_non_decreasing_pairs(cp@);
    }
    let n = cp.len() - 1;
    let row_len = row.len();
    let mut c: usize = 0;
    while c < n
        invariant
            n == cp@.len() - 1,
            row_len == row@.len(),
            c <= n,
            forall|i: int, j: int| 0 <= i <= j < cp@.len() ==> cp@[i] <= cp@[j],
            cp@[cp@.len() - 1] == row@.len(),
            forall|h: int, k: int|
                #![trigger cp@[h], row@[k]]
                0 <= h < c && cp@[h] <= k && k + 1 < cp@[h + 1] ==> row@[k] < row@[k + 1],
        decreases n - c,
    {
        let start = cp[c] as usize;
        let end = cp[c + 1] as usize;
        let mut k: usize = start;
        while k < end
            invariant
                c < n,
                n == cp@.len() - 1,
                start == cp@[c as int],
                end == cp@[c + 1],
                end <= row@.len(),
                start <= k,
                forall|j: int| start <= j < k && j + 1 < end ==> #[trigger] row@[j] < row@[j + 1],
            decreases end - k,
        {
            if k + 1 < end && row[k] >= row[k + 1] {
                assert(!cols_strict(cp@, row@)) by {
                    assert(cp@[c as int] <= k && k + 1 < cp@[c + 1]);
                    assert(row@[k as int] >= row@[k + 1]);
                }
                return false;
            }
            k += 1;
        }
        assert forall|h: int, k2: int|
            #![trigger cp@[h], row@[k2]]
            0 <= h < c + 1 && cp@[h] <= k2 && k2 + 1 < cp@[h + 1] implies row@[k2] < row@[k2
                + 1] by {
            if h == c {
                assert(start <= k2 && k2 + 1 < end);
            }
        }
        c += 1;
    }
    true
}

/// Checks `col_ptr` (starts at 0, non-decreasing, ends at `nnz`), then the
/// row indices (each below `n_genes`, strictly increasing in each column).
pub fn validate_csc(n_genes: u64, nnz: u64, cp: &Vec<u64>, row: &Vec<u32>) -> (r: Option<
    CacheError,
>)
    requires
        cp@.len() >= 1,
        row@.len() == nnz,
    ensures
        r == csc_error(n_genes, nnz, cp@, row@),
{
    reveal(csc_error);
    if cp[0] != 0 {
        return Some(CacheError::ColPtrStart);
    }
    if !is_non_decreasing(cp) {
        return Some(CacheError::ColPtrNotMonotonic);
    }
    if cp[cp.len() - 1] != nnz {
        return Some(CacheError::ColPtrEnd);
    }
    if !rows_below(row, n_genes) {
        return Some(CacheError::RowIdxOutOfBounds);
    }
    if !are_cols_strict(cp, row) {
        return Some(CacheError::RowIdxNotIncreasing);
    }
    None
}

/// The genes string table of a file.
pub open spec fn genes_table(b: Seq<u8>, h: SharedCacheHeaderV1) -> Seq<u8> {
    b.subrange(h.genes_table_offset as int, h.genes_table_offset + h.genes_table_bytes)
}

/// The barcodes string table of a file.
pub open spec fn barcodes_table(b: Seq<u8>, h: SharedCacheHeaderV1) -> Seq<u8> {
    b.subrange(h.barcodes_table_offset as int, h.barcodes_table_offset + h.barcodes_table_bytes)
}

pub open spec fn col_ptr_of(b: Seq<u8>, h: SharedCacheHeaderV1) -> Seq<u64> {
    u64_array(b, h.col_ptr_offset as int, h.n_cells + 1)
}

pub open spec fn row_idx_of(b: Seq<u8>, h: SharedCacheHeaderV1) -> Seq<u32> {
    u32_array(b, h.row_idx_offset as int, h.nnz as int)
}

pub open spec fn values_of(b: Seq<u8>, h: SharedCacheHeaderV1) -> Seq<u32> {
    u32_array(b, h.values_u32_offset as int, h.nnz as int)
}

/// The stages after the header checks, in order: checksum, bounds, the two
/// string tables, the CSC arrays.
pub open spec fn body_error(b: Seq<u8>, h: SharedCacheHeaderV1) -> Option<CacheError> {
    if crc64_ecma_182(crc_input(b)) != h.header_crc64 {
        Some(
            CacheError::CrcMismatch {
                expected: h.header_crc64,
                computed: crc64_ecma_182(crc_input(b)),
            },
        )
    } else if bounds_error(b.len() as int, h) is Some {
        bounds_error(b.len() as int, h)
    } else if table_error(genes_table(b, h), h.n_genes, Section::GenesTable) is Some {
        table_error(genes_table(b, h), h.n_genes, Section::GenesTable)
    } else if table_error(barcodes_table(b, h), h.n_cells, Section::BarcodesTable) is Some {
        table_error(barcodes_table(b, h), h.n_cells, Section::BarcodesTable)
    } else {
        csc_error(h.n_genes, h.nnz, col_ptr_of(b, h), row_idx_of(b, h))
    }
}

/// Why the bytes `b` are not an acceptable shared cache, or `None`.
pub open spec fn cache_error(b: Seq<u8>) -> Option<CacheError> {
    if b.len() < CACHE_HEADER_SIZE {
        Some(CacheError::TooSmall)
    } else {
        match decode_cache_header(b) {
            Err(e) => Some(e),
            Ok(h) => body_error(b, h),
        }
    }
}

/// A validated shared cache: names of genes and cells, and the cell-major
/// CSC arrays (`cols` of length `n_cells + 1`; `rows`, `values` of `nnz`).
pub struct SharedCache {
    pub header: SharedCacheHeaderV1,
    pub genes: Vec<String>,
    pub barcodes: Vec<String>,
    pub cols: Vec<u64>,
    pub rows: Vec<u32>,
    pub values: Vec<u32>,
}

impl SharedCache {
    /// The arrays have the declared lengths and pass the CSC checks.
    pub open spec fn wf(&self) -> bool {
        &&& self.cols@.len() == self.header.n_cells + 1
        &&& self.rows@.len() == self.header.nnz
        &&& self.values@.len() == self.header.nnz
        &&& csc_error(self.header.n_genes, self.header.nnz, self.cols@, self.rows@) is None
    }

    /// Runs every stage on the bytes of a cache file and keeps the result
    /// only when all of them pass.
    pub fn open(b: &[u8]) -> (r: Result<SharedCache, CacheError>)
        ensures
            match r {
                Ok(c) => {
                    &&& cache_error(b@) is None
                    &&& c.wf()
                    &&& decode_cache_header(b@) == Ok::<SharedCacheHeaderV1, CacheError>(c.header)
                    &&& c.genes@.len() == c.header.n_genes
                    &&& forall|i: int|
                        0 <= i < c.genes@.len() ==> #[trigger] c.genes@[i]@ == table_strings(
                            genes_table(b@, c.header),
                        )[i]
                    &&& c.barcodes@.len() == c.header.n_cells
                    &&& forall|i: int|
                        0 <= i < c.barcodes@.len() ==> #[trigger] c.barcodes@[i]@ == table_strings(
                            barcodes_table(b@, c.header),
                        )[i]
                    &&& c.cols@ == col_ptr_of(b@, c.header)
                    &&& c.rows@ == row_idx_of(b@, c.header)
                    &&& c.values@ == values_of(b@, c.header)
                },
                Err(e) => cache_error(b@) == Some(e),
            },
    {
        if b.len() < CACHE_HEADER_SIZE {
            return Err(CacheError::TooSmall);
        }
        let header = match parse_header(b) {
            Ok(h) => h,
            Err(e) => return Err(e),
        };
        match validate_crc(b, &header) {
            Ok(()) => {},
            Err(e) => return Err(e),
        }
        match validate_section_bounds(b.len(), &header) {
            Some(e) => return Err(e),
            None => {},
        }
        let g_off = header.genes_table_offset as usize;
        let g_end = g_off + header.genes_table_bytes as usize;
        let genes = match parse_string_table(
            slice_subrange(b, g_off, g_end),
            header.n_genes,
            Section::GenesTable,
        ) {
            Ok(v) => v,
            Err(e) => return Err(e),
        };
        let c_off = header.barcodes_table_offset as usize;
        let c_end = c_off + header.barcodes_table_bytes as usize;
        let barcodes = match parse_string_table(
            slice_subrange(b, c_off, c_end),
            header.n_cells,
            Section::BarcodesTable,
        ) {
            Ok(v) => v,
            Err(e) => return Err(e),
        };
        let cols = read_u64_array(b, header.col_ptr_offset as usize, header.n_cells as usize + 1);
        let rows = read_u32_array(b, header.row_idx_offset as usize, header.nnz as usize);
        let values = read_u32_array(b, header.values_u32_offset as usize, header.nnz as usize);
        match validate_csc(header.n_genes, header.nnz, &cols, &rows) {
            Some(e) => return Err(e),
            None => {},
        }
        Ok(SharedCache { header, genes, barcodes, cols, rows, values })
    }

    /// What validity states of the arrays, spelled out.
    pub proof fn lemma_wf_facts(&self)
        requires
            self.wf(),
        ensures
            self.cols@[0] == 0,
            non_decreasing(self.cols@),
            self.cols@[self.header.n_cells as int] == self.header.nnz,
            forall|k: int| 0 <= k < self.rows@.len() ==> #[trigger] self.rows@[k] < self.header.n_genes,
            cols_strict(self.cols@, self.rows@),
    {
        reveal(csc_error);
    }

    /// A copy of the column pointers.
    pub fn col_ptr(&self) -> (r: Result<Vec<u64>, CacheError>)
        ensures
            r matches Ok(v) && v@ == self.cols@,
    {
        let mut v: Vec<u64> = Vec::with_capacity(self.cols.len());
        let mut i: usize = 0;
        while i < self.cols.len()
            invariant
                i <= self.cols@.len(),
                v@ =~= self.cols@.subrange(0, i as int),
            decreases self.cols.len() - i,
        {
            v.push(self.cols[i]);
            i += 1;
        }
        assert(v@ =~= self.cols@);
        Ok(v)
    }

    /// The gene (row) index of entry `idx`.
    pub fn row_idx_at(&self, idx: usize) -> (r: Result<u32, CacheError>)
        requires
            self.wf(),
        ensures
            idx < self.header.nnz ==> r == Ok::<u32, CacheError>(self.rows@[idx as int]),
            idx >= self.header.nnz ==> r == Err::<u32, CacheError>(CacheError::EntryOutOfRange(idx)),
    {
        if idx >= self.rows.len() {
            return Err(CacheError::EntryOutOfRange(idx));
        }
        Ok(self.rows[idx])
    }

    /// The integer value of entry `idx`.
    pub fn value_u32_at(&self, idx: usize) -> (r: Result<u32, CacheError>)
        requires
            self.wf(),
        ensures
            idx < self.header.nnz ==> r == Ok::<u32, CacheError>(self.values@[idx as int]),
            idx >= self.header.nnz ==> r == Err::<u32, CacheError>(CacheError::EntryOutOfRange(idx)),
    {
        if idx >= self.values.len() {
            return Err(CacheError::EntryOutOfRange(idx));
        }
        Ok(self.values[idx])
    }
}

/// A file that opens fails with a checksum mismatch once any single bit of
/// its stored header checksum is flipped.
pub proof fn lemma_flipped_crc_rejected(b: Seq<u8>, pos: int, flipped: u8)
    requires
        cache_error(b) is None,
        HEADER_CRC_OFFSET <= pos < HEADER_CRC_OFFSET + 8,
        flipped != b[pos],
    ensures
        cache_error(b.update(pos, flipped)) matches Some(CacheError::CrcMismatch { .. }),
{
    let b2 = b.update(pos, flipped);
    vstd::bytes::lemma_auto_spec_u64_to_from_le_bytes();
    assert(b2.subrange(0, 4) =~= b.subrange(0, 4));
    assert(b2.subrange(4, 6) =~= b.subrange(4, 6));
    assert(b2.subrange(6, 8) =~= b.subrange(6, 8));
    assert(b2.subrange(8, 12) =~= b.subrange(8, 12));
    assert(b2.subrange(12, 16) =~= b.subrange(12, 16));
    assert(crc_input(b2) =~= crc_input(b));
    let h = header_fields(b);
    let h2 = header_fields(b2);
    let s = b.subrange(120, 128);
    let s2 = b2.subrange(120, 128);
    assert(s[pos - 120] != s2[pos - 120]);
    if h2.header_crc64 == h.header_crc64 {
        assert(vstd::bytes::spec_u64_to_le_bytes(vstd::bytes::spec_u64_from_le_bytes(s)) == s);
        assert(vstd::bytes::spec_u64_to_le_bytes(vstd::bytes::spec_u64_from_le_bytes(s2)) == s2);
    }
}

/// The 256 header bytes that carry the fields of `h`.
pub open spec fn header_record(h: SharedCacheHeaderV1) -> Seq<u8> {
    cache_magic() + spec_u16_to_le_bytes(h.version_major) + spec_u16_to_le_bytes(h.version_minor)
        + spec_u32_to_le_bytes(ENDIAN_TAG_LE) + spec_u32_to_le_bytes(CACHE_HEADER_SIZE as u32)
        + spec_u64_to_le_bytes(h.n_genes) + spec_u64_to_le_bytes(h.n_cells)
        + spec_u64_to_le_bytes(h.nnz) + spec_u64_to_le_bytes(h.genes_table_offset)
        + spec_u64_to_le_bytes(h.genes_table_bytes) + spec_u64_to_le_bytes(h.barcodes_table_offset)
        + spec_u64_to_le_bytes(h.barcodes_table_bytes) + spec_u64_to_le_bytes(h.col_ptr_offset)
        + spec_u64_to_le_bytes(h.row_idx_offset) + spec_u64_to_le_bytes(h.values_u32_offset)
        + spec_u64_to_le_bytes(h.n_blocks) + spec_u64_to_le_bytes(h.blocks_offset)
        + spec_u64_to_le_bytes(h.file_bytes) + spec_u64_to_le_bytes(h.header_crc64)
        + spec_u64_to_le_bytes(h.data_crc64) + Seq::new(120, |i: int| 0u8)
}

/// The UTF-8 bytes of the strings, one after another.
pub open spec fn blob_of(strs: Seq<Seq<char>>) -> Seq<u8>
    decreases strs.len(),
{
    if strs.len() == 0 {
        Seq::empty()
    } else {
        blob_of(strs.drop_last()) + encode_utf8(strs.last())
    }
}

/// Where each string begins in the blob, and the blob's end.
pub open spec fn blob_offsets(strs: Seq<Seq<char>>) -> Seq<u32> {
    Seq::new(strs.len() + 1, |i: int| blob_of(strs.subrange(0, i)).len() as u32)
}

/// A string table holding `strs`.
pub open spec fn table_of(strs: Seq<Seq<char>>) -> Seq<u8> {
    spec_u32_to_le_bytes(strs.len() as u32) + u32s_bytes(blob_offsets(strs)) + blob_of(strs)
}

/// The header of a cache laid out with no gaps: header, genes table,
/// barcodes table, `col_ptr`, `row_idx`, values; checksum field zero.
pub open spec fn planned_header(
    genes_len: int,
    barcodes_len: int,
    n_genes: int,
    n_cells: int,
    nnz: int,
) -> SharedCacheHeaderV1 {
    let g_off = CACHE_HEADER_SIZE as int;
    let b_off = g_off + genes_len;
    let c_off = b_off + barcodes_len;
    let r_off = c_off + 8 * (n_cells + 1);
    let v_off = r_off + 4 * nnz;
    SharedCacheHeaderV1 {
        version_major: 1,
        version_minor: 0,
        n_genes: n_genes as u64,
        n_cells: n_cells as u64,
        nnz: nnz as u64,
        genes_table_offset: g_off as u64,
        genes_table_bytes: genes_len as u64,
        barcodes_table_offset: b_off as u64,
        barcodes_table_bytes: barcodes_len as u64,
        col_ptr_offset: c_off as u64,
        row_idx_offset: r_off as u64,
        values_u32_offset: v_off as u64,
        n_blocks: 0,
        blocks_offset: 0,
        file_bytes: (v_off + 4 * nnz) as u64,
        header_crc64: 0,
        data_crc64: 0,
    }
}

/// The planned header with its checksum filled in.
pub open spec fn sealed(h: SharedCacheHeaderV1) -> SharedCacheHeaderV1 {
    SharedCacheHeaderV1 { header_crc64: crc64_ecma_182(header_record(h)), ..h }
}

fn push_header(out: &mut Vec<u8>, h: &SharedCacheHeaderV1)
    ensures
        final(out)@ == old(out)@ + header_record(*h),
{
    let ghost start = out@;
    out.push(0x4b);
    out.push(0x4f);
    out.push(0x52);
    out.push(0x47);
    assert(out@ =~= start + cache_magic());
    push_u16(out, h.version_major);
    push_u16(out, h.version_minor);
    push_u32(out, ENDIAN_TAG_LE);
    push_u32(out, CACHE_HEADER_SIZE as u32);
    push_u64(out, h.n_genes);
    push_u64(out, h.n_cells);
    push_u64(out, h.nnz);
    push_u64(out, h.genes_table_offset);
    push_u64(out, h.genes_table_bytes);
    push_u64(out, h.barcodes_table_offset);
    push_u64(out, h.barcodes_table_bytes);
    push_u64(out, h.col_ptr_offset);
    push_u64(out, h.row_idx_offset);
    push_u64(out, h.values_u32_offset);
    push_u64(out, h.n_blocks);
    push_u64(out, h.blocks_offset);
    push_u64(out, h.file_bytes);
    push_u64(out, h.header_crc64);
    push_u64(out, h.data_crc64);
    let ghost mid = out@;
    let mut i: usize = 0;
    while i < 120
        invariant
            i <= 120,
            out@ =~= mid + Seq::new(i as nat, |j: int| 0u8),
        decreases 120 - i,
    {
        out.push(0u8);
        i += 1;
    }
}

/// Builds a string table, or `None` when its blob outgrows the u32 offsets.
fn encode_table(strs: &[String]) -> (r: Option<Vec<u8>>)
    requires
        strs@.len() < 0xffff_ffff,
    ensures
        r is None <==> blob_of(strs@.map_values(|s: String| s@)).len() > 0xffff_ffff,
        r matches Some(v) ==> v@ == table_of(strs@.map_values(|s: String| s@)),
        r matches Some(v) ==> v@.len() <= 0x10_0000_0000,
{
    let ghost names = strs@.map_values(|s: String| s@);
    let mut blob: Vec<u8> = Vec::new();
    let mut offsets: Vec<u32> = Vec::new();
    offsets.push(0);
    assert(names.subrange(0, 0) =~= Seq::<Seq<char>>::empty());
    let mut i: usize = 0;
    while i < strs.len()
        invariant
            i <= strs@.len(),
            names == strs@.map_values(|s: String| s@),
            blob@ == blob_of(names.subrange(0, i as int)),
            blob@.len() <= 0xffff_ffff,
            offsets@ =~= blob_offsets(names.subrange(0, i as int)),
        decreases strs.len() - i,
    {
        let bytes = strs[i].as_str().as_bytes();
        let ghost before = blob@;
        let mut j: usize = 0;
        while j < bytes.len()
            invariant
                j <= bytes@.len(),
                blob@ == before + bytes@.subrange(0, j as int),
            decreases bytes.len() - j,
        {
            blob.push(bytes[j]);
            assert(bytes@.subrange(0, j + 1) =~= bytes@.subrange(0, j as int).push(bytes@[j as int]));
            j += 1;
        }
        let ghost pre = names.subrange(0, i + 1);
        assert(pre.drop_last() =~= names.subrange(0, i as int));
        assert(bytes@.subrange(0, bytes@.len() as int) =~= bytes@);
        assert(blob@ == blob_of(pre));
        if blob.len() > 0xffff_ffff {
            assert(blob_of(names).len() > 0xffff_ffff) by {
                lemma_blob_prefix(names, i + 1);
            }
            return None;
        }
        offsets.push(blob.len() as u32);
        assert forall|k: int| 0 <= k < i + 2 implies #[trigger] offsets@[k] == blob_offsets(pre)[k] by {
            if k < i + 1 {
                assert(pre.subrange(0, k) =~= names.subrange(0, i as int).subrange(0, k));
            } else {
                assert(pre.subrange(0, k) =~= pre);
            }
        }
        assert(offsets@ =~= blob_offsets(pre));
        i += 1;
    }
    assert(names.subrange(0, strs@.len() as int) =~= names);
    let mut out: Vec<u8> = Vec::new();
    push_u32(&mut out, strs.len() as u32);
    push_u32s(&mut out, offsets.as_slice());
    proof {
        crate::store::lemma_u32s_len(offsets@);
        vstd::bytes::lemma_auto_spec_u32_to_from_le_bytes();
    }
    let ghost with_offsets = out@;
    let mut k: usize = 0;
    while k < blob.len()
        invariant
            k <= blob@.len(),
            out@ == with_offsets + blob@.subrange(0, k as int),
        decreases blob.len() - k,
    {
        out.push(blob[k]);
        assert(blob@.subrange(0, k + 1) =~= blob@.subrange(0, k as int).push(blob@[k as int]));
        k += 1;
    }
    assert(blob@.subrange(0, blob@.len() as int) =~= blob@);
    Some(out)
}

/// The blob of a prefix is a prefix of the blob.
proof fn lemma_blob_prefix(strs: Seq<Seq<char>>, i: int)
    requires
        0 <= i <= strs.len(),
    ensures
        blob_of(strs.subrange(0, i)).len() <= blob_of(strs).len(),
    decreases strs.len() - i,
{
    if i < strs.len() {
        lemma_blob_prefix(strs, i + 1);
        let p = strs.subrange(0, i + 1);
        assert(p.drop_last() =~= strs.subrange(0, i));
    } else {
        assert(strs.subrange(0, i) =~= strs);
    }
}

/// Encodes a cache from scratch, with no gaps between regions, the header
/// checksum filled in, and no optional blocks. `None` when a string table
/// outgrows its u32 offsets.
pub fn encode_shared_cache(
    genes: &[String],
    barcodes: &[String],
    col_ptr: &[u64],
    row_idx: &[u32],
    values: &[u32],
) -> (r: Option<Vec<u8>>)
    requires
        genes@.len() < 0xffff_ffff,
        barcodes@.len() < 0xffff_ffff,
        col_ptr@.len() == barcodes@.len() + 1,
        values@.len() == row_idx@.len(),
        row_idx@.len() <= 0x1000_0000_0000_0000,
    ensures
        r is None <==> blob_of(genes@.map_values(|s: String| s@)).len() > 0xffff_ffff || blob_of(
            barcodes@.map_values(|s: String| s@),
        ).len() > 0xffff_ffff,
        r matches Some(v) ==> v@ == header_record(
            sealed(
                planned_header(
                    table_of(genes@.map_values(|s: String| s@)).len() as int,
                    table_of(barcodes@.map_values(|s: String| s@)).len() as int,
                    genes@.len() as int,
                    barcodes@.len() as int,
                    row_idx@.len() as int,
                ),
            ),
        ) + table_of(genes@.map_values(|s: String| s@)) + table_of(
            barcodes@.map_values(|s: String| s@),
        ) + u64s_bytes(col_ptr@) + u32s_bytes(row_idx@) + u32s_bytes(values@),
{
    let gt = match encode_table(genes) {
        Some(t) => t,
        None => {
            return None;
        },
    };
    let bt = match encode_table(barcodes) {
        Some(t) => t,
        None => {
            return None;
        },
    };
    let g_off: u64 = 256;
    let b_off: u64 = g_off + gt.len() as u64;
    let c_off: u64 = b_off + bt.len() as u64;
    let r_off: u64 = c_off + 8 * col_ptr.len() as u64;
    let v_off: u64 = r_off + 4 * row_idx.len() as u64;
    let plan = SharedCacheHeaderV1 {
        version_major: 1,
        version_minor: 0,
        n_genes: genes.len() as u64,
        n_cells: barcodes.len() as u64,
        nnz: row_idx.len() as u64,
        genes_table_offset: g_off,
        genes_table_bytes: gt.len() as u64,
        barcodes_table_offset: b_off,
        barcodes_table_bytes: bt.len() as u64,
        col_ptr_offset: c_off,
        row_idx_offset: r_off,
        values_u32_offset: v_off,
        n_blocks: 0,
        blocks_offset: 0,
        file_bytes: v_off + 4 * values.len() as u64,
        header_crc64: 0,
        data_crc64: 0,
    };
    let mut head: Vec<u8> = Vec::new();
    push_header(&mut head, &plan);
    let crc = crc64(head.as_slice());
    let final_header = SharedCacheHeaderV1 { header_crc64: crc, ..plan };
    let mut out: Vec<u8> = Vec::new();
    push_header(&mut out, &final_header);
    append_all(&mut out, &gt);
    append_all(&mut out, &bt);
    push_u64s(&mut out, col_ptr);
    push_u32s(&mut out, row_idx);
    push_u32s(&mut out, values);
    Some(out)
}

fn append_all(out: &mut Vec<u8>, v: &Vec<u8>)
    ensures
        final(out)@ == old(out)@ + v@,
{
    let ghost start = out@;
    let mut k: usize = 0;
    while k < v.len()
        invariant
            k <= v@.len(),
            out@ == start + v@.subrange(0, k as int),
        decreases v.len() - k,
    {
        out.push(v[k]);
        assert(v@.subrange(0, k + 1) =~= v@.subrange(0, k as int).push(v@[k as int]));
        k += 1;
    }
    assert(v@.subrange(0, v@.len() as int) =~= v@);
}

/// The header record with its checksum field zeroed is the record of the
/// unsealed header.
proof fn lemma_record_crc_input(h: SharedCacheHeaderV1, rest: Seq<u8>)
    requires
        h.header_crc64 == 0,
    ensures
        header_record(sealed(h)).len() == CACHE_HEADER_SIZE,
        crc_input(header_record(sealed(h)) + rest) == header_record(h),
{
    vstd::bytes::lemma_auto_spec_u16_to_from_le_bytes();
    vstd::bytes::lemma_auto_spec_u32_to_from_le_bytes();
    vstd::bytes::lemma_auto_spec_u64_to_from_le_bytes();
    vstd::bytes::spec_u64_to_le_bytes_to_open(0);
    let z = spec_u64_to_le_bytes(0);
    assert(((0u64 & 0xff) as u8) == 0u8 && (((0u64 >> 8) & 0xff) as u8) == 0u8 && (((0u64 >> 16) & 0xff) as u8) == 0u8
        && (((0u64 >> 24) & 0xff) as u8) == 0u8 && (((0u64 >> 32) & 0xff) as u8) == 0u8 && (((0u64 >> 40) & 0xff) as u8) == 0u8
        && (((0u64 >> 48) & 0xff) as u8) == 0u8 && (((0u64 >> 56) & 0xff) as u8) == 0u8) by (bit_vector);
    assert(z =~= Seq::new(8, |i: int| 0u8));
    let hs = sealed(h);
    let pre = cache_magic() + spec_u16_to_le_bytes(h.version_major) + spec_u16_to_le_bytes(
        h.version_minor,
    ) + spec_u32_to_le_bytes(ENDIAN_TAG_LE) + spec_u32_to_le_bytes(CACHE_HEADER_SIZE as u32)
        + spec_u64_to_le_bytes(h.n_genes) + spec_u64_to_le_bytes(h.n_cells)
        + spec_u64_to_le_bytes(h.nnz) + spec_u64_to_le_bytes(h.genes_table_offset)
        + spec_u64_to_le_bytes(h.genes_table_bytes) + spec_u64_to_le_bytes(h.barcodes_table_offset)
        + spec_u64_to_le_bytes(h.barcodes_table_bytes) + spec_u64_to_le_bytes(h.col_ptr_offset)
        + spec_u64_to_le_bytes(h.row_idx_offset) + spec_u64_to_le_bytes(h.values_u32_offset)
        + spec_u64_to_le_bytes(h.n_blocks) + spec_u64_to_le_bytes(h.blocks_offset)
        + spec_u64_to_le_bytes(h.file_bytes);
    let post = spec_u64_to_le_bytes(h.data_crc64) + Seq::new(120, |i: int| 0u8);
    assert(pre.len() == 120);
    assert(header_record(hs) =~= pre + spec_u64_to_le_bytes(hs.header_crc64) + post);
    assert(header_record(h) =~= pre + z + post);
    let b = header_record(hs) + rest;
    assert(b.subrange(0, 120) =~= pre);
    assert(b.subrange(128, 256) =~= post);
    assert(crc_input(b) =~= header_record(h));
}

/// An encoded header passes the structural checks and its checksum, and
/// decodes to the sealed header.
pub proof fn lemma_encoded_header_accepted(h: SharedCacheHeaderV1, rest: Seq<u8>)
    requires
        h.version_major == 1,
        h.version_minor == 0,
        h.header_crc64 == 0,
    ensures
        ({
            let b = header_record(sealed(h)) + rest;
            &&& b.len() >= CACHE_HEADER_SIZE
            &&& decode_cache_header(b) == Ok::<SharedCacheHeaderV1, CacheError>(sealed(h))
            &&& crc64_ecma_182(crc_input(b)) == sealed(h).header_crc64
        }),
{
    lemma_record_crc_input(h, rest);
    let hs = sealed(h);
    let b = header_record(hs) + rest;
    vstd::bytes::lemma_auto_spec_u16_to_from_le_bytes();
    vstd::bytes::lemma_auto_spec_u32_to_from_le_bytes();
    vstd::bytes::lemma_auto_spec_u64_to_from_le_bytes();
    assert(b.subrange(0, 4) =~= cache_magic());
    assert(b.subrange(4, 6) =~= spec_u16_to_le_bytes(hs.version_major));
    assert(b.subrange(6, 8) =~= spec_u16_to_le_bytes(hs.version_minor));
    assert(b.subrange(8, 12) =~= spec_u32_to_le_bytes(ENDIAN_TAG_LE));
    assert(b.subrange(12, 16) =~= spec_u32_to_le_bytes(CACHE_HEADER_SIZE as u32));
    assert(b.subrange(16, 24) =~= spec_u64_to_le_bytes(hs.n_genes));
    assert(b.subrange(24, 32) =~= spec_u64_to_le_bytes(hs.n_cells));
    assert(b.subrange(32, 40) =~= spec_u64_to_le_bytes(hs.nnz));
    assert(b.subrange(40, 48) =~= spec_u64_to_le_bytes(hs.genes_table_offset));
    assert(b.subrange(48, 56) =~= spec_u64_to_le_bytes(hs.genes_table_bytes));
    assert(b.subrange(56, 64) =~= spec_u64_to_le_bytes(hs.barcodes_table_offset));
    assert(b.subrange(64, 72) =~= spec_u64_to_le_bytes(hs.barcodes_table_bytes));
    assert(b.subrange(72, 80) =~= spec_u64_to_le_bytes(hs.col_ptr_offset));
    assert(b.subrange(80, 88) =~= spec_u64_to_le_bytes(hs.row_idx_offset));
    assert(b.subrange(88, 96) =~= spec_u64_to_le_bytes(hs.values_u32_offset));
    assert(b.subrange(96, 104) =~= spec_u64_to_le_bytes(hs.n_blocks));
    assert(b.subrange(104, 112) =~= spec_u64_to_le_bytes(hs.blocks_offset));
    assert(b.subrange(112, 120) =~= spec_u64_to_le_bytes(hs.file_bytes));
    assert(b.subrange(120, 128) =~= spec_u64_to_le_bytes(hs.header_crc64));
    assert(b.subrange(128, 136) =~= spec_u64_to_le_bytes(hs.data_crc64));
    assert(header_fields(b) == hs);
}

proof fn lemma_blob_concat(s: Seq<Seq<char>>, t: Seq<Seq<char>>)
    ensures
        blob_of(s + t) == blob_of(s) + blob_of(t),
    decreases t.len(),
{
    if t.len() == 0 {
        assert(s + t =~= s);
        assert(blob_of(s) + blob_of(t) =~= blob_of(s));
    } else {
        lemma_blob_concat(s, t.drop_last());
        assert((s + t).drop_last() =~= s + t.drop_last());
        assert(blob_of(s + t) =~= blob_of(s) + blob_of(t));
    }
}

/// String `i` sits in the blob between the lengths of the blobs of the
/// first `i` and the first `i + 1` strings.
proof fn lemma_blob_entry(strs: Seq<Seq<char>>, i: int)
    requires
        0 <= i < strs.len(),
    ensures
        blob_of(strs.subrange(0, i)).len() <= blob_of(strs.subrange(0, i + 1)).len() <= blob_of(
            strs,
        ).len(),
        blob_of(strs).subrange(
            blob_of(strs.subrange(0, i)).len() as int,
            blob_of(strs.subrange(0, i + 1)).len() as int,
        ) == encode_utf8(strs[i]),
{
    let a = strs.subrange(0, i);
    let b = strs.subrange(0, i + 1);
    let rest = strs.subrange(i + 1, strs.len() as int);
    assert(b.drop_last() =~= a);
    assert(strs =~= b + rest);
    lemma_blob_concat(b, rest);
    let whole = blob_of(strs);
    assert(whole.subrange(blob_of(a).len() as int, blob_of(b).len() as int) =~= encode_utf8(
        strs[i],
    ));
}

/// A table built from strings passes every table check and decodes to the
/// same strings.
proof fn lemma_table_round_trip(strs: Seq<Seq<char>>, section: Section)
    requires
        strs.len() < 0xffff_ffff,
        blob_of(strs).len() <= 0xffff_ffff,
    ensures
        table_error(table_of(strs), strs.len() as u64, section) is None,
        table_strings(table_of(strs)) == strs,
        table_count(table_of(strs)) == strs.len(),
{
    vstd::bytes::lemma_auto_spec_u32_to_from_le_bytes();
    let n = strs.len() as int;
    let t = table_of(strs);
    let offs = blob_offsets(strs);
    let blob = blob_of(strs);
    crate::store::lemma_u32s_len(offs);
    crate::bytes::lemma_u32_round_trip(Seq::empty(), n as u32, u32s_bytes(offs) + blob);
    assert(t =~= Seq::<u8>::empty() + spec_u32_to_le_bytes(n as u32) + (u32s_bytes(offs) + blob));
    assert(table_count(t) == n);
    crate::store::lemma_u32s_read(spec_u32_to_le_bytes(n as u32), offs, blob);
    assert(t =~= spec_u32_to_le_bytes(n as u32) + u32s_bytes(offs) + blob);
    let bo = table_blob_offset(t);
    assert(bo == 4 + 4 * (n + 1));
    assert(t.len() == bo + blob.len());
    assert forall|i: int| 0 <= i <= n implies #[trigger] table_offsets(t)[i] == offs[i] as u64 by {
        assert(u32_array(t, 4, n + 1)[i] == offs[i]);
    }
    assert forall|i: int| 0 <= i <= n implies (#[trigger] offs[i]) as int == blob_of(strs.subrange(0, i)).len() by {
        lemma_blob_prefix(strs, i);
    }
    assert(non_decreasing(table_offsets(t))) by {
        assert forall|i: int| 0 <= i < table_offsets(t).len() - 1 implies #[trigger] table_offsets(t)[i]
            <= table_offsets(t)[i + 1] by {
            lemma_blob_entry(strs, i);
        }
    }
    assert(strs.subrange(0, n) =~= strs);
    assert(table_offsets(t)[n] == t.len() - bo);
    assert forall|i: int| 0 <= i < n implies #[trigger] table_entry(t, i) == encode_utf8(strs[i]) by {
        lemma_blob_entry(strs, i);
        assert(t.subrange(bo + offs[i], bo + offs[i + 1]) =~= blob.subrange(offs[i] as int, offs[i + 1] as int));
    }
    assert forall|i: int| 0 <= i < n implies valid_utf8(#[trigger] table_entry(t, i)) by {
        encode_utf8_valid_utf8(strs[i]);
    }
    assert(table_strings(t) =~= strs) by {
        assert forall|i: int| 0 <= i < n implies #[trigger] table_strings(t)[i] == strs[i] by {
            encode_utf8_decode_utf8(strs[i]);
        }
    }
}

/// Encoding a cache from scratch and opening the bytes gives back the
/// same names and arrays: every ingestion stage accepts what the encoder
/// writes, as long as the arrays form a valid cell-major CSC matrix.
pub proof fn lemma_encode_open_round_trip(
    genes: Seq<Seq<char>>,
    barcodes: Seq<Seq<char>>,
    cp: Seq<u64>,
    rows: Seq<u32>,
    vals: Seq<u32>,
)
    requires
        genes.len() < 0xffff_ffff,
        barcodes.len() < 0xffff_ffff,
        blob_of(genes).len() <= 0xffff_ffff,
        blob_of(barcodes).len() <= 0xffff_ffff,
        cp.len() == barcodes.len() + 1,
        vals.len() == rows.len(),
        rows.len() <= 0x1000_0000_0000_0000,
        csc_error(genes.len() as u64, rows.len() as u64, cp, rows) is None,
    ensures
        ({
            let h = sealed(
                planned_header(
                    table_of(genes).len() as int,
                    table_of(barcodes).len() as int,
                    genes.len() as int,
                    barcodes.len() as int,
                    rows.len() as int,
                ),
            );
            let b = header_record(h) + table_of(genes) + table_of(barcodes) + u64s_bytes(cp)
                + u32s_bytes(rows) + u32s_bytes(vals);
            &&& cache_error(b) is None
            &&& decode_cache_header(b) == Ok::<SharedCacheHeaderV1, CacheError>(h)
            &&& table_strings(genes_table(b, h)) == genes
            &&& table_strings(barcodes_table(b, h)) == barcodes
            &&& col_ptr_of(b, h) == cp
            &&& row_idx_of(b, h) == rows
            &&& values_of(b, h) == vals
        }),
{
    vstd::bytes::lemma_auto_spec_u32_to_from_le_bytes();
    let gt = table_of(genes);
    let bt = table_of(barcodes);
    crate::store::lemma_u32s_len(blob_offsets(genes));
    crate::store::lemma_u32s_len(blob_offsets(barcodes));
    let p = planned_header(
        gt.len() as int,
        bt.len() as int,
        genes.len() as int,
        barcodes.len() as int,
        rows.len() as int,
    );
    let h = sealed(p);
    let hr = header_record(h);
    let cpb = u64s_bytes(cp);
    let rib = u32s_bytes(rows);
    let vab = u32s_bytes(vals);
    crate::store::lemma_u64s_len(cp);
    crate::store::lemma_u32s_len(rows);
    crate::store::lemma_u32s_len(vals);
    let b = hr + gt + bt + cpb + rib + vab;
    lemma_encoded_header_accepted(p, gt + bt + cpb + rib + vab);
    assert(b =~= hr + (gt + bt + cpb + rib + vab));
    lemma_record_crc_input(p, Seq::empty());
    assert(hr.len() == 256);
    assert(b.len() == h.file_bytes);
    assert(bounds_error(b.len() as int, h) is None);
    assert(genes_table(b, h) =~= gt);
    assert(barcodes_table(b, h) =~= bt);
    lemma_table_round_trip(genes, Section::GenesTable);
    lemma_table_round_trip(barcodes, Section::BarcodesTable);
    crate::store::lemma_u64s_read(hr + gt + bt, cp, rib + vab);
    assert(b =~= (hr + gt + bt) + cpb + (rib + vab));
    crate::store::lemma_u32s_read(hr + gt + bt + cpb, rows, vab);
    assert(b =~= (hr + gt + bt + cpb) + rib + vab);
    crate::store::lemma_u32s_read(hr + gt + bt + cpb + rib, vals, Seq::empty());
    assert(b =~= (hr + gt + bt + cpb + rib) + vab + Seq::<u8>::empty());
    assert(col_ptr_of(b, h) == cp);
    assert(row_idx_of(b, h) == rows);
    assert(values_of(b, h) == vals);
}

} // verus!
