use crc::{Crc, CRC_64_ECMA_182};
use kira_proteoqc_core::error::{CacheError, ErrorKind, Section};
use kira_proteoqc_core::shared_cache::{parse_string_table, SharedCache};

fn make_table(items: &[&str]) -> Vec<u8> {
    let mut out = Vec::new();
    out.extend_from_slice(&(items.len() as u32).to_le_bytes());
    let mut off = 0u32;
    out.extend_from_slice(&off.to_le_bytes());
    for s in items {
        off += s.len() as u32;
        out.extend_from_slice(&off.to_le_bytes());
    }
    for s in items {
        out.extend_from_slice(s.as_bytes());
    }
    out
}

fn align64(x: usize) -> usize {
    (x + 63) / 64 * 64
}

fn put(bytes: &mut [u8], at: usize, v: &[u8]) {
    bytes[at..at + v.len()].copy_from_slice(v);
}

fn seal(bytes: &mut [u8]) {
    let mut tmp = bytes[..256].to_vec();
    for b in &mut tmp[120..128] {
        *b = 0;
    }
    let crc = Crc::<u64>::new(&CRC_64_ECMA_182).checksum(&tmp);
    put(bytes, 120, &crc.to_le_bytes());
}

fn tiny_cache_with(genes: &[&str], col_ptr: &[u64], row_idx: &[u32], values: &[u32]) -> Vec<u8> {
    let barcodes = ["C1", "C2"];
    let genes_table = make_table(genes);
    let barcodes_table = make_table(&barcodes);
    let mut offset = 256usize;
    let genes_off = offset;
    offset = align64(offset + genes_table.len());
    let barcodes_off = offset;
    offset = align64(offset + barcodes_table.len());
    let col_ptr_off = offset;
    offset = align64(offset + col_ptr.len() * 8);
    let row_idx_off = offset;
    offset = align64(offset + row_idx.len() * 4);
    let values_off = offset;
    offset += values.len() * 4;

    let mut bytes = vec![0u8; offset];
    put(&mut bytes, 0, b"KORG");
    put(&mut bytes, 4, &1u16.to_le_bytes());
    put(&mut bytes, 6, &0u16.to_le_bytes());
    put(&mut bytes, 8, &0x1234_5678u32.to_le_bytes());
    put(&mut bytes, 12, &256u32.to_le_bytes());
    put(&mut bytes, 16, &(genes.len() as u64).to_le_bytes());
    put(&mut bytes, 24, &(barcodes.len() as u64).to_le_bytes());
    put(&mut bytes, 32, &(values.len() as u64).to_le_bytes());
    put(&mut bytes, 40, &(genes_off as u64).to_le_bytes());
    put(&mut bytes, 48, &(genes_table.len() as u64).to_le_bytes());
    put(&mut bytes, 56, &(barcodes_off as u64).to_le_bytes());
    put(&mut bytes, 64, &(barcodes_table.len() as u64).to_le_bytes());
    put(&mut bytes, 72, &(col_ptr_off as u64).to_le_bytes());
    put(&mut bytes, 80, &(row_idx_off as u64).to_le_bytes());
    put(&mut bytes, 88, &(values_off as u64).to_le_bytes());
    put(&mut bytes, 112, &(offset as u64).to_le_bytes());
    put(&mut bytes, genes_off, &genes_table);
    put(&mut bytes, barcodes_off, &barcodes_table);
    for (i, v) in col_ptr.iter().enumerate() {
        put(&mut bytes, col_ptr_off + i * 8, &v.to_le_bytes());
    }
    for (i, v) in row_idx.iter().enumerate() {
        put(&mut bytes, row_idx_off + i * 4, &v.to_le_bytes());
    }
    for (i, v) in values.iter().enumerate() {
        put(&mut bytes, values_off + i * 4, &v.to_le_bytes());
    }
    seal(&mut bytes);
    bytes
}

fn tiny_cache() -> Vec<u8> {
    tiny_cache_with(&["G1", "G2", "G3"], &[0, 2, 3], &[0, 2, 1], &[5, 1, 7])
}

#[test]
fn reads_valid_shared_cache_and_traverses_arrays() {
    let bytes = tiny_cache();
    let cache = SharedCache::open(&bytes).unwrap();
    assert_eq!(cache.header.n_genes, 3);
    assert_eq!(cache.header.n_cells, 2);
    assert_eq!(cache.header.nnz, 3);
    assert_eq!(cache.genes, vec!["G1", "G2", "G3"]);
    assert_eq!(cache.barcodes, vec!["C1", "C2"]);
    assert_eq!(cache.col_ptr().unwrap(), vec![0, 2, 3]);
    assert_eq!(cache.row_idx_at(0).unwrap(), 0);
    assert_eq!(cache.row_idx_at(1).unwrap(), 2);
    assert_eq!(cache.row_idx_at(2).unwrap(), 1);
    assert_eq!(cache.value_u32_at(0).unwrap(), 5);
    assert_eq!(cache.value_u32_at(1).unwrap(), 1);
    assert_eq!(cache.value_u32_at(2).unwrap(), 7);
    assert_eq!(cache.row_idx_at(3), Err(CacheError::EntryOutOfRange(3)));
    assert_eq!(cache.value_u32_at(9), Err(CacheError::EntryOutOfRange(9)));
}

#[test]
fn rejects_tampered_header_crc() {
    let mut bytes = tiny_cache();
    bytes[16] ^= 0x01;
    let err = SharedCache::open(&bytes).err().unwrap();
    assert!(matches!(err, CacheError::CrcMismatch { .. }), "unexpected error: {err:?}");
    assert_eq!(err.kind(), ErrorKind::Corruption);
}

#[test]
fn rejects_flipped_stored_crc_bit() {
    for pos in 120..128 {
        for bit in 0..8 {
            let mut bytes = tiny_cache();
            bytes[pos] ^= 1 << bit;
            let err = SharedCache::open(&bytes).err().unwrap();
            assert!(matches!(err, CacheError::CrcMismatch { .. }));
        }
    }
}

#[test]
fn rejects_small_and_bad_header() {
    assert_eq!(SharedCache::open(&[0u8; 100]).err(), Some(CacheError::TooSmall));
    let mut b = tiny_cache();
    b[0] = b'X';
    assert_eq!(SharedCache::open(&b).err(), Some(CacheError::BadMagic));
    let mut b = tiny_cache();
    b[4] = 2;
    assert_eq!(SharedCache::open(&b).err(), Some(CacheError::UnsupportedMajor(2)));
    let mut b = tiny_cache();
    b[6] = 1;
    assert_eq!(SharedCache::open(&b).err(), Some(CacheError::UnsupportedMinor(1)));
    let mut b = tiny_cache();
    b[8] = 0;
    assert_eq!(SharedCache::open(&b).err(), Some(CacheError::BadEndianTag(0x1234_5600)));
    let mut b = tiny_cache();
    b[13] = 2;
    assert_eq!(SharedCache::open(&b).err(), Some(CacheError::BadHeaderSize(512)));
    assert_eq!(CacheError::BadMagic.kind(), ErrorKind::Format);
}

#[test]
fn rejects_bad_bounds_and_blocks() {
    let mut b = tiny_cache();
    b.push(0);
    let len = b.len();
    assert_eq!(
        SharedCache::open(&b).err(),
        Some(CacheError::FileBytesMismatch { declared: (len - 1) as u64, actual: len })
    );
    let mut b = tiny_cache();
    b[96] = 1;
    seal(&mut b);
    assert_eq!(SharedCache::open(&b).err(), Some(CacheError::UnsupportedBlocks));
    let mut b = tiny_cache();
    b[128] = 1;
    seal(&mut b);
    assert_eq!(SharedCache::open(&b).err(), Some(CacheError::UnsupportedBlocks));
    let mut b = tiny_cache();
    b[48..56].copy_from_slice(&(10_000u64).to_le_bytes());
    seal(&mut b);
    assert_eq!(SharedCache::open(&b).err(), Some(CacheError::OutOfBounds(Section::GenesTable)));
}

#[test]
fn rejects_broken_csc() {
    let b = tiny_cache_with(&["G1", "G2", "G3"], &[1, 2, 3], &[0, 2, 1], &[5, 1, 7]);
    assert_eq!(SharedCache::open(&b).err(), Some(CacheError::ColPtrStart));
    let b = tiny_cache_with(&["G1", "G2", "G3"], &[0, 3, 2], &[0, 2, 1], &[5, 1, 7]);
    assert_eq!(SharedCache::open(&b).err(), Some(CacheError::ColPtrNotMonotonic));
    let b = tiny_cache_with(&["G1", "G2", "G3"], &[0, 2, 2], &[0, 2, 1], &[5, 1, 7]);
    assert_eq!(SharedCache::open(&b).err(), Some(CacheError::ColPtrEnd));
    let b = tiny_cache_with(&["G1", "G2", "G3"], &[0, 2, 3], &[0, 3, 1], &[5, 1, 7]);
    assert_eq!(SharedCache::open(&b).err(), Some(CacheError::RowIdxOutOfBounds));
    let b = tiny_cache_with(&["G1", "G2", "G3"], &[0, 2, 3], &[2, 2, 1], &[5, 1, 7]);
    assert_eq!(SharedCache::open(&b).err(), Some(CacheError::RowIdxNotIncreasing));
}

#[test]
fn rejects_bad_string_tables() {
    let mut b = tiny_cache_with(&["G1", "G2"], &[0, 2, 3], &[0, 2, 1], &[5, 1, 7]);
    b[16..24].copy_from_slice(&3u64.to_le_bytes());
    seal(&mut b);
    assert_eq!(
        SharedCache::open(&b).err(),
        Some(CacheError::TableCountMismatch { section: Section::GenesTable, expected: 3, found: 2 })
    );
    let mut t = make_table(&["ab", "c"]);
    assert_eq!(parse_string_table(&t, 2, Section::GenesTable).unwrap(), vec!["ab", "c"]);
    let n = t.len();
    t[n - 1] = 0xff;
    assert_eq!(
        parse_string_table(&t, 2, Section::GenesTable).err(),
        Some(CacheError::InvalidUtf8(Section::GenesTable))
    );
    assert_eq!(
        parse_string_table(&[1, 0, 0], 1, Section::BarcodesTable).err(),
        Some(CacheError::TableTooSmall(Section::BarcodesTable))
    );
    let t = make_table(&["ab", "c"]);
    assert_eq!(
        parse_string_table(&t[..12], 2, Section::GenesTable).err(),
        Some(CacheError::TableOffsetsTruncated(Section::GenesTable))
    );
    let mut t = make_table(&["ab", "c"]);
    t[8] = 5;
    assert_eq!(
        parse_string_table(&t, 2, Section::GenesTable).err(),
        Some(CacheError::TableOffsetsNotMonotonic(Section::GenesTable))
    );
    let mut t = make_table(&["ab", "c"]);
    t.push(b'x');
    assert_eq!(
        parse_string_table(&t, 2, Section::GenesTable).err(),
        Some(CacheError::TableTerminalMismatch(Section::GenesTable))
    );
    let t = make_table(&["", "ü"]);
    assert_eq!(parse_string_table(&t, 2, Section::GenesTable).unwrap(), vec!["", "ü"]);
}

#[test]
fn transposes_to_gene_major() {
    let bytes = tiny_cache();
    let cache = SharedCache::open(&bytes).unwrap();
    let gm = cache.to_gene_major();
    assert_eq!(gm.gene_ptr, vec![0, 1, 2, 3]);
    assert_eq!(gm.cell_idx, vec![0, 1, 0]);
    assert_eq!(gm.values, vec![5, 7, 1]);
}

#[test]
fn transposed_rows_are_ordered_by_cell() {
    let barcodes_cols = [0u64, 2, 4];
    let bytes = tiny_cache_with(&["G1", "G2", "G3"], &barcodes_cols, &[0, 2, 0, 2], &[1, 2, 3, 4]);
    let cache = SharedCache::open(&bytes).unwrap();
    let gm = cache.to_gene_major();
    assert_eq!(gm.gene_ptr, vec![0, 2, 2, 4]);
    assert_eq!(gm.cell_idx, vec![0, 1, 0, 1]);
    assert_eq!(gm.values, vec![1, 3, 2, 4]);
}

#[test]
fn encoded_cache_opens_with_same_contents() {
    let genes = vec!["G1".to_string(), "Gène2".to_string(), "G3".to_string()];
    let barcodes = vec!["C1".to_string(), "".to_string()];
    let bytes =
        kira_proteoqc_core::shared_cache::encode_shared_cache(&genes, &barcodes, &[0, 2, 3], &[0, 2, 1], &[5, 1, 7])
            .unwrap();
    assert_eq!(&bytes[0..4], b"KORG");
    assert_eq!(u64::from_le_bytes(bytes[112..120].try_into().unwrap()), bytes.len() as u64);
    let cache = SharedCache::open(&bytes).unwrap();
    assert_eq!(cache.genes, genes);
    assert_eq!(cache.barcodes, barcodes);
    assert_eq!(cache.cols, vec![0, 2, 3]);
    assert_eq!(cache.rows, vec![0, 2, 1]);
    assert_eq!(cache.values, vec![5, 1, 7]);
    assert_eq!(cache.to_gene_major().gene_ptr, vec![0, 1, 2, 3]);
}

#[test]
fn encoded_cache_checksum_is_checked() {
    let genes = vec!["A".to_string()];
    let barcodes = vec!["x".to_string()];
    let mut bytes =
        kira_proteoqc_core::shared_cache::encode_shared_cache(&genes, &barcodes, &[0, 1], &[0], &[9]).unwrap();
    assert!(SharedCache::open(&bytes).is_ok());
    bytes[121] ^= 0x80;
    assert!(matches!(SharedCache::open(&bytes).err(), Some(CacheError::CrcMismatch { .. })));
}

#[test]
fn encoded_empty_cache_opens() {
    let bytes = kira_proteoqc_core::shared_cache::encode_shared_cache(&[], &[], &[0], &[], &[]).unwrap();
    let cache = SharedCache::open(&bytes).unwrap();
    assert!(cache.genes.is_empty());
    assert_eq!(cache.header.nnz, 0);
}

#[test]
fn transposed_cache_builds_a_valid_store() {
    let bytes = tiny_cache_with(&["G1", "G2", "G3"], &[0, 2, 4], &[0, 2, 0, 2], &[1, 2, 3, 4]);
    let cache = SharedCache::open(&bytes).unwrap();
    let gm = cache.to_gene_major();
    let bits: Vec<u32> = gm.values.iter().map(|&v| (v as f32).to_bits()).collect();
    let store_bytes = kira_proteoqc_core::store::encode_store(2, &gm.gene_ptr, &gm.cell_idx, &bits);
    let store = kira_proteoqc_core::store::SparseStore::open(&store_bytes).unwrap();
    let (cells, values) = store.gene_slice(2).unwrap();
    assert_eq!(cells, &[0, 1]);
    assert_eq!(values, &[2.0f32.to_bits(), 4.0f32.to_bits()]);
    assert!(store.reusable(3, 2, 4));
    assert!(!store.reusable(3, 2, 5));
}
