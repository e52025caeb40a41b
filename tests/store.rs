use kira_proteoqc_core::error::{ErrorKind, StoreError};
use kira_proteoqc_core::store::{encode_store, SparseStore};

fn bits(v: &[f32]) -> Vec<u32> {
    v.iter().map(|x| x.to_bits()).collect()
}

fn example_bytes() -> Vec<u8> {
    encode_store(4, &[0, 2, 4, 5], &[0, 2, 1, 3, 2], &bits(&[1.0, 2.0, 3.0, 4.0, 5.0]))
}

#[test]
fn encoded_store_opens_with_expected_length() {
    let bytes = example_bytes();
    let store = SparseStore::open(&bytes).unwrap();
    assert_eq!(store.header.expected_len(), bytes.len() as u128);
    assert_eq!(bytes.len(), 104);
    assert_eq!(store.n_genes(), 3);
    assert_eq!(store.n_cells(), 4);
    assert_eq!(store.gene_ptr, vec![0, 2, 4, 5]);
    assert_eq!(store.cell_idx, vec![0, 2, 1, 3, 2]);
}

#[test]
fn gene_slice_returns_coindexed_row() {
    let bytes = example_bytes();
    let store = SparseStore::open(&bytes).unwrap();
    let (cells, values) = store.gene_slice(1).unwrap();
    assert_eq!(cells, &[1, 3]);
    assert_eq!(values, &bits(&[3.0, 4.0])[..]);
    assert_eq!(store.gene_slice(3), Err(StoreError::GeneOutOfRange(3)));
    assert_eq!(StoreError::GeneOutOfRange(3).kind(), ErrorKind::Usage);
}

#[test]
fn open_rejects_length_mismatch() {
    let mut bytes = example_bytes();
    bytes.push(0);
    assert_eq!(
        SparseStore::open(&bytes).err(),
        Some(StoreError::SizeMismatch { expected: 104, actual: 105 })
    );
    bytes.truncate(100);
    assert_eq!(
        SparseStore::open(&bytes).err(),
        Some(StoreError::SizeMismatch { expected: 104, actual: 100 })
    );
    assert_eq!(SparseStore::open(&bytes[..20]).err(), Some(StoreError::Truncated));
}

#[test]
fn open_rejects_broken_structure() {
    let b = encode_store(4, &[1, 2, 4, 5], &[0, 2, 1, 3, 2], &[0; 5]);
    assert_eq!(SparseStore::open(&b).err(), Some(StoreError::GenePtrStart));
    let b = encode_store(4, &[0, 3, 2, 5], &[0, 2, 1, 3, 2], &[0; 5]);
    assert_eq!(SparseStore::open(&b).err(), Some(StoreError::GenePtrNotMonotonic));
    let b = encode_store(4, &[0, 2, 4, 4], &[0, 2, 1, 3, 2], &[0; 5]);
    assert_eq!(SparseStore::open(&b).err(), Some(StoreError::GenePtrEnd));
    let b = encode_store(4, &[0, 2, 4, 5], &[0, 9, 1, 3, 2], &[0; 5]);
    assert_eq!(SparseStore::open(&b).err(), Some(StoreError::CellOutOfRange));
    let b = encode_store(4, &[0, 2, 4, 5], &[2, 0, 1, 3, 2], &[0; 5]);
    assert_eq!(SparseStore::open(&b).err(), Some(StoreError::CellsNotSorted));
    assert_eq!(StoreError::CellsNotSorted.kind(), ErrorKind::Corruption);
}

#[test]
fn equal_cells_in_a_row_are_accepted() {
    let b = encode_store(2, &[0, 2], &[1, 1], &[0; 2]);
    assert!(SparseStore::open(&b).is_ok());
}

#[test]
fn empty_store_opens() {
    let b = encode_store(0, &[0], &[], &[]);
    let store = SparseStore::open(&b).unwrap();
    assert_eq!(store.n_genes(), 0);
    assert_eq!(b.len(), 40);
}
