use kira_proteoqc_core::error::{ErrorKind, StoreError};
use kira_proteoqc_core::layout::{read_header, write_header, ExprHeaderV1, LAYOUT_CSC, VERSION};

fn header() -> ExprHeaderV1 {
    ExprHeaderV1 { version: VERSION, n_genes: 3, n_cells: 4, nnz: 5, layout: LAYOUT_CSC }
}

#[test]
fn header_round_trip() {
    let h = header();
    let bytes = write_header(&h);
    assert_eq!(bytes.len(), 32);
    assert_eq!(&bytes[0..8], b"KIRAEXPR");
    assert_eq!(read_header(&bytes), Ok(h));
}

#[test]
fn header_round_trip_large_fields() {
    let h = ExprHeaderV1 {
        version: VERSION,
        n_genes: u32::MAX,
        n_cells: 0x0102_0304,
        nnz: u64::MAX - 7,
        layout: LAYOUT_CSC,
    };
    assert_eq!(read_header(&write_header(&h)), Ok(h));
}

#[test]
fn header_fields_are_little_endian() {
    let bytes = write_header(&header());
    assert_eq!(&bytes[8..12], &[1, 0, 0, 0]);
    assert_eq!(&bytes[12..16], &[3, 0, 0, 0]);
    assert_eq!(&bytes[16..20], &[4, 0, 0, 0]);
    assert_eq!(&bytes[20..28], &[5, 0, 0, 0, 0, 0, 0, 0]);
    assert_eq!(&bytes[28..32], &[1, 0, 0, 0]);
}

#[test]
fn expected_len_and_offsets() {
    let h = header();
    assert_eq!(h.gene_ptr_offset(), 32);
    assert_eq!(h.cell_idx_offset(), 64);
    assert_eq!(h.values_offset(), 84);
    assert_eq!(h.expected_len(), 104);
}

#[test]
fn expected_len_does_not_overflow() {
    let h = ExprHeaderV1 { version: 1, n_genes: u32::MAX, n_cells: 1, nnz: u64::MAX, layout: 1 };
    assert_eq!(h.expected_len(), 32 + 8 * (u32::MAX as u128 + 1) + 8 * u64::MAX as u128);
}

#[test]
fn read_header_rejects_bad_magic() {
    let mut bytes = write_header(&header());
    bytes[0] = b'X';
    assert_eq!(read_header(&bytes), Err(StoreError::BadMagic));
    assert_eq!(StoreError::BadMagic.kind(), ErrorKind::Format);
}

#[test]
fn read_header_rejects_version_and_layout() {
    let mut h = header();
    h.version = 2;
    assert_eq!(read_header(&write_header(&h)), Err(StoreError::UnsupportedVersion(2)));
    let mut h = header();
    h.layout = 7;
    assert_eq!(read_header(&write_header(&h)), Err(StoreError::UnsupportedLayout(7)));
}

#[test]
fn read_header_rejects_truncated() {
    let bytes = write_header(&header());
    assert_eq!(read_header(&bytes[..5]), Err(StoreError::Truncated));
    assert_eq!(read_header(&bytes[..10]), Err(StoreError::Truncated));
    assert_eq!(read_header(&bytes[..31]), Err(StoreError::Truncated));
}
