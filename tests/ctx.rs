use kira_proteoqc_core::ctx::{resolve_shared_cache_path, shared_cache_file_name, InputFormat};
use kira_proteoqc_core::simd::backend_name;

#[test]
fn detects_input_format_by_extension() {
    assert_eq!(InputFormat::detect("data/sample.h5ad"), InputFormat::H5ad);
    assert_eq!(InputFormat::detect("data/sample.H5AD"), InputFormat::Mtx10x);
    assert_eq!(InputFormat::detect("data/filtered"), InputFormat::Mtx10x);
    assert_eq!(InputFormat::detect(".h5ad"), InputFormat::Mtx10x);
}

#[test]
fn format_from_extension() {
    assert_eq!(InputFormat::from_extension(Some("h5ad")), InputFormat::H5ad);
    assert_eq!(InputFormat::from_extension(Some("mtx")), InputFormat::Mtx10x);
    assert_eq!(InputFormat::from_extension(None), InputFormat::Mtx10x);
}

#[test]
fn resolves_shared_cache_filename() {
    assert_eq!(shared_cache_file_name(Some("XYZ")), "XYZ.kira-organelle.bin");
    assert_eq!(shared_cache_file_name(None), "kira-organelle.bin");
    assert_eq!(shared_cache_file_name(Some("")), "kira-organelle.bin");
    let p = resolve_shared_cache_path("in", Some("XYZ"));
    assert!(p.ends_with("XYZ.kira-organelle.bin"));
    assert!(p.starts_with("in"));
}

#[test]
fn backend_is_scalar() {
    assert_eq!(backend_name(), "scalar");
}
