use kira_proteoqc_core::error::{ErrorKind, ReduceError};
use kira_proteoqc_core::reduce::{
    block_runs, lower_bound, nan_bits, select_strategy, shard_bounds, Strategy,
};
use kira_proteoqc_core::store::{encode_store, SparseStore};

fn bits(v: &[f32]) -> Vec<u32> {
    v.iter().map(|x| x.to_bits()).collect()
}

fn example() -> SparseStore {
    let b = encode_store(4, &[0, 2, 4, 5], &[0, 2, 1, 3, 2], &bits(&[1.0, 2.0, 3.0, 4.0, 5.0]));
    SparseStore::open(&b).unwrap()
}

fn sum_into(out: &mut [f32], entries: &[(u32, u32)]) {
    for &(c, v) in entries {
        out[c as usize] += f32::from_bits(v);
    }
}

fn finish(out: &mut [f32], n_genes: usize) {
    for v in out.iter_mut() {
        *v /= n_genes as f32;
    }
}

fn scalar(store: &SparseStore, genes: &[usize]) -> Vec<f32> {
    store.check_request(genes, store.n_cells()).unwrap();
    let mut out = vec![0.0f32; store.n_cells()];
    if genes.is_empty() {
        return out;
    }
    sum_into(&mut out, &store.scalar_entries(genes));
    finish(&mut out, genes.len());
    out
}

fn sharded(store: &SparseStore, genes: &[usize], shard_len: usize) -> Vec<f32> {
    let mut out = vec![0.0f32; store.n_cells()];
    for (lo, hi) in shard_bounds(store.n_cells(), shard_len) {
        sum_into(&mut out, &store.shard_entries(genes, lo as u32, hi as u32));
    }
    finish(&mut out, genes.len());
    out
}

fn blocked(store: &SparseStore, genes: &[usize], block: usize) -> Vec<f32> {
    let mut out = vec![0.0f32; store.n_cells()];
    for &g in genes {
        let (cells, values) = store.gene_slice(g).unwrap();
        for (s, e) in block_runs(cells, store.n_cells(), block) {
            for i in s..e {
                out[cells[i] as usize] += f32::from_bits(values[i]);
            }
        }
    }
    finish(&mut out, genes.len());
    out
}

#[test]
fn reducer_single_gene() {
    assert_eq!(scalar(&example(), &[1]), vec![0.0, 3.0, 0.0, 4.0]);
}

#[test]
fn reducer_multi_gene_mean() {
    assert_eq!(scalar(&example(), &[0, 2]), vec![0.5, 0.0, 3.5, 0.0]);
}

#[test]
fn reducer_determinism() {
    let store = example();
    assert_eq!(store.scalar_entries(&[0, 2]), store.scalar_entries(&[0, 2]));
    assert_eq!(scalar(&store, &[0, 2]), scalar(&store, &[0, 2]));
}

#[test]
fn scalar_schedule_is_gene_major() {
    let store = example();
    let e = store.scalar_entries(&[2, 0]);
    assert_eq!(e, vec![(2, 5.0f32.to_bits()), (0, 1.0f32.to_bits()), (2, 2.0f32.to_bits())]);
}

#[test]
fn mt_equivalence_scalar() {
    let store = example();
    for genes in [&[1usize][..], &[0, 2], &[0, 1, 2], &[2, 2]] {
        for shard_len in [1, 2, 3, 4096] {
            assert_eq!(sharded(&store, genes, shard_len), scalar(&store, genes));
        }
    }
}

#[test]
fn blocked_equivalence() {
    let store = example();
    for genes in [&[1usize][..], &[0, 2], &[0, 1, 2]] {
        for block in [0, 1, 2, 3, 4096] {
            assert_eq!(blocked(&store, genes, block), scalar(&store, genes));
        }
    }
}

#[test]
fn shard_entries_keep_only_the_window() {
    let store = example();
    assert_eq!(store.shard_entries(&[0, 1, 2], 2, 3), vec![
        (2, 2.0f32.to_bits()),
        (2, 5.0f32.to_bits()),
    ]);
    assert_eq!(store.shard_entries(&[0, 1, 2], 3, 1), vec![]);
}

#[test]
fn empty_gene_list_is_all_zero() {
    let store = example();
    assert_eq!(store.check_request(&[], 4), Ok(()));
    assert!(store.scalar_entries(&[]).is_empty());
    assert_eq!(scalar(&store, &[]), vec![0.0; 4]);
}

#[test]
fn request_errors() {
    let store = example();
    assert_eq!(
        store.check_request(&[0], 3),
        Err(ReduceError::OutputLengthMismatch { expected: 4, actual: 3 })
    );
    assert_eq!(store.check_request(&[0, 3], 4), Err(ReduceError::GeneOutOfRange));
    assert_eq!(ReduceError::GeneOutOfRange.kind(), ErrorKind::Usage);
}

#[test]
fn nan_is_a_hard_error() {
    let b = encode_store(2, &[0, 1, 2], &[0, 1], &bits(&[1.0, f32::NAN]));
    let store = SparseStore::open(&b).unwrap();
    assert_eq!(store.check_request(&[0], 2), Ok(()));
    assert_eq!(store.check_request(&[0, 1], 2), Err(ReduceError::NanValue));
    assert_eq!(ReduceError::NanValue.kind(), ErrorKind::DataQuality);
}

#[test]
fn nan_bits_detects_only_nan() {
    assert!(nan_bits(f32::NAN.to_bits()));
    assert!(nan_bits(0x7fc0_0001));
    assert!(nan_bits(0xffc0_0000));
    assert!(!nan_bits(f32::INFINITY.to_bits()));
    assert!(!nan_bits(f32::NEG_INFINITY.to_bits()));
    assert!(!nan_bits(1.5f32.to_bits()));
    assert!(!nan_bits(0));
}

#[test]
fn lower_bound_positions() {
    let s = [1u32, 3, 3, 5, 9];
    assert_eq!(lower_bound(&s, 0), 0);
    assert_eq!(lower_bound(&s, 3), 1);
    assert_eq!(lower_bound(&s, 4), 3);
    assert_eq!(lower_bound(&s, 9), 4);
    assert_eq!(lower_bound(&s, 10), 5);
    assert_eq!(lower_bound(&[], 1), 0);
}

#[test]
fn shard_bounds_cover_cells() {
    assert_eq!(shard_bounds(10, 4), vec![(0, 4), (4, 8), (8, 10)]);
    assert_eq!(shard_bounds(8, 4), vec![(0, 4), (4, 8)]);
    assert_eq!(shard_bounds(0, 4), vec![]);
}

#[test]
fn block_runs_group_by_window() {
    let cells = [0u32, 1, 3, 4, 5, 9];
    assert_eq!(block_runs(&cells, 10, 4), vec![(0, 3), (3, 5), (5, 6)]);
    assert_eq!(block_runs(&cells, 10, 0), vec![(0, 1), (1, 2), (2, 3), (3, 4), (4, 5), (5, 6)]);
    assert_eq!(block_runs(&cells, 10, 100), vec![(0, 6)]);
    assert_eq!(block_runs(&[], 10, 4), vec![]);
}

#[test]
fn strategy_selection() {
    assert_eq!(select_strategy(4, 64), Strategy::Sharded { threads: 4 });
    assert_eq!(select_strategy(1, 64), Strategy::Blocked { block: 64 });
    assert_eq!(select_strategy(0, 0), Strategy::Scalar);
}
