use kira_proteoqc_core::error::ReduceError;
use kira_proteoqc_core::fusion::{build_plan, TargetRef};
use kira_proteoqc_core::geneset::ResolvedGeneset;
use kira_proteoqc_core::store::{encode_store, SparseStore};

fn set(id: &str, gene_ids: Vec<usize>) -> ResolvedGeneset {
    let total = gene_ids.len();
    ResolvedGeneset { id: id.to_string(), axis: 'A', gene_ids, missing: vec![], total }
}

fn example() -> SparseStore {
    let values: Vec<u32> = [1.0f32, 2.0, 3.0, 4.0, 5.0].iter().map(|x| x.to_bits()).collect();
    let b = encode_store(4, &[0, 2, 4, 5], &[0, 2, 1, 3, 2], &values);
    SparseStore::open(&b).unwrap()
}

#[test]
fn plan_membership_is_sorted_by_target() {
    let resolved = vec![set("b", vec![0, 2]), set("x", vec![1]), set("a", vec![2])];
    let plan = build_plan(3, 4, &resolved, &["a", "b"]);
    assert_eq!(plan.targets, vec!["a", "b"]);
    assert_eq!(plan.gene_counts, vec![1, 2]);
    assert_eq!(plan.membership[0], vec![TargetRef { target_id: 1 }]);
    assert!(plan.membership[1].is_empty());
    assert_eq!(plan.membership[2], vec![TargetRef { target_id: 0 }, TargetRef { target_id: 1 }]);
    assert_eq!(plan.n_cells, 4);
}

#[test]
fn duplicate_target_name_uses_last_position() {
    let resolved = vec![set("a", vec![0])];
    let plan = build_plan(3, 4, &resolved, &["a", "b", "a"]);
    assert_eq!(plan.gene_counts, vec![0, 0, 1]);
    assert_eq!(plan.membership[0], vec![TargetRef { target_id: 2 }]);
}

#[test]
fn fusion_equivalence() {
    let store = example();
    let resolved = vec![set("t0", vec![0, 2]), set("t1", vec![1]), set("t2", vec![0, 1, 2])];
    let plan = build_plan(3, 4, &resolved, &["t0", "t1", "t2"]);
    let n = plan.n_cells;
    let entries = store.fused_entries(&plan, 3 * n).unwrap();
    let mut fused = vec![0.0f32; 3 * n];
    for (t, c, v) in entries {
        fused[t * n + c as usize] += f32::from_bits(v);
    }
    for (t, gs) in resolved.iter().enumerate() {
        let mut out = vec![0.0f32; n];
        for (c, v) in store.scalar_entries(&gs.gene_ids) {
            out[c as usize] += f32::from_bits(v);
        }
        let count = plan.gene_counts[t] as f32;
        for c in 0..n {
            assert_eq!(fused[t * n + c] / count, out[c] / count);
        }
    }
}

#[test]
fn fused_length_and_shape_errors() {
    let store = example();
    let plan = build_plan(3, 4, &[set("t0", vec![0])], &["t0"]);
    assert_eq!(store.fused_entries(&plan, 5).err(), Some(ReduceError::FusedLengthMismatch));
    let plan = build_plan(3, 5, &[set("t0", vec![0])], &["t0"]);
    assert_eq!(store.fused_entries(&plan, 5).err(), Some(ReduceError::PlanShapeMismatch));
    let plan = build_plan(4, 4, &[set("t0", vec![3])], &["t0"]);
    assert_eq!(store.fused_entries(&plan, 4).err(), Some(ReduceError::PlanShapeMismatch));
}
