//! Fusion plans: one pass over the gene rows feeds several target gene sets.
use vstd::prelude::*;

use crate::error::ReduceError;
use crate::geneset::{lemma_strict, ResolvedGeneset};
use crate::reduce::{entries_in, for_cell, lemma_for_cell_append};
use crate::store::SparseStore;

verus! {

/// One gene's contribution to one target. Contributions are unweighted.
#[derive(Debug, Clone, Copy, PartialEq, Eq, Structural)]
pub struct TargetRef {
    pub target_id: usize,
}

/// For every gene row, the targets it contributes to, sorted by target.
pub struct FusionPlan {
    pub targets: Vec<String>,
    pub gene_counts: Vec<usize>,
    pub membership: Vec<Vec<TargetRef>>,
    pub n_cells: usize,
}

/// The position of the last target named `id`.
pub open spec fn target_index(targets: Seq<Seq<char>>, id: Seq<char>) -> Option<int>
    decreases targets.len(),
{
    if targets.len() == 0 {
        None
    } else if targets.last() == id {
        Some(targets.len() - 1)
    } else {
        target_index(targets.drop_last(), id)
    }
}

/// How often `g` occurs in `ids`.
pub open spec fn occurrences(ids: Seq<usize>, g: int) -> nat
    decreases ids.len(),
{
    if ids.len() == 0 {
        0
    } else {
        occurrences(ids.drop_last(), g) + if ids.last() == g {
            1nat
        } else {
            0nat
        }
    }
}

pub open spec fn names(targets: Seq<&str>) -> Seq<Seq<char>> {
    targets.map_values(|t: &str| t@)
}

/// The target a resolved set feeds, if any.
pub open spec fn set_target(targets: Seq<Seq<char>>, r: ResolvedGeneset) -> Option<int> {
    target_index(targets, r.id@)
}

/// The target a set feeds, if any, is below `n`.
pub open spec fn target_below(targets: Seq<Seq<char>>, r: ResolvedGeneset, n: int) -> bool {
    match set_target(targets, r) {
        Some(x) => 0 <= x < n,
        None => true,
    }
}

/// Gene count of target `t`: that of the last resolved set feeding it, else 0.
pub open spec fn gene_count(targets: Seq<Seq<char>>, resolved: Seq<ResolvedGeneset>, t: int) -> int
    decreases resolved.len(),
{
    if resolved.len() == 0 {
        0
    } else if set_target(targets, resolved.last()) == Some(t) {
        resolved.last().gene_ids@.len() as int
    } else {
        gene_count(targets, resolved.drop_last(), t)
    }
}

/// The references of gene `g` to target `t`, one per occurrence in each set
/// feeding `t`.
pub open spec fn refs_to(
    targets: Seq<Seq<char>>,
    resolved: Seq<ResolvedGeneset>,
    g: int,
    t: int,
) -> Seq<TargetRef>
    decreases resolved.len(),
{
    if resolved.len() == 0 {
        Seq::empty()
    } else {
        refs_to(targets, resolved.drop_last(), g, t) + if set_target(targets, resolved.last())
            == Some(t) {
            Seq::new(
                occurrences(resolved.last().gene_ids@, g),
                |i: int| TargetRef { target_id: t as usize },
            )
        } else {
            Seq::empty()
        }
    }
}

/// The membership list of gene `g` over the first `n` targets.
pub open spec fn membership_of(
    targets: Seq<Seq<char>>,
    resolved: Seq<ResolvedGeneset>,
    g: int,
    n: int,
) -> Seq<TargetRef>
    decreases n,
{
    if n <= 0 {
        Seq::empty()
    } else {
        membership_of(targets, resolved, g, n - 1) + refs_to(targets, resolved, g, n - 1)
    }
}

impl FusionPlan {
    /// Every reference names a target of the plan.
    pub open spec fn wf(&self) -> bool {
        &&& self.gene_counts@.len() == self.targets@.len()
        &&& forall|g: int, i: int|
            0 <= g < self.membership@.len() && 0 <= i < self.membership@[g]@.len()
                ==> #[trigger] self.membership@[g]@[i].target_id < self.targets@.len()
    }
}

proof fn lemma_target_index_bound(targets: Seq<Seq<char>>, id: Seq<char>)
    ensures
        target_index(targets, id) matches Some(t) ==> 0 <= t < targets.len(),
    decreases targets.len(),
{
    if targets.len() > 0 {
        lemma_target_index_bound(targets.drop_last(), id);
    }
}

proof fn lemma_refs_to_all(targets: Seq<Seq<char>>, resolved: Seq<ResolvedGeneset>, g: int, t: int)
    ensures
        forall|i: int|
            0 <= i < refs_to(targets, resolved, g, t).len() ==> #[trigger] refs_to(
                targets,
                resolved,
                g,
                t,
            )[i] == (TargetRef { target_id: t as usize }),
    decreases resolved.len(),
{
    if resolved.len() > 0 {
        lemma_refs_to_all(targets, resolved.drop_last(), g, t);
        let a = refs_to(targets, resolved.drop_last(), g, t);
        let b = if set_target(targets, resolved.last()) == Some(t) {
            Seq::new(
                occurrences(resolved.last().gene_ids@, g),
                |i: int| TargetRef { target_id: t as usize },
            )
        } else {
            Seq::empty()
        };
        assert forall|i: int| 0 <= i < (a + b).len() implies #[trigger] (a + b)[i] == (TargetRef { target_id: t as usize }) by {
            if i >= a.len() {
                assert((a + b)[i] == b[i - a.len()]);
            } else {
                assert((a + b)[i] == a[i]);
            }
        }
    }
}

proof fn lemma_membership_targets(
    targets: Seq<Seq<char>>,
    resolved: Seq<ResolvedGeneset>,
    g: int,
    n: int,
)
    requires
        n <= usize::MAX,
    ensures
        forall|i: int|
            0 <= i < membership_of(targets, resolved, g, n).len() ==> (#[trigger] membership_of(
                targets,
                resolved,
                g,
                n,
            )[i]).target_id < n,
    decreases n,
{
    if n > 0 {
        lemma_membership_targets(targets, resolved, g, n - 1);
        lemma_refs_to_all(targets, resolved, g, n - 1);
        let a = membership_of(targets, resolved, g, n - 1);
        let b = refs_to(targets, resolved, g, n - 1);
        assert forall|i: int| 0 <= i < (a + b).len() implies (#[trigger] (a + b)[i]).target_id < n by {
            if i >= a.len() {
                assert((a + b)[i] == b[i - a.len()]);
            } else {
                assert((a + b)[i] == a[i]);
            }
        }
    }
}

fn find_target(targets: &Vec<String>, id: &String) -> (r: Option<usize>)
    ensures
        r matches Some(t) ==> target_index(targets@.map_values(|s: String| s@), id@) == Some(
            t as int,
        ),
        r is None ==> target_index(targets@.map_values(|s: String| s@), id@) is None,
{
    let mut i: usize = targets.len();
    assert(targets@.subrange(0, i as int) =~= targets@);
    while i > 0
        invariant
            i <= targets@.len(),
            target_index(targets@.map_values(|s: String| s@), id@) == target_index(
                targets@.subrange(0, i as int).map_values(|s: String| s@),
                id@,
            ),
        decreases i,
    {
        let ghost prefix = targets@.subrange(0, i as int).map_values(|s: String| s@);
        assert(prefix.drop_last() =~= targets@.subrange(0, i - 1).map_values(|s: String| s@));
        if targets[i - 1] == *id {
            return Some(i - 1);
        }
        i -= 1;
    }
    assert(targets@.subrange(0, 0).map_values(|s: String| s@) =~= Seq::<Seq<char>>::empty());
    None
}

/// Builds the plan: each target named once per position (a later duplicate
/// name takes over the name), each gene's references grouped by target in
/// increasing order, and within a target in the order of the resolved sets.
pub fn build_plan(
    n_genes: usize,
    n_cells: usize,
    resolved: &[ResolvedGeneset],
    target_ids: &[&str],
) -> (r: FusionPlan)
    requires
        forall|s: int, i: int|
            0 <= s < resolved@.len() && 0 <= i < resolved@[s].gene_ids@.len()
                ==> #[trigger] resolved@[s].gene_ids@[i] < n_genes,
    ensures
        r.wf(),
        r.n_cells == n_cells,
        r.targets@.map_values(|s: String| s@) == names(target_ids@),
        forall|t: int|
            0 <= t < r.gene_counts@.len() ==> #[trigger] r.gene_counts@[t] == gene_count(
                names(target_ids@),
                resolved@,
                t,
            ),
        r.membership@.len() == n_genes,
        forall|g: int|
            0 <= g < n_genes ==> #[trigger] r.membership@[g]@ == membership_of(
                names(target_ids@),
                resolved@,
                g,
                target_ids@.len() as int,
            ),
{
    let mut targets: Vec<String> = Vec::new();
    let mut i: usize = 0;
    while i < target_ids.len()
        invariant
            i <= target_ids@.len(),
            targets@.map_values(|s: String| s@) =~= names(target_ids@.subrange(0, i as int)),
        decreases target_ids.len() - i,
    {
        let name: String = target_ids[i].to_owned();
        assert(name@ == target_ids@[i as int]@);
        let ghost before = targets@;
        targets.push(name);
        assert(target_ids@.subrange(0, i + 1) =~= target_ids@.subrange(0, i as int).push(target_ids@[i as int]));
        assert(targets@ =~= before.push(name));
        assert(names(target_ids@.subrange(0, i + 1)) =~= names(target_ids@.subrange(0, i as int)).push(target_ids@[i as int]@));
        assert(targets@.map_values(|x: String| x@) =~= before.map_values(|x: String| x@).push(name@));
        i += 1;
    }
    assert(target_ids@.subrange(0, target_ids@.len() as int) =~= target_ids@);
    let ghost tn = names(target_ids@);
    let n_targets = targets.len();
    proof {
        assert forall|j: int| 0 <= j < resolved@.len() implies #[trigger] target_below(tn, resolved@[j], n_targets as int) by {
            lemma_target_index_bound(tn, resolved@[j].id@);
        }
    }
    // The target each resolved set feeds.
    let mut feeds: Vec<Option<usize>> = Vec::new();
    let mut s: usize = 0;
    while s < resolved.len()
        invariant
            s <= resolved@.len(),
            targets@.map_values(|x: String| x@) == tn,
            feeds@.len() == s,
            forall|j: int|
                0 <= j < s ==> #[trigger] feeds@[j] == match set_target(tn, resolved@[j]) {
                    Some(t) => Some(t as usize),
                    None => None::<usize>,
                },
        decreases resolved.len() - s,
    {
        feeds.push(find_target(&targets, &resolved[s].id));
        s += 1;
    }
    // Gene counts: the last set feeding each target wins.
    let mut gene_counts: Vec<usize> = Vec::new();
    let mut t: usize = 0;
    while t < n_targets
        invariant
            t <= n_targets,
            n_targets == tn.len(),
            feeds@.len() == resolved@.len(),
            n_targets == tn.len(),
            forall|j: int| 0 <= j < resolved@.len() ==> #[trigger] target_below(tn, resolved@[j], n_targets as int),
            forall|j: int|
                0 <= j < resolved@.len() ==> #[trigger] feeds@[j] == match set_target(
                    tn,
                    resolved@[j],
                ) {
                    Some(t) => Some(t as usize),
                    None => None::<usize>,
                },
            gene_counts@.len() == t,
            forall|u: int| 0 <= u < t ==> #[trigger] gene_counts@[u] == gene_count(tn, resolved@, u),
        decreases n_targets - t,
    {
        let mut count: usize = 0;
        let mut s: usize = 0;
        while s < resolved.len()
            invariant
                s <= resolved@.len(),
                feeds@.len() == resolved@.len(),
                n_targets == tn.len(),
                forall|j: int| 0 <= j < resolved@.len() ==> #[trigger] target_below(tn, resolved@[j], n_targets as int),
                forall|j: int|
                    0 <= j < resolved@.len() ==> #[trigger] feeds@[j] == match set_target(
                        tn,
                        resolved@[j],
                    ) {
                        Some(t) => Some(t as usize),
                        None => None::<usize>,
                    },
                count == gene_count(tn, resolved@.subrange(0, s as int), t as int),
            decreases resolved.len() - s,
        {
            let ghost pre = resolved@.subrange(0, s + 1);
            assert(pre.drop_last() =~= resolved@.subrange(0, s as int));
            assert(pre.last() == resolved@[s as int]);
            assert(target_below(tn, resolved@[s as int], n_targets as int));
            if feeds[s] == Some(t) {
                count = resolved[s].gene_ids.len();
            }
            s += 1;
        }
        assert(resolved@.subrange(0, resolved@.len() as int) =~= resolved@);
        gene_counts.push(count);
        t += 1;
    }
    // Membership, target by target.
    let mut membership: Vec<Vec<TargetRef>> = Vec::new();
    let mut g: usize = 0;
    while g < n_genes
        invariant
            g <= n_genes,
            membership@.len() == g,
            forall|h: int| 0 <= h < g ==> #[trigger] membership@[h]@ == Seq::<TargetRef>::empty(),
        decreases n_genes - g,
    {
        membership.push(Vec::new());
        g += 1;
    }
    let mut t: usize = 0;
    while t < n_targets
        invariant
            t <= n_targets,
            n_targets == tn.len(),
            feeds@.len() == resolved@.len(),
            n_targets == tn.len(),
            forall|j: int| 0 <= j < resolved@.len() ==> #[trigger] target_below(tn, resolved@[j], n_targets as int),
            forall|j: int|
                0 <= j < resolved@.len() ==> #[trigger] feeds@[j] == match set_target(
                    tn,
                    resolved@[j],
                ) {
                    Some(t) => Some(t as usize),
                    None => None::<usize>,
                },
            forall|s: int, i: int|
                0 <= s < resolved@.len() && 0 <= i < resolved@[s].gene_ids@.len()
                    ==> #[trigger] resolved@[s].gene_ids@[i] < n_genes,
            membership@.len() == n_genes,
            forall|h: int|
                0 <= h < n_genes ==> #[trigger] membership@[h]@ == membership_of(
                    tn,
                    resolved@,
                    h,
                    t as int,
                ),
        decreases n_targets - t,
    {
        let mut s: usize = 0;
        while s < resolved.len()
            invariant
                t < n_targets,
                s <= resolved@.len(),
                feeds@.len() == resolved@.len(),
                n_targets == tn.len(),
                forall|j: int| 0 <= j < resolved@.len() ==> #[trigger] target_below(tn, resolved@[j], n_targets as int),
                forall|j: int|
                    0 <= j < resolved@.len() ==> #[trigger] feeds@[j] == match set_target(
                        tn,
                        resolved@[j],
                    ) {
                        Some(t) => Some(t as usize),
                        None => None::<usize>,
                    },
                forall|s2: int, i: int|
                    0 <= s2 < resolved@.len() && 0 <= i < resolved@[s2].gene_ids@.len()
                        ==> #[trigger] resolved@[s2].gene_ids@[i] < n_genes,
                membership@.len() == n_genes,
                forall|h: int|
                    0 <= h < n_genes ==> #[trigger] membership@[h]@ == membership_of(
                        tn,
                        resolved@,
                        h,
                        t as int,
                    ) + refs_to(tn, resolved@.subrange(0, s as int), h, t as int),
            decreases resolved.len() - s,
        {
            let ghost pre = resolved@.subrange(0, s + 1);
            assert(pre.drop_last() =~= resolved@.subrange(0, s as int));
            assert(pre.last() == resolved@[s as int]);
            assert(target_below(tn, resolved@[s as int], n_targets as int));
            if feeds[s] == Some(t) {
                let ids = &resolved[s].gene_ids;
                let mut j: usize = 0;
                while j < ids.len()
                    invariant
                        t < n_targets,
                        s < resolved@.len(),
                        ids@ == resolved@[s as int].gene_ids@,
                        j <= ids@.len(),
                        forall|i: int| 0 <= i < ids@.len() ==> #[trigger] ids@[i] < n_genes,
                        membership@.len() == n_genes,
                        forall|h: int|
                            0 <= h < n_genes ==> #[trigger] membership@[h]@ == membership_of(
                                tn,
                                resolved@,
                                h,
                                t as int,
                            ) + refs_to(tn, resolved@.subrange(0, s as int), h, t as int) + Seq::new(
                                occurrences(ids@.subrange(0, j as int), h),
                                |i: int| TargetRef { target_id: t },
                            ),
                    decreases ids.len() - j,
                {
                    let gene = ids[j];
                    assert(gene < n_genes);
                    let ghost before = membership@;
                    membership[gene].push(TargetRef { target_id: t });
                    proof {
                        assert forall|h: int| 0 <= h < n_genes implies #[trigger] membership@[h]@
                            == membership_of(tn, resolved@, h, t as int) + refs_to(
                            tn,
                            resolved@.subrange(0, s as int),
                            h,
                            t as int,
                        ) + Seq::new(
                            occurrences(ids@.subrange(0, j + 1), h),
                            |i: int| TargetRef { target_id: t },
                        ) by {
                            assert(ids@.subrange(0, j + 1).drop_last() =~= ids@.subrange(0, j as int));
                            if h == gene {
                                assert(membership@[h]@ =~= before[h]@.push(TargetRef { target_id: t }));
                            } else {
                                assert(membership@[h] == before[h]);
                            }
                        }
                    }
                    j += 1;
                }
                proof {
                    assert(ids@.subrange(0, ids@.len() as int) =~= ids@);
                    assert forall|h: int| 0 <= h < n_genes implies #[trigger] membership@[h]@
                        == membership_of(tn, resolved@, h, t as int) + refs_to(
                        tn,
                        resolved@.subrange(0, s + 1),
                        h,
                        t as int,
                    ) by {}
                }
            } else {
                proof {
                    assert forall|h: int| 0 <= h < n_genes implies #[trigger] membership@[h]@
                        == membership_of(tn, resolved@, h, t as int) + refs_to(
                        tn,
                        resolved@.subrange(0, s + 1),
                        h,
                        t as int,
                    ) by {}
                }
            }
            s += 1;
        }
        assert(resolved@.subrange(0, resolved@.len() as int) =~= resolved@);
        t += 1;
    }
    let r = FusionPlan { targets, gene_counts, membership, n_cells };
    proof {
        assert forall|g: int, i: int|
            0 <= g < r.membership@.len() && 0 <= i < r.membership@[g]@.len()
                implies #[trigger] r.membership@[g]@[i].target_id < r.targets@.len() by {
            lemma_membership_targets(tn, resolved@, g, n_targets as int);
        }
    }
    r
}

/// The fused pass over entries `[a, b)` of one row: each entry once per
/// reference of the row, as `(target, cell, value bits)`.
pub open spec fn fused_row(ci: Seq<u32>, vb: Seq<u32>, refs: Seq<TargetRef>, a: int, b: int) -> Seq<
    (usize, u32, u32),
>
    decreases b - a,
{
    if b <= a {
        Seq::empty()
    } else {
        fused_row(ci, vb, refs, a, b - 1) + Seq::new(
            refs.len(),
            |i: int| (refs[i].target_id, ci[b - 1], vb[b - 1]),
        )
    }
}

impl SparseStore {
    /// The fused pass over the first `n` gene rows, skipping rows that feed
    /// no target.
    pub open spec fn fused_schedule(&self, membership: Seq<Vec<TargetRef>>, n: int) -> Seq<
        (usize, u32, u32),
    >
        decreases n,
    {
        if n <= 0 {
            Seq::empty()
        } else {
            self.fused_schedule(membership, n - 1) + if membership[n - 1]@.len() == 0 {
                Seq::empty()
            } else {
                fused_row(
                    self.cell_idx@,
                    self.value_bits@,
                    membership[n - 1]@,
                    self.row_start(n - 1),
                    self.row_end(n - 1),
                )
            }
        }
    }

    /// Why a plan cannot be run into an output of `out_len` values.
    pub open spec fn fused_error(&self, plan: &FusionPlan, out_len: int) -> Option<ReduceError> {
        if out_len != plan.targets@.len() * plan.n_cells {
            Some(ReduceError::FusedLengthMismatch)
        } else if plan.n_cells != self.spec_n_cells() || plan.membership@.len()
            > self.spec_n_genes() {
            Some(ReduceError::PlanShapeMismatch)
        } else {
            None
        }
    }

    /// One pass over the gene rows with nonzero membership, handing each
    /// value to every target the row feeds. The caller adds value `v` of
    /// `(t, c, v)` at `t * n_cells + c`; nothing is divided.
    pub fn fused_entries(&self, plan: &FusionPlan, out_len: usize) -> (r: Result<
        Vec<(usize, u32, u32)>,
        ReduceError,
    >)
        requires
            self.wf(),
            plan.wf(),
        ensures
            match r {
                Ok(v) => {
                    &&& self.fused_error(plan, out_len as int) is None
                    &&& v@ == self.fused_schedule(plan.membership@, plan.membership@.len() as int)
                },
                Err(e) => self.fused_error(plan, out_len as int) == Some(e),
            },
    {
        let nt = plan.targets.len() as u128;
        let nc = plan.n_cells as u128;
        assert(nt * nc <= 0xffff_ffff_ffff_ffffu128 * 0xffff_ffff_ffff_ffffu128) by (nonlinear_arith)
            requires
                nt <= 0xffff_ffff_ffff_ffffu128,
                nc <= 0xffff_ffff_ffff_ffffu128,
        ;
        if out_len as u128 != nt * nc {
            return Err(ReduceError::FusedLengthMismatch);
        }
        if plan.n_cells != self.n_cells() || plan.membership.len() > self.n_genes() {
            return Err(ReduceError::PlanShapeMismatch);
        }
        let ghost ci = self.cell_idx@;
        let ghost vb = self.value_bits@;
        let ghost memb = plan.membership@;
        let mut r: Vec<(usize, u32, u32)> = Vec::new();
        let mut g: usize = 0;
        while g < plan.membership.len()
            invariant
                self.wf(),
                ci == self.cell_idx@,
                vb == self.value_bits@,
                memb == plan.membership@,
                plan.membership@.len() <= self.spec_n_genes(),
                g <= plan.membership@.len(),
                r@ == self.fused_schedule(memb, g as int),
            decreases plan.membership.len() - g,
        {
            let refs = &plan.membership[g];
            if refs.len() > 0 {
                let (start, end) = self.row_range(g);
                let ghost before = r@;
                let mut k: usize = start;
                while k < end
                    invariant
                        self.wf(),
                        ci == self.cell_idx@,
                        vb == self.value_bits@,
                        start <= k <= end,
                        end <= ci.len(),
                        r@ == before + fused_row(ci, vb, refs@, start as int, k as int),
                    decreases end - k,
                {
                    let ghost before_k = r@;
                    let mut i: usize = 0;
                    while i < refs.len()
                        invariant
                            k < end,
                            end <= ci.len(),
                            vb.len() == ci.len(),
                            ci == self.cell_idx@,
                            vb == self.value_bits@,
                            i <= refs@.len(),
                            r@ == before_k + Seq::new(
                                i as nat,
                                |j: int| (refs@[j].target_id, ci[k as int], vb[k as int]),
                            ),
                        decreases refs.len() - i,
                    {
                        r.push((refs[i].target_id, self.cell_idx[k], self.value_bits[k]));
                        proof {
                            assert(r@ =~= before_k + Seq::new(
                                (i + 1) as nat,
                                |j: int| (refs@[j].target_id, ci[k as int], vb[k as int]),
                            ));
                        }
                        i += 1;
                    }
                    proof {
                        assert(r@ =~= before + fused_row(ci, vb, refs@, start as int, k + 1));
                    }
                    k += 1;
                }
            }
            g += 1;
        }
        Ok(r)
    }
}

/// The values a fused schedule adds into cell `c` of target `t`, in order.
pub open spec fn for_target_cell(s: Seq<(usize, u32, u32)>, t: int, c: int) -> Seq<u32>
    decreases s.len(),
{
    if s.len() == 0 {
        Seq::empty()
    } else {
        for_target_cell(s.drop_last(), t, c) + if s.last().0 == t && s.last().1 == c {
            seq![s.last().2]
        } else {
            Seq::empty()
        }
    }
}

/// How many references name target `t`.
pub open spec fn tcount(refs: Seq<TargetRef>, t: int) -> nat
    decreases refs.len(),
{
    if refs.len() == 0 {
        0
    } else {
        tcount(refs.drop_last(), t) + if refs.last().target_id == t {
            1nat
        } else {
            0nat
        }
    }
}

proof fn lemma_ftc_append(s1: Seq<(usize, u32, u32)>, s2: Seq<(usize, u32, u32)>, t: int, c: int)
    ensures
        for_target_cell(s1 + s2, t, c) == for_target_cell(s1, t, c) + for_target_cell(s2, t, c),
    decreases s2.len(),
{
    if s2.len() == 0 {
        assert(s1 + s2 =~= s1);
        assert(for_target_cell(s1, t, c) + for_target_cell(s2, t, c) =~= for_target_cell(s1, t, c));
    } else {
        lemma_ftc_append(s1, s2.drop_last(), t, c);
        assert((s1 + s2).drop_last() =~= s1 + s2.drop_last());
        assert(for_target_cell(s1 + s2, t, c) =~= for_target_cell(s1, t, c) + for_target_cell(
            s2,
            t,
            c,
        ));
    }
}

proof fn lemma_tcount_append(a: Seq<TargetRef>, b: Seq<TargetRef>, t: int)
    ensures
        tcount(a + b, t) == tcount(a, t) + tcount(b, t),
    decreases b.len(),
{
    if b.len() == 0 {
        assert(a + b =~= a);
    } else {
        lemma_tcount_append(a, b.drop_last(), t);
        assert((a + b).drop_last() =~= a + b.drop_last());
    }
}

proof fn lemma_tcount_uniform(refs: Seq<TargetRef>, u: int, t: int)
    requires
        forall|i: int| 0 <= i < refs.len() ==> (#[trigger] refs[i]).target_id == u,
    ensures
        tcount(refs, t) == if u == t {
            refs.len()
        } else {
            0
        },
    decreases refs.len(),
{
    if refs.len() > 0 {
        lemma_tcount_uniform(refs.drop_last(), u, t);
    }
}

/// One entry handed to every reference of its row.
proof fn lemma_ftc_entry(refs: Seq<TargetRef>, t: int, c: int, x: u32, y: u32)
    ensures
        for_target_cell(Seq::new(refs.len(), |i: int| (refs[i].target_id, x, y)), t, c) == if x
            == c {
            Seq::new(tcount(refs, t), |i: int| y)
        } else {
            Seq::empty()
        },
    decreases refs.len(),
{
    let s = Seq::new(refs.len(), |i: int| (refs[i].target_id, x, y));
    if refs.len() > 0 {
        let r1 = refs.drop_last();
        lemma_ftc_entry(r1, t, c, x, y);
        assert(s.drop_last() =~= Seq::new(r1.len(), |i: int| (r1[i].target_id, x, y)));
        if x == c {
            assert(for_target_cell(s, t, c) =~= Seq::new(tcount(refs, t), |i: int| y));
        } else {
            assert(for_target_cell(s, t, c) =~= Seq::<u32>::empty());
        }
    } else {
        if x == c {
            assert(for_target_cell(s, t, c) =~= Seq::new(tcount(refs, t), |i: int| y));
        }
    }
}

/// A row's fused entries, seen from one target and cell, are the row's
/// values for that cell when the row feeds the target once, else nothing.
proof fn lemma_ftc_row(
    ci: Seq<u32>,
    vb: Seq<u32>,
    refs: Seq<TargetRef>,
    a: int,
    b: int,
    t: int,
    c: int,
    n: int,
)
    requires
        tcount(refs, t) <= 1,
        0 <= c < n,
        forall|k: int| a <= k < b ==> 0 <= #[trigger] ci[k] < n,
    ensures
        for_target_cell(fused_row(ci, vb, refs, a, b), t, c) == if tcount(refs, t) == 1 {
            for_cell(entries_in(ci, vb, a, b, 0, n), c)
        } else {
            Seq::empty()
        },
    decreases b - a,
{
    if a < b {
        lemma_ftc_row(ci, vb, refs, a, b - 1, t, c, n);
        let e = Seq::new(refs.len(), |i: int| (refs[i].target_id, ci[b - 1], vb[b - 1]));
        lemma_ftc_append(fused_row(ci, vb, refs, a, b - 1), e, t, c);
        lemma_ftc_entry(refs, t, c, ci[b - 1], vb[b - 1]);
        let one = seq![(ci[b - 1], vb[b - 1])];
        lemma_for_cell_append(entries_in(ci, vb, a, b - 1, 0, n), one, c);
        assert(one.drop_last() =~= Seq::<(u32, u32)>::empty());
        assert(for_cell(Seq::<(u32, u32)>::empty(), c) == Seq::<u32>::empty());
        assert(one.last() == (ci[b - 1], vb[b - 1]));
        assert(for_cell(one, c) == for_cell(one.drop_last(), c) + if ci[b - 1] == c {
            seq![vb[b - 1]]
        } else {
            Seq::<u32>::empty()
        });
        if tcount(refs, t) == 1 {
            if ci[b - 1] == c {
                assert(Seq::new(tcount(refs, t), |i: int| vb[b - 1]) =~= for_cell(one, c));
            } else {
                assert(for_cell(one, c) =~= Seq::<u32>::empty());
            }
        } else {
            if ci[b - 1] == c {
                assert(Seq::new(tcount(refs, t), |i: int| vb[b - 1]) =~= Seq::<u32>::empty());
            }
        }
    } else {
        assert(for_cell(entries_in(ci, vb, a, b, 0, n), c) =~= Seq::<u32>::empty());
    }
}

proof fn lemma_tcount_membership(
    targets: Seq<Seq<char>>,
    resolved: Seq<ResolvedGeneset>,
    g: int,
    n: int,
    t: int,
)
    requires
        0 <= t,
        n <= usize::MAX,
    ensures
        tcount(membership_of(targets, resolved, g, n), t) == if t < n {
            tcount(refs_to(targets, resolved, g, t), t)
        } else {
            0
        },
    decreases n,
{
    if n > 0 {
        lemma_tcount_membership(targets, resolved, g, n - 1, t);
        let r = refs_to(targets, resolved, g, n - 1);
        lemma_refs_to_all(targets, resolved, g, n - 1);
        lemma_tcount_uniform(r, n - 1, t);
        lemma_tcount_append(membership_of(targets, resolved, g, n - 1), r, t);
    }
}

proof fn lemma_tcount_refs_none(
    targets: Seq<Seq<char>>,
    resolved: Seq<ResolvedGeneset>,
    g: int,
    t: int,
)
    requires
        0 <= t <= usize::MAX,
        forall|j: int| 0 <= j < resolved.len() ==> #[trigger] set_target(targets, resolved[j]) != Some(t),
    ensures
        tcount(refs_to(targets, resolved, g, t), t) == 0,
    decreases resolved.len(),
{
    if resolved.len() > 0 {
        let r1 = resolved.drop_last();
        assert forall|j: int| 0 <= j < r1.len() implies #[trigger] set_target(targets, r1[j]) != Some(t) by {
            assert(r1[j] == resolved[j]);
        }
        lemma_tcount_refs_none(targets, r1, g, t);
        assert(set_target(targets, resolved[resolved.len() - 1]) != Some(t));
        lemma_tcount_append(refs_to(targets, r1, g, t), Seq::empty(), t);
    }
}

proof fn lemma_tcount_refs_one(
    targets: Seq<Seq<char>>,
    resolved: Seq<ResolvedGeneset>,
    g: int,
    t: int,
    s: int,
)
    requires
        0 <= t <= usize::MAX,
        0 <= s < resolved.len(),
        set_target(targets, resolved[s]) == Some(t),
        forall|j: int|
            0 <= j < resolved.len() && j != s ==> #[trigger] set_target(targets, resolved[j]) != Some(
                t,
            ),
    ensures
        tcount(refs_to(targets, resolved, g, t), t) == occurrences(resolved[s].gene_ids@, g),
    decreases resolved.len(),
{
    let r1 = resolved.drop_last();
    let last = resolved.len() - 1;
    let occ_seq = Seq::new(
        occurrences(resolved[last].gene_ids@, g),
        |i: int| TargetRef { target_id: t as usize },
    );
    if s == last {
        assert forall|j: int| 0 <= j < r1.len() implies #[trigger] set_target(targets, r1[j]) != Some(t) by {
            assert(r1[j] == resolved[j]);
        }
        lemma_tcount_refs_none(targets, r1, g, t);
        lemma_tcount_uniform(occ_seq, t, t);
        lemma_tcount_append(refs_to(targets, r1, g, t), occ_seq, t);
    } else {
        assert forall|j: int| 0 <= j < r1.len() && j != s implies #[trigger] set_target(targets, r1[j]) != Some(t) by {
            assert(r1[j] == resolved[j]);
        }
        assert(r1[s] == resolved[s]);
        lemma_tcount_refs_one(targets, r1, g, t, s);
        assert(set_target(targets, resolved[last]) != Some(t));
        lemma_tcount_append(refs_to(targets, r1, g, t), Seq::empty(), t);
    }
}

/// Strictly ascending ids hold each value at most once, and exactly once
/// when it occurs.
proof fn lemma_occurrences(ids: Seq<usize>, x: int)
    requires
        forall|i: int| 0 <= i < ids.len() - 1 ==> #[trigger] ids[i] < ids[i + 1],
    ensures
        occurrences(ids, x) <= 1,
        occurrences(ids, x) == 1 <==> exists|i: int| 0 <= i < ids.len() && ids[i] == x,
    decreases ids.len(),
{
    if ids.len() > 0 {
        let i1 = ids.drop_last();
        assert forall|i: int| 0 <= i < i1.len() - 1 implies #[trigger] i1[i] < i1[i + 1] by {
            assert(ids[i] < ids[i + 1]);
        }
        lemma_occurrences(i1, x);
        lemma_strict(ids);
        if ids.last() == x {
            if exists|i: int| 0 <= i < i1.len() && i1[i] == x {
                let i = choose|i: int| 0 <= i < i1.len() && i1[i] == x;
                assert(ids[i] < ids[ids.len() - 1]);
            }
            assert(ids[ids.len() - 1] == x);
        } else {
            if exists|i: int| 0 <= i < ids.len() && ids[i] == x {
                let i = choose|i: int| 0 <= i < ids.len() && ids[i] == x;
                assert(i1[i] == x);
            }
        }
    }
}

impl SparseStore {
    /// The fused pass over the first `n` rows, seen from target `t` and cell
    /// `c`, equals the scalar walk over the ids below `n`.
    proof fn lemma_fused_prefix(
        &self,
        membership: Seq<Vec<TargetRef>>,
        ids: Seq<usize>,
        n: int,
        k: int,
        t: int,
        c: int,
    )
        requires
            self.wf(),
            0 <= n <= membership.len() <= self.spec_n_genes(),
            0 <= k <= ids.len(),
            0 <= c < self.spec_n_cells(),
            forall|i: int| 0 <= i < ids.len() - 1 ==> #[trigger] ids[i] < ids[i + 1],
            forall|i: int| 0 <= i < k ==> #[trigger] ids[i] < n,
            forall|i: int| k <= i < ids.len() ==> #[trigger] ids[i] >= n,
            forall|g: int|
                0 <= g < membership.len() ==> #[trigger] tcount(membership[g]@, t) == occurrences(
                    ids,
                    g,
                ),
        ensures
            for_target_cell(self.fused_schedule(membership, n), t, c) == for_cell(
                self.full_schedule(ids.subrange(0, k)),
                c,
            ),
        decreases n,
    {
        let nc = self.spec_n_cells();
        self.lemma_rows_in_bounds();
        self.lemma_wf_facts();
        lemma_strict(ids);
        if n == 0 {
            assert(ids.subrange(0, k) =~= Seq::<usize>::empty());
        } else {
            let g = n - 1;
            lemma_occurrences(ids, g);
            let a = self.row_start(g);
            let b = self.row_end(g);
            let refs = membership[g]@;
            let found = k > 0 && ids[k - 1] == g;
            let k2 = if found {
                k - 1
            } else {
                k
            };
            assert forall|i: int| 0 <= i < k2 implies #[trigger] ids[i] < g by {
                if found {
                    assert(ids[i] < ids[k - 1]);
                } else {
                    assert(ids[i] <= ids[k - 1]);
                }
            }
            self.lemma_fused_prefix(membership, ids, g, k2, t, c);
            lemma_ftc_row(self.cell_idx@, self.value_bits@, refs, a, b, t, c, nc);
            let part = if refs.len() == 0 {
                Seq::empty()
            } else {
                fused_row(self.cell_idx@, self.value_bits@, refs, a, b)
            };
            lemma_ftc_append(self.fused_schedule(membership, g), part, t, c);
            if found {
                assert(occurrences(ids, g) == 1);
                let pre = ids.subrange(0, k);
                assert(pre.drop_last() =~= ids.subrange(0, k2));
                assert(pre.last() == g);
                lemma_for_cell_append(
                    self.full_schedule(ids.subrange(0, k2)),
                    entries_in(self.cell_idx@, self.value_bits@, a, b, 0, nc),
                    c,
                );
            } else {
                assert(occurrences(ids, g) != 1) by {
                    if exists|i: int| 0 <= i < ids.len() && ids[i] == g {
                        let i = choose|i: int| 0 <= i < ids.len() && ids[i] == g;
                        if i < k {
                            assert(ids[i] <= ids[k - 1]);
                        }
                    }
                }
                if refs.len() == 0 {
                    assert(for_target_cell(part, t, c) =~= Seq::<u32>::empty());
                }
                assert(for_target_cell(self.fused_schedule(membership, g), t, c) + Seq::<u32>::empty()
                    =~= for_target_cell(self.fused_schedule(membership, g), t, c));
            }
        }
    }

    /// Fusion is only an optimization: for a target fed by exactly one
    /// resolved set, what the fused pass adds into each cell of the target
    /// equals what the scalar walk over that set's gene ids adds into the
    /// cell, value for value and in the same order. Dividing by the set's
    /// gene count afterwards gives bit-identical means.
    pub proof fn lemma_fused_matches_scalar(
        &self,
        targets: Seq<Seq<char>>,
        resolved: Seq<ResolvedGeneset>,
        membership: Seq<Vec<TargetRef>>,
        s: int,
        c: int,
    )
        requires
            self.wf(),
            targets.len() <= usize::MAX,
            membership.len() == self.spec_n_genes(),
            forall|g: int|
                0 <= g < membership.len() ==> #[trigger] membership[g]@ == membership_of(
                    targets,
                    resolved,
                    g,
                    targets.len() as int,
                ),
            0 <= s < resolved.len(),
            resolved[s].wf(),
            set_target(targets, resolved[s]) is Some,
            forall|j: int|
                0 <= j < resolved.len() && j != s ==> #[trigger] set_target(targets, resolved[j])
                    != set_target(targets, resolved[s]),
            self.genes_valid(resolved[s].gene_ids@),
            0 <= c < self.spec_n_cells(),
        ensures
            for_target_cell(
                self.fused_schedule(membership, membership.len() as int),
                set_target(targets, resolved[s])->Some_0,
                c,
            ) == for_cell(self.full_schedule(resolved[s].gene_ids@), c),
    {
        let t = set_target(targets, resolved[s])->Some_0;
        lemma_target_index_bound(targets, resolved[s].id@);
        let ids = resolved[s].gene_ids@;
        assert forall|g: int| 0 <= g < membership.len() implies #[trigger] tcount(membership[g]@, t)
            == occurrences(ids, g) by {
            lemma_tcount_membership(targets, resolved, g, targets.len() as int, t);
            lemma_tcount_refs_one(targets, resolved, g, t, s);
        }
        assert forall|i: int| 0 <= i < ids.len() implies #[trigger] ids[i] < membership.len() by {
            assert(self.genes_valid(ids));
        }
        self.lemma_fused_prefix(membership, ids, membership.len() as int, ids.len() as int, t, c);
        assert(ids.subrange(0, ids.len() as int) =~= ids);
    }
}

} // verus!
