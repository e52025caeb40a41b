//! Counting-sort transposition of a cell-major shared cache into the
//! gene-major arrays of a sparse store.
use vstd::prelude::*;

use crate::shared_cache::SharedCache;
use crate::store::{arrays_error, lemma_non_decreasing_pairs, non_decreasing};

verus! {

/// Entries among the first `n` whose gene is `g`.
#[verifier::opaque]
pub open spec fn count_eq(rows: Seq<u32>, g: int, n: int) -> int
    decreases n,
{
    if n <= 0 {
        0
    } else {
        count_eq(rows, g, n - 1) + if rows[n - 1] == g {
            1int
        } else {
            0int
        }
    }
}

/// Entries among the first `n` whose gene is below `g`.
#[verifier::opaque]
pub open spec fn count_lt(rows: Seq<u32>, g: int, n: int) -> int
    decreases n,
{
    if n <= 0 {
        0
    } else {
        count_lt(rows, g, n - 1) + if rows[n - 1] < g {
            1int
        } else {
            0int
        }
    }
}

/// Where entry `k` of the cell-major arrays lands in the gene-major ones:
/// after all entries of smaller genes and the earlier entries of its gene.
pub open spec fn dest(rows: Seq<u32>, k: int) -> int {
    count_lt(rows, rows[k] as int, rows.len() as int) + count_eq(rows, rows[k] as int, k)
}

/// Gene-major arrays: `gene_ptr` (n_genes + 1), `cell_idx` and `values` (nnz).
pub struct GeneMajor {
    pub gene_ptr: Vec<u64>,
    pub cell_idx: Vec<u32>,
    pub values: Vec<u32>,
}

proof fn lemma_count_bounds(rows: Seq<u32>, g: int, n: int)
    requires
        0 <= n <= rows.len(),
    ensures
        0 <= count_eq(rows, g, n) <= n,
        0 <= count_lt(rows, g, n) <= n,
        count_lt(rows, g, n) + count_eq(rows, g, n) == count_lt(rows, g + 1, n),
    decreases n,
{
    reveal(count_eq);
    reveal(count_lt);
    if n > 0 {
        lemma_count_bounds(rows, g, n - 1);
    }
}

proof fn lemma_count_eq_mono(rows: Seq<u32>, g: int, m: int, n: int)
    requires
        0 <= m <= n <= rows.len(),
    ensures
        count_eq(rows, g, m) <= count_eq(rows, g, n),
        m < n && rows[m] == g ==> count_eq(rows, g, m) < count_eq(rows, g, n),
    decreases n - m,
{
    reveal(count_eq);
    reveal(count_lt);
    if m < n {
        lemma_count_eq_mono(rows, g, m, n - 1);
        if rows[m] == g && m == n - 1 {
        }
    }
}

proof fn lemma_count_lt_mono(rows: Seq<u32>, g: int, h: int, n: int)
    requires
        0 <= n <= rows.len(),
        g <= h,
    ensures
        count_lt(rows, g, n) <= count_lt(rows, h, n),
    decreases n,
{
    reveal(count_eq);
    reveal(count_lt);
    if n > 0 {
        lemma_count_lt_mono(rows, g, h, n - 1);
    }
}

/// Counting one more entry.
proof fn lemma_count_step(rows: Seq<u32>, n: int)
    requires
        0 <= n,
    ensures
        forall|g: int|
            #[trigger] count_eq(rows, g, n + 1) == count_eq(rows, g, n) + if rows[n] == g {
                1int
            } else {
                0int
            },
{
    reveal(count_eq);
}

/// Nothing is counted among no entries.
proof fn lemma_count_zero(rows: Seq<u32>)
    ensures
        forall|g: int| #[trigger] count_eq(rows, g, 0) == 0,
{
    reveal(count_eq);
}

/// Every entry lands inside `[0, nnz)`.
proof fn lemma_dest_bound(rows: Seq<u32>, k: int)
    requires
        0 <= k < rows.len(),
    ensures
        0 <= dest(rows, k) < rows.len(),
{
    let n = rows.len() as int;
    let gk = rows[k] as int;
    lemma_count_bounds(rows, gk, n);
    lemma_count_bounds(rows, gk + 1, n);
    lemma_count_eq_mono(rows, gk, k, n);
    lemma_count_bounds(rows, gk, k);
}

/// Entries at distinct positions land on distinct places.
proof fn lemma_dest(rows: Seq<u32>, k: int, j: int)
    requires
        0 <= j < k < rows.len(),
    ensures
        dest(rows, j) != dest(rows, k),
{
    let n = rows.len() as int;
    let gk = rows[k] as int;
    let gj = rows[j] as int;
    lemma_count_bounds(rows, gk, n);
    lemma_count_bounds(rows, gj, n);
    lemma_count_bounds(rows, gk, k);
    lemma_count_bounds(rows, gj, j);
    lemma_count_eq_mono(rows, gk, k, n);
    lemma_count_eq_mono(rows, gj, j, n);
    lemma_count_eq_mono(rows, gj, j, k);
    if gj < gk {
        lemma_count_lt_mono(rows, gj + 1, gk, n);
    } else if gk < gj {
        lemma_count_lt_mono(rows, gk + 1, gj, n);
    }
}

impl SharedCache {
    /// Transposes the cache into gene-major arrays with two passes: count the
    /// entries of each gene into prefix sums, then scatter each entry to the
    /// next free place of its gene, walking cells in increasing order.
    #[verifier::spinoff_prover]
    #[verifier::rlimit(100)]
    pub fn to_gene_major(&self) -> (r: GeneMajor)
        requires
            self.wf(),
            self.header.n_genes < 0xffff_ffff,
            self.header.n_cells <= 0xffff_ffff,
        ensures
            r.gene_ptr@.len() == self.header.n_genes + 1,
            forall|g: int|
                0 <= g <= self.header.n_genes ==> #[trigger] r.gene_ptr@[g] == count_lt(
                    self.rows@,
                    g,
                    self.header.nnz as int,
                ),
            r.cell_idx@.len() == self.header.nnz,
            r.values@.len() == self.header.nnz,
            arrays_error(self.header.n_cells as u32, r.gene_ptr@, r.cell_idx@) is None,
            forall|c: int, k: int|
                #![trigger self.cols@[c], self.rows@[k]]
                0 <= c < self.header.n_cells && self.cols@[c] <= k < self.cols@[c + 1] ==> {
                    &&& r.cell_idx@[dest(self.rows@, k)] == c
                    &&& r.values@[dest(self.rows@, k)] == self.values@[k]
                },
    {
        let gene_ptr = self.prefix_counts();
        let (cell_idx, values) = self.scatter(&gene_ptr);
        let ghost rows = self.rows@;
        let ghost n_genes = self.header.n_genes;
        proof {
            self.lemma_wf_facts();
            lemma_prefix_facts(rows, gene_ptr@, n_genes as int);
            lemma_count_lt_zero(rows, rows.len() as int);
            assert(gene_ptr@[0] == count_lt(rows, 0, rows.len() as int));
            lemma_gene_major_valid(gene_ptr@, cell_idx@, n_genes as int, self.header.n_cells as u32);
        }
        GeneMajor { gene_ptr, cell_idx, values }
    }

    /// For each gene, the number of entries of smaller genes.
    #[verifier::spinoff_prover]
    fn prefix_counts(&self) -> (gene_ptr: Vec<u64>)
        requires
            self.wf(),
            self.header.n_genes < 0xffff_ffff,
        ensures
            gene_ptr@.len() == self.header.n_genes + 1,
            forall|g: int|
                0 <= g <= self.header.n_genes ==> #[trigger] gene_ptr@[g] == count_lt(
                    self.rows@,
                    g,
                    self.header.nnz as int,
                ),
    {
        let n_genes = self.header.n_genes as usize;
        let nnz = self.rows.len();
        let ghost rows = self.rows@;
        proof {
            self.lemma_wf_facts();
            lemma_count_zero(rows);
        }
        // Count the entries of each gene, shifted by one.
        let mut gene_ptr: Vec<u64> = vec![0u64; n_genes + 1];
        let mut k: usize = 0;
        while k < nnz
            invariant
                nnz == rows.len(),
                rows == self.rows@,
                forall|k2: int| 0 <= k2 < nnz ==> #[trigger] rows[k2] < n_genes,
                k <= nnz,
                gene_ptr@.len() == n_genes + 1,
                n_genes == self.header.n_genes,
                gene_ptr@[0] == 0,
                forall|g: int| 0 <= g < n_genes ==> #[trigger] gene_ptr@[g + 1] == count_eq(rows, g, k as int),
            decreases nnz - k,
        {
            proof {
                assert(rows[k as int] < n_genes);
                lemma_count_bounds(rows, rows[k as int] as int, k as int);
                lemma_count_step(rows, k as int);
            }
            let g = self.rows[k] as usize;
            gene_ptr.set(g + 1, gene_ptr[g + 1] + 1);
            k += 1;
        }
        proof {
            lemma_count_lt_zero(rows, nnz as int);
            assert forall|h: int| 0 < h <= n_genes implies #[trigger] gene_ptr@[h] == count_eq(rows, h - 1, nnz as int) by {
                assert(gene_ptr@[(h - 1) + 1] == count_eq(rows, h - 1, nnz as int));
            }
        }
        // Prefix sums.
        let mut g: usize = 0;
        while g < n_genes
            invariant
                nnz == rows.len(),
                g <= n_genes,
                gene_ptr@.len() == n_genes + 1,
                forall|h: int| 0 <= h <= g ==> #[trigger] gene_ptr@[h] == count_lt(rows, h, nnz as int),
                forall|h: int| g < h <= n_genes ==> #[trigger] gene_ptr@[h] == count_eq(rows, h - 1, nnz as int),
            decreases n_genes - g,
        {
            proof {
                lemma_count_bounds(rows, g as int, nnz as int);
                lemma_count_bounds(rows, g + 1, nnz as int);
            }
            gene_ptr.set(g + 1, gene_ptr[g + 1] + gene_ptr[g]);
            g += 1;
        }
        gene_ptr
    }

    /// Places each entry at its destination, walking cells in increasing order.
    #[verifier::spinoff_prover]
    #[verifier::rlimit(100)]
    fn scatter(&self, gene_ptr: &Vec<u64>) -> (r: (Vec<u32>, Vec<u32>))
        requires
            self.wf(),
            self.header.n_cells <= 0xffff_ffff,
            gene_ptr@.len() == self.header.n_genes + 1,
            forall|h: int|
                0 <= h <= self.header.n_genes ==> #[trigger] gene_ptr@[h] == count_lt(
                    self.rows@,
                    h,
                    self.header.nnz as int,
                ),
        ensures
            r.0@.len() == self.header.nnz,
            r.1@.len() == self.header.nnz,
            forall|c: int, k: int|
                #![trigger self.cols@[c], self.rows@[k]]
                0 <= c < self.header.n_cells && self.cols@[c] <= k < self.cols@[c + 1] ==> {
                    &&& r.0@[dest(self.rows@, k)] == c
                    &&& r.1@[dest(self.rows@, k)] == self.values@[k]
                },
            forall|h: int, p: int|
                #![trigger gene_ptr@[h], r.0@[p]]
                0 <= h < self.header.n_genes && gene_ptr@[h] <= p < gene_ptr@[h + 1] ==> r.0@[p]
                    < self.header.n_cells,
            forall|h: int, p: int|
                #![trigger gene_ptr@[h], r.0@[p]]
                0 <= h < self.header.n_genes && gene_ptr@[h] <= p && p + 1 < gene_ptr@[h + 1]
                    ==> r.0@[p] <= r.0@[p + 1],
    {
        let n_genes = gene_ptr.len() - 1;
        let n_cells = self.cols.len() - 1;
        let nnz = self.rows.len();
        let ghost rows = self.rows@;
        let ghost cols = self.cols@;
        proof {
            self.lemma_wf_facts();
            lemma_non_decreasing_pairs(cols);
            lemma_count_zero(rows);
            lemma_prefix_facts(rows, gene_ptr@, n_genes as int);
        }
        let mut next: Vec<u64> = Vec::with_capacity(gene_ptr.len());
        let mut h: usize = 0;
        while h < gene_ptr.len()
            invariant
                h <= gene_ptr@.len(),
                next@ =~= gene_ptr@.subrange(0, h as int),
            decreases gene_ptr@.len() - h,
        {
            next.push(gene_ptr[h]);
            h += 1;
        }
        assert(next@ =~= gene_ptr@);
        let mut cell_idx: Vec<u32> = vec![0u32; nnz];
        let mut values: Vec<u32> = vec![0u32; nnz];
        let mut c: usize = 0;
        proof {
            assert forall|h: int| 0 <= h < n_genes implies #[trigger] next@[h] == gene_ptr@[h]
                + count_eq(rows, h, cols[0] as int) by {}
            lemma_filled_start(gene_ptr@, next@, cell_idx@, n_genes as int);
        }
        while c < n_cells
            invariant
                rows == self.rows@,
                cols == self.cols@,
                nnz == rows.len(),
                cols.len() == n_cells + 1,
                forall|k2: int| 0 <= k2 < nnz ==> #[trigger] rows[k2] < n_genes,
                n_cells == self.header.n_cells,
                n_genes == self.header.n_genes,
                c <= n_cells,
                n_cells <= 0xffff_ffff,
                cols[c as int] <= nnz,
                cols[n_cells as int] == nnz,
                self.values@.len() == nnz,
                forall|i: int, j: int| 0 <= i <= j < cols.len() ==> cols[i] <= cols[j],
                gene_ptr@.len() == n_genes + 1,
                next@.len() == n_genes + 1,
                cell_idx@.len() == nnz,
                values@.len() == nnz,
                forall|h: int| 0 <= h <= n_genes ==> #[trigger] gene_ptr@[h] == count_lt(rows, h, nnz as int),
                forall|h: int| 0 <= h < n_genes ==> #[trigger] next@[h] == gene_ptr@[h] + count_eq(rows, h, cols[c as int] as int),
                forall|i: int, j: int| 0 <= i <= j <= n_genes ==> gene_ptr@[i] <= gene_ptr@[j],
                gene_ptr@[n_genes as int] == nnz,
                forall|h: int| 0 <= h < n_genes ==> #[trigger] gene_ptr@[h + 1] == gene_ptr@[h] + count_eq(rows, h, nnz as int),
                filled(gene_ptr@, next@, cell_idx@, n_genes as int, c as int),
                forall|c2: int, k2: int|
                    #![trigger cols[c2], rows[k2]]
                    0 <= c2 < c && cols[c2] <= k2 < cols[c2 + 1] ==> {
                        &&& cell_idx@[dest(rows, k2)] == c2
                        &&& values@[dest(rows, k2)] == self.values@[k2]
                    },
            decreases n_cells - c,
        {
            let start = self.cols[c] as usize;
            let end = self.cols[c + 1] as usize;
            proof {
                lemma_filled_weaken(gene_ptr@, next@, cell_idx@, n_genes as int, c as int);
            }
            let mut k: usize = start;
            while k < end
                invariant
                    rows == self.rows@,
                    cols == self.cols@,
                    nnz == rows.len(),
                    cols.len() == n_cells + 1,
                    forall|k2: int| 0 <= k2 < nnz ==> #[trigger] rows[k2] < n_genes,
                    n_genes == self.header.n_genes,
                    c < n_cells,
                    n_cells == self.header.n_cells,
                    start == cols[c as int],
                    end == cols[c + 1],
                    start <= k <= end,
                    end <= nnz,
                    n_cells <= 0xffff_ffff,
                    self.values@.len() == nnz,
                    forall|i: int, j: int| 0 <= i <= j < cols.len() ==> cols[i] <= cols[j],
                    gene_ptr@.len() == n_genes + 1,
                    next@.len() == n_genes + 1,
                    cell_idx@.len() == nnz,
                    values@.len() == nnz,
                    forall|h: int| 0 <= h <= n_genes ==> #[trigger] gene_ptr@[h] == count_lt(rows, h, nnz as int),
                    forall|h: int| 0 <= h < n_genes ==> #[trigger] next@[h] == gene_ptr@[h] + count_eq(rows, h, k as int),
                    forall|i: int, j: int| 0 <= i <= j <= n_genes ==> gene_ptr@[i] <= gene_ptr@[j],
                    gene_ptr@[n_genes as int] == nnz,
                gene_ptr@[n_genes as int] == nnz,
                    forall|h: int| 0 <= h < n_genes ==> #[trigger] gene_ptr@[h + 1] == gene_ptr@[h] + count_eq(rows, h, nnz as int),
                    filled(gene_ptr@, next@, cell_idx@, n_genes as int, c + 1),
                    forall|c2: int, k2: int|
                        #![trigger cols[c2], rows[k2]]
                        0 <= c2 < c && cols[c2] <= k2 < cols[c2 + 1] ==> {
                            &&& cell_idx@[dest(rows, k2)] == c2
                            &&& values@[dest(rows, k2)] == self.values@[k2]
                        },
                    forall|k2: int|
                        start <= k2 < k ==> {
                            &&& cell_idx@[#[trigger] dest(rows, k2)] == c
                            &&& values@[dest(rows, k2)] == self.values@[k2]
                        },
                decreases end - k,
            {
                proof {
                    assert(rows[k as int] < n_genes);
                    lemma_dest_bound(rows, k as int);
                }
                proof {
                    lemma_count_step(rows, k as int);
                }
                let g = self.rows[k] as usize;
                let pos = next[g] as usize;
                assert(pos == dest(rows, k as int));
                let ghost ci0 = cell_idx@;
                let ghost v0 = values@;
                let ghost old_next = next@;
                cell_idx.set(pos, c as u32);
                values.set(pos, self.values[k]);
                next.set(g, next[g] + 1);
                proof {
                    lemma_count_eq_mono(rows, g as int, k as int, nnz as int);
                    assert(gene_ptr@[g + 1] == gene_ptr@[g as int] + count_eq(rows, g as int, nnz as int));
                    assert(c as u32 == c);
                    lemma_place(gene_ptr@, old_next, next@, ci0, cell_idx@, n_genes as int, g as int, pos as int, c as int);
                    assert forall|c2: int, k2: int|
                        #![trigger cols[c2], rows[k2]]
                        0 <= c2 < c && cols[c2] <= k2 < cols[c2 + 1] implies {
                            &&& cell_idx@[dest(rows, k2)] == c2
                            &&& values@[dest(rows, k2)] == self.values@[k2]
                        } by {
                        assert(cols[c2 + 1] <= cols[c as int]);
                        lemma_dest(rows, k as int, k2);
                        lemma_dest_bound(rows, k2);
                        assert(ci0[dest(rows, k2)] == c2);
                        assert(v0[dest(rows, k2)] == self.values@[k2]);
                    }
                    assert forall|k2: int|
                        start <= k2 < k + 1 implies {
                            &&& cell_idx@[#[trigger] dest(rows, k2)] == c
                            &&& values@[dest(rows, k2)] == self.values@[k2]
                        } by {
                        lemma_dest_bound(rows, k2);
                        if k2 == k {
                            assert(c as u32 == c);
                            assert(cell_idx@[pos as int] == c as u32);
                        }
                        if k2 < k {
                            lemma_dest(rows, k as int, k2);
                            assert(ci0[dest(rows, k2)] == c);
                            assert(v0[dest(rows, k2)] == self.values@[k2]);
                        }
                    }
                }
                k += 1;
            }
            assert forall|c2: int, k2: int|
                #![trigger cols[c2], rows[k2]]
                0 <= c2 < c + 1 && cols[c2] <= k2 < cols[c2 + 1] implies {
                    &&& cell_idx@[dest(rows, k2)] == c2
                    &&& values@[dest(rows, k2)] == self.values@[k2]
                } by {
                if c2 == c {
                    assert(start <= k2 < end);
                    assert(cell_idx@[dest(rows, k2)] == c);
                }
            }
            c += 1;
        }
        proof {
            lemma_filled(rows, gene_ptr@, next@, cell_idx@, n_genes as int, n_cells as int, cols[n_cells as int] as int);
        }
        (cell_idx, values)
    }

}

/// The placed part `[gp[h], next[h])` of each gene's range lies inside the
/// range, holds cells below `bound`, and is ascending.
#[verifier::opaque]
pub open spec fn filled(gp: Seq<u64>, next: Seq<u64>, ci: Seq<u32>, n_genes: int, bound: int) -> bool {
    &&& forall|h: int| 0 <= h < n_genes ==> gp[h] <= #[trigger] next[h] <= gp[h + 1]
    &&& forall|h: int, p: int|
        #![trigger next[h], ci[p]]
        0 <= h < n_genes && gp[h] <= p < next[h] ==> ci[p] < bound
    &&& forall|h: int, p: int|
        #![trigger next[h], ci[p]]
        0 <= h < n_genes && gp[h] <= p && p + 1 < next[h] ==> ci[p] <= ci[p + 1]
}

proof fn lemma_filled_start(gp: Seq<u64>, next: Seq<u64>, ci: Seq<u32>, n_genes: int)
    requires
        next == gp,
        gp.len() == n_genes + 1,
        forall|i: int, j: int| 0 <= i <= j <= n_genes ==> gp[i] <= gp[j],
    ensures
        filled(gp, next, ci, n_genes, 0),
{
    reveal(filled);
    assert forall|h: int| 0 <= h < n_genes implies gp[h] <= #[trigger] next[h] <= gp[h + 1] by {}
}

proof fn lemma_filled_weaken(gp: Seq<u64>, next: Seq<u64>, ci: Seq<u32>, n_genes: int, c: int)
    requires
        filled(gp, next, ci, n_genes, c),
    ensures
        filled(gp, next, ci, n_genes, c + 1),
{
    reveal(filled);
}

/// Placing cell `c` at the next free place of gene `g` keeps the placed
/// parts inside their ranges, below `c + 1` and ascending.
proof fn lemma_place(
    gp: Seq<u64>,
    n0: Seq<u64>,
    n1: Seq<u64>,
    ci0: Seq<u32>,
    ci1: Seq<u32>,
    n_genes: int,
    g: int,
    pos: int,
    c: int,
)
    requires
        gp.len() == n_genes + 1,
        n0.len() == n_genes + 1,
        0 <= g < n_genes,
        pos == n0[g],
        pos < gp[g + 1],
        0 <= c <= u32::MAX,
        n1 == n0.update(g, (n0[g] + 1) as u64),
        ci1 == ci0.update(pos, c as u32),
        gp[n_genes] == ci0.len(),
        forall|i: int, j: int| 0 <= i <= j <= n_genes ==> gp[i] <= gp[j],
        filled(gp, n0, ci0, n_genes, c + 1),
    ensures
        filled(gp, n1, ci1, n_genes, c + 1),
{
    reveal(filled);
    assert(gp[g + 1] <= gp[n_genes]);
    assert forall|h: int| 0 <= h < n_genes implies gp[h] <= #[trigger] n1[h] <= gp[h + 1] by {
        if h != g {
            assert(n1[h] == n0[h]);
        }
    }
    assert forall|h: int, p: int|
        #![trigger n1[h], ci1[p]]
        0 <= h < n_genes && gp[h] <= p < n1[h] implies ci1[p] < c + 1 by {
        if h != g {
            assert(n1[h] == n0[h]);
            assert(gp[h + 1] <= gp[n_genes]);
            if h < g {
                assert(gp[h + 1] <= gp[g]);
            } else {
                assert(gp[g + 1] <= gp[h]);
            }
            assert(n0[h] <= gp[h + 1]);
            assert(ci0[p] < c + 1);
        } else if p != pos {
            assert(ci0[p] < c + 1);
        }
    }
    assert forall|h: int, p: int|
        #![trigger n1[h], ci1[p]]
        0 <= h < n_genes && gp[h] <= p && p + 1 < n1[h] implies ci1[p] <= ci1[p + 1] by {
        if h != g {
            assert(n1[h] == n0[h]);
            assert(gp[h + 1] <= gp[n_genes]);
            if h < g {
                assert(gp[h + 1] <= gp[g]);
            } else {
                assert(gp[g + 1] <= gp[h]);
            }
            assert(n0[h] <= gp[h + 1]);
            assert(ci0[p] <= ci0[p + 1]);
        } else if p + 1 == pos {
            assert(ci0[p] < c + 1);
        } else {
            assert(ci0[p] <= ci0[p + 1]);
        }
    }
}

/// Once every entry is placed, each gene's range is full, below `n_cells`
/// and ascending.
proof fn lemma_filled(
    rows: Seq<u32>,
    gp: Seq<u64>,
    next: Seq<u64>,
    ci: Seq<u32>,
    n_genes: int,
    n_cells: int,
    end: int,
)
    requires
        end == rows.len(),
        gp.len() == n_genes + 1,
        next.len() == n_genes + 1,
        forall|h: int|
            0 <= h < n_genes ==> #[trigger] gp[h + 1] == gp[h] + count_eq(rows, h, rows.len() as int),
        forall|h: int| 0 <= h < n_genes ==> #[trigger] next[h] == gp[h] + count_eq(rows, h, end),
        filled(gp, next, ci, n_genes, n_cells),
    ensures
        forall|h: int, p: int|
            #![trigger gp[h], ci[p]]
            0 <= h < n_genes && gp[h] <= p < gp[h + 1] ==> ci[p] < n_cells,
        forall|h: int, p: int|
            #![trigger gp[h], ci[p]]
            0 <= h < n_genes && gp[h] <= p && p + 1 < gp[h + 1] ==> ci[p] <= ci[p + 1],
{
    reveal(filled);
    assert forall|h: int, p: int|
        #![trigger gp[h], ci[p]]
        0 <= h < n_genes && gp[h] <= p < gp[h + 1] implies ci[p] < n_cells by {
        assert(next[h] == gp[h + 1]);
    }
    assert forall|h: int, p: int|
        #![trigger gp[h], ci[p]]
        0 <= h < n_genes && gp[h] <= p && p + 1 < gp[h + 1] implies ci[p] <= ci[p + 1] by {
        assert(next[h] == gp[h + 1]);
    }
}

/// Gene ranges that start at 0, only grow, end at `nnz`, and hold ascending
/// cells below `n_cells` pass every structural check of a store.
proof fn lemma_gene_major_valid(gp: Seq<u64>, ci: Seq<u32>, n_genes: int, n_cells: u32)
    requires
        0 <= n_genes,
        gp.len() == n_genes + 1,
        gp[0] == 0,
        gp[n_genes] == ci.len(),
        forall|i: int, j: int| 0 <= i <= j <= n_genes ==> gp[i] <= gp[j],
        forall|h: int, p: int|
            #![trigger gp[h], ci[p]]
            0 <= h < n_genes && gp[h] <= p < gp[h + 1] ==> ci[p] < n_cells,
        forall|h: int, p: int|
            #![trigger gp[h], ci[p]]
            0 <= h < n_genes && gp[h] <= p && p + 1 < gp[h + 1] ==> ci[p] <= ci[p + 1],
    ensures
        arrays_error(n_cells, gp, ci) is None,
{
    reveal(arrays_error);
    assert(non_decreasing(gp)) by {
        assert forall|i: int| 0 <= i < gp.len() - 1 implies #[trigger] gp[i] <= gp[i + 1] by {}
    }
    assert forall|p: int| 0 <= p < ci.len() implies #[trigger] ci[p] < n_cells by {
        let h = lemma_bucket(gp, n_genes, p);
        assert(gp[h] <= p < gp[h + 1]);
    }
}

/// Every entry position lies in the range of some gene.
proof fn lemma_bucket(gp: Seq<u64>, n: int, p: int) -> (h: int)
    requires
        0 <= n < gp.len(),
        forall|i: int, j: int| 0 <= i <= j < gp.len() ==> gp[i] <= gp[j],
        gp[0] <= p < gp[n],
    ensures
        0 <= h < n,
        gp[h] <= p < gp[h + 1],
    decreases n,
{
    if p >= gp[n - 1] {
        n - 1
    } else {
        lemma_bucket(gp, n - 1, p)
    }
}

/// Prefix counts are ordered, and consecutive ones differ by a gene's count.
proof fn lemma_prefix_facts(rows: Seq<u32>, gp: Seq<u64>, n_genes: int)
    requires
        0 <= n_genes,
        gp.len() == n_genes + 1,
        forall|h: int| 0 <= h <= n_genes ==> #[trigger] gp[h] == count_lt(rows, h, rows.len() as int),
        forall|k: int| 0 <= k < rows.len() ==> #[trigger] rows[k] < n_genes,
    ensures
        gp[n_genes] == rows.len(),
        forall|i: int, j: int| 0 <= i <= j <= n_genes ==> gp[i] <= gp[j],
        forall|h: int|
            0 <= h < n_genes ==> #[trigger] gp[h + 1] == gp[h] + count_eq(rows, h, rows.len() as int),
{
    let nnz = rows.len() as int;
    lemma_count_lt_all(rows, n_genes, nnz);
    assert(gp[n_genes] == count_lt(rows, n_genes, nnz));
    assert forall|i: int, j: int| 0 <= i <= j <= n_genes implies gp[i] <= gp[j] by {
        lemma_count_lt_mono(rows, i, j, nnz);
    }
    assert forall|h: int| 0 <= h < n_genes implies #[trigger] gp[h + 1] == gp[h] + count_eq(rows, h, nnz) by {
        lemma_count_bounds(rows, h, nnz);
    }
}

proof fn lemma_count_lt_all(rows: Seq<u32>, g: int, n: int)
    requires
        0 <= n <= rows.len(),
        forall|k: int| 0 <= k < rows.len() ==> #[trigger] rows[k] < g,
    ensures
        count_lt(rows, g, n) == n,
    decreases n,
{
    reveal(count_lt);
    if n > 0 {
        lemma_count_lt_all(rows, g, n - 1);
    }
}

proof fn lemma_count_lt_zero(rows: Seq<u32>, n: int)
    ensures
        count_lt(rows, 0, n) == 0,
    decreases n,
{
    reveal(count_eq);
    reveal(count_lt);
    if n > 0 {
        lemma_count_lt_zero(rows, n - 1);
    }
}

} // verus!
