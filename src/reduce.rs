//! The gene-set reduction engine.
//!
//! A reduction of gene rows `genes` gives each cell `c` the mean over `genes`
//! of the cell's values. The functions here decide which stored values feed
//! which cell and in which order; each strategy yields an entry schedule, a
//! sequence of `(cell, value bits)` pairs that the caller adds up in order and
//! divides by `genes.len()`. Two schedules that hand every cell the same
//! values in the same order produce bit-identical sums.
use vstd::prelude::*;

use crate::error::ReduceError;
use crate::store::SparseStore;

verus! {

/// The bits of an `f32` NaN: all exponent bits set and a nonzero mantissa.
pub open spec fn is_nan_bits(b: u32) -> bool {
    (b & 0x7f80_0000u32) == 0x7f80_0000u32 && (b & 0x007f_ffffu32) != 0
}

pub fn nan_bits(b: u32) -> (r: bool)
    ensures
        r == is_nan_bits(b),
{
    (b & 0x7f80_0000u32) == 0x7f80_0000u32 && (b & 0x007f_ffffu32) != 0
}

/// The entries `k` in `[a, b)` whose cell lies in `[lo, hi)`, in entry order.
pub open spec fn entries_in(ci: Seq<u32>, vb: Seq<u32>, a: int, b: int, lo: int, hi: int) -> Seq<
    (u32, u32),
>
    decreases b - a,
{
    if b <= a {
        Seq::empty()
    } else {
        entries_in(ci, vb, a, b - 1, lo, hi) + if lo <= ci[b - 1] < hi {
            seq![(ci[b - 1], vb[b - 1])]
        } else {
            Seq::empty()
        }
    }
}

/// The values a schedule adds into cell `c`, in order.
pub open spec fn for_cell(s: Seq<(u32, u32)>, c: int) -> Seq<u32>
    decreases s.len(),
{
    if s.len() == 0 {
        Seq::empty()
    } else {
        for_cell(s.drop_last(), c) + if s.last().0 == c {
            seq![s.last().1]
        } else {
            Seq::empty()
        }
    }
}

impl SparseStore {
    /// Gene by gene in request order, the entries of each row whose cell lies
    /// in `[lo, hi)`.
    pub open spec fn schedule(&self, genes: Seq<usize>, lo: int, hi: int) -> Seq<(u32, u32)>
        decreases genes.len(),
    {
        if genes.len() == 0 {
            Seq::empty()
        } else {
            let g = genes.last() as int;
            self.schedule(genes.drop_last(), lo, hi) + entries_in(
                self.cell_idx@,
                self.value_bits@,
                self.row_start(g),
                self.row_end(g),
                lo,
                hi,
            )
        }
    }

    /// Every value of every requested row, gene by gene in request order.
    pub open spec fn full_schedule(&self, genes: Seq<usize>) -> Seq<(u32, u32)> {
        self.schedule(genes, 0, self.spec_n_cells())
    }

    pub open spec fn genes_valid(&self, genes: Seq<usize>) -> bool {
        forall|i: int| 0 <= i < genes.len() ==> #[trigger] genes[i] < self.spec_n_genes()
    }

    /// Gene row `g` holds a NaN value.
    pub open spec fn row_has_nan(&self, g: int) -> bool {
        exists|k: int|
            self.row_start(g) <= k < self.row_end(g) && #[trigger] is_nan_bits(self.value_bits@[k])
    }

    /// Some requested row holds a NaN value.
    pub open spec fn has_nan(&self, genes: Seq<usize>) -> bool {
        exists|i: int| 0 <= i < genes.len() && #[trigger] self.row_has_nan(genes[i] as int)
    }

    /// Why a request cannot be reduced into an output of `out_len` values.
    pub open spec fn request_error(&self, genes: Seq<usize>, out_len: int) -> Option<ReduceError> {
        if out_len != self.spec_n_cells() {
            Some(
                ReduceError::OutputLengthMismatch {
                    expected: self.spec_n_cells() as usize,
                    actual: out_len as usize,
                },
            )
        } else if !self.genes_valid(genes) {
            Some(ReduceError::GeneOutOfRange)
        } else if self.has_nan(genes) {
            Some(ReduceError::NanValue)
        } else {
            None
        }
    }

    /// Checks a request: output length, gene ids, then the values of the
    /// requested rows. An empty request passes and reduces to all zeros.
    pub fn check_request(&self, genes: &[usize], out_len: usize) -> (r: Result<(), ReduceError>)
        requires
            self.wf(),
        ensures
            match r {
                Ok(()) => self.request_error(genes@, out_len as int) is None,
                Err(e) => self.request_error(genes@, out_len as int) == Some(e),
            },
    {
        let n_cells = self.n_cells();
        if out_len != n_cells {
            return Err(ReduceError::OutputLengthMismatch { expected: n_cells, actual: out_len });
        }
        let n_genes = self.n_genes();
        let mut i: usize = 0;
        while i < genes.len()
            invariant
                self.wf(),
                out_len == n_cells,
                n_cells == self.spec_n_cells(),
                n_genes == self.spec_n_genes(),
                forall|j: int| 0 <= j < i && j < genes@.len() ==> #[trigger] genes@[j] < n_genes,
            decreases genes.len() - i,
        {
            if genes[i] >= n_genes {
                assert(!self.genes_valid(genes@)) by {
                    assert(genes@[i as int] >= n_genes);
                }
                return Err(ReduceError::GeneOutOfRange);
            }
            i += 1;
        }
        let mut i: usize = 0;
        while i < genes.len()
            invariant
                self.wf(),
                out_len == self.spec_n_cells(),
                self.genes_valid(genes@),
                forall|j: int| 0 <= j < i && j < genes@.len() ==> !#[trigger] self.row_has_nan(genes@[j] as int),
            decreases genes.len() - i,
        {
            let (start, end) = self.row_range(genes[i]);
            let mut k: usize = start;
            while k < end
                invariant
                    self.wf(),
                    out_len == self.spec_n_cells(),
                    self.genes_valid(genes@),
                    i < genes@.len(),
                    start == self.row_start(genes@[i as int] as int),
                    end == self.row_end(genes@[i as int] as int),
                    end <= self.value_bits@.len(),
                    start <= k,
                    forall|k2: int| start <= k2 < k ==> !#[trigger] is_nan_bits(self.value_bits@[k2]),
                decreases end - k,
            {
                if nan_bits(self.value_bits[k]) {
                    assert(self.has_nan(genes@)) by {
                        assert(self.row_has_nan(genes@[i as int] as int));
                    }
                    return Err(ReduceError::NanValue);
                }
                k += 1;
            }
            assert(!self.row_has_nan(genes@[i as int] as int));
            i += 1;
        }
        Ok(())
    }

    /// The scalar strategy: walk each requested row in full, gene by gene.
    pub fn scalar_entries(&self, genes: &[usize]) -> (r: Vec<(u32, u32)>)
        requires
            self.wf(),
            self.genes_valid(genes@),
        ensures
            r@ == self.full_schedule(genes@),
    {
        let n_cells = self.n_cells();
        proof {
            self.lemma_wf_facts();
        }
        let mut r: Vec<(u32, u32)> = Vec::new();
        let mut i: usize = 0;
        while i < genes.len()
            invariant
                self.wf(),
                forall|k: int|
                    0 <= k < self.cell_idx@.len() ==> #[trigger] self.cell_idx@[k] < n_cells,
                self.genes_valid(genes@),
                n_cells == self.spec_n_cells(),
                i <= genes@.len(),
                r@ == self.schedule(genes@.subrange(0, i as int), 0, n_cells as int),
            decreases genes.len() - i,
        {
            let (start, end) = self.row_range(genes[i]);
            let ghost before = r@;
            let mut k: usize = start;
            while k < end
                invariant
                    self.wf(),
                    n_cells == self.spec_n_cells(),
                    forall|k: int|
                        0 <= k < self.cell_idx@.len() ==> #[trigger] self.cell_idx@[k] < n_cells,
                    end <= self.cell_idx@.len(),
                    start <= k <= end,
                    r@ == before + entries_in(
                        self.cell_idx@,
                        self.value_bits@,
                        start as int,
                        k as int,
                        0,
                        n_cells as int,
                    ),
                decreases end - k,
            {
                assert(self.cell_idx@[k as int] < n_cells);
                r.push((self.cell_idx[k], self.value_bits[k]));
                k += 1;
            }
            proof {
                let gs = genes@.subrange(0, i + 1);
                assert(gs.drop_last() =~= genes@.subrange(0, i as int));
            }
            i += 1;
        }
        assert(genes@.subrange(0, genes@.len() as int) =~= genes@);
        r
    }

    /// The sharded strategy's share of one shard: each requested row's
    /// entries with a cell in `[lo, hi)`, found by binary search.
    pub fn shard_entries(&self, genes: &[usize], lo: u32, hi: u32) -> (r: Vec<(u32, u32)>)
        requires
            self.wf(),
            self.genes_valid(genes@),
        ensures
            r@ == self.schedule(genes@, lo as int, hi as int),
    {
        let mut r: Vec<(u32, u32)> = Vec::new();
        let mut i: usize = 0;
        while i < genes.len()
            invariant
                self.wf(),
                self.genes_valid(genes@),
                i <= genes@.len(),
                r@ == self.schedule(genes@.subrange(0, i as int), lo as int, hi as int),
            decreases genes.len() - i,
        {
            let g = genes[i];
            let (start, end) = self.row_range(g);
            let ghost ci = self.cell_idx@;
            let ghost vb = self.value_bits@;
            let row = slice_of(&self.cell_idx, start, end);
            proof {
                assert forall|x: int, y: int| 0 <= x <= y < row@.len() implies row@[x] <= row@[y] by {
                    self.lemma_row_sorted(g as int, start + x, start + y);
                }
            }
            let a = start + lower_bound(row, lo);
            let b = start + lower_bound(row, hi);
            proof {
                if lo <= hi {
                    assert(a <= b) by {
                        if a > b {
                            assert(row@[b - start] >= hi);
                            assert(row@[b - start] < lo);
                        }
                    }
                }
            }
            proof {
                assert forall|j: int| start <= j < end implies #[trigger] ci[j] == row@[j - start] by {}
                assert forall|j: int| start <= j < a implies !(lo <= #[trigger] ci[j] < hi) by {
                    assert(row@[j - start] < lo);
                }
                assert forall|j: int| b <= j < end implies !(lo <= #[trigger] ci[j] < hi) by {
                    assert(row@[j - start] >= hi);
                }
                assert forall|j: int| a <= j < b implies lo <= #[trigger] ci[j] < hi by {
                    assert(row@[j - start] >= lo);
                    assert(row@[j - start] < hi);
                }
            }
            let ghost before = r@;
            if lo < hi {
                let mut k: usize = a;
                while k < b
                    invariant
                        self.wf(),
                        b <= self.cell_idx@.len(),
                        a <= k <= b,
                        forall|j: int| a <= j < b ==> lo <= #[trigger] ci[j] < hi,
                        ci == self.cell_idx@,
                        vb == self.value_bits@,
                        r@ == before + entries_in(ci, vb, a as int, k as int, lo as int, hi as int),
                    decreases b - k,
                {
                    assert(lo <= ci[k as int] < hi);
                    r.push((self.cell_idx[k], self.value_bits[k]));
                    k += 1;
                }
            }
            proof {
                if lo < hi {
                    lemma_entries_split(ci, vb, start as int, a as int, b as int, lo as int, hi as int);
                    lemma_entries_split(ci, vb, start as int, b as int, end as int, lo as int, hi as int);
                    lemma_entries_none(ci, vb, start as int, a as int, lo as int, hi as int);
                    lemma_entries_none(ci, vb, b as int, end as int, lo as int, hi as int);
                } else {
                    lemma_entries_none(ci, vb, start as int, end as int, lo as int, hi as int);
                }
                let gs = genes@.subrange(0, i + 1);
                assert(gs.drop_last() =~= genes@.subrange(0, i as int));
            }
            i += 1;
        }
        assert(genes@.subrange(0, genes@.len() as int) =~= genes@);
        r
    }

    proof fn lemma_row_sorted(&self, g: int, x: int, y: int)
        requires
            self.wf(),
            0 <= g < self.spec_n_genes(),
            self.row_start(g) <= x <= y < self.row_end(g),
        ensures
            self.cell_idx@[x] <= self.cell_idx@[y],
        decreases y - x,
    {
        if x < y {
            self.lemma_row_sorted(g, x, y - 1);
            self.lemma_wf_facts();
            assert(self.gene_ptr@[g] <= y - 1 && y < self.gene_ptr@[g + 1]);
            assert(self.cell_idx@[y - 1] <= self.cell_idx@[y]);
        }
    }
}

fn slice_of(v: &Vec<u32>, start: usize, end: usize) -> (r: &[u32])
    requires
        start <= end <= v@.len(),
    ensures
        r@ == v@.subrange(start as int, end as int),
{
    vstd::slice::slice_subrange(v.as_slice(), start, end)
}

/// The first position whose value is not below `value`, in a sorted slice.
pub fn lower_bound(slice: &[u32], value: u32) -> (r: usize)
    requires
        forall|x: int, y: int| 0 <= x <= y < slice@.len() ==> slice@[x] <= slice@[y],
    ensures
        r <= slice@.len(),
        forall|j: int| 0 <= j < r ==> #[trigger] slice@[j] < value,
        forall|j: int| r <= j < slice@.len() ==> #[trigger] slice@[j] >= value,
{
    let mut left: usize = 0;
    let mut right: usize = slice.len();
    while left < right
        invariant
            left <= right <= slice@.len(),
            forall|x: int, y: int| 0 <= x <= y < slice@.len() ==> slice@[x] <= slice@[y],
            forall|j: int| 0 <= j < left ==> #[trigger] slice@[j] < value,
            forall|j: int| right <= j < slice@.len() ==> #[trigger] slice@[j] >= value,
        decreases right - left,
    {
        let mid = left + (right - left) / 2;
        if slice[mid] < value {
            left = mid + 1;
        } else {
            right = mid;
        }
    }
    left
}

/// Entries split at any middle point.
pub proof fn lemma_entries_split(
    ci: Seq<u32>,
    vb: Seq<u32>,
    a: int,
    m: int,
    b: int,
    lo: int,
    hi: int,
)
    requires
        a <= m <= b,
    ensures
        entries_in(ci, vb, a, b, lo, hi) == entries_in(ci, vb, a, m, lo, hi) + entries_in(
            ci,
            vb,
            m,
            b,
            lo,
            hi,
        ),
    decreases b - m,
{
    if m < b {
        lemma_entries_split(ci, vb, a, m, b - 1, lo, hi);
        assert(entries_in(ci, vb, a, b, lo, hi) =~= entries_in(ci, vb, a, m, lo, hi) + entries_in(
            ci,
            vb,
            m,
            b,
            lo,
            hi,
        ));
    } else {
        assert(entries_in(ci, vb, a, b, lo, hi) =~= entries_in(ci, vb, a, m, lo, hi) + Seq::empty());
    }
}

/// A range with no cell in `[lo, hi)` contributes nothing.
pub proof fn lemma_entries_none(ci: Seq<u32>, vb: Seq<u32>, a: int, b: int, lo: int, hi: int)
    requires
        forall|k: int| a <= k < b ==> !(lo <= #[trigger] ci[k] < hi),
    ensures
        entries_in(ci, vb, a, b, lo, hi) == Seq::<(u32, u32)>::empty(),
    decreases b - a,
{
    if a < b {
        lemma_entries_none(ci, vb, a, b - 1, lo, hi);
        assert(entries_in(ci, vb, a, b, lo, hi) =~= Seq::<(u32, u32)>::empty());
    }
}


/// Width of one shard of cells in the sharded strategy.
pub const SHARD_LEN: usize = 4096;

/// How a reduction is carried out.
#[derive(Debug, Clone, Copy, PartialEq, Eq, Structural)]
pub enum Strategy {
    Scalar,
    /// Runs of entries grouped by windows of `block` cells.
    Blocked { block: usize },
    /// Independent shards of cells over `threads` workers.
    Sharded { threads: usize },
}

/// More than one thread selects sharding; otherwise a nonzero block size
/// selects blocking; otherwise the scalar walk.
pub fn select_strategy(threads: usize, cache_block: usize) -> (r: Strategy)
    ensures
        threads > 1 ==> r == (Strategy::Sharded { threads }),
        threads <= 1 && cache_block > 0 ==> r == (Strategy::Blocked { block: cache_block }),
        threads <= 1 && cache_block == 0 ==> r == Strategy::Scalar,
{
    if threads > 1 {
        Strategy::Sharded { threads }
    } else if cache_block > 0 {
        Strategy::Blocked { block: cache_block }
    } else {
        Strategy::Scalar
    }
}

/// `ranges` cut `[0, n)` into consecutive nonempty pieces.
pub open spec fn is_partition(ranges: Seq<(usize, usize)>, n: int) -> bool {
    &&& (ranges.len() == 0 <==> n == 0)
    &&& ranges.len() > 0 ==> ranges[0].0 == 0 && ranges.last().1 == n
    &&& forall|i: int| 0 <= i < ranges.len() ==> #[trigger] ranges[i].0 < ranges[i].1
    &&& forall|i: int| 0 <= i < ranges.len() - 1 ==> #[trigger] ranges[i].1 == ranges[i + 1].0
}

/// The shards of `[0, n_cells)`: consecutive, each `shard_len` cells wide
/// except a shorter last one.
pub fn shard_bounds(n_cells: usize, shard_len: usize) -> (r: Vec<(usize, usize)>)
    requires
        shard_len > 0,
    ensures
        is_partition(r@, n_cells as int),
        forall|i: int| 0 <= i < r@.len() - 1 ==> #[trigger] r@[i].1 - r@[i].0 == shard_len,
        r@.len() > 0 ==> r@.last().1 - r@.last().0 <= shard_len,
{
    let mut r: Vec<(usize, usize)> = Vec::new();
    let mut start: usize = 0;
    while start < n_cells
        invariant
            shard_len > 0,
            start <= n_cells,
            r@.len() == 0 <==> start == 0,
            r@.len() > 0 ==> r@[0].0 == 0 && r@.last().1 == start,
            forall|i: int| 0 <= i < r@.len() ==> #[trigger] r@[i].0 < r@[i].1,
            forall|i: int| 0 <= i < r@.len() - 1 ==> #[trigger] r@[i].1 == r@[i + 1].0,
            forall|i: int| 0 <= i < r@.len() - 1 ==> #[trigger] r@[i].1 - r@[i].0 == shard_len,
            r@.len() > 0 ==> r@.last().1 - r@.last().0 <= shard_len,
            r@.len() > 0 && start < n_cells ==> r@.last().1 - r@.last().0 == shard_len,
        decreases n_cells - start,
    {
        let end = if n_cells - start <= shard_len {
            n_cells
        } else {
            start + shard_len
        };
        r.push((start, end));
        start = end;
    }
    r
}

/// The window end of the block that holds `cell`.
pub open spec fn block_end(cell: int, block: int, n_cells: int) -> int {
    let e = (cell / block) * block + block;
    if e < n_cells {
        e
    } else {
        n_cells
    }
}

/// The blocked strategy's runs over one row: consecutive entries whose cells
/// fall in the block window of the run's first cell. A block size of zero
/// counts as one.
pub fn block_runs(cells: &[u32], n_cells: usize, block_size: usize) -> (r: Vec<(usize, usize)>)
    ensures
        is_partition(r@, cells@.len() as int),
        forall|i: int, j: int|
            0 <= i < r@.len() && r@[i].0 < j < r@[i].1 ==> #[trigger] cells@[j] < block_end(
                cells@[r@[i].0 as int] as int,
                if block_size == 0 { 1 } else { block_size as int },
                n_cells as int,
            ) && #[trigger] r@[i] == r@[i],
        forall|i: int|
            0 <= i < r@.len() && r@[i].1 < cells@.len() ==> cells@[#[trigger] r@[i].1 as int]
                >= block_end(
                cells@[r@[i].0 as int] as int,
                if block_size == 0 { 1 } else { block_size as int },
                n_cells as int,
            ),
{
    let block: u128 = if block_size == 0 { 1 } else { block_size as u128 };
    let ghost blk = block as int;
    let mut r: Vec<(usize, usize)> = Vec::new();
    let mut idx: usize = 0;
    while idx < cells.len()
        invariant
            blk == block,
            blk == if block_size == 0 { 1 } else { block_size as int },
            idx <= cells@.len(),
            r@.len() == 0 <==> idx == 0,
            r@.len() > 0 ==> r@[0].0 == 0 && r@.last().1 == idx,
            forall|i: int| 0 <= i < r@.len() ==> #[trigger] r@[i].0 < r@[i].1,
            forall|i: int| 0 <= i < r@.len() - 1 ==> #[trigger] r@[i].1 == r@[i + 1].0,
            forall|i: int, j: int|
                0 <= i < r@.len() && r@[i].0 < j < r@[i].1 ==> #[trigger] cells@[j] < block_end(
                    cells@[r@[i].0 as int] as int,
                    blk,
                    n_cells as int,
                ) && #[trigger] r@[i] == r@[i],
            forall|i: int|
                0 <= i < r@.len() && r@[i].1 < cells@.len() ==> cells@[#[trigger] r@[i].1 as int]
                    >= block_end(cells@[r@[i].0 as int] as int, blk, n_cells as int),
        decreases cells@.len() - idx,
    {
        let cell = cells[idx] as u128;
        let q = cell / block;
        assert(q * block <= cell) by (nonlinear_arith)
            requires
                q == cell / block,
                block > 0,
        ;
        let e = q * block + block;
        let be = if e < n_cells as u128 {
            e
        } else {
            n_cells as u128
        };
        assert(be == block_end(cells@[idx as int] as int, blk, n_cells as int));
        let mut end: usize = idx + 1;
        while end < cells.len() && (cells[end] as u128) < be
            invariant
                idx < end <= cells@.len(),
                forall|j: int| idx < j < end ==> #[trigger] cells@[j] < be,
            decreases cells@.len() - end,
        {
            end += 1;
        }
        let ghost old_r = r@;
        r.push((idx, end));
        assert forall|i: int, j: int|
            0 <= i < r@.len() && r@[i].0 < j < r@[i].1 implies #[trigger] cells@[j] < block_end(
                cells@[r@[i].0 as int] as int,
                blk,
                n_cells as int,
            ) && #[trigger] r@[i] == r@[i] by {
            if i < old_r.len() {
                assert(old_r[i] == r@[i]);
            }
        }
        assert forall|i: int|
            0 <= i < r@.len() && r@[i].1 < cells@.len() implies cells@[#[trigger] r@[i].1 as int]
                >= block_end(cells@[r@[i].0 as int] as int, blk, n_cells as int) by {
            if i < old_r.len() {
                assert(old_r[i] == r@[i]);
            }
        }
        idx = end;
    }
    r
}

/// Splitting a schedule splits what each cell receives.
pub proof fn lemma_for_cell_append(s: Seq<(u32, u32)>, t: Seq<(u32, u32)>, c: int)
    ensures
        for_cell(s + t, c) == for_cell(s, c) + for_cell(t, c),
    decreases t.len(),
{
    if t.len() == 0 {
        assert(s + t =~= s);
        assert(for_cell(s, c) + for_cell(t, c) =~= for_cell(s, c));
    } else {
        lemma_for_cell_append(s, t.drop_last(), c);
        assert((s + t).drop_last() =~= s + t.drop_last());
        assert(for_cell(s + t, c) =~= for_cell(s, c) + for_cell(t, c));
    }
}

/// Within one row, a narrower cell window hands a cell inside it the same
/// values as the full window.
proof fn lemma_for_cell_window(
    ci: Seq<u32>,
    vb: Seq<u32>,
    a: int,
    b: int,
    lo: int,
    hi: int,
    n: int,
    c: int,
)
    requires
        lo <= c < hi,
        0 <= c < n,
        forall|k: int| a <= k < b ==> 0 <= #[trigger] ci[k] < n,
    ensures
        for_cell(entries_in(ci, vb, a, b, lo, hi), c) == for_cell(entries_in(ci, vb, a, b, 0, n), c),
    decreases b - a,
{
    if a < b {
        lemma_for_cell_window(ci, vb, a, b - 1, lo, hi, n, c);
        let e = seq![(ci[b - 1], vb[b - 1])];
        let x = if lo <= ci[b - 1] < hi { e } else { Seq::empty() };
        let y = if 0 <= ci[b - 1] < n { e } else { Seq::empty() };
        lemma_for_cell_append(entries_in(ci, vb, a, b - 1, lo, hi), x, c);
        lemma_for_cell_append(entries_in(ci, vb, a, b - 1, 0, n), y, c);
        assert(e.drop_last() =~= Seq::<(u32, u32)>::empty());
        assert(for_cell(Seq::<(u32, u32)>::empty(), c) == Seq::<u32>::empty());
        if ci[b - 1] == c {
            assert(for_cell(x, c) == for_cell(y, c));
        } else {
            assert(for_cell(e, c) =~= Seq::<u32>::empty());
        }
    }
}

impl SparseStore {
    /// Every cell of a shard receives from the shard's schedule exactly the
    /// values, in the same order, that the full scalar walk gives it: the
    /// scalar, blocked and sharded strategies add the same numbers in the same
    /// order for every cell, and so agree bit for bit.
    pub proof fn lemma_shard_matches_scalar(&self, genes: Seq<usize>, lo: int, hi: int, c: int)
        requires
            self.wf(),
            self.genes_valid(genes),
            lo <= c < hi,
            0 <= c < self.spec_n_cells(),
        ensures
            for_cell(self.schedule(genes, lo, hi), c) == for_cell(self.full_schedule(genes), c),
        decreases genes.len(),
    {
        if genes.len() > 0 {
            let gs = genes.drop_last();
            assert(self.genes_valid(gs)) by {
                assert forall|i: int| 0 <= i < gs.len() implies #[trigger] gs[i] < self.spec_n_genes() by {
                    assert(gs[i] == genes[i]);
                }
            }
            self.lemma_shard_matches_scalar(gs, lo, hi, c);
            let g = genes.last() as int;
            assert(genes[genes.len() - 1] < self.spec_n_genes());
            self.lemma_rows_in_bounds();
            self.lemma_wf_facts();
            let n = self.spec_n_cells();
            let a = self.row_start(g);
            let b = self.row_end(g);
            lemma_for_cell_window(self.cell_idx@, self.value_bits@, a, b, lo, hi, n, c);
            lemma_for_cell_append(
                self.schedule(gs, lo, hi),
                entries_in(self.cell_idx@, self.value_bits@, a, b, lo, hi),
                c,
            );
            lemma_for_cell_append(
                self.schedule(gs, 0, n),
                entries_in(self.cell_idx@, self.value_bits@, a, b, 0, n),
                c,
            );
        }
    }

    /// An empty request is accepted for an output of one value per cell and
    /// schedules nothing, so every cell reduces to zero.
    pub proof fn lemma_empty_request(&self)
        ensures
            self.request_error(Seq::empty(), self.spec_n_cells()) is None,
            self.full_schedule(Seq::empty()) == Seq::<(u32, u32)>::empty(),
            forall|c: int| #[trigger] for_cell(self.full_schedule(Seq::empty()), c) == Seq::<u32>::empty(),
    {
    }
}

} // verus!
