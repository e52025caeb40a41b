//! The gene-major sparse store: decoding and validating a store file, access
//! to one gene row, and encoding a store from its three arrays.
//!
//! Values are carried as the bit patterns of their `f32` encodings.
use vstd::bytes::*;
use vstd::prelude::*;
use vstd::slice::slice_subrange;

use crate::bytes::{push_u32, push_u64, read_u32_at, read_u64_at, u32_at, u64_at};
use crate::error::StoreError;
use crate::layout::{
    decode_header, header_bytes, lemma_header_round_trip, read_header, write_header, ExprHeaderV1,
    HEADER_SIZE, LAYOUT_CSC, VERSION,
};

verus! {

/// `n` little-endian u64 values starting at `off`.
pub open spec fn u64_array(b: Seq<u8>, off: int, n: int) -> Seq<u64> {
    Seq::new(n as nat, |i: int| u64_at(b, off + 8 * i))
}

/// `n` little-endian u32 values starting at `off`.
pub open spec fn u32_array(b: Seq<u8>, off: int, n: int) -> Seq<u32> {
    Seq::new(n as nat, |i: int| u32_at(b, off + 4 * i))
}

/// Every adjacent pair is in order.
pub open spec fn non_decreasing(s: Seq<u64>) -> bool {
    forall|i: int| 0 <= i < s.len() - 1 ==> #[trigger] s[i] <= s[i + 1]
}

/// Cell ids are ascending within each gene row `[gp[g], gp[g + 1])`.
pub open spec fn rows_sorted(gp: Seq<u64>, ci: Seq<u32>) -> bool {
    forall|g: int, k: int|
        #![trigger gp[g], ci[k]]
        0 <= g < gp.len() - 1 && gp[g] <= k && k + 1 < gp[g + 1] ==> ci[k] <= ci[k + 1]
}

/// The first structural defect of the three arrays, in the order checked.
#[verifier::opaque]
pub open spec fn arrays_error(n_cells: u32, gp: Seq<u64>, ci: Seq<u32>) -> Option<StoreError> {
    if gp[0] != 0 {
        Some(StoreError::GenePtrStart)
    } else if !non_decreasing(gp) {
        Some(StoreError::GenePtrNotMonotonic)
    } else if gp[gp.len() - 1] != ci.len() {
        Some(StoreError::GenePtrEnd)
    } else if !(forall|k: int| 0 <= k < ci.len() ==> #[trigger] ci[k] < n_cells) {
        Some(StoreError::CellOutOfRange)
    } else if !rows_sorted(gp, ci) {
        Some(StoreError::CellsNotSorted)
    } else {
        None
    }
}

pub open spec fn gene_ptr_of(b: Seq<u8>, h: ExprHeaderV1) -> Seq<u64> {
    u64_array(b, HEADER_SIZE as int, h.n_genes + 1)
}

pub open spec fn cell_idx_of(b: Seq<u8>, h: ExprHeaderV1) -> Seq<u32> {
    u32_array(b, h.spec_cell_idx_offset(), h.nnz as int)
}

pub open spec fn value_bits_of(b: Seq<u8>, h: ExprHeaderV1) -> Seq<u32> {
    u32_array(b, h.spec_values_offset(), h.nnz as int)
}

/// Why a buffer is not a store file, or `None` when it is one.
pub open spec fn store_error(b: Seq<u8>) -> Option<StoreError> {
    match decode_header(b) {
        Err(e) => Some(e),
        Ok(h) => if h.spec_expected_len() != b.len() {
            Some(
                StoreError::SizeMismatch {
                    expected: h.spec_expected_len() as u128,
                    actual: b.len() as usize,
                },
            )
        } else {
            arrays_error(h.n_cells, gene_ptr_of(b, h), cell_idx_of(b, h))
        },
    }
}

/// A validated gene-major store held in memory.
pub struct SparseStore {
    pub header: ExprHeaderV1,
    pub gene_ptr: Vec<u64>,
    pub cell_idx: Vec<u32>,
    pub value_bits: Vec<u32>,
}

impl SparseStore {
    /// The header is supported, the arrays have the lengths it states, and
    /// they pass every structural check.
    pub open spec fn wf(&self) -> bool {
        &&& self.header.wf()
        &&& self.gene_ptr@.len() == self.header.n_genes + 1
        &&& self.cell_idx@.len() == self.header.nnz
        &&& self.value_bits@.len() == self.header.nnz
        &&& arrays_error(self.header.n_cells, self.gene_ptr@, self.cell_idx@) is None
    }

    pub open spec fn spec_n_genes(&self) -> int {
        self.header.n_genes as int
    }

    pub open spec fn spec_n_cells(&self) -> int {
        self.header.n_cells as int
    }

    /// First entry of gene row `g`.
    pub open spec fn row_start(&self, g: int) -> int {
        self.gene_ptr@[g] as int
    }

    /// One past the last entry of gene row `g`.
    pub open spec fn row_end(&self, g: int) -> int {
        self.gene_ptr@[g + 1] as int
    }

    /// Opens a store from the bytes of a store file: the header, the length it
    /// implies, then the structure of the three arrays.
    pub fn open(b: &[u8]) -> (r: Result<SparseStore, StoreError>)
        ensures
            match r {
                Ok(s) => {
                    &&& store_error(b@) is None
                    &&& s.wf()
                    &&& decode_header(b@) == Ok::<ExprHeaderV1, StoreError>(s.header)
                    &&& s.header.spec_expected_len() == b@.len()
                    &&& s.gene_ptr@ == gene_ptr_of(b@, s.header)
                    &&& s.cell_idx@ == cell_idx_of(b@, s.header)
                    &&& s.value_bits@ == value_bits_of(b@, s.header)
                },
                Err(e) => store_error(b@) == Some(e),
            },
    {
        let header = match read_header(b) {
            Ok(h) => h,
            Err(e) => return Err(e),
        };
        let expected = header.expected_len();
        if expected != b.len() as u128 {
            return Err(StoreError::SizeMismatch { expected, actual: b.len() });
        }
        let n_ptr = header.n_genes as usize + 1;
        let nnz = header.nnz as usize;
        let ci_off = header.cell_idx_offset() as usize;
        let v_off = header.values_offset() as usize;
        let gene_ptr = read_u64_array(b, HEADER_SIZE, n_ptr);
        let cell_idx = read_u32_array(b, ci_off, nnz);
        let value_bits = read_u32_array(b, v_off, nnz);
        match check_arrays(header.n_cells, &gene_ptr, &cell_idx) {
            Some(e) => Err(e),
            None => Ok(SparseStore { header, gene_ptr, cell_idx, value_bits }),
        }
    }

    /// An existing store can stand in for a rebuild when its dimensions are
    /// those of the current input.
    pub fn reusable(&self, n_genes: usize, n_cells: usize, nnz: usize) -> (r: bool)
        ensures
            r == (self.header.n_genes == n_genes && self.header.n_cells == n_cells
                && self.header.nnz == nnz),
    {
        self.header.n_genes as usize == n_genes && self.header.n_cells as usize == n_cells
            && self.header.nnz == nnz as u64
    }

    pub fn n_genes(&self) -> (r: usize)
        requires
            self.wf(),
        ensures
            r == self.spec_n_genes(),
    {
        self.gene_ptr.len() - 1
    }

    pub fn n_cells(&self) -> (r: usize)
        ensures
            r == self.spec_n_cells(),
    {
        self.header.n_cells as usize
    }

    /// The co-indexed cell ids and value bits of one gene row.
    pub fn gene_slice(&self, gene_id: usize) -> (r: Result<(&[u32], &[u32]), StoreError>)
        requires
            self.wf(),
        ensures
            match r {
                Ok((cells, values)) => {
                    &&& gene_id < self.spec_n_genes()
                    &&& cells@ == self.cell_idx@.subrange(
                        self.row_start(gene_id as int),
                        self.row_end(gene_id as int),
                    )
                    &&& values@ == self.value_bits@.subrange(
                        self.row_start(gene_id as int),
                        self.row_end(gene_id as int),
                    )
                },
                Err(e) => gene_id >= self.spec_n_genes() && e == StoreError::GeneOutOfRange(
                    gene_id,
                ),
            },
    {
        if gene_id >= self.gene_ptr.len() - 1 {
            return Err(StoreError::GeneOutOfRange(gene_id));
        }
        let (start, end) = self.row_range(gene_id);
        Ok(
            (
                slice_subrange(self.cell_idx.as_slice(), start, end),
                slice_subrange(self.value_bits.as_slice(), start, end),
            ),
        )
    }

    /// The entry range `[start, end)` of a gene row.
    pub fn row_range(&self, gene_id: usize) -> (r: (usize, usize))
        requires
            self.wf(),
            gene_id < self.spec_n_genes(),
        ensures
            r.0 == self.row_start(gene_id as int),
            r.1 == self.row_end(gene_id as int),
            r.0 <= r.1 <= self.cell_idx@.len(),
    {
        proof {
            self.lemma_rows_in_bounds();
        }
        // The entry count is a usize, so both bounds below are too.
        let _len = self.cell_idx.len();
        (self.gene_ptr[gene_id] as usize, self.gene_ptr[gene_id + 1] as usize)
    }

    /// Every gene row is an ordered range inside the entry arrays.
    pub proof fn lemma_rows_in_bounds(&self)
        requires
            self.wf(),
        ensures
            forall|g: int|
                0 <= g < self.spec_n_genes() ==> 0 <= #[trigger] self.row_start(g) <= self.row_end(
                    g,
                ) <= self.cell_idx@.len(),
    {
        reveal(arrays_error);
        lemma_non_decreasing_pairs(self.gene_ptr@);
    }

    /// What validity states of the arrays, spelled out.
    pub proof fn lemma_wf_facts(&self)
        requires
            self.wf(),
        ensures
            self.gene_ptr@[0] == 0,
            self.gene_ptr@[self.spec_n_genes()] == self.header.nnz,
            non_decreasing(self.gene_ptr@),
            forall|k: int|
                0 <= k < self.cell_idx@.len() ==> #[trigger] self.cell_idx@[k] < self.spec_n_cells(),
            rows_sorted(self.gene_ptr@, self.cell_idx@),
    {
        reveal(arrays_error);
    }
}

/// Adjacent order gives order between any two positions.
pub proof fn lemma_non_decreasing_pairs(s: Seq<u64>)
    requires
        non_decreasing(s),
    ensures
        forall|i: int, j: int| 0 <= i <= j < s.len() ==> s[i] <= s[j],
{
    assert forall|i: int, j: int| 0 <= i <= j < s.len() implies s[i] <= s[j] by {
        lemma_non_decreasing_from(s, i, j);
    }
}

proof fn lemma_non_decreasing_from(s: Seq<u64>, i: int, j: int)
    requires
        non_decreasing(s),
        0 <= i <= j < s.len(),
    ensures
        s[i] <= s[j],
    decreases j - i,
{
    if i < j {
        lemma_non_decreasing_from(s, i, j - 1);
        assert(s[j - 1] <= s[j]);
    }
}

pub(crate) fn read_u64_array(b: &[u8], off: usize, n: usize) -> (r: Vec<u64>)
    requires
        off + 8 * n <= b@.len(),
    ensures
        r@ == u64_array(b@, off as int, n as int),
{
    let mut r: Vec<u64> = Vec::with_capacity(n);
    let blen = b.len();
    let mut i: usize = 0;
    while i < n
        invariant
            i <= n,
            blen == b@.len(),
            off + 8 * n <= b@.len(),
            r@ =~= u64_array(b@, off as int, i as int),
        decreases n - i,
    {
        r.push(read_u64_at(b, off + 8 * i));
        i += 1;
    }
    r
}

pub(crate) fn read_u32_array(b: &[u8], off: usize, n: usize) -> (r: Vec<u32>)
    requires
        off + 4 * n <= b@.len(),
    ensures
        r@ == u32_array(b@, off as int, n as int),
{
    let mut r: Vec<u32> = Vec::with_capacity(n);
    let blen = b.len();
    let mut i: usize = 0;
    while i < n
        invariant
            i <= n,
            blen == b@.len(),
            off + 4 * n <= b@.len(),
            r@ =~= u32_array(b@, off as int, i as int),
        decreases n - i,
    {
        r.push(read_u32_at(b, off + 4 * i));
        i += 1;
    }
    r
}

pub(crate) fn is_non_decreasing(s: &Vec<u64>) -> (r: bool)
    ensures
        r == non_decreasing(s@),
{
    if s.len() == 0 {
        return true;
    }
    let mut i: usize = 1;
    while i < s.len()
        invariant
            1 <= i <= s@.len(),
            forall|j: int| 0 <= j < i - 1 ==> #[trigger] s@[j] <= s@[j + 1],
        decreases s.len() - i,
    {
        if s[i - 1] > s[i] {
            return false;
        }
        i += 1;
    }
    true
}

fn all_below(ci: &Vec<u32>, n_cells: u32) -> (r: bool)
    ensures
        r == (forall|k: int| 0 <= k < ci@.len() ==> #[trigger] ci@[k] < n_cells),
{
    let mut k: usize = 0;
    while k < ci.len()
        invariant
            forall|j: int| 0 <= j < k && j < ci@.len() ==> #[trigger] ci@[j] < n_cells,
        decreases ci.len() - k,
    {
        if ci[k] >= n_cells {
            return false;
        }
        k += 1;
    }
    true
}

fn are_rows_sorted(gp: &Vec<u64>, ci: &Vec<u32>) -> (r: bool)
    requires
        gp@.len() >= 1,
        non_decreasing(gp@),
        gp@[gp@.len() - 1] == ci@.len(),
    ensures
        r == rows_sorted(gp@, ci@),
{
    proof {
        lemma_non_decreasing_pairs(gp@);
    }
    let n = gp.len() - 1;
    let ci_len = ci.len();
    let mut g: usize = 0;
    while g < n
        invariant
            n == gp@.len() - 1,
            ci_len == ci@.len(),
            g <= n,
            non_decreasing(gp@),
            forall|i: int, j: int| 0 <= i <= j < gp@.len() ==> gp@[i] <= gp@[j],
            gp@[gp@.len() - 1] == ci@.len(),
            forall|h: int, k: int|
                #![trigger gp@[h], ci@[k]]
                0 <= h < g && gp@[h] <= k && k + 1 < gp@[h + 1] ==> ci@[k] <= ci@[k + 1],
        decreases n - g,
    {
        let start = gp[g] as usize;
        let end = gp[g + 1] as usize;
        let mut k: usize = start;
        while k < end
            invariant
                g < n,
                n == gp@.len() - 1,
                start == gp@[g as int],
                end == gp@[g + 1],
                end <= ci@.len(),
                start <= k,
                forall|j: int| start <= j < k && j + 1 < end ==> #[trigger] ci@[j] <= ci@[j + 1],
            decreases end - k,
        {
            if k + 1 < end && ci[k] > ci[k + 1] {
                assert(!rows_sorted(gp@, ci@)) by {
                    assert(gp@[g as int] <= k && k + 1 < gp@[g + 1]);
                    assert(ci@[k as int] > ci@[k + 1]);
                }
                return false;
            }
            k += 1;
        }
        assert forall|h: int, k2: int|
            #![trigger gp@[h], ci@[k2]]
            0 <= h < g + 1 && gp@[h] <= k2 && k2 + 1 < gp@[h + 1] implies ci@[k2] <= ci@[k2
                + 1] by {
            if h == g {
                assert(start <= k2 && k2 + 1 < end);
            }
        }
        g += 1;
    }
    true
}

/// Checks the three arrays in the order `arrays_error` states.
fn check_arrays(n_cells: u32, gp: &Vec<u64>, ci: &Vec<u32>) -> (r: Option<StoreError>)
    requires
        gp@.len() >= 1,
    ensures
        r == arrays_error(n_cells, gp@, ci@),
{
    reveal(arrays_error);
    if gp[0] != 0 {
        return Some(StoreError::GenePtrStart);
    }
    if !is_non_decreasing(gp) {
        return Some(StoreError::GenePtrNotMonotonic);
    }
    if gp[gp.len() - 1] != ci.len() as u64 {
        return Some(StoreError::GenePtrEnd);
    }
    if !all_below(ci, n_cells) {
        return Some(StoreError::CellOutOfRange);
    }
    if !are_rows_sorted(gp, ci) {
        return Some(StoreError::CellsNotSorted);
    }
    None
}

/// Little-endian encoding of a sequence of u64 values.
pub open spec fn u64s_bytes(s: Seq<u64>) -> Seq<u8>
    decreases s.len(),
{
    if s.len() == 0 {
        Seq::empty()
    } else {
        u64s_bytes(s.drop_last()) + spec_u64_to_le_bytes(s.last())
    }
}

/// Little-endian encoding of a sequence of u32 values.
pub open spec fn u32s_bytes(s: Seq<u32>) -> Seq<u8>
    decreases s.len(),
{
    if s.len() == 0 {
        Seq::empty()
    } else {
        u32s_bytes(s.drop_last()) + spec_u32_to_le_bytes(s.last())
    }
}

/// The header a store with these arrays carries.
pub open spec fn header_for(n_cells: u32, n_ptr: int, nnz: int) -> ExprHeaderV1 {
    ExprHeaderV1 {
        version: VERSION,
        n_genes: (n_ptr - 1) as u32,
        n_cells,
        nnz: nnz as u64,
        layout: LAYOUT_CSC,
    }
}

/// The bytes of a store file holding these arrays.
pub open spec fn store_bytes(n_cells: u32, gp: Seq<u64>, ci: Seq<u32>, vb: Seq<u32>) -> Seq<u8> {
    header_bytes(header_for(n_cells, gp.len() as int, ci.len() as int)) + u64s_bytes(gp)
        + u32s_bytes(ci) + u32s_bytes(vb)
}

pub(crate) fn push_u64s(out: &mut Vec<u8>, s: &[u64])
    ensures
        final(out)@ == old(out)@ + u64s_bytes(s@),
{
    let ghost start = out@;
    let mut i: usize = 0;
    while i < s.len()
        invariant
            i <= s@.len(),
            out@ == start + u64s_bytes(s@.subrange(0, i as int)),
        decreases s.len() - i,
    {
        push_u64(out, s[i]);
        proof {
            let p = s@.subrange(0, i + 1);
            assert(p.drop_last() =~= s@.subrange(0, i as int));
            assert(out@ =~= start + u64s_bytes(p));
        }
        i += 1;
    }
    assert(s@.subrange(0, s@.len() as int) =~= s@);
}

pub(crate) fn push_u32s(out: &mut Vec<u8>, s: &[u32])
    ensures
        final(out)@ == old(out)@ + u32s_bytes(s@),
{
    let ghost start = out@;
    let mut i: usize = 0;
    while i < s.len()
        invariant
            i <= s@.len(),
            out@ == start + u32s_bytes(s@.subrange(0, i as int)),
        decreases s.len() - i,
    {
        push_u32(out, s[i]);
        proof {
            let p = s@.subrange(0, i + 1);
            assert(p.drop_last() =~= s@.subrange(0, i as int));
            assert(out@ =~= start + u32s_bytes(p));
        }
        i += 1;
    }
    assert(s@.subrange(0, s@.len() as int) =~= s@);
}

/// Encodes a store file from its three arrays: header, `gene_ptr`,
/// `cell_idx`, then the value bits.
pub fn encode_store(n_cells: u32, gene_ptr: &[u64], cell_idx: &[u32], value_bits: &[u32]) -> (r:
    Vec<u8>)
    requires
        1 <= gene_ptr@.len() <= 0x1_0000_0000,
        cell_idx@.len() == value_bits@.len(),
    ensures
        r@ == store_bytes(n_cells, gene_ptr@, cell_idx@, value_bits@),
{
    let header = ExprHeaderV1 {
        version: VERSION,
        n_genes: (gene_ptr.len() - 1) as u32,
        n_cells,
        nnz: cell_idx.len() as u64,
        layout: LAYOUT_CSC,
    };
    let mut out = write_header(&header);
    push_u64s(&mut out, gene_ptr);
    push_u32s(&mut out, cell_idx);
    push_u32s(&mut out, value_bits);
    out
}

pub(crate) proof fn lemma_u64s_len(s: Seq<u64>)
    ensures
        u64s_bytes(s).len() == 8 * s.len(),
    decreases s.len(),
{
    if s.len() > 0 {
        lemma_u64s_len(s.drop_last());
        vstd::bytes::lemma_auto_spec_u64_to_from_le_bytes();
    }
}

pub(crate) proof fn lemma_u32s_len(s: Seq<u32>)
    ensures
        u32s_bytes(s).len() == 4 * s.len(),
    decreases s.len(),
{
    if s.len() > 0 {
        lemma_u32s_len(s.drop_last());
        vstd::bytes::lemma_auto_spec_u32_to_from_le_bytes();
    }
}

/// An encoded store is exactly as long as its header says a store file is.
pub proof fn lemma_encoded_len(n_cells: u32, gp: Seq<u64>, ci: Seq<u32>, vb: Seq<u32>)
    requires
        1 <= gp.len() <= 0x1_0000_0000,
        ci.len() == vb.len(),
        ci.len() <= u64::MAX,
    ensures
        store_bytes(n_cells, gp, ci, vb).len() == header_for(
            n_cells,
            gp.len() as int,
            ci.len() as int,
        ).spec_expected_len(),
{
    let h = header_for(n_cells, gp.len() as int, ci.len() as int);
    lemma_header_round_trip(h);
    lemma_u64s_len(gp);
    lemma_u32s_len(ci);
    lemma_u32s_len(vb);
}

pub(crate) proof fn lemma_u64s_read(pre: Seq<u8>, s: Seq<u64>, post: Seq<u8>)
    ensures
        u64_array(pre + u64s_bytes(s) + post, pre.len() as int, s.len() as int) == s,
    decreases s.len(),
{
    if s.len() > 0 {
        let s1 = s.drop_last();
        let x = s.last();
        let tail = spec_u64_to_le_bytes(x) + post;
        lemma_u64s_read(pre, s1, tail);
        lemma_u64s_len(s1);
        assert(pre + u64s_bytes(s) + post =~= pre + u64s_bytes(s1) + tail);
        crate::bytes::lemma_u64_round_trip(pre + u64s_bytes(s1), x, post);
        assert(pre + u64s_bytes(s) + post =~= (pre + u64s_bytes(s1)) + spec_u64_to_le_bytes(x)
            + post);
        let whole = pre + u64s_bytes(s) + post;
        assert(u64_array(whole, pre.len() as int, s.len() as int) =~= s) by {
            assert forall|i: int| 0 <= i < s.len() implies #[trigger] u64_array(
                whole,
                pre.len() as int,
                s.len() as int,
            )[i] == s[i] by {
                if i < s.len() - 1 {
                    assert(u64_array(whole, pre.len() as int, s1.len() as int)[i] == s1[i]);
                }
            }
        }
    } else {
        assert(u64_array(pre + u64s_bytes(s) + post, pre.len() as int, 0) =~= s);
    }
}

pub(crate) proof fn lemma_u32s_read(pre: Seq<u8>, s: Seq<u32>, post: Seq<u8>)
    ensures
        u32_array(pre + u32s_bytes(s) + post, pre.len() as int, s.len() as int) == s,
    decreases s.len(),
{
    if s.len() > 0 {
        let s1 = s.drop_last();
        let x = s.last();
        let tail = spec_u32_to_le_bytes(x) + post;
        lemma_u32s_read(pre, s1, tail);
        lemma_u32s_len(s1);
        assert(pre + u32s_bytes(s) + post =~= pre + u32s_bytes(s1) + tail);
        crate::bytes::lemma_u32_round_trip(pre + u32s_bytes(s1), x, post);
        assert(pre + u32s_bytes(s) + post =~= (pre + u32s_bytes(s1)) + spec_u32_to_le_bytes(x)
            + post);
        let whole = pre + u32s_bytes(s) + post;
        assert(u32_array(whole, pre.len() as int, s.len() as int) =~= s) by {
            assert forall|i: int| 0 <= i < s.len() implies #[trigger] u32_array(
                whole,
                pre.len() as int,
                s.len() as int,
            )[i] == s[i] by {
                if i < s.len() - 1 {
                    assert(u32_array(whole, pre.len() as int, s1.len() as int)[i] == s1[i]);
                }
            }
        }
    } else {
        assert(u32_array(pre + u32s_bytes(s) + post, pre.len() as int, 0) =~= s);
    }
}

/// A buffer opens only when its length is the one its header implies; a
/// decodable header with any other length is rejected as a size mismatch.
pub proof fn lemma_length_gate(b: Seq<u8>)
    ensures
        store_error(b) is None ==> (decode_header(b) is Ok && decode_header(
            b,
        )->Ok_0.spec_expected_len() == b.len()),
        (decode_header(b) is Ok && decode_header(b)->Ok_0.spec_expected_len() != b.len())
            ==> store_error(b) == Some(
            StoreError::SizeMismatch {
                expected: decode_header(b)->Ok_0.spec_expected_len() as u128,
                actual: b.len() as usize,
            },
        ),
{
}

/// Encoding valid arrays gives bytes that open, and reading them back gives
/// the same header and arrays.
pub proof fn lemma_encode_open(n_cells: u32, gp: Seq<u64>, ci: Seq<u32>, vb: Seq<u32>)
    requires
        1 <= gp.len() <= 0x1_0000_0000,
        ci.len() == vb.len(),
        ci.len() <= u64::MAX,
        arrays_error(n_cells, gp, ci) is None,
    ensures
        ({
            let b = store_bytes(n_cells, gp, ci, vb);
            let h = header_for(n_cells, gp.len() as int, ci.len() as int);
            &&& store_error(b) is None
            &&& decode_header(b) == Ok::<ExprHeaderV1, StoreError>(h)
            &&& h.spec_expected_len() == b.len()
            &&& gene_ptr_of(b, h) == gp
            &&& cell_idx_of(b, h) == ci
            &&& value_bits_of(b, h) == vb
        }),
{
    let h = header_for(n_cells, gp.len() as int, ci.len() as int);
    let hb = header_bytes(h);
    let a = u64s_bytes(gp);
    let c = u32s_bytes(ci);
    let v = u32s_bytes(vb);
    let b = store_bytes(n_cells, gp, ci, vb);
    lemma_encoded_len(n_cells, gp, ci, vb);
    lemma_header_round_trip(h);
    crate::layout::lemma_header_round_trip_with_tail(h, a + c + v);
    assert(b =~= hb + (a + c + v));
    lemma_u64s_len(gp);
    lemma_u32s_len(ci);
    lemma_u64s_read(hb, gp, c + v);
    assert(b =~= hb + a + (c + v));
    lemma_u32s_read(hb + a, ci, v);
    assert(b =~= (hb + a) + c + v);
    lemma_u32s_read(hb + a + c, vb, Seq::empty());
    assert(b =~= (hb + a + c) + v + Seq::<u8>::empty());
}

} // verus!
