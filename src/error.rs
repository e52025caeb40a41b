//! Error types of the storage formats and the reduction engine.
use vstd::prelude::*;

verus! {

/// The four failure classes; an empty gene set is advisory and no error.
#[derive(Debug, Clone, Copy, PartialEq, Eq, Structural)]
pub enum ErrorKind {
    /// Magic, version, layout or size mismatch in a binary format.
    Format,
    /// Checksum mismatch, broken CSC structure, malformed string table.
    Corruption,
    /// A caller passed an output buffer of the wrong length or an unknown row.
    Usage,
    /// A stored value is NaN.
    DataQuality,
}

/// Failures of the sparse store format and its reader.
#[derive(Debug, Clone, Copy, PartialEq, Eq, Structural)]
pub enum StoreError {
    /// The buffer ends before the header does.
    Truncated,
    BadMagic,
    UnsupportedVersion(u32),
    UnsupportedLayout(u32),
    /// The buffer length differs from the length the header implies.
    SizeMismatch { expected: u128, actual: usize },
    /// `gene_ptr[0]` is not zero.
    GenePtrStart,
    /// `gene_ptr` decreases somewhere.
    GenePtrNotMonotonic,
    /// `gene_ptr[n_genes]` differs from `nnz`.
    GenePtrEnd,
    /// A stored cell id is not below `n_cells`.
    CellOutOfRange,
    /// The cell ids of some gene row are not in ascending order.
    CellsNotSorted,
    /// A gene id is not below `n_genes`.
    GeneOutOfRange(usize),
}

impl StoreError {
    pub open spec fn spec_kind(self) -> ErrorKind {
        match self {
            StoreError::Truncated | StoreError::BadMagic | StoreError::UnsupportedVersion(_)
            | StoreError::UnsupportedLayout(_) | StoreError::SizeMismatch { .. } => ErrorKind::Format,
            StoreError::GeneOutOfRange(_) => ErrorKind::Usage,
            _ => ErrorKind::Corruption,
        }
    }

    pub fn kind(&self) -> (r: ErrorKind)
        ensures
            r == self.spec_kind(),
    {
        match self {
            StoreError::Truncated | StoreError::BadMagic | StoreError::UnsupportedVersion(_)
            | StoreError::UnsupportedLayout(_) | StoreError::SizeMismatch { .. } => ErrorKind::Format,
            StoreError::GeneOutOfRange(_) => ErrorKind::Usage,
            _ => ErrorKind::Corruption,
        }
    }
}

} // verus!

verus! {

/// Failures of a reduction request.
#[derive(Debug, Clone, Copy, PartialEq, Eq, Structural)]
pub enum ReduceError {
    /// The output buffer does not hold one value per cell.
    OutputLengthMismatch { expected: usize, actual: usize },
    /// A requested gene id is not below `n_genes`.
    GeneOutOfRange,
    /// A value in a requested row is NaN.
    NanValue,
    /// The fused output does not hold one value per target and cell.
    FusedLengthMismatch,
    /// A fusion plan covers more genes than the store holds, or was built
    /// for another number of cells.
    PlanShapeMismatch,
}

impl ReduceError {
    pub open spec fn spec_kind(self) -> ErrorKind {
        match self {
            ReduceError::NanValue => ErrorKind::DataQuality,
            _ => ErrorKind::Usage,
        }
    }

    pub fn kind(&self) -> (r: ErrorKind)
        ensures
            r == self.spec_kind(),
    {
        match self {
            ReduceError::NanValue => ErrorKind::DataQuality,
            _ => ErrorKind::Usage,
        }
    }
}

} // verus!

verus! {

/// The regions a shared cache file declares.
#[derive(Debug, Clone, Copy, PartialEq, Eq, Structural)]
pub enum Section {
    GenesTable,
    BarcodesTable,
    ColPtr,
    RowIdx,
    ValuesU32,
}

/// Failures of shared cache ingestion, one per check.
#[derive(Debug, Clone, Copy, PartialEq, Eq, Structural)]
pub enum CacheError {
    /// The file is shorter than its fixed header.
    TooSmall,
    BadMagic,
    UnsupportedMajor(u16),
    UnsupportedMinor(u16),
    BadEndianTag(u32),
    BadHeaderSize(u32),
    /// The stored header checksum differs from the one computed.
    CrcMismatch { expected: u64, computed: u64 },
    /// The declared file length differs from the actual one.
    FileBytesMismatch { declared: u64, actual: usize },
    /// Optional blocks or a data checksum are declared.
    UnsupportedBlocks,
    /// A declared region reaches past the end of the file.
    OutOfBounds(Section),
    TableTooSmall(Section),
    TableCountMismatch { section: Section, expected: u64, found: u32 },
    TableOffsetsTruncated(Section),
    TableOffsetsNotMonotonic(Section),
    TableTerminalMismatch(Section),
    InvalidUtf8(Section),
    ColPtrStart,
    ColPtrNotMonotonic,
    ColPtrEnd,
    RowIdxOutOfBounds,
    RowIdxNotIncreasing,
    /// An entry index is not below `nnz`.
    EntryOutOfRange(usize),
}

impl CacheError {
    pub open spec fn spec_kind(self) -> ErrorKind {
        match self {
            CacheError::TooSmall | CacheError::BadMagic | CacheError::UnsupportedMajor(_)
            | CacheError::UnsupportedMinor(_) | CacheError::BadEndianTag(_)
            | CacheError::BadHeaderSize(_) | CacheError::FileBytesMismatch { .. }
            | CacheError::UnsupportedBlocks => ErrorKind::Format,
            CacheError::EntryOutOfRange(_) => ErrorKind::Usage,
            _ => ErrorKind::Corruption,
        }
    }

    pub fn kind(&self) -> (r: ErrorKind)
        ensures
            r == self.spec_kind(),
    {
        match self {
            CacheError::TooSmall | CacheError::BadMagic | CacheError::UnsupportedMajor(_)
            | CacheError::UnsupportedMinor(_) | CacheError::BadEndianTag(_)
            | CacheError::BadHeaderSize(_) | CacheError::FileBytesMismatch { .. }
            | CacheError::UnsupportedBlocks => ErrorKind::Format,
            CacheError::EntryOutOfRange(_) => ErrorKind::Usage,
            _ => ErrorKind::Corruption,
        }
    }
}

} // verus!
