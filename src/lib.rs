//! Storage and reduction core for per-cell gene-set statistics over sparse
//! genes x cells expression matrices.
//!
//! Expression values are stored as IEEE-754 single-precision numbers; this
//! library carries them as their raw bit patterns (`u32`) and leaves the
//! floating-point accumulation to the caller, while every structural
//! decision (validation, layout, traversal order) is proved here.
use vstd::prelude::*;

pub mod bytes;
pub mod ctx;
pub mod error;
pub mod fusion;
pub mod geneset;
pub mod layout;
pub mod pipeline;
pub mod reduce;
pub mod shared_cache;
pub mod simd;
pub mod store;
pub mod transpose;
