//! An arena of fixed-size hash digests: a flat, index-addressed, resizable
//! sequence of 32-byte values, backed either by an ordinary vector or by an
//! anonymous memory mapping.  The central mutating operation is a forgetful
//! splice: a contiguous index range is replaced by a run of possibly
//! different length, and the removed digests are discarded.

pub mod arena;
pub mod codec;
pub mod digest;
pub mod errors;
pub mod mmap_backing;
pub mod mmap_raw;
pub mod vec_backing;
