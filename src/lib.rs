//! An in-place, stable bubble sort over vectors of keyed elements, with a
//! proof that it sorts, keeps the elements, keeps the order of equal keys and
//! leaves sorted input untouched; and the small argument holder of the
//! accompanying command-line program.

pub mod config;
pub mod sort;
