//! Sequence core of a dynamic-language runtime: index and slice resolution,
//! a growable list with scalar, slice and stepped-slice access, an in-place
//! comparator-driven sort, cursors, and an immutable character string.
pub mod index;
pub mod list;
pub mod sort;
pub mod cursor;
pub mod unicode;
pub mod text;
