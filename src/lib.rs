//! A content-addressed index of a file tree, used to find files with equal
//! content and to keep one of each group of them.
//!
//! The library holds the logic: digests, the index and its grouping, the
//! steps of a directory walk, and the operator's choices while resolving a
//! group. Reading the disk, the store and the console is left to the caller.
pub mod digest;
pub mod index;
pub mod resolve;
pub mod walk;
