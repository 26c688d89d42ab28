//! A read-only filesystem view of a remote music catalog: the identity table
//! that maps tracks to inodes and names, the caches of content lengths and of
//! file heads, and the decisions of the read path. Transport and the kernel
//! interface are driven by the caller.

mod text;
pub mod basename;
pub mod catalog;
pub mod length_cache;
pub mod head_cache;
pub mod engine;
pub mod laws;
