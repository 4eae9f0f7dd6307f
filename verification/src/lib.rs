//! A verified SquashFS image engine: metadata block codec, inode and
//! directory tables, fragment packing, and a path-tree builder, with
//! compression behind a small trusted boundary.
use vstd::prelude::*;

pub mod bytes;
pub mod compress;
pub mod dir;
pub mod error;
pub mod fragment;
pub mod image;
pub mod inode;
pub mod metadata;
pub mod node;
pub mod tree;

verus! {

/// Uncompressed capacity of one metadata block, fixed by the format.
pub const META_BLOCK_CAP: usize = 8192;

} // verus!
