//! Error taxonomy of the engine.
use vstd::prelude::*;

verus! {

/// Recoverable failures the binary-format engine reports.
///
/// `Corrupt`: structurally invalid bytes (bad magic, oversized metadata
/// block, dangling inode reference, out-of-range fragment slice).
/// `Unsupported`: a compression codec that is not compiled in.
/// `PathConflict`: writer-side incompatible insertion at an existing path.
#[derive(Clone, Copy, Debug, PartialEq, Eq, Structural)]
pub enum SqfsError {
    Corrupt,
    Unsupported,
    PathConflict,
}

} // verus!
