//! Which backend does the input and output.

use vstd::prelude::*;

verus! {

/// The kinds of backends.
#[derive(Clone, Copy, Debug, PartialEq, Eq, Structural)]
pub enum IoBackendKind {
    /// Blocking calls to the file system, on every platform.
    AsyncFs,
    /// `io_uring`, on Linux.
    IoUring,
}

} // verus!
