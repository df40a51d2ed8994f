pub mod codec;
pub mod registry;
pub mod utils;
pub mod text;

use vstd::prelude::*;

verus! {

/// Why an operation on tiles was refused.
#[derive(Debug, PartialEq, Eq, Structural, Clone, Copy)]
pub enum TileError {
    /// An identifier referenced by the operation is not minted.
    NotFound,
    /// The actor does not own the anchor, or a member tile has another owner.
    PermissionDenied,
    /// Identifier text is not a canonical non-negative decimal integer.
    MalformedIdentifier,
}

} // verus!
