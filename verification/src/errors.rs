//! The error taxonomy of the tree engine.

use vstd::prelude::*;

verus! {

/// Errors surfaced by tree addressing, diff staging, path cryptography and
/// integrity verification.  Every failure is returned as a typed result; the
/// engine never retries and a failed operation leaves the authoritative tree
/// untouched.
#[derive(Debug, Clone, Copy, PartialEq, Eq, Structural)]
pub enum TreeError {
    /// Tree-addressing misuse: the root has no parent or sibling, or an index
    /// lies past the tree bound.
    InvalidIndex,
    /// An index addressed a slot outside the node array.
    IndexOutOfBounds,
    /// A non-blank parent's stored parent hash disagrees with the hash
    /// recomputed over the tree's public state.
    ParentHashMismatch,
    /// A received tree hash disagrees with the recomputed one.
    TreeHashMismatch,
    /// An HPKE open failed: wrong key or corrupted ciphertext.
    PathCryptoError,
    /// A public key derived while processing an update path disagrees with
    /// the key asserted in the path.
    UpdatePathMismatch,
    /// An operation referenced a leaf that is not present or already blank.
    UnknownMemberRemoval,
    /// A resolution was required where none exists.
    InvalidResolution,
    /// A wire-format node sequence could not be decoded, or a staged diff
    /// failed its internal consistency check.
    ValidationError,
}

} // verus!
