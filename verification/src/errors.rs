use vstd::prelude::*;

verus! {

/// The error taxonomy of the checkout / lease / commit protocol.
///
/// Filesystem failures are not part of it: the library never touches the
/// filesystem, so relocation errors belong to the caller that performs
/// the relocation.
#[derive(Clone, Copy, Debug, PartialEq, Eq, Structural)]
pub enum ListerError {
    /// No item is available for checkout in this pool.
    PoolExhausted,
    /// The named category is not registered.
    UnknownCategory,
    /// A commit named an item that holds no authorization token.
    ItemNotLeased,
    /// A commit presented a token other than the stored one.
    TokenMismatch,
}

} // verus!
