use vstd::prelude::*;

verus! {

/// Why a changeset could not be read, composed or transformed.
#[derive(Clone, Copy, Debug, PartialEq, Eq, Structural)]
pub enum ChangesetError {
    /// The text is not in the changeset format.
    Format,
    /// The tokens are well formed but the header disagrees with the body.
    Validation,
    /// Two changesets do not fit together.
    Domain,
    /// An attribute code that the pool does not know.
    PoolLookup,
}

} // verus!
