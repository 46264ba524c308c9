//! Changesets of a collaborative text editor: run-length edits of a document
//! (keep, insert, delete, each with attribute codes), their exact text format,
//! an attribute pool that interns attribute texts as small codes, and the two
//! operations of the algebra: composition of sequential edits and rebasing of
//! concurrent ones.

use vstd::prelude::*;

pub mod apool;
pub mod body;
pub mod changeset;
pub mod compose;
pub mod decimal;
pub mod error;
pub mod follow;
pub mod head;
pub mod merge;
pub mod ops;

verus! {

} // verus!
