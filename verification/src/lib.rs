//! An ordered map laid out as a B+tree, with machine-checked contracts.
//!
//! [`BPlusTree`] is the map; [`Iter`] walks it in key order from either end,
//! over the whole tree or a key range given by two [`Bound`]s. The contracts
//! speak of the tree as a mathematical map and of its entries as an ascending
//! listing; the laws that relate its operations stand in [`tree`] beside the
//! type, and the key-order vocabulary they use in [`order`], [`model`] and
//! [`iter`].

pub mod order;
pub mod model;
mod node;
mod ops;
pub mod tree;
pub mod iter;

pub use crate::order::lawful_key;
pub use crate::tree::BPlusTree;
pub use crate::iter::Iter;
pub use crate::iter::Bound;

use vstd::prelude::*;

verus! {

} // verus!
