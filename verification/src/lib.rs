//! Parser for devicetree blobs.
//!
//! A [`blob::Devicetree`] holds the blocks of a flattened devicetree. Cursors
//! walk over the tokens of its structure block, and the iterators of [`node`]
//! turn those tokens into properties and child nodes. The traits of
//! [`deserialize`] turn properties and nodes into Rust values.
//!
//! What holds of all of this is stated in [`encoding`], [`laws`], [`search_laws`],
//! [`node_laws`], [`context_laws`], [`value_laws`] and [`text_laws`].
pub use fallible_iterator;

pub mod blob;
pub mod context;
pub mod context_laws;
pub mod deserialize;
pub mod encoding;
pub mod laws;
pub mod node;
pub mod node_laws;
pub mod path;
pub mod prop_value;
pub mod reserve;
pub mod search_laws;
pub mod text_laws;
pub mod util;
pub mod value_laws;

mod error;
mod owned;

pub use context::NodeContext;
pub use deserialize::{DeserializeNode, DeserializeProperty, PushDeserializedNode};
pub use error::Error;
pub use path::Path;
pub use reserve::{ReserveEntries, ReserveEntry};

use vstd::prelude::*;

verus! {

/// Number of 4-byte cells. This crate has an upper limit of 4 cells; the
/// devicetree format has none.
pub type Cells = u8;

/// Numerical identifier for a node.
pub type Phandle = u32;

} // verus!
