//! The table game item.

use vstd::prelude::*;

verus! {

/// The table item, which only carries its name.
#[derive(Debug, PartialEq, Eq, Clone)]
pub struct Table {
    pub name: String,
}

} // verus!
