//! Bulk changes to the images of a table: converting the deprecated bitmap
//! and png formats to webp.

use vstd::prelude::*;

verus! {

/// An image that was re-encoded as webp.
#[derive(Debug, PartialEq, Eq, Clone)]
pub struct ImageToWebpConversion {
    pub name: String,
    pub old_extension: String,
    pub new_extension: String,
}

} // verus!
