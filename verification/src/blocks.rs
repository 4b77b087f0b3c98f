//! The input data handed to the renderer: contiguous byte runs mapped to
//! addresses, and named address ranges overlaid on them.

use vstd::prelude::*;

verus! {

/// A named address range: a container section or a symbol.  `size` may be
/// zero, and ranges may overlap or nest freely.
pub struct Section {
    pub addr: u64,
    pub size: u64,
    pub name: String,
}

/// One contiguous run of file bytes mapped to a start address.
pub struct Block {
    pub addr: u64,
    pub name: String,
    pub body: Vec<u8>,
}

} // verus!
