//! Identifiers and sizes shared with the page-level disk layer.

use vstd::prelude::*;

verus! {

/// Number of bytes in every page.
pub const PAGE_SIZE: usize = 4096;

/// Location of a page in the heap file.
#[derive(Debug, Default, Clone, Copy, PartialEq, Eq, Structural, Hash)]
pub struct PageId(pub u64);

} // verus!
