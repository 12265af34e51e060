//! A table stored in a B+Tree reached through the buffer pool.

use vstd::prelude::*;

use crate::disk::PageId;

verus! {

/// A table whose rows are kept in a B+Tree: the first `num_key_elems`
/// columns form the primary key, the rest the value.
#[derive(Debug)]
pub struct SimpleTable {
    /// Metadata page of the B+Tree that holds the rows.
    pub meta_page_id: PageId,
    /// How many leading columns make up the primary key.
    pub num_key_elems: usize,
}

} // verus!
