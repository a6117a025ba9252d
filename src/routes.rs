//! The requests that the item list takes.

use crate::db::ItemId;
use vstd::prelude::*;

verus! {

/// A request to move item `curr` between items `prev` and `next`; a missing
/// neighbour puts it at that end of the list.
#[derive(Debug, Clone, Copy)]
pub struct ItemOrder {
    pub prev: Option<ItemId>,
    pub curr: ItemId,
    pub next: Option<ItemId>,
}

} // verus!
