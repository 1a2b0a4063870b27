//! The playlist entry and the views of a list of entries that contracts use.

use vstd::prelude::*;

verus! {

/// One entry of a playlist.
///
/// `id` is the entry's identity: two entries are the same track exactly when
/// their `id`s are equal. `added_by` is the key of the contributor who added
/// the entry, if one is recorded. `index` is the position the entry had when
/// the list was fetched; it is kept for display and never used for matching.
#[derive(Clone, Debug, PartialEq, Eq)]
pub struct Item {
    pub id: u64,
    pub added_by: Option<String>,
    pub index: usize,
}

impl Item {
    /// Returns the key of the contributor who added the entry, if one is
    /// recorded.
    pub fn owner_key(&self) -> (key: Option<String>)
        ensures
            key == self.added_by,
    {
        match &self.added_by {
            Some(name) => Some(name.clone()),
            None => None,
        }
    }

    /// The owner key as a mathematical value: the contributor's key as a
    /// sequence of characters, or `None` for an entry without a contributor.
    pub open spec fn owner(self) -> Option<Seq<char>> {
        match self.added_by {
            Some(name) => Some(name@),
            None => None,
        }
    }
}

/// The identities of a list of entries, in order.
pub open spec fn ids(items: Seq<Item>) -> Seq<u64> {
    items.map_values(|item: Item| item.id)
}

/// No identity occurs twice in the list.
pub open spec fn distinct_ids(items: Seq<Item>) -> bool {
    forall|i: int, j: int|
        0 <= i < items.len() && 0 <= j < items.len() && i != j ==> items[i].id != items[j].id
}

} // verus!
