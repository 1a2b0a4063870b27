//! The fair shuffle: group by contributor, shuffle each group, interleave.

use crate::grouping::{
    group_by_owner, group_owner, is_shuffled_grouping, items_of_owner,
    lemma_grouping_is_shuffled_grouping, lemma_grouping_keeps_items, lemma_member_has_group_owner,
    shuffle_items,
};
use crate::item::Item;
use crate::round_robin::{groups_view, interleave_groups, interleaving};
use vstd::prelude::*;
use vstd::seq_lib::*;

verus! {

/// Replacing one group of a shuffled grouping by a permutation of it gives a
/// shuffled grouping of the same entries.
proof fn lemma_shuffle_keeps_grouping(
    before: Seq<Seq<Item>>,
    after: Seq<Seq<Item>>,
    items: Seq<Item>,
    g: int,
)
    requires
        is_shuffled_grouping(before, items),
        0 <= g < before.len(),
        after.len() == before.len(),
        after[g].to_multiset() == before[g].to_multiset(),
        forall|h: int| 0 <= h < before.len() && h != g ==> after[h] == before[h],
    ensures
        is_shuffled_grouping(after, items),
{
    after[g].to_multiset_ensures();
    before[g].to_multiset_ensures();
    assert(after[g].len() == before[g].len());
    assert(after[g].contains(after[g][0]));
    lemma_member_has_group_owner(before, items, g, after[g][0]);
    assert forall|h: int| 0 <= h < after.len() implies group_owner(after, h) == group_owner(
        before,
        h,
    ) by {}
    assert forall|h: int| 0 <= h < after.len() implies (#[trigger] after[h]).len() > 0
        && after[h].to_multiset() == items_of_owner(items, group_owner(after, h)).to_multiset() by {
        assert(before[h].len() > 0);
    }
    assert forall|i: int| 0 <= i < items.len() implies exists|h: int|
        0 <= h < after.len() && #[trigger] group_owner(after, h) == (
        #[trigger] items[i]).owner() by {
        let h = choose|h: int|
            0 <= h < before.len() && #[trigger] group_owner(before, h) == items[i].owner();
        assert(group_owner(after, h) == items[i].owner());
    }
}

/// Computes a new order of the entries in which entries of one contributor
/// are spread out: the entries are grouped by owner key, each group is
/// shuffled at random, and the groups are interleaved round-robin.
///
/// The result is a permutation of `items`. Which one depends on the shuffle
/// and on the order in which the groups are visited; whatever these are, the
/// result is the round-robin interleaving of a grouping of `items` by owner
/// key.
pub fn interleave(items: Vec<Item>) -> (result: Vec<Item>)
    ensures
        result@.to_multiset() == items@.to_multiset(),
        result@.len() == items@.len(),
        exists|groups: Seq<Seq<Item>>|
            is_shuffled_grouping(groups, items@) && result@ == #[trigger] interleaving(groups),
{
    let mut groups = group_by_owner(items);
    proof {
        lemma_grouping_is_shuffled_grouping(groups_view(groups@), items@);
    }
    let mut g: usize = 0;
    while g < groups.len()
        invariant
            is_shuffled_grouping(groups_view(groups@), items@),
        decreases groups.len() - g,
    {
        let ghost before = groups_view(groups@);
        shuffle_items(&mut groups[g]);
        proof {
            lemma_shuffle_keeps_grouping(before, groups_view(groups@), items@, g as int);
        }
        g = g + 1;
    }
    let ghost shuffled = groups_view(groups@);
    let out = interleave_groups(groups);
    proof {
        lemma_grouping_keeps_items(shuffled, items@);
        out.items@.to_multiset_ensures();
        items@.to_multiset_ensures();
    }
    out.items
}

} // verus!
