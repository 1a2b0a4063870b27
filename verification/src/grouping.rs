//! Grouping of entries by contributor, and the shuffle of one group.

use crate::item::Item;
use crate::round_robin::{
    all_items, interleaving, largest_group, lemma_round_in_interleaving, lemma_round_sources,
    round_items, round_sources, rounds_upto,
};
use itertools::Itertools;
use rand::seq::SliceRandom;
use vstd::multiset::Multiset;
use vstd::prelude::*;
use vstd::seq_lib::*;

verus! {

/// The predicate that holds of the entries with owner key `owner`.
pub open spec fn has_owner(owner: Option<Seq<char>>) -> spec_fn(Item) -> bool {
    |item: Item| item.owner() == owner
}

/// The entries of `items` with owner key `owner`, in their order in `items`.
pub open spec fn items_of_owner(items: Seq<Item>, owner: Option<Seq<char>>) -> Seq<Item> {
    items.filter(has_owner(owner))
}

/// The owner key of group `g`: that of its first entry.
pub open spec fn group_owner(groups: Seq<Seq<Item>>, g: int) -> Option<Seq<char>> {
    groups[g][0].owner()
}

/// No two groups have the same owner key.
pub open spec fn distinct_owners(groups: Seq<Seq<Item>>) -> bool {
    forall|g: int, h: int|
        0 <= g < groups.len() && 0 <= h < groups.len() && g != h ==> #[trigger] group_owner(
            groups,
            g,
        ) != #[trigger] group_owner(groups, h)
}

/// Every entry of `items` has a group with its owner key.
pub open spec fn every_owner_has_group(groups: Seq<Seq<Item>>, items: Seq<Item>) -> bool {
    forall|i: int|
        0 <= i < items.len() ==> exists|g: int|
            0 <= g < groups.len() && #[trigger] group_owner(groups, g) == (
            #[trigger] items[i]).owner()
}

/// `groups` is the grouping of `items` by owner key: one group for each owner
/// key that occurs in `items`, no group empty, each group holding the entries
/// of its owner in their order in `items`. The order of the groups is open.
pub open spec fn is_grouping(groups: Seq<Seq<Item>>, items: Seq<Item>) -> bool {
    &&& forall|g: int|
        0 <= g < groups.len() ==> (#[trigger] groups[g]).len() > 0 && groups[g] == items_of_owner(
            items,
            group_owner(groups, g),
        )
    &&& distinct_owners(groups)
    &&& every_owner_has_group(groups, items)
}

/// `groups` is a grouping of `items` by owner key in which the order inside
/// each group is open: each group holds exactly the entries of its owner.
pub open spec fn is_shuffled_grouping(groups: Seq<Seq<Item>>, items: Seq<Item>) -> bool {
    &&& forall|g: int|
        0 <= g < groups.len() ==> (#[trigger] groups[g]).len() > 0 && groups[g].to_multiset()
            == items_of_owner(items, group_owner(groups, g)).to_multiset()
    &&& distinct_owners(groups)
    &&& every_owner_has_group(groups, items)
}

/// Groups the entries by owner key.
///
/// Calls `itertools::Itertools::into_group_map_by` with the entry's owner
/// key as the key, and hands out the values of the map it returns, in the
/// order in which the map yields them. Trusted: the map has one key for
/// each owner key among the entries, and the vector under a key holds the
/// entries with that key in the order in which they came. Nothing is claimed
/// of the order of the groups.
#[verifier::external_body]
pub(crate) fn group_by_owner(items: Vec<Item>) -> (groups: Vec<Vec<Item>>)
    ensures
        is_grouping(crate::round_robin::groups_view(groups@), items@),
{
    items.into_iter().into_group_map_by(|item| item.owner_key()).into_values().collect()
}

/// Shuffles the entries in place.
///
/// Calls `rand::seq::SliceRandom::shuffle` with the generator that
/// `rand::thread_rng` returns. Trusted: the vector holds the same entries
/// afterwards, each as often as before. Nothing is claimed of their order.
/// `rand::thread_rng` panics where the system has no source of randomness
/// to seed the generator from.
#[verifier::external_body]
pub(crate) fn shuffle_items(items: &mut Vec<Item>)
    ensures
        final(items)@.to_multiset() == old(items)@.to_multiset(),
{
    items.shuffle(&mut rand::thread_rng());
}

/// Filtering keeps every occurrence of an entry that meets the predicate and
/// none of an entry that does not.
pub proof fn lemma_filter_count(s: Seq<Item>, pred: spec_fn(Item) -> bool, x: Item)
    ensures
        s.filter(pred).to_multiset().count(x) == if pred(x) {
            s.to_multiset().count(x)
        } else {
            0
        },
    decreases s.len(),
{
    broadcast use to_multiset_build;

    reveal(Seq::filter);
    if s.len() == 0 {
        crate::round_robin::lemma_no_items(s);
        crate::round_robin::lemma_no_items(s.filter(pred));
    } else {
        let rest = s.drop_last();
        lemma_filter_count(rest, pred, x);
        assert(s =~= rest.push(s.last()));
    }
}

/// The number of times `x` occurs in the groups.
pub open spec fn count_in_groups(groups: Seq<Seq<Item>>, x: Item) -> nat
    decreases groups.len(),
{
    if groups.len() == 0 {
        0
    } else {
        count_in_groups(groups.drop_last(), x) + groups.last().to_multiset().count(x)
    }
}

proof fn lemma_all_items_count(groups: Seq<Seq<Item>>, x: Item)
    ensures
        all_items(groups).count(x) == count_in_groups(groups, x),
    decreases groups.len(),
{
    if groups.len() > 0 {
        lemma_all_items_count(groups.drop_last(), x);
    }
}

/// An entry of a group of a shuffled grouping has the group's owner key.
pub proof fn lemma_member_has_group_owner(
    groups: Seq<Seq<Item>>,
    items: Seq<Item>,
    g: int,
    x: Item,
)
    requires
        is_shuffled_grouping(groups, items),
        0 <= g < groups.len(),
        groups[g].to_multiset().count(x) > 0,
    ensures
        x.owner() == group_owner(groups, g),
{
    lemma_filter_count(items, has_owner(group_owner(groups, g)), x);
}

/// In the first `n` groups of a shuffled grouping, an entry occurs as often
/// as in the group of its owner, if that group is among them, and not at all
/// otherwise.
proof fn lemma_count_in_groups(groups: Seq<Seq<Item>>, items: Seq<Item>, n: int, x: Item)
    requires
        is_shuffled_grouping(groups, items),
        0 <= n <= groups.len(),
    ensures
        forall|g: int|
            0 <= g < n && group_owner(groups, g) == x.owner() ==> count_in_groups(
                groups.take(n),
                x,
            ) == (#[trigger] groups[g]).to_multiset().count(x),
        (forall|g: int| 0 <= g < n ==> #[trigger] group_owner(groups, g) != x.owner())
            ==> count_in_groups(groups.take(n), x) == 0,
    decreases n,
{
    if n > 0 {
        lemma_count_in_groups(groups, items, n - 1, x);
        assert(groups.take(n).drop_last() =~= groups.take(n - 1));
        assert(groups.take(n).last() == groups[n - 1]);
        let last = groups[n - 1];
        if last.to_multiset().count(x) > 0 {
            lemma_member_has_group_owner(groups, items, n - 1, x);
        }
        assert forall|g: int|
            0 <= g < n && group_owner(groups, g) == x.owner() implies count_in_groups(
            groups.take(n),
            x,
        ) == (#[trigger] groups[g]).to_multiset().count(x) by {
            if g == n - 1 {
                assert(forall|h: int|
                    0 <= h < n - 1 ==> #[trigger] group_owner(groups, h) != group_owner(
                        groups,
                        g,
                    ));
            } else {
                assert(group_owner(groups, n - 1) != group_owner(groups, g));
            }
        }
    }
}

/// The groups of a shuffled grouping hold together exactly the entries that
/// were grouped.
pub proof fn lemma_grouping_keeps_items(groups: Seq<Seq<Item>>, items: Seq<Item>)
    requires
        is_shuffled_grouping(groups, items),
    ensures
        all_items(groups) == items.to_multiset(),
{
    broadcast use to_multiset_contains;

    assert forall|x: Item| all_items(groups).count(x) == items.to_multiset().count(x) by {
        lemma_all_items_count(groups, x);
        lemma_count_in_groups(groups, items, groups.len() as int, x);
        assert(groups.take(groups.len() as int) =~= groups);
        if exists|g: int| 0 <= g < groups.len() && group_owner(groups, g) == x.owner() {
            let g = choose|g: int| 0 <= g < groups.len() && group_owner(groups, g) == x.owner();
            lemma_filter_count(items, has_owner(x.owner()), x);
            assert(groups[g].to_multiset().count(x) == items.to_multiset().count(x));
        } else {
            if items.to_multiset().count(x) > 0 {
                let i = choose|i: int| 0 <= i < items.len() && items[i] == x;
                assert(items[i].owner() == x.owner());
            }
        }
    }
    assert(all_items(groups) =~= items.to_multiset());
}

/// A grouping is a shuffled grouping.
pub proof fn lemma_grouping_is_shuffled_grouping(groups: Seq<Seq<Item>>, items: Seq<Item>)
    requires
        is_grouping(groups, items),
    ensures
        is_shuffled_grouping(groups, items),
{
}

/// No round draws two entries of one owner: in the interleaving of a
/// grouping by owner key, the entries drawn in one round all have different
/// owner keys. Entries of one owner can thus stand side by side only where
/// one round ends and the next begins.
pub proof fn lemma_round_has_distinct_owners(
    groups: Seq<Seq<Item>>,
    items: Seq<Item>,
    round: nat,
)
    requires
        is_shuffled_grouping(groups, items),
    ensures
        forall|i: int, j: int|
            0 <= i < j < round_items(groups, round).len() ==> (#[trigger] round_items(
                groups,
                round,
            )[i]).owner() != (#[trigger] round_items(groups, round)[j]).owner(),
{
    broadcast use to_multiset_contains;

    lemma_round_sources(groups, round);
    let drawn = round_items(groups, round);
    let sources = round_sources(groups, round);
    assert forall|i: int, j: int| 0 <= i < j < drawn.len() implies (#[trigger] drawn[i]).owner()
        != (#[trigger] drawn[j]).owner() by {
        let g = sources[i];
        let h = sources[j];
        assert(g < h);
        assert(groups[g].contains(drawn[i]));
        assert(groups[h].contains(drawn[j]));
        assert(groups[g].to_multiset().count(drawn[i]) > 0);
        assert(groups[h].to_multiset().count(drawn[j]) > 0);
        lemma_member_has_group_owner(groups, items, g, drawn[i]);
        lemma_member_has_group_owner(groups, items, h, drawn[j]);
        assert(group_owner(groups, g) != group_owner(groups, h));
    }
}

/// Neighbours drawn in one round have different owners: where two entries
/// stand side by side in the interleaving of a grouping by owner key and
/// were drawn in the same round, their owner keys differ.
pub proof fn lemma_neighbours_in_a_round_differ(
    groups: Seq<Seq<Item>>,
    items: Seq<Item>,
    round: nat,
    i: int,
)
    requires
        is_shuffled_grouping(groups, items),
        round < largest_group(groups),
        0 <= i,
        i + 1 < round_items(groups, round).len(),
    ensures
        ({
            let p = rounds_upto(groups, round).len() + i;
            &&& p + 1 < interleaving(groups).len()
            &&& interleaving(groups)[p].owner() != interleaving(groups)[p + 1].owner()
        }),
{
    lemma_round_in_interleaving(groups, round, i);
    lemma_round_in_interleaving(groups, round, i + 1);
    lemma_round_has_distinct_owners(groups, items, round);
}

} // verus!
