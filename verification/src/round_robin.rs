//! Round-robin interleaving of groups of entries.

use crate::item::Item;
use vstd::multiset::Multiset;
use vstd::prelude::*;
use vstd::seq_lib::*;

verus! {

/// The groups of a vector of groups, each as a sequence.
pub open spec fn groups_view(groups: Seq<Vec<Item>>) -> Seq<Seq<Item>> {
    groups.map_values(|group: Vec<Item>| group@)
}

/// The size of the largest group, 0 if there is none.
pub open spec fn largest_group(groups: Seq<Seq<Item>>) -> nat
    decreases groups.len(),
{
    if groups.len() == 0 {
        0
    } else {
        let rest = largest_group(groups.drop_last());
        if groups.last().len() > rest {
            groups.last().len()
        } else {
            rest
        }
    }
}

/// The entries drawn in round `round` (counted from 0): from every group
/// that still has an entry in that round, in the order of the groups, the
/// entry `round` places before the group's end.
pub open spec fn round_items(groups: Seq<Seq<Item>>, round: nat) -> Seq<Item>
    decreases groups.len(),
{
    if groups.len() == 0 {
        Seq::empty()
    } else {
        let group = groups.last();
        let before = round_items(groups.drop_last(), round);
        if group.len() > round {
            before.push(group[group.len() - 1 - round])
        } else {
            before
        }
    }
}

/// The entries drawn in the first `rounds` rounds, round after round.
pub open spec fn rounds_upto(groups: Seq<Seq<Item>>, rounds: nat) -> Seq<Item>
    decreases rounds,
{
    if rounds == 0 {
        Seq::empty()
    } else {
        rounds_upto(groups, (rounds - 1) as nat) + round_items(groups, (rounds - 1) as nat)
    }
}

/// The round-robin interleaving of the groups: as many rounds as the largest
/// group has entries, each drawing one entry from the end of every group that
/// is not yet drained.
pub open spec fn interleaving(groups: Seq<Seq<Item>>) -> Seq<Item> {
    rounds_upto(groups, largest_group(groups))
}

/// The number of entries a group of `len` entries still holds after `round`
/// rounds.
pub open spec fn left_after(len: nat, round: nat) -> nat {
    if len > round {
        (len - round) as nat
    } else {
        0
    }
}

/// The result of interleaving: the entries in their new order, and the number
/// of rounds it took to drain every group.
pub struct Interleaved {
    pub items: Vec<Item>,
    pub rounds: usize,
}

fn largest_group_len(groups: &Vec<Vec<Item>>) -> (n: usize)
    ensures
        n == largest_group(groups_view(groups@)),
{
    let ghost view = groups_view(groups@);
    let mut n: usize = 0;
    for i in 0..groups.len()
        invariant
            view == groups_view(groups@),
            n == largest_group(view.take(i as int)),
    {
        proof {
            assert(view.take(i + 1).drop_last() =~= view.take(i as int));
        }
        if groups[i].len() > n {
            n = groups[i].len();
        }
    }
    proof {
        assert(view.take(groups.len() as int) =~= view);
    }
    n
}

/// Interleaves the groups round-robin. In each round one entry is taken from
/// the end of every group that is not yet drained, the groups visited in
/// their order in `groups`; the rounds go on until every group is drained.
///
/// The result holds every entry of every group, and the number of rounds is
/// the size of the largest group.
pub fn interleave_groups(groups: Vec<Vec<Item>>) -> (out: Interleaved)
    ensures
        out.items@ == interleaving(groups_view(groups@)),
        out.items@.to_multiset() == all_items(groups_view(groups@)),
        out.rounds == largest_group(groups_view(groups@)),
{
    let ghost orig = groups_view(groups@);
    let rounds = largest_group_len(&groups);
    let mut groups = groups;
    let mut items: Vec<Item> = Vec::new();
    let mut round: usize = 0;
    while round < rounds
        invariant
            round <= rounds,
            groups@.len() == orig.len(),
            forall|j: int|
                0 <= j < orig.len() ==> (#[trigger] groups@[j])@ == orig[j].take(
                    left_after(orig[j].len(), round as nat) as int,
                ),
            items@ == rounds_upto(orig, round as nat),
        decreases rounds - round,
    {
        let mut i: usize = 0;
        while i < groups.len()
            invariant
                i <= groups.len(),
                round < rounds,
                groups@.len() == orig.len(),
                forall|j: int|
                    0 <= j < i ==> (#[trigger] groups@[j])@ == orig[j].take(
                        left_after(orig[j].len(), (round + 1) as nat) as int,
                    ),
                forall|j: int|
                    i <= j < orig.len() ==> (#[trigger] groups@[j])@ == orig[j].take(
                        left_after(orig[j].len(), round as nat) as int,
                    ),
                items@ == rounds_upto(orig, round as nat) + round_items(
                    orig.take(i as int),
                    round as nat,
                ),
            decreases groups.len() - i,
        {
            proof {
                assert(orig.take(i + 1).drop_last() =~= orig.take(i as int));
            }
            let ghost before = groups@;
            match groups[i].pop() {
                Some(item) => {
                    items.push(item);
                },
                None => {},
            }
            proof {
                assert(forall|j: int| 0 <= j < before.len() && j != i ==> groups@[j] == before[j]);
                let group = orig[i as int];
                let left = left_after(group.len(), round as nat);
                if left > 0 {
                    assert(group.take(left as int).drop_last() =~= group.take(left - 1));
                }
            }
            i = i + 1;
        }
        proof {
            assert(orig.take(orig.len() as int) =~= orig);
        }
        round = round + 1;
    }
    proof {
        lemma_interleaving_is_permutation(orig);
    }
    Interleaved { items, rounds }
}

/// All entries of all groups, as a multiset.
pub open spec fn all_items(groups: Seq<Seq<Item>>) -> Multiset<Item>
    decreases groups.len(),
{
    if groups.len() == 0 {
        Multiset::empty()
    } else {
        all_items(groups.drop_last()).add(groups.last().to_multiset())
    }
}

/// The groups as they stand after `round` rounds: each without the entries
/// already drawn from its end.
pub open spec fn drained(groups: Seq<Seq<Item>>, round: nat) -> Seq<Seq<Item>> {
    groups.map_values(|group: Seq<Item>| group.take(left_after(group.len(), round) as int))
}

/// No group is larger than the largest group.
pub proof fn lemma_largest_group_bounds(groups: Seq<Seq<Item>>, g: int)
    requires
        0 <= g < groups.len(),
    ensures
        groups[g].len() <= largest_group(groups),
    decreases groups.len(),
{
    if g < groups.len() - 1 {
        lemma_largest_group_bounds(groups.drop_last(), g);
    }
}

/// Some group has the size of the largest group, unless there is no group.
pub proof fn lemma_largest_group_is_reached(groups: Seq<Seq<Item>>) -> (g: int)
    requires
        groups.len() > 0,
    ensures
        0 <= g < groups.len(),
        groups[g].len() == largest_group(groups),
    decreases groups.len(),
{
    let rest = groups.drop_last();
    if groups.last().len() > largest_group(rest) || rest.len() == 0 {
        groups.len() - 1
    } else {
        lemma_largest_group_is_reached(rest)
    }
}

/// A sequence without entries holds the empty multiset.
pub proof fn lemma_no_items(s: Seq<Item>)
    requires
        s.len() == 0,
    ensures
        s.to_multiset() == Multiset::<Item>::empty(),
{
    broadcast use to_multiset_len;

    vstd::multiset::lemma_multiset_empty_len(s.to_multiset());
}

/// One round moves exactly the drawn entries out of the groups.
proof fn lemma_round_drains(groups: Seq<Seq<Item>>, round: nat)
    ensures
        round_items(groups, round).to_multiset().add(all_items(drained(groups, round + 1)))
            == all_items(drained(groups, round)),
    decreases groups.len(),
{
    broadcast use to_multiset_build;

    if groups.len() == 0 {
        assert(drained(groups, round) =~= Seq::empty());
        assert(drained(groups, round + 1) =~= Seq::empty());
        lemma_no_items(round_items(groups, round));
        assert(Multiset::<Item>::empty().add(Multiset::empty()) =~= Multiset::empty());
    } else {
        let rest = groups.drop_last();
        let group = groups.last();
        lemma_round_drains(rest, round);
        assert(drained(groups, round).drop_last() =~= drained(rest, round));
        assert(drained(groups, round + 1).drop_last() =~= drained(rest, round + 1));
        let left = left_after(group.len(), round);
        if group.len() > round {
            assert(group.take(left as int) =~= group.take(left - 1).push(group[left - 1]));
            assert(round_items(groups, round).to_multiset().add(
                all_items(drained(groups, round + 1)),
            ) =~= all_items(drained(groups, round)));
        } else {
            assert(round_items(groups, round).to_multiset().add(
                all_items(drained(groups, round + 1)),
            ) =~= all_items(drained(groups, round)));
        }
    }
}

/// After `rounds` rounds, the entries drawn and the entries left are together
/// the entries of the groups.
proof fn lemma_rounds_drain(groups: Seq<Seq<Item>>, rounds: nat)
    ensures
        rounds_upto(groups, rounds).to_multiset().add(all_items(drained(groups, rounds)))
            == all_items(groups),
    decreases rounds,
{
    if rounds == 0 {
        assert forall|g: int| 0 <= g < groups.len() implies drained(groups, 0)[g] == groups[g] by {
            assert(groups[g].take(groups[g].len() as int) =~= groups[g]);
        }
        assert(drained(groups, 0) =~= groups);
        lemma_no_items(rounds_upto(groups, 0));
        assert(Multiset::empty().add(all_items(groups)) =~= all_items(groups));
    } else {
        let before = (rounds - 1) as nat;
        lemma_rounds_drain(groups, before);
        lemma_round_drains(groups, before);
        lemma_multiset_commutative(rounds_upto(groups, before), round_items(groups, before));
        assert(rounds_upto(groups, rounds).to_multiset().add(all_items(drained(groups, rounds)))
            =~= all_items(groups));
    }
}

/// Groups whose entries are all drawn hold nothing.
proof fn lemma_drained_groups_are_empty(groups: Seq<Seq<Item>>, rounds: nat)
    requires
        forall|g: int| 0 <= g < groups.len() ==> (#[trigger] groups[g]).len() <= rounds,
    ensures
        all_items(drained(groups, rounds)) == Multiset::<Item>::empty(),
    decreases groups.len(),
{
    if groups.len() > 0 {
        let rest = groups.drop_last();
        lemma_drained_groups_are_empty(rest, rounds);
        assert(drained(groups, rounds).drop_last() =~= drained(rest, rounds));
        lemma_no_items(drained(groups, rounds).last());
        assert(Multiset::<Item>::empty().add(Multiset::empty()) =~= Multiset::empty());
    } else {
        assert(drained(groups, rounds) =~= Seq::empty());
    }
}

/// The interleaving of any groups holds exactly the entries of the groups:
/// every entry once for each time it occurs in a group, and no other.
pub proof fn lemma_interleaving_is_permutation(groups: Seq<Seq<Item>>)
    ensures
        interleaving(groups).to_multiset() == all_items(groups),
{
    let rounds = largest_group(groups);
    lemma_rounds_drain(groups, rounds);
    assert forall|g: int| 0 <= g < groups.len() implies (#[trigger] groups[g]).len() <= rounds by {
        lemma_largest_group_bounds(groups, g);
    }
    lemma_drained_groups_are_empty(groups, rounds);
    assert(interleaving(groups).to_multiset().add(Multiset::empty()) =~= interleaving(
        groups,
    ).to_multiset());
}

/// A round draws an entry if some group is larger than the round's number.
proof fn lemma_round_draws(groups: Seq<Seq<Item>>, round: nat, g: int)
    requires
        0 <= g < groups.len(),
        groups[g].len() > round,
    ensures
        round_items(groups, round).len() > 0,
    decreases groups.len(),
{
    if g < groups.len() - 1 {
        lemma_round_draws(groups.drop_last(), round, g);
    }
}

/// A round draws nothing if no group is larger than the round's number.
proof fn lemma_round_draws_nothing(groups: Seq<Seq<Item>>, round: nat)
    requires
        forall|g: int| 0 <= g < groups.len() ==> (#[trigger] groups[g]).len() <= round,
    ensures
        round_items(groups, round).len() == 0,
    decreases groups.len(),
{
    if groups.len() > 0 {
        lemma_round_draws_nothing(groups.drop_last(), round);
    }
}

/// Round-robin exhaustion: the rounds that draw an entry are exactly the
/// first `largest_group(groups)` rounds, and after them every group is
/// drained.
pub proof fn lemma_round_robin_exhaustion(groups: Seq<Seq<Item>>)
    ensures
        forall|round: nat|
            round < largest_group(groups) <==> (#[trigger] round_items(groups, round)).len() > 0,
        forall|g: int|
            0 <= g < groups.len() ==> (#[trigger] drained(groups, largest_group(groups))[g]).len()
                == 0,
{
    let rounds = largest_group(groups);
    assert forall|g: int| 0 <= g < groups.len() implies (#[trigger] groups[g]).len() <= rounds by {
        lemma_largest_group_bounds(groups, g);
    }
    assert forall|round: nat| round < rounds <==> (#[trigger] round_items(groups, round)).len()
        > 0 by {
        if round < rounds {
            let g = lemma_largest_group_is_reached(groups);
            lemma_round_draws(groups, round, g);
        } else {
            lemma_round_draws_nothing(groups, round);
        }
    }
    assert forall|g: int| 0 <= g < groups.len() implies (#[trigger] drained(
        groups,
        rounds,
    )[g]).len() == 0 by {
        assert(groups[g].len() <= rounds);
    }
}

/// The groups from which round `round` draws, in the order of the draws.
pub open spec fn round_sources(groups: Seq<Seq<Item>>, round: nat) -> Seq<int>
    decreases groups.len(),
{
    if groups.len() == 0 {
        Seq::empty()
    } else {
        let before = round_sources(groups.drop_last(), round);
        if groups.last().len() > round {
            before.push(groups.len() - 1)
        } else {
            before
        }
    }
}

/// Every draw of a round comes from the end of a group of its own: the
/// sources of a round are groups larger than the round's number, in
/// ascending order, and each draw is the entry `round` places before the end
/// of its source.
pub proof fn lemma_round_sources(groups: Seq<Seq<Item>>, round: nat)
    ensures
        round_sources(groups, round).len() == round_items(groups, round).len(),
        forall|i: int|
            0 <= i < round_items(groups, round).len() ==> {
                let g = #[trigger] round_sources(groups, round)[i];
                &&& 0 <= g < groups.len()
                &&& groups[g].len() > round
                &&& round_items(groups, round)[i] == groups[g][groups[g].len() - 1 - round]
            },
        forall|i: int, j: int|
            0 <= i < j < round_items(groups, round).len() ==> #[trigger] round_sources(
                groups,
                round,
            )[i] < #[trigger] round_sources(groups, round)[j],
    decreases groups.len(),
{
    if groups.len() > 0 {
        lemma_round_sources(groups.drop_last(), round);
    }
}

/// A single group comes out in reverse: its last entry first.
pub proof fn lemma_single_group(group: Seq<Item>)
    ensures
        interleaving(seq![group]) == group.reverse(),
{
    let groups = seq![group];
    assert(groups.drop_last() =~= Seq::<Seq<Item>>::empty());
    assert(largest_group(groups.drop_last()) == 0);
    assert(largest_group(groups) == group.len());
    lemma_single_group_rounds(group, group.len());
    assert(group.subrange(0, group.len() as int) =~= group);
}

/// The first `rounds` rounds of a single group are its last `rounds` entries
/// in reverse.
proof fn lemma_single_group_rounds(group: Seq<Item>, rounds: nat)
    requires
        rounds <= group.len(),
    ensures
        rounds_upto(seq![group], rounds) == group.subrange(
            group.len() - rounds,
            group.len() as int,
        ).reverse(),
    decreases rounds,
{
    let groups = seq![group];
    if rounds == 0 {
        assert(rounds_upto(groups, 0) =~= group.subrange(
            group.len() as int,
            group.len() as int,
        ).reverse());
    } else {
        let before = (rounds - 1) as nat;
        lemma_single_group_rounds(group, before);
        assert(groups.drop_last() =~= Seq::<Seq<Item>>::empty());
        assert(round_items(groups.drop_last(), before) =~= Seq::<Item>::empty());
        assert(round_items(groups, before) =~= seq![group[group.len() - 1 - before]]);
        assert(rounds_upto(groups, rounds) =~= group.subrange(
            group.len() - rounds,
            group.len() as int,
        ).reverse());
    }
}

/// The rounds follow one another in the interleaving: the draws of the
/// first `round` rounds, then those of round `round`, stand at its start
/// whenever at least `round + 1` rounds are made.
proof fn lemma_rounds_are_prefix(groups: Seq<Seq<Item>>, round: nat, rounds: nat)
    requires
        round < rounds,
    ensures
        rounds_upto(groups, round).len() + round_items(groups, round).len() <= rounds_upto(
            groups,
            rounds,
        ).len(),
        forall|i: int|
            0 <= i < round_items(groups, round).len() ==> #[trigger] rounds_upto(
                groups,
                rounds,
            )[rounds_upto(groups, round).len() + i] == round_items(groups, round)[i],
    decreases rounds,
{
    if rounds > round + 1 {
        lemma_rounds_are_prefix(groups, round, (rounds - 1) as nat);
    }
}

/// Where a round stands in the interleaving: draw number `i` of round
/// `round` stands `i` places after the draws of all the rounds before it.
pub proof fn lemma_round_in_interleaving(groups: Seq<Seq<Item>>, round: nat, i: int)
    requires
        round < largest_group(groups),
        0 <= i < round_items(groups, round).len(),
    ensures
        rounds_upto(groups, round).len() + i < interleaving(groups).len(),
        interleaving(groups)[rounds_upto(groups, round).len() + i] == round_items(
            groups,
            round,
        )[i],
{
    lemma_rounds_are_prefix(groups, round, largest_group(groups));
}

} // verus!
