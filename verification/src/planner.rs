//! The move planner: turns a target order into single-entry moves, keeping a
//! local mirror of the list in step with the moves that were confirmed.

use crate::item::{distinct_ids, ids, Item};
use vstd::prelude::*;
use vstd::seq_lib::*;

verus! {

/// A move of one entry of an ordered list: the entry at `from` is taken out,
/// and put back so that it stands at `to` in the list that results.
#[derive(Clone, Copy, Debug, PartialEq, Eq, Structural)]
pub struct Move {
    pub from: usize,
    pub to: usize,
}

/// The list after the move `mv`: the entry at `mv.from` removed, then
/// inserted at `mv.to`.
pub open spec fn moved<T>(list: Seq<T>, mv: Move) -> Seq<T> {
    list.remove(mv.from as int).insert(mv.to as int, list[mv.from as int])
}

/// The list after the moves `moves`, applied in order.
pub open spec fn apply_moves<T>(list: Seq<T>, moves: Seq<Move>) -> Seq<T>
    decreases moves.len(),
{
    if moves.len() == 0 {
        list
    } else {
        moved(apply_moves(list, moves.drop_last()), moves.last())
    }
}

/// `p` is the first position in `list` that holds `id`.
pub open spec fn is_first_position(list: Seq<u64>, id: u64, p: int) -> bool {
    &&& 0 <= p < list.len()
    &&& list[p] == id
    &&& forall|j: int| 0 <= j < p ==> list[j] != id
}

/// The first position in `list` that holds `id`, if `id` occurs in `list`.
pub open spec fn position_of(list: Seq<u64>, id: u64) -> Option<int> {
    if exists|p: int| is_first_position(list, id, p) {
        Some(choose|p: int| is_first_position(list, id, p))
    } else {
        None
    }
}

/// The move that brings the entry wanted at position `t` of the target to
/// that position: from the first position in the mirror that holds the
/// entry's identity, to `t`. There is none if the mirror does not hold the
/// identity, or has no position `t`.
pub open spec fn move_for(mirror: Seq<u64>, target: Seq<u64>, t: int) -> Option<Move> {
    match position_of(mirror, target[t]) {
        Some(from) => if t < mirror.len() {
            Some(Move { from: from as usize, to: t as usize })
        } else {
            None
        },
        None => None,
    }
}

/// The moves planned for the first `n` positions of the target, each against
/// the mirror as the moves before it leave it; `None` if one of these
/// positions has no move.
pub open spec fn plan(mirror: Seq<u64>, target: Seq<u64>, n: nat) -> Option<Seq<Move>>
    decreases n,
{
    if n == 0 {
        Some(Seq::empty())
    } else {
        match plan(mirror, target, (n - 1) as nat) {
            Some(before) => match move_for(apply_moves(mirror, before), target, n - 1) {
                Some(mv) => Some(before.push(mv)),
                None => None,
            },
            None => None,
        }
    }
}

/// The first position of an identity is unique.
pub proof fn lemma_position_of(list: Seq<u64>, id: u64, p: int)
    requires
        is_first_position(list, id, p),
    ensures
        position_of(list, id) == Some(p),
{
    let q = choose|q: int| is_first_position(list, id, q);
    assert(q == p) by {
        if q < p {
        }
        if p < q {
        }
    }
}

/// An identity that does not occur has no position.
pub proof fn lemma_no_position(list: Seq<u64>, id: u64)
    requires
        forall|j: int| 0 <= j < list.len() ==> list[j] != id,
    ensures
        position_of(list, id) is None,
{
}

/// Taking the identities commutes with a move.
pub proof fn lemma_ids_of_moved(list: Seq<Item>, mv: Move)
    requires
        mv.from < list.len(),
        mv.to < list.len(),
    ensures
        ids(moved(list, mv)) == moved(ids(list), mv),
{
    assert(ids(moved(list, mv)) =~= moved(ids(list), mv));
}

/// Returns the first position in `mirror` of an entry with identity `id`.
pub fn find_position(mirror: &Vec<Item>, id: u64) -> (r: Option<usize>)
    ensures
        match r {
            Some(p) => position_of(ids(mirror@), id) == Some(p as int),
            None => position_of(ids(mirror@), id) is None,
        },
{
    let mut p: usize = 0;
    while p < mirror.len()
        invariant
            p <= mirror.len(),
            forall|j: int| 0 <= j < p ==> mirror@[j].id != id,
        decreases mirror.len() - p,
    {
        if mirror[p].id == id {
            proof {
                lemma_position_of(ids(mirror@), id, p as int);
            }
            return Some(p);
        }
        p = p + 1;
    }
    proof {
        lemma_no_position(ids(mirror@), id);
    }
    None
}

/// Returns the move for position `t` of the target against the mirror as it
/// stands, or `None` if there is none.
pub fn next_move(mirror: &Vec<Item>, target: &Vec<Item>, t: usize) -> (r: Option<Move>)
    requires
        t < target.len(),
    ensures
        r == move_for(ids(mirror@), ids(target@), t as int),
{
    match find_position(mirror, target[t].id) {
        Some(from) => if t < mirror.len() {
            Some(Move { from, to: t })
        } else {
            None
        },
        None => None,
    }
}

/// A move keeps the entries of the list: each as often as before.
pub proof fn lemma_moved_is_permutation<T>(list: Seq<T>, mv: Move)
    requires
        mv.from < list.len(),
        mv.to < list.len(),
    ensures
        moved(list, mv).to_multiset() == list.to_multiset(),
        moved(list, mv).len() == list.len(),
{
    broadcast use group_to_multiset_ensures;

    let taken = list.remove(mv.from as int);
    let x = list[mv.from as int];
    assert(list.contains(x));
    assert(taken.to_multiset() =~= list.to_multiset().remove(x));
    assert(taken.insert(mv.to as int, x).to_multiset() =~= taken.to_multiset().insert(x));
    assert(list.to_multiset().remove(x).insert(x) =~= list.to_multiset());
}

/// Applies a move to the mirror.
pub fn apply_move(mirror: &mut Vec<Item>, mv: Move)
    requires
        mv.from < old(mirror).len(),
        mv.to < old(mirror).len(),
    ensures
        final(mirror)@ == moved(old(mirror)@, mv),
        final(mirror)@.len() == old(mirror)@.len(),
        final(mirror)@.to_multiset() == old(mirror)@.to_multiset(),
{
    proof {
        lemma_moved_is_permutation(mirror@, mv);
    }
    let item = mirror.remove(mv.from);
    mirror.insert(mv.to, item);
}

/// The entry wanted at `target_index` of the target has no move: the mirror
/// holds no entry with its identity, or has no such position. Entries were
/// lost or duplicated between the list and the target.
#[derive(Clone, Copy, Debug, PartialEq, Eq, Structural)]
pub struct MissingItem {
    pub target_index: usize,
}

/// Why a re-ordering stopped before the mirror reached the target.
#[derive(Debug, PartialEq, Eq)]
pub enum ReorderError<E> {
    /// The entry wanted at `target_index` has no move.
    MissingItem { target_index: usize },
    /// The move for `target_index` was attempted and failed with `error`.
    /// The moves before it were confirmed and stay applied.
    MoveFailed { target_index: usize, error: E },
}

/// `target` is a reordering of `list`: it holds the entries of `list`, each
/// as often, and the identities in `list` are distinct.
pub open spec fn is_reordering_of(target: Seq<Item>, list: Seq<Item>) -> bool {
    distinct_ids(list) && target.to_multiset() == list.to_multiset()
}

/// A plan for `n` positions holds a plan for any fewer.
pub proof fn lemma_plan_has_prefixes(mirror: Seq<u64>, target: Seq<u64>, k: nat, n: nat)
    requires
        k <= n,
        plan(mirror, target, n) is Some,
    ensures
        plan(mirror, target, k) is Some,
    decreases n,
{
    if k < n {
        lemma_plan_has_prefixes(mirror, target, k, (n - 1) as nat);
    }
}

/// Plans the moves that bring the mirror to the target order, and applies
/// each to the mirror as it is planned.
///
/// The target positions are taken in order. On success the moves for all of
/// them are returned. If the entry wanted at some position has no move, the
/// planning stops there; the mirror keeps the moves planned so far.
pub fn plan_moves(mirror: &mut Vec<Item>, target: &Vec<Item>) -> (r: Result<
    Vec<Move>,
    MissingItem,
>)
    ensures
        final(mirror)@.to_multiset() == old(mirror)@.to_multiset(),
        is_reordering_of(target@, old(mirror)@) ==> r is Ok && final(mirror)@ == target@,
        match r {
            Ok(moves) => {
                &&& plan(ids(old(mirror)@), ids(target@), target.len() as nat) == Some(moves@)
                &&& final(mirror)@ == apply_moves(old(mirror)@, moves@)
            },
            Err(missing) => {
                &&& missing.target_index < target.len()
                &&& plan(ids(old(mirror)@), ids(target@), missing.target_index as nat) matches Some(
                    moves,
                )
                &&& plan(ids(old(mirror)@), ids(target@), (missing.target_index + 1) as nat) is None
                &&& final(mirror)@ == apply_moves(old(mirror)@, moves)
            },
        },
{
    let ghost start = mirror@;
    proof {
        assert(start.len() == mirror.len());
        lemma_plan_is_owed(start, target@);
    }
    let mut moves: Vec<Move> = Vec::new();
    let mut t: usize = 0;
    while t < target.len()
        invariant
            start == old(mirror)@,
            t <= target.len(),
            moves@.len() == t,
            plan(ids(start), ids(target@), t as nat) == Some(moves@),
            is_reordering_of(target@, start) ==> plan_reaches(start, target@),
            mirror@ == apply_moves(start, moves@),
            ids(mirror@) == apply_moves(ids(start), moves@),
            mirror@.to_multiset() == start.to_multiset(),
        decreases target.len() - t,
    {
        match next_move(mirror, target, t) {
            Some(mv) => {
                proof {
                    lemma_ids_of_moved(mirror@, mv);
                    assert(moves@.push(mv).drop_last() =~= moves@);
                }
                apply_move(mirror, mv);
                moves.push(mv);
            },
            None => {
                return Err(MissingItem { target_index: t });
            },
        }
        t = t + 1;
    }
    Ok(moves)
}

/// Brings the mirror to the target order by single-entry moves, handing each
/// move to `apply` before it is made on the mirror.
///
/// The target positions are taken in order. For each, the move is planned
/// against the mirror as it stands and handed to `apply` as `(from, to)`.
/// When `apply` succeeds, the same move is made on the mirror. When `apply`
/// fails, or a position has no move, the run stops at once: the mirror keeps
/// the moves confirmed so far, and nothing after them.
pub fn plan_and_apply_moves<E, F: Fn(usize, usize) -> Result<(), E>>(
    mirror: &mut Vec<Item>,
    target: &Vec<Item>,
    apply: F,
) -> (r: Result<(), ReorderError<E>>)
    requires
        forall|from: usize, to: usize|
            from < old(mirror).len() && to < old(mirror).len() ==> call_requires(apply, (from, to)),
    ensures
        final(mirror)@.to_multiset() == old(mirror)@.to_multiset(),
        is_reordering_of(target@, old(mirror)@) ==> !(r matches Err(
            ReorderError::MissingItem { .. },
        )) && (r is Ok ==> final(mirror)@ == target@),
        match r {
            Ok(()) => {
                &&& plan(ids(old(mirror)@), ids(target@), target.len() as nat) matches Some(moves)
                &&& final(mirror)@ == apply_moves(old(mirror)@, moves)
                &&& all_confirmed(apply, moves)
            },
            Err(ReorderError::MissingItem { target_index }) => {
                &&& target_index < target.len()
                &&& plan(ids(old(mirror)@), ids(target@), target_index as nat) matches Some(moves)
                &&& plan(ids(old(mirror)@), ids(target@), (target_index + 1) as nat) is None
                &&& final(mirror)@ == apply_moves(old(mirror)@, moves)
                &&& all_confirmed(apply, moves)
            },
            Err(ReorderError::MoveFailed { target_index, error }) => {
                &&& target_index < target.len()
                &&& plan(ids(old(mirror)@), ids(target@), (target_index + 1) as nat) matches Some(
                    moves,
                )
                &&& final(mirror)@ == apply_moves(old(mirror)@, moves.drop_last())
                &&& all_confirmed(apply, moves.drop_last())
                &&& call_ensures(apply, (moves.last().from, moves.last().to), Err(error))
            },
        },
{
    let ghost start = mirror@;
    proof {
        assert(start.len() == mirror.len());
        lemma_plan_is_owed(start, target@);
    }
    let ghost mut moves: Seq<Move> = Seq::empty();
    let mut t: usize = 0;
    while t < target.len()
        invariant
            start == old(mirror)@,
            t <= target.len(),
            moves.len() == t,
            plan(ids(start), ids(target@), t as nat) == Some(moves),
            is_reordering_of(target@, start) ==> plan_reaches(start, target@),
            mirror@ == apply_moves(start, moves),
            ids(mirror@) == apply_moves(ids(start), moves),
            mirror@.to_multiset() == start.to_multiset(),
            mirror@.len() == start.len(),
            all_confirmed(apply, moves),
            forall|from: usize, to: usize|
                from < start.len() && to < start.len() ==> call_requires(apply, (from, to)),
        decreases target.len() - t,
    {
        match next_move(mirror, target, t) {
            Some(mv) => {
                proof {
                    lemma_ids_of_moved(mirror@, mv);
                    assert(moves.push(mv).drop_last() =~= moves);
                }
                match apply(mv.from, mv.to) {
                    Ok(done) => {
                        // the one value of the unit type
                        assert(done == ());
                    },
                    Err(error) => {
                        return Err(ReorderError::MoveFailed { target_index: t, error });
                    },
                }
                apply_move(mirror, mv);
                proof {
                    let ghost confirmed = moves;
                    moves = moves.push(mv);
                    assert forall|k: int| 0 <= k < moves.len() implies call_ensures(
                        apply,
                        ((#[trigger] moves[k]).from, moves[k].to),
                        Ok::<(), E>(()),
                    ) by {
                        if k < confirmed.len() {
                            assert(moves[k] == confirmed[k]);
                        }
                    }
                }
            },
            None => {
                return Err(ReorderError::MissingItem { target_index: t });
            },
        }
        t = t + 1;
    }
    Ok(())
}

/// `apply` has confirmed every move of `moves`.
pub open spec fn all_confirmed<E, F: Fn(usize, usize) -> Result<(), E>>(
    apply: F,
    moves: Seq<Move>,
) -> bool {
    forall|k: int|
        0 <= k < moves.len() ==> call_ensures(
            apply,
            ((#[trigger] moves[k]).from, moves[k].to),
            Ok::<(), E>(()),
        )
}

/// The position in the list before a move of the entry that stands at `i`
/// after it.
pub open spec fn source_index(mv: Move, i: int) -> int {
    if i == mv.to {
        mv.from as int
    } else {
        let taken = if i < mv.to {
            i
        } else {
            i - 1
        };
        if taken < mv.from {
            taken
        } else {
            taken + 1
        }
    }
}

/// After a move every position holds the entry of its source position.
pub proof fn lemma_moved_entries<T>(list: Seq<T>, mv: Move)
    requires
        mv.from < list.len(),
        mv.to < list.len(),
    ensures
        moved(list, mv).len() == list.len(),
        forall|i: int|
            0 <= i < list.len() ==> 0 <= source_index(mv, i) < list.len() && #[trigger] moved(
                list,
                mv,
            )[i] == list[source_index(mv, i)],
{
}

/// A move keeps the identities distinct.
pub proof fn lemma_moved_keeps_distinct_ids(list: Seq<Item>, mv: Move)
    requires
        distinct_ids(list),
        mv.from < list.len(),
        mv.to < list.len(),
    ensures
        distinct_ids(moved(list, mv)),
{
    lemma_moved_entries(list, mv);
    let after = moved(list, mv);
    assert forall|i: int, j: int|
        0 <= i < after.len() && 0 <= j < after.len() && i != j implies after[i].id
        != after[j].id by {
        assert(after[i] == list[source_index(mv, i)]);
        assert(after[j] == list[source_index(mv, j)]);
        assert(source_index(mv, i) != source_index(mv, j));
    }
}

/// A list with distinct identities holds no entry twice, and neither does a
/// permutation of it.
proof fn lemma_permutation_has_no_duplicates(list: Seq<Item>, target: Seq<Item>)
    requires
        distinct_ids(list),
        target.to_multiset() == list.to_multiset(),
    ensures
        target.no_duplicates(),
        target.len() == list.len(),
{
    assert(list.no_duplicates());
    list.lemma_multiset_has_no_duplicates();
    target.lemma_multiset_has_no_duplicates_conv();
    list.to_multiset_ensures();
    target.to_multiset_ensures();
}

/// The state that the plan reaches after `n` positions of a target that is
/// a permutation of a list with distinct identities.
proof fn lemma_plan_prefix(list: Seq<Item>, target: Seq<Item>, n: nat)
    requires
        distinct_ids(list),
        target.to_multiset() == list.to_multiset(),
        list.len() <= usize::MAX,
        n <= target.len(),
    ensures
        plan(ids(list), ids(target), n) matches Some(moves) && {
            let mirror = apply_moves(list, moves);
            &&& moves.len() == n
            &&& mirror.len() == list.len()
            &&& mirror.to_multiset() == list.to_multiset()
            &&& distinct_ids(mirror)
            &&& ids(mirror) == apply_moves(ids(list), moves)
            &&& mirror.take(n as int) == target.take(n as int)
        },
    decreases n,
{
    lemma_permutation_has_no_duplicates(list, target);
    if n == 0 {
        assert(list.take(0) =~= target.take(0));
    } else {
        let t = n - 1;
        lemma_plan_prefix(list, target, t as nat);
        let before = plan(ids(list), ids(target), t as nat)->0;
        let mirror = apply_moves(list, before);
        let x = target[t];
        target.to_multiset_ensures();
        mirror.to_multiset_ensures();
        assert(target.contains(x));
        assert(target.to_multiset().count(x) > 0);
        assert(mirror.to_multiset().count(x) > 0);
        assert(mirror.contains(x));
        let j = choose|j: int| 0 <= j < mirror.len() && mirror[j] == x;
        assert(is_first_position(ids(mirror), x.id, j));
        lemma_position_of(ids(mirror), x.id, j);
        assert(j >= t) by {
            if j < t {
                assert(mirror.take(t)[j] == target.take(t)[j]);
                assert(target[j] == target[t]);
            }
        }
        let mv = Move { from: j as usize, to: t as usize };
        assert(move_for(ids(mirror), ids(target), t) == Some(mv));
        let moves = before.push(mv);
        assert(moves.drop_last() =~= before);
        assert(plan(ids(list), ids(target), n) == Some(moves));
        let after = moved(mirror, mv);
        assert(apply_moves(list, moves) == after);
        lemma_moved_is_permutation(mirror, mv);
        lemma_moved_keeps_distinct_ids(mirror, mv);
        lemma_ids_of_moved(mirror, mv);
        lemma_moved_entries(mirror, mv);
        assert(after.take(n as int) =~= target.take(n as int)) by {
            assert forall|i: int| 0 <= i < n implies after[i] == target[i] by {
                if i < t {
                    assert(source_index(mv, i) == i);
                    assert(mirror.take(t)[i] == target.take(t)[i]);
                }
            }
        }
    }
}

/// Planning is correct: for a list whose entries have distinct identities
/// and a target that is a permutation of the list, every target position has
/// a move, and the planned moves, applied in order to a mirror that starts as
/// the list, leave the mirror equal to the target.
pub proof fn lemma_plan_reaches_target(list: Seq<Item>, target: Seq<Item>)
    requires
        distinct_ids(list),
        target.to_multiset() == list.to_multiset(),
        list.len() <= usize::MAX,
    ensures
        plan(ids(list), ids(target), target.len()) matches Some(moves) && apply_moves(
            list,
            moves,
        ) == target,
{
    lemma_plan_prefix(list, target, target.len());
    lemma_permutation_has_no_duplicates(list, target);
    let moves = plan(ids(list), ids(target), target.len())->0;
    let mirror = apply_moves(list, moves);
    assert(mirror.take(target.len() as int) =~= mirror);
    assert(target.take(target.len() as int) =~= target);
}

/// Every target position has a move, and the planned moves turn `list`
/// into `target`.
pub open spec fn plan_reaches(list: Seq<Item>, target: Seq<Item>) -> bool {
    &&& forall|k: nat| k <= target.len() ==> (#[trigger] plan(ids(list), ids(target), k)) is Some
    &&& apply_moves(list, plan(ids(list), ids(target), target.len())->0) == target
}

/// Where the target is a reordering of the list, the plan reaches it.
pub proof fn lemma_plan_is_owed(list: Seq<Item>, target: Seq<Item>)
    requires
        list.len() <= usize::MAX,
    ensures
        is_reordering_of(target, list) ==> plan_reaches(list, target),
{
    if is_reordering_of(target, list) {
        lemma_plan_reaches_target(list, target);
        assert forall|k: nat| k <= target.len() implies (#[trigger] plan(
            ids(list),
            ids(target),
            k,
        )) is Some by {
            lemma_plan_has_prefixes(ids(list), ids(target), k, target.len());
        }
    }
}

} // verus!
