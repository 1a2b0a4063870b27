//! The whole run: the planner's moves, made one at a time on the remote
//! list through the rate-limited executor.

use crate::executor::{
    gives_up_with, move_request, reorder_respecting_rate_limiting, submitted_token, FatalError,
    MoveError, MoveRequest,
};
use crate::item::{ids, Item};
use crate::planner::{
    apply_move, apply_moves, is_reordering_of, lemma_ids_of_moved, lemma_plan_is_owed, next_move,
    plan, plan_reaches, Move, ReorderError,
};
use vstd::prelude::*;

verus! {

/// The service made every move of `moves`, returning `tokens`, one for each
/// move, and every move was submitted with the token returned for the move
/// before it.
pub open spec fn chained<S: Fn(MoveRequest) -> Result<String, MoveError>>(
    submit: &S,
    moves: Seq<Move>,
    tokens: Seq<String>,
) -> bool {
    &&& tokens.len() == moves.len()
    &&& forall|k: int|
        0 <= k < moves.len() ==> call_ensures(
            submit,
            (move_request(moves[k].from, moves[k].to, submitted_token(tokens, k)),),
            Ok::<String, MoveError>(#[trigger] tokens[k]),
        )
}

/// The service made every move of `moves`, each submitted with the token
/// returned for the move before it, and `token` is the one returned last:
/// the token that a next move would submit.
pub open spec fn made_in_chain<S: Fn(MoveRequest) -> Result<String, MoveError>>(
    submit: &S,
    moves: Seq<Move>,
    token: Option<String>,
) -> bool {
    exists|tokens: Seq<String>|
        #[trigger] chained(submit, moves, tokens) && token == submitted_token(
            tokens,
            moves.len() as int,
        )
}

/// The service made every move of `moves` but the last, in a chain, and the
/// last, submitted with the token that the chain had reached, was given up
/// with `error`.
pub open spec fn stopped_in_chain<S: Fn(MoveRequest) -> Result<String, MoveError>>(
    submit: &S,
    moves: Seq<Move>,
    error: FatalError,
) -> bool {
    exists|token: Option<String>|
        #[trigger] made_in_chain(submit, moves.drop_last(), token) && gives_up_with(
            submit,
            move_request(moves.last().from, moves.last().to, token),
            error,
        )
}

/// Brings the remote list and its mirror to the target order.
///
/// The target positions are taken in order. For each, the move is planned
/// against the mirror as it stands and handed to `report`. Unless `dry_run`
/// is set, the move is then made on the remote list through `submit`, with
/// the token that the move before it returned, the first move with none;
/// throttling is waited out through `wait`. When the move is confirmed, or
/// in a dry run at once, the same move is made on the mirror. The run stops
/// at the first move that fails for good, and at a target position that has
/// no move; the moves confirmed before stay made, on the remote list and on
/// the mirror. On success the token that the last move returned is handed
/// back; there is none in a dry run or when there was nothing to move.
pub fn reorder<S, W, R>(
    mirror: &mut Vec<Item>,
    target: &Vec<Item>,
    dry_run: bool,
    submit: &S,
    wait: &W,
    report: &R,
) -> (r: Result<Option<String>, ReorderError<FatalError>>) where
    S: Fn(MoveRequest) -> Result<String, MoveError>,
    W: Fn(u64) -> (),
    R: Fn(Move) -> (),

    requires
        forall|request: MoveRequest| call_requires(submit, (request,)),
        forall|seconds: u64| call_requires(wait, (seconds,)),
        forall|mv: Move| call_requires(report, (mv,)),
    ensures
        final(mirror)@.to_multiset() == old(mirror)@.to_multiset(),
        is_reordering_of(target@, old(mirror)@) ==> !(r matches Err(
            ReorderError::MissingItem { .. },
        )) && (r is Ok ==> final(mirror)@ == target@),
        dry_run && is_reordering_of(target@, old(mirror)@) ==> r is Ok,
        match r {
            Ok(token) => {
                &&& plan(ids(old(mirror)@), ids(target@), target.len() as nat) matches Some(moves)
                &&& final(mirror)@ == apply_moves(old(mirror)@, moves)
                &&& dry_run ==> token is None
                &&& !dry_run ==> made_in_chain(submit, moves, token)
            },
            Err(ReorderError::MissingItem { target_index }) => {
                &&& target_index < target.len()
                &&& plan(ids(old(mirror)@), ids(target@), target_index as nat) matches Some(moves)
                &&& plan(ids(old(mirror)@), ids(target@), (target_index + 1) as nat) is None
                &&& final(mirror)@ == apply_moves(old(mirror)@, moves)
                &&& !dry_run ==> exists|token: Option<String>|
                    #[trigger] made_in_chain(submit, moves, token)
            },
            Err(ReorderError::MoveFailed { target_index, error }) => {
                &&& !dry_run
                &&& target_index < target.len()
                &&& plan(ids(old(mirror)@), ids(target@), (target_index + 1) as nat) matches Some(
                    moves,
                )
                &&& final(mirror)@ == apply_moves(old(mirror)@, moves.drop_last())
                &&& stopped_in_chain(submit, moves, error)
            },
        },
{
    let ghost start = mirror@;
    proof {
        assert(start.len() == mirror.len());
        lemma_plan_is_owed(start, target@);
    }
    let ghost mut moves: Seq<Move> = Seq::empty();
    let ghost mut tokens: Seq<String> = Seq::empty();
    let mut token: Option<String> = None;
    let mut t: usize = 0;
    assert(chained(submit, moves, tokens));
    while t < target.len()
        invariant
            start == old(mirror)@,
            t <= target.len(),
            moves.len() == t,
            plan(ids(start), ids(target@), t as nat) == Some(moves),
            is_reordering_of(target@, start) ==> plan_reaches(start, target@),
            mirror@ == apply_moves(start, moves),
            ids(mirror@) == apply_moves(ids(start), moves),
            mirror@.to_multiset() == start.to_multiset(),
            dry_run ==> token is None,
            !dry_run ==> chained(submit, moves, tokens) && token == submitted_token(
                tokens,
                t as int,
            ),
            !dry_run ==> made_in_chain(submit, moves, token),
            forall|request: MoveRequest| call_requires(submit, (request,)),
            forall|seconds: u64| call_requires(wait, (seconds,)),
            forall|mv: Move| call_requires(report, (mv,)),
        decreases target.len() - t,
    {
        let mv = match next_move(mirror, target, t) {
            Some(mv) => mv,
            None => {
                return Err(ReorderError::MissingItem { target_index: t });
            },
        };
        proof {
            lemma_ids_of_moved(mirror@, mv);
            assert(moves.push(mv).drop_last() =~= moves);
        }
        report(mv);
        if !dry_run {
            let ghost prior = token;
            match reorder_respecting_rate_limiting(submit, wait, mv.from, mv.to, &mut token) {
                Ok(_) => {
                    proof {
                        let ghost confirmed = tokens;
                        tokens = tokens.push(token->0);
                        assert forall|k: int| 0 <= k < moves.push(mv).len() implies call_ensures(
                            submit,
                            (move_request(
                                moves.push(mv)[k].from,
                                moves.push(mv)[k].to,
                                submitted_token(tokens, k),
                            ),),
                            Ok::<String, MoveError>(#[trigger] tokens[k]),
                        ) by {
                            if k < t {
                                assert(tokens[k] == confirmed[k]);
                                assert(submitted_token(tokens, k) == submitted_token(confirmed, k));
                            }
                        }
                    }
                },
                Err(error) => {
                    proof {
                        let full = moves.push(mv);
                        assert(full.last() == mv);
                        assert(full.drop_last() == moves);
                        assert(made_in_chain(submit, full.drop_last(), prior));
                        assert(stopped_in_chain(submit, full, error));
                    }
                    return Err(ReorderError::MoveFailed { target_index: t, error });
                },
            }
        }
        apply_move(mirror, mv);
        proof {
            moves = moves.push(mv);
            if !dry_run {
                assert(chained(submit, moves, tokens));
            }
        }
        t = t + 1;
    }
    Ok(token)
}

} // verus!
