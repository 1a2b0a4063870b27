use fair_shuffle::executor::{FatalError, MoveError, MoveRequest};
use fair_shuffle::item::Item;
use fair_shuffle::planner::{Move, ReorderError};
use fair_shuffle::reorder::reorder;
use std::cell::RefCell;

fn items(ids: &[u64]) -> Vec<Item> {
    ids.iter().map(|&id| Item { id, added_by: None, index: id as usize }).collect()
}

fn ids(items: &[Item]) -> Vec<u64> {
    items.iter().map(|i| i.id).collect()
}

/// A remote list that makes the moves it is sent, unless its script says
/// otherwise for a submission, and that checks the token of every move.
struct Remote {
    list: RefCell<Vec<u64>>,
    snapshot: RefCell<Option<String>>,
    refusals: RefCell<Vec<Option<MoveError>>>,
    submitted: RefCell<Vec<(usize, usize, Option<String>)>>,
    waits: RefCell<Vec<u64>>,
    reported: RefCell<Vec<Move>>,
}

impl Remote {
    fn new(list: &[u64], mut refusals: Vec<Option<MoveError>>) -> Remote {
        refusals.reverse();
        Remote {
            list: RefCell::new(list.to_vec()),
            snapshot: RefCell::new(None),
            refusals: RefCell::new(refusals),
            submitted: RefCell::new(Vec::new()),
            waits: RefCell::new(Vec::new()),
            reported: RefCell::new(Vec::new()),
        }
    }

    fn submit(&self, request: MoveRequest) -> Result<String, MoveError> {
        self.submitted.borrow_mut().push((request.from, request.to, request.prior_token.clone()));
        if let Some(Some(refusal)) = self.refusals.borrow_mut().pop() {
            return Err(refusal);
        }
        if request.prior_token != *self.snapshot.borrow() {
            return Err(MoveError::Other { status: 409, body: "stale token".to_string() });
        }
        assert_eq!(request.range_length, 1);
        let mut list = self.list.borrow_mut();
        let entry = list.remove(request.from);
        list.insert(request.to, entry);
        let token = format!("snapshot-{}", self.submitted.borrow().len());
        *self.snapshot.borrow_mut() = Some(token.clone());
        Ok(token)
    }

    fn run(
        &self,
        mirror: &mut Vec<Item>,
        target: &Vec<Item>,
        dry_run: bool,
    ) -> Result<Option<String>, ReorderError<FatalError>> {
        reorder(
            mirror,
            target,
            dry_run,
            &|request: MoveRequest| self.submit(request),
            &|seconds: u64| self.waits.borrow_mut().push(seconds),
            &|mv: Move| self.reported.borrow_mut().push(mv),
        )
    }
}

fn throttled(seconds: u64) -> Option<MoveError> {
    Some(MoveError::Throttled { retry_after: Some(seconds) })
}

#[test]
fn run_brings_the_remote_list_and_the_mirror_to_the_target() {
    let remote = Remote::new(&[1, 2, 3, 4], Vec::new());
    let mut mirror = items(&[1, 2, 3, 4]);
    let target = items(&[3, 1, 4, 2]);
    assert_eq!(remote.run(&mut mirror, &target, false), Ok(Some("snapshot-4".to_string())));
    assert_eq!(mirror, target);
    assert_eq!(*remote.list.borrow(), vec![3, 1, 4, 2]);
    assert_eq!(
        *remote.reported.borrow(),
        vec![
            Move { from: 2, to: 0 },
            Move { from: 1, to: 1 },
            Move { from: 3, to: 2 },
            Move { from: 3, to: 3 },
        ]
    );
}

#[test]
fn run_submits_each_move_with_the_token_of_the_move_before() {
    let remote = Remote::new(&[1, 2, 3], vec![None, throttled(2), throttled(5)]);
    let mut mirror = items(&[1, 2, 3]);
    let target = items(&[3, 2, 1]);
    assert_eq!(remote.run(&mut mirror, &target, false), Ok(Some("snapshot-5".to_string())));
    assert_eq!(
        *remote.submitted.borrow(),
        vec![
            (2, 0, None),
            (2, 1, Some("snapshot-1".to_string())),
            (2, 1, Some("snapshot-1".to_string())),
            (2, 1, Some("snapshot-1".to_string())),
            (2, 2, Some("snapshot-4".to_string())),
        ]
    );
    assert_eq!(*remote.waits.borrow(), vec![2, 5]);
    assert_eq!(*remote.list.borrow(), vec![3, 2, 1]);
    assert_eq!(mirror, target);
}

#[test]
fn dry_run_plans_without_submitting() {
    let remote = Remote::new(&[1, 2, 3], Vec::new());
    let mut mirror = items(&[1, 2, 3]);
    let target = items(&[2, 3, 1]);
    assert_eq!(remote.run(&mut mirror, &target, true), Ok(None));
    assert_eq!(mirror, target);
    assert!(remote.submitted.borrow().is_empty());
    assert_eq!(*remote.list.borrow(), vec![1, 2, 3]);
    assert_eq!(
        *remote.reported.borrow(),
        vec![Move { from: 1, to: 0 }, Move { from: 2, to: 1 }, Move { from: 2, to: 2 }]
    );
}

#[test]
fn run_of_nothing_submits_nothing() {
    let remote = Remote::new(&[], Vec::new());
    let mut mirror = Vec::new();
    assert_eq!(remote.run(&mut mirror, &Vec::new(), false), Ok(None));
    assert!(remote.submitted.borrow().is_empty());
    assert!(remote.reported.borrow().is_empty());
}

#[test]
fn run_stops_at_the_first_fatal_error() {
    let conflict = MoveError::Other { status: 500, body: "down".to_string() };
    let remote = Remote::new(&[1, 2, 3, 4], vec![None, Some(conflict)]);
    let mut mirror = items(&[1, 2, 3, 4]);
    let target = items(&[4, 3, 2, 1]);
    assert_eq!(
        remote.run(&mut mirror, &target, false),
        Err(ReorderError::MoveFailed {
            target_index: 1,
            error: FatalError::Status { status: 500, body: "down".to_string() },
        })
    );
    // the confirmed move stays made on both sides, and nothing follows the failure
    assert_eq!(ids(&mirror), vec![4, 1, 2, 3]);
    assert_eq!(*remote.list.borrow(), vec![4, 1, 2, 3]);
    assert_eq!(remote.submitted.borrow().len(), 2);
    assert_eq!(remote.reported.borrow().len(), 2);
}

#[test]
fn run_stops_when_a_move_is_throttled_too_often() {
    let refusals = (0..10).map(|_| throttled(1)).collect();
    let remote = Remote::new(&[1, 2], refusals);
    let mut mirror = items(&[1, 2]);
    let target = items(&[2, 1]);
    assert_eq!(
        remote.run(&mut mirror, &target, false),
        Err(ReorderError::MoveFailed { target_index: 0, error: FatalError::AttemptsExhausted })
    );
    assert_eq!(ids(&mirror), vec![1, 2]);
    assert_eq!(remote.submitted.borrow().len(), 10);
    assert_eq!(remote.waits.borrow().len(), 10);
}

#[test]
fn run_stops_at_an_entry_that_the_mirror_lacks() {
    let remote = Remote::new(&[1, 2, 3], Vec::new());
    let mut mirror = items(&[1, 2, 3]);
    let target = items(&[2, 7, 1]);
    assert_eq!(
        remote.run(&mut mirror, &target, false),
        Err(ReorderError::MissingItem { target_index: 1 })
    );
    assert_eq!(ids(&mirror), vec![2, 1, 3]);
    assert_eq!(*remote.list.borrow(), vec![2, 1, 3]);
    assert_eq!(remote.submitted.borrow().len(), 1);
}

#[test]
fn run_surfaces_a_conflicting_edit_as_a_fatal_error() {
    let remote = Remote::new(&[1, 2, 3], Vec::new());
    // another writer changed the remote list before the run
    *remote.snapshot.borrow_mut() = Some("someone-else".to_string());
    let mut mirror = items(&[1, 2, 3]);
    let target = items(&[3, 2, 1]);
    assert_eq!(
        remote.run(&mut mirror, &target, false),
        Err(ReorderError::MoveFailed {
            target_index: 0,
            error: FatalError::Status { status: 409, body: "stale token".to_string() },
        })
    );
    assert_eq!(ids(&mirror), vec![1, 2, 3]);
}
