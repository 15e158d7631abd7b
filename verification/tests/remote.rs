use triblespace::remote::head::{commit_start, commit_step, CommitAction, CommitEvent, CommitResult};

fn hash(b: u8) -> [u8; 32] {
    [b; 32]
}

/// Runs a commit against a list of answers, returning the actions taken.
fn run(old: Option<[u8; 32]>, answers: &[CommitEvent]) -> Vec<CommitAction> {
    let mut actions = vec![commit_start(old)];
    for ev in answers {
        let last = *actions.last().unwrap();
        actions.push(commit_step(old, last, *ev));
    }
    actions
}

#[test]
fn commit_start_reads_when_a_head_is_expected() {
    assert_eq!(commit_start(Some(hash(1))), CommitAction::Get);
    assert_eq!(commit_start(None), CommitAction::PutCreate);
}

#[test]
fn commit_expected_head_updates_and_succeeds() {
    let actions = run(Some(hash(1)), &[CommitEvent::Found(hash(1)), CommitEvent::Written]);
    assert_eq!(
        actions,
        vec![CommitAction::Get, CommitAction::PutUpdate, CommitAction::Done(CommitResult::Success())]
    );
}

#[test]
fn commit_other_head_is_a_conflict() {
    let actions = run(Some(hash(1)), &[CommitEvent::Found(hash(2))]);
    assert_eq!(actions[1], CommitAction::Done(CommitResult::Conflict(Some(hash(2)))));
}

#[test]
fn commit_missing_head_is_a_conflict() {
    let actions = run(Some(hash(1)), &[CommitEvent::NotFound]);
    assert_eq!(actions[1], CommitAction::Done(CommitResult::Conflict(None)));
}

#[test]
fn commit_lost_race_reads_again() {
    let actions = run(
        Some(hash(1)),
        &[
            CommitEvent::Found(hash(1)),
            CommitEvent::PreconditionFailed,
            CommitEvent::Found(hash(3)),
        ],
    );
    assert_eq!(
        actions,
        vec![
            CommitAction::Get,
            CommitAction::PutUpdate,
            CommitAction::Get,
            CommitAction::Done(CommitResult::Conflict(Some(hash(3)))),
        ]
    );
}

#[test]
fn commit_create_succeeds_when_nothing_is_there() {
    let actions = run(None, &[CommitEvent::Written]);
    assert_eq!(actions, vec![CommitAction::PutCreate, CommitAction::Done(CommitResult::Success())]);
}

#[test]
fn commit_create_over_existing_head_is_a_conflict() {
    let actions = run(None, &[CommitEvent::AlreadyExists, CommitEvent::Found(hash(7))]);
    assert_eq!(
        actions,
        vec![
            CommitAction::PutCreate,
            CommitAction::Get,
            CommitAction::Done(CommitResult::Conflict(Some(hash(7)))),
        ]
    );
}

#[test]
fn commit_create_retries_when_head_vanished() {
    let actions = run(None, &[CommitEvent::AlreadyExists, CommitEvent::NotFound, CommitEvent::Written]);
    assert_eq!(
        actions,
        vec![
            CommitAction::PutCreate,
            CommitAction::Get,
            CommitAction::PutCreate,
            CommitAction::Done(CommitResult::Success()),
        ]
    );
}

#[test]
fn commit_unexpected_answer_repeats_request() {
    assert_eq!(commit_step(Some(hash(1)), CommitAction::Get, CommitEvent::Written), CommitAction::Get);
    let done = CommitAction::Done(CommitResult::Success());
    assert_eq!(commit_step(None, done, CommitEvent::NotFound), done);
}
