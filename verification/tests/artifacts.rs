use kineprism::artifacts::{CommitAction, CommitEvent, CommitFailure, CommitStage, CommitState};
use kineprism::artifacts::CommitEvent::{Directory, Failed, File, Missing, Succeeded};

fn drive(force: bool, events: &[CommitEvent]) -> (CommitState, Vec<CommitAction>) {
    let (mut state, first) = CommitState::new(force);
    let mut actions = vec![first];
    for event in events {
        actions.push(state.advance(*event));
    }
    (state, actions)
}

#[test]
fn fresh_commit_writes_then_inspects_then_commits() {
    let events = [Succeeded, Succeeded, Succeeded, Succeeded, Missing, Missing, Missing, Missing, Succeeded, Succeeded, Succeeded, Succeeded, Succeeded, Succeeded];
    let (state, actions) = drive(false, &events);
    assert_eq!(
        actions,
        vec![
            CommitAction::WriteTemporary(0),
            CommitAction::WriteTemporary(1),
            CommitAction::WriteTemporary(2),
            CommitAction::WriteTemporary(3),
            CommitAction::InspectTarget(0),
            CommitAction::InspectTarget(1),
            CommitAction::InspectTarget(2),
            CommitAction::InspectTarget(3),
            CommitAction::CommitTarget(0),
            CommitAction::CommitTarget(1),
            CommitAction::CommitTarget(2),
            CommitAction::CommitTarget(3),
            CommitAction::RemoveBackups,
            CommitAction::RemoveTransactionDirectory,
            CommitAction::Finished,
        ]
    );
    assert_eq!(state.stage, CommitStage::Done);
    assert_eq!(state.failure, None);
}

#[test]
fn existing_target_without_force_is_refused_and_nothing_is_touched() {
    let events = [Succeeded, Succeeded, Succeeded, Succeeded, Missing, File, Succeeded, Succeeded];
    let (state, actions) = drive(false, &events);
    assert_eq!(
        &actions[6..],
        &[CommitAction::RemoveTemporaries, CommitAction::RemoveTransactionDirectory, CommitAction::Finished]
    );
    assert_eq!(state.failure, Some(CommitFailure::Exists(1)));
}

#[test]
fn forced_commit_backs_up_and_restores_after_a_failed_move() {
    // Target 1 exists and is backed up; committing target 2 fails.
    let events = [
        Succeeded, Succeeded, Succeeded, Succeeded, // temporaries
        Missing, File, Succeeded, Missing, Missing, // inspections and backup of target 1
        Succeeded, Succeeded, Failed, // commit 0, 1, fail on 2
        Succeeded, Succeeded, Succeeded, Succeeded, Succeeded, Succeeded,
    ];
    let (state, actions) = drive(true, &events);
    assert_eq!(actions[6], CommitAction::BackUpTarget(1));
    assert_eq!(
        &actions[12..],
        &[
            CommitAction::RemoveTarget(0),
            CommitAction::RemoveTarget(1),
            CommitAction::RestoreTarget(1),
            CommitAction::RemoveTemporaries,
            CommitAction::RemoveTransactionDirectory,
            CommitAction::Finished,
            CommitAction::Finished,
        ]
    );
    assert_eq!(state.failure, Some(CommitFailure::Commit(2)));
    assert_eq!(state.stage, CommitStage::Done);
}

#[test]
fn forced_commit_refuses_to_replace_a_directory() {
    let events = [Succeeded, Succeeded, Succeeded, Succeeded, Directory];
    let (state, actions) = drive(true, &events);
    assert_eq!(actions[5], CommitAction::RemoveTemporaries);
    assert_eq!(state.failure, Some(CommitFailure::Directory(0)));
}

#[test]
fn failed_temporary_write_cleans_up() {
    let (state, actions) = drive(false, &[Succeeded, Failed]);
    assert_eq!(actions[2], CommitAction::RemoveTemporaries);
    assert_eq!(state.failure, Some(CommitFailure::Write(1)));
}
