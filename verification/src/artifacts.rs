use vstd::prelude::*;

verus! {

/// Number of artifacts written together: the expected, actual and diff images and the report.
pub const ARTIFACT_COUNT: usize = 4;

/// Where a commit of the artifacts stands.
#[derive(Debug, Clone, Copy, PartialEq, Eq, Structural)]
pub enum CommitStage {
    /// Writing temporary file `index`.
    Writing,
    /// Checking whether target `index` already exists.
    Inspecting,
    /// Moving existing target `index` aside as a backup.
    BackingUp,
    /// Moving temporary file `index` onto its target.
    Committing,
    /// Removing committed target `index` after a failure.
    RollingBack,
    /// Moving backup `index` back onto its target after a failure.
    Restoring,
    /// Removing the temporary files.
    CleaningTemporaries,
    /// Removing the backups after success.
    CleaningBackups,
    /// Removing the transaction directory.
    RemovingDirectory,
    /// Nothing left to do.
    Done,
}

/// The next file-system operation of a commit.
#[derive(Debug, Clone, Copy, PartialEq, Eq, Structural)]
pub enum CommitAction {
    /// Write the temporary file of artifact `index`.
    WriteTemporary(usize),
    /// Check whether the target of artifact `index` exists and what it is.
    InspectTarget(usize),
    /// Move the existing target of artifact `index` to its backup.
    BackUpTarget(usize),
    /// Move the temporary file of artifact `index` onto its target.
    CommitTarget(usize),
    /// Remove the committed target of artifact `index`.
    RemoveTarget(usize),
    /// Move the backup of artifact `index` back onto its target.
    RestoreTarget(usize),
    /// Remove all temporary files.
    RemoveTemporaries,
    /// Remove all backups.
    RemoveBackups,
    /// Remove the transaction directory.
    RemoveTransactionDirectory,
    /// The commit is over; its outcome is the recorded failure, if any.
    Finished,
}

/// What an operation reported.
#[derive(Debug, Clone, Copy, PartialEq, Eq, Structural)]
pub enum CommitEvent {
    /// The operation succeeded.
    Succeeded,
    /// The operation failed.
    Failed,
    /// The inspected target does not exist.
    Missing,
    /// The inspected target is an existing file.
    File,
    /// The inspected target is an existing directory.
    Directory,
}

/// Why a commit failed.
#[derive(Debug, Clone, Copy, PartialEq, Eq, Structural)]
pub enum CommitFailure {
    /// The temporary file of an artifact could not be written.
    Write(usize),
    /// A target exists and replacement was not forced.
    Exists(usize),
    /// A target could not be inspected.
    Inspect(usize),
    /// A target to replace is a directory.
    Directory(usize),
    /// A target could not be moved aside.
    BackUp(usize),
    /// A temporary file could not be moved onto its target.
    Commit(usize),
}

/// One flag per artifact.
#[derive(Debug, Clone, Copy, PartialEq, Eq, Structural)]
pub struct ArtifactFlags {
    /// Flag of the expected image.
    pub expected: bool,
    /// Flag of the actual image.
    pub actual: bool,
    /// Flag of the diff image.
    pub diff: bool,
    /// Flag of the report.
    pub report: bool,
}

impl ArtifactFlags {
    /// The flags in artifact order.
    pub open spec fn flags(self) -> Seq<bool> {
        seq![self.expected, self.actual, self.diff, self.report]
    }

    /// The same flags with the flag of artifact `index` set.
    pub open spec fn with(self, index: int) -> ArtifactFlags {
        ArtifactFlags {
            expected: self.expected || index == 0,
            actual: self.actual || index == 1,
            diff: self.diff || index == 2,
            report: self.report || index == 3,
        }
    }

    /// No flag set.
    pub fn none() -> (result: ArtifactFlags)
        ensures
            result.flags() == seq![false, false, false, false],
    {
        ArtifactFlags { expected: false, actual: false, diff: false, report: false }
    }

    /// The flag of artifact `index`.
    pub fn get(&self, index: usize) -> (result: bool)
        requires
            index < ARTIFACT_COUNT,
        ensures
            result == self.flags()[index as int],
    {
        if index == 0 {
            self.expected
        } else if index == 1 {
            self.actual
        } else if index == 2 {
            self.diff
        } else {
            self.report
        }
    }

    /// Sets the flag of artifact `index`.
    pub fn set(&mut self, index: usize)
        requires
            index < ARTIFACT_COUNT,
        ensures
            *final(self) == old(self).with(index as int),
    {
        if index == 0 {
            self.expected = true;
        } else if index == 1 {
            self.actual = true;
        } else if index == 2 {
            self.diff = true;
        } else {
            self.report = true;
        }
    }
}

/// A commit of the artifacts: temporaries are written, existing targets are moved aside (only
/// when forced), temporaries are moved onto the targets, and on any failure the committed
/// targets are removed and the backups restored.
#[derive(Debug, Clone, Copy, PartialEq, Eq, Structural)]
pub struct CommitState {
    /// Current stage.
    pub stage: CommitStage,
    /// Artifact the current stage works on.
    pub index: usize,
    /// Existing targets may be replaced.
    pub force: bool,
    /// Targets moved aside so far.
    pub backed_up: ArtifactFlags,
    /// Targets committed so far.
    pub committed: ArtifactFlags,
    /// The failure that ended the commit, if any.
    pub failure: Option<CommitFailure>,
}

/// First position at or after `from` whose flag is set, or `ARTIFACT_COUNT` when none is.
pub open spec fn next_flagged(flags: Seq<bool>, from: int) -> int
    decreases ARTIFACT_COUNT - from,
{
    if from >= ARTIFACT_COUNT || from < 0 {
        ARTIFACT_COUNT as int
    } else if flags[from] {
        from
    } else {
        next_flagged(flags, from + 1)
    }
}

/// After a failure: roll back the first committed target from `from` on, else restore the first
/// backup, else remove the temporaries.
pub open spec fn rollback_from(s: CommitState, from: int) -> (CommitState, CommitAction) {
    let j = next_flagged(s.committed.flags(), from);
    if j < ARTIFACT_COUNT {
        (CommitState { stage: CommitStage::RollingBack, index: j as usize, ..s }, CommitAction::RemoveTarget(j as usize))
    } else {
        restore_from(s, 0)
    }
}

/// Restore the first backup from `from` on, else remove the temporaries.
pub open spec fn restore_from(s: CommitState, from: int) -> (CommitState, CommitAction) {
    let j = next_flagged(s.backed_up.flags(), from);
    if j < ARTIFACT_COUNT {
        (CommitState { stage: CommitStage::Restoring, index: j as usize, ..s }, CommitAction::RestoreTarget(j as usize))
    } else {
        (CommitState { stage: CommitStage::CleaningTemporaries, index: 0, ..s }, CommitAction::RemoveTemporaries)
    }
}

/// Record `failure` and start recovering.
pub open spec fn fail_with(s: CommitState, failure: CommitFailure) -> (CommitState, CommitAction) {
    rollback_from(CommitState { failure: Some(failure), ..s }, 0)
}

/// Inspect the target after `index`, or start committing after the last one.
pub open spec fn inspect_after(s: CommitState, index: int) -> (CommitState, CommitAction) {
    if index + 1 < ARTIFACT_COUNT {
        (CommitState { stage: CommitStage::Inspecting, index: (index + 1) as usize, ..s }, CommitAction::InspectTarget((index + 1) as usize))
    } else {
        (CommitState { stage: CommitStage::Committing, index: 0, ..s }, CommitAction::CommitTarget(0))
    }
}

/// The commit's next state and operation after the current operation reported `event`.
#[verifier::opaque]
pub open spec fn spec_advance(s: CommitState, event: CommitEvent) -> (CommitState, CommitAction) {
    let i = s.index as int;
    match s.stage {
        CommitStage::Writing => if event == CommitEvent::Succeeded {
            if i + 1 < ARTIFACT_COUNT {
                (CommitState { index: (i + 1) as usize, ..s }, CommitAction::WriteTemporary((i + 1) as usize))
            } else {
                (CommitState { stage: CommitStage::Inspecting, index: 0, ..s }, CommitAction::InspectTarget(0))
            }
        } else {
            fail_with(s, CommitFailure::Write(s.index))
        },
        CommitStage::Inspecting => if event == CommitEvent::Missing {
            inspect_after(s, i)
        } else if !s.force {
            fail_with(s, CommitFailure::Exists(s.index))
        } else if event == CommitEvent::File {
            (CommitState { stage: CommitStage::BackingUp, ..s }, CommitAction::BackUpTarget(s.index))
        } else if event == CommitEvent::Directory {
            fail_with(s, CommitFailure::Directory(s.index))
        } else {
            fail_with(s, CommitFailure::Inspect(s.index))
        },
        CommitStage::BackingUp => if event == CommitEvent::Succeeded {
            inspect_after(CommitState { backed_up: s.backed_up.with(i), ..s }, i)
        } else {
            fail_with(s, CommitFailure::BackUp(s.index))
        },
        CommitStage::Committing => if event == CommitEvent::Succeeded {
            let t = CommitState { committed: s.committed.with(i), ..s };
            if i + 1 < ARTIFACT_COUNT {
                (CommitState { index: (i + 1) as usize, ..t }, CommitAction::CommitTarget((i + 1) as usize))
            } else {
                (CommitState { stage: CommitStage::CleaningBackups, index: 0, ..t }, CommitAction::RemoveBackups)
            }
        } else {
            fail_with(s, CommitFailure::Commit(s.index))
        },
        CommitStage::RollingBack => rollback_from(s, i + 1),
        CommitStage::Restoring => restore_from(s, i + 1),
        CommitStage::CleaningTemporaries => (
            CommitState { stage: CommitStage::RemovingDirectory, ..s },
            CommitAction::RemoveTransactionDirectory,
        ),
        CommitStage::CleaningBackups => (
            CommitState { stage: CommitStage::RemovingDirectory, ..s },
            CommitAction::RemoveTransactionDirectory,
        ),
        CommitStage::RemovingDirectory => (CommitState { stage: CommitStage::Done, ..s }, CommitAction::Finished),
        CommitStage::Done => (s, CommitAction::Finished),
    }
}

/// The state is consistent: the index addresses an artifact.
pub open spec fn commit_wf(s: CommitState) -> bool {
    s.index < ARTIFACT_COUNT
}

fn next_flagged_exec(flags: &ArtifactFlags, from: usize) -> (result: usize)
    requires
        from <= ARTIFACT_COUNT,
    ensures
        result == next_flagged(flags.flags(), from as int),
        result <= ARTIFACT_COUNT,
{
    let mut j = from;
    while j < ARTIFACT_COUNT
        invariant
            from <= j <= ARTIFACT_COUNT,
            next_flagged(flags.flags(), from as int) == next_flagged(flags.flags(), j as int),
        decreases ARTIFACT_COUNT - j,
    {
        if flags.get(j) {
            return j;
        }
        j += 1;
    }
    j
}

impl CommitState {
    /// A commit that has not started; its first operation writes the first temporary file.
    pub fn new(force: bool) -> (result: (CommitState, CommitAction))
        ensures
            result.0 == (CommitState {
                stage: CommitStage::Writing,
                index: 0,
                force,
                backed_up: ArtifactFlags { expected: false, actual: false, diff: false, report: false },
                committed: ArtifactFlags { expected: false, actual: false, diff: false, report: false },
                failure: None,
            }),
            result.1 == CommitAction::WriteTemporary(0),
            commit_wf(result.0),
    {
        (
            CommitState {
                stage: CommitStage::Writing,
                index: 0,
                force,
                backed_up: ArtifactFlags::none(),
                committed: ArtifactFlags::none(),
                failure: None,
            },
            CommitAction::WriteTemporary(0),
        )
    }

    fn rollback_from(&mut self, from: usize) -> (result: CommitAction)
        requires
            from <= ARTIFACT_COUNT,
        ensures
            (*final(self), result) == rollback_from(*old(self), from as int),
            commit_wf(*final(self)),
    {
        let j = next_flagged_exec(&self.committed, from);
        if j < ARTIFACT_COUNT {
            self.stage = CommitStage::RollingBack;
            self.index = j;
            CommitAction::RemoveTarget(j)
        } else {
            self.restore_from(0)
        }
    }

    fn restore_from(&mut self, from: usize) -> (result: CommitAction)
        requires
            from <= ARTIFACT_COUNT,
        ensures
            (*final(self), result) == restore_from(*old(self), from as int),
            commit_wf(*final(self)),
    {
        let j = next_flagged_exec(&self.backed_up, from);
        if j < ARTIFACT_COUNT {
            self.stage = CommitStage::Restoring;
            self.index = j;
            CommitAction::RestoreTarget(j)
        } else {
            self.stage = CommitStage::CleaningTemporaries;
            self.index = 0;
            CommitAction::RemoveTemporaries
        }
    }

    fn fail_with(&mut self, failure: CommitFailure) -> (result: CommitAction)
        ensures
            (*final(self), result) == fail_with(*old(self), failure),
            commit_wf(*final(self)),
    {
        self.failure = Some(failure);
        self.rollback_from(0)
    }

    fn inspect_after(&mut self) -> (result: CommitAction)
        requires
            commit_wf(*old(self)),
        ensures
            (*final(self), result) == inspect_after(*old(self), old(self).index as int),
            commit_wf(*final(self)),
    {
        if self.index + 1 < ARTIFACT_COUNT {
            self.stage = CommitStage::Inspecting;
            self.index = self.index + 1;
            CommitAction::InspectTarget(self.index)
        } else {
            self.stage = CommitStage::Committing;
            self.index = 0;
            CommitAction::CommitTarget(0)
        }
    }

    /// Records what the last operation reported and returns the next operation.
    pub fn advance(&mut self, event: CommitEvent) -> (result: CommitAction)
        requires
            commit_wf(*old(self)),
        ensures
            (*final(self), result) == spec_advance(*old(self), event),
            commit_wf(*final(self)),
    {
        reveal(spec_advance);
        let i = self.index;
        match self.stage {
            CommitStage::Writing => if event == CommitEvent::Succeeded {
                if i + 1 < ARTIFACT_COUNT {
                    self.index = i + 1;
                    CommitAction::WriteTemporary(i + 1)
                } else {
                    self.stage = CommitStage::Inspecting;
                    self.index = 0;
                    CommitAction::InspectTarget(0)
                }
            } else {
                self.fail_with(CommitFailure::Write(i))
            },
            CommitStage::Inspecting => if event == CommitEvent::Missing {
                self.inspect_after()
            } else if !self.force {
                self.fail_with(CommitFailure::Exists(i))
            } else if event == CommitEvent::File {
                self.stage = CommitStage::BackingUp;
                CommitAction::BackUpTarget(i)
            } else if event == CommitEvent::Directory {
                self.fail_with(CommitFailure::Directory(i))
            } else {
                self.fail_with(CommitFailure::Inspect(i))
            },
            CommitStage::BackingUp => if event == CommitEvent::Succeeded {
                self.backed_up.set(i);
                self.inspect_after()
            } else {
                self.fail_with(CommitFailure::BackUp(i))
            },
            CommitStage::Committing => if event == CommitEvent::Succeeded {
                self.committed.set(i);
                if i + 1 < ARTIFACT_COUNT {
                    self.index = i + 1;
                    CommitAction::CommitTarget(i + 1)
                } else {
                    self.stage = CommitStage::CleaningBackups;
                    self.index = 0;
                    CommitAction::RemoveBackups
                }
            } else {
                self.fail_with(CommitFailure::Commit(i))
            },
            CommitStage::RollingBack => self.rollback_from(i + 1),
            CommitStage::Restoring => self.restore_from(i + 1),
            CommitStage::CleaningTemporaries => {
                self.stage = CommitStage::RemovingDirectory;
                CommitAction::RemoveTransactionDirectory
            },
            CommitStage::CleaningBackups => {
                self.stage = CommitStage::RemovingDirectory;
                CommitAction::RemoveTransactionDirectory
            },
            CommitStage::RemovingDirectory => {
                self.stage = CommitStage::Done;
                CommitAction::Finished
            },
            CommitStage::Done => CommitAction::Finished,
        }
    }
}

/// The operations a commit issues for the given reports, starting from `s`.
pub open spec fn run(s: CommitState, events: Seq<CommitEvent>) -> Seq<CommitAction>
    decreases events.len(),
{
    if events.len() == 0 {
        seq![]
    } else {
        let (next, action) = spec_advance(s, events[0]);
        seq![action] + run(next, events.drop_first())
    }
}

/// Removal of every flagged committed target from `from` on, in order.
pub open spec fn removals_from(flags: Seq<bool>, from: int) -> Seq<CommitAction>
    decreases ARTIFACT_COUNT - from,
{
    if from >= ARTIFACT_COUNT || from < 0 {
        seq![]
    } else {
        (if flags[from] { seq![CommitAction::RemoveTarget(from as usize)] } else { seq![] }) + removals_from(flags, from + 1)
    }
}

/// Restoration of every flagged backup from `from` on, in order.
pub open spec fn restorations_from(flags: Seq<bool>, from: int) -> Seq<CommitAction>
    decreases ARTIFACT_COUNT - from,
{
    if from >= ARTIFACT_COUNT || from < 0 {
        seq![]
    } else {
        (if flags[from] { seq![CommitAction::RestoreTarget(from as usize)] } else { seq![] }) + restorations_from(
            flags,
            from + 1,
        )
    }
}

/// The clean-up that ends a failed commit.
pub open spec fn cleanup_actions() -> Seq<CommitAction> {
    seq![CommitAction::RemoveTemporaries, CommitAction::RemoveTransactionDirectory, CommitAction::Finished]
}

/// Everything a failed commit does: remove the committed targets, restore the backups, remove
/// the temporaries and the transaction directory, finish.
pub open spec fn recovery_actions(committed: Seq<bool>, backed_up: Seq<bool>) -> Seq<CommitAction> {
    removals_from(committed, 0) + restorations_from(backed_up, 0) + cleanup_actions()
}

proof fn lemma_advance_recovering(s: CommitState, event: CommitEvent)
    ensures
        s.stage == CommitStage::RollingBack ==> spec_advance(s, event) == rollback_from(s, s.index + 1),
        s.stage == CommitStage::Restoring ==> spec_advance(s, event) == restore_from(s, s.index + 1),
        s.stage == CommitStage::CleaningTemporaries ==> spec_advance(s, event) == (
            CommitState { stage: CommitStage::RemovingDirectory, ..s },
            CommitAction::RemoveTransactionDirectory,
        ),
        s.stage == CommitStage::RemovingDirectory ==> spec_advance(s, event) == (
            CommitState { stage: CommitStage::Done, ..s },
            CommitAction::Finished,
        ),
        s.stage == CommitStage::Committing && event != CommitEvent::Succeeded ==> spec_advance(s, event) == fail_with(
            s,
            CommitFailure::Commit(s.index),
        ),
{
    reveal(spec_advance);
}

proof fn lemma_run_step(s: CommitState, events: Seq<CommitEvent>)
    requires
        events.len() > 0,
    ensures
        run(s, events) == seq![spec_advance(s, events[0]).1] + run(spec_advance(s, events[0]).0, events.drop_first()),
{
}

proof fn lemma_skip_unflagged(flags: Seq<bool>, from: int)
    requires
        0 <= from <= ARTIFACT_COUNT,
        flags.len() == ARTIFACT_COUNT,
    ensures
        from <= next_flagged(flags, from) <= ARTIFACT_COUNT,
        next_flagged(flags, from) < ARTIFACT_COUNT ==> flags[next_flagged(flags, from)],
        removals_from(flags, from) == removals_from(flags, next_flagged(flags, from)),
        restorations_from(flags, from) == restorations_from(flags, next_flagged(flags, from)),
    decreases ARTIFACT_COUNT - from,
{
    if from < ARTIFACT_COUNT && !flags[from] {
        lemma_skip_unflagged(flags, from + 1);
        assert(removals_from(flags, from) =~= removals_from(flags, from + 1));
        assert(restorations_from(flags, from) =~= restorations_from(flags, from + 1));
    }
}

proof fn lemma_restore_trace(s: CommitState, from: int, events: Seq<CommitEvent>)
    requires
        0 <= from <= ARTIFACT_COUNT,
        events.len() + 1 == restorations_from(s.backed_up.flags(), from).len() + 3,
    ensures
        seq![restore_from(s, from).1] + run(restore_from(s, from).0, events) == restorations_from(
            s.backed_up.flags(),
            from,
        ) + cleanup_actions(),
    decreases ARTIFACT_COUNT - from,
{
    let flags = s.backed_up.flags();
    lemma_skip_unflagged(flags, from);
    let j = next_flagged(flags, from);
    let (t, a) = restore_from(s, from);
    if j < ARTIFACT_COUNT {
        assert(restorations_from(flags, j) =~= seq![CommitAction::RestoreTarget(j as usize)] + restorations_from(flags, j + 1));
        lemma_restore_trace(t, j + 1, events.drop_first());
        lemma_advance_recovering(t, events[0]);
        lemma_run_step(t, events);
        assert(seq![a] + run(t, events) =~= restorations_from(flags, from) + cleanup_actions());
    } else {
        assert(restorations_from(flags, j) =~= Seq::<CommitAction>::empty());
        let e = events;
        assert(e.len() == 2);
        lemma_advance_recovering(t, e[0]);
        lemma_run_step(t, e);
        let t1 = spec_advance(t, e[0]).0;
        lemma_advance_recovering(t1, e.drop_first()[0]);
        lemma_run_step(t1, e.drop_first());
        assert(e.drop_first().drop_first().len() == 0);
        assert(seq![a] + run(t, events) =~= restorations_from(flags, from) + cleanup_actions());
    }
}

proof fn lemma_rollback_trace(s: CommitState, from: int, events: Seq<CommitEvent>)
    requires
        0 <= from <= ARTIFACT_COUNT,
        events.len() + 1 == removals_from(s.committed.flags(), from).len() + restorations_from(s.backed_up.flags(), 0).len()
            + 3,
    ensures
        seq![rollback_from(s, from).1] + run(rollback_from(s, from).0, events) == removals_from(s.committed.flags(), from)
            + restorations_from(s.backed_up.flags(), 0) + cleanup_actions(),
    decreases ARTIFACT_COUNT - from,
{
    let flags = s.committed.flags();
    lemma_skip_unflagged(flags, from);
    let j = next_flagged(flags, from);
    let (t, a) = rollback_from(s, from);
    if j < ARTIFACT_COUNT {
        assert(removals_from(flags, j) =~= seq![CommitAction::RemoveTarget(j as usize)] + removals_from(flags, j + 1));
        lemma_rollback_trace(t, j + 1, events.drop_first());
        lemma_advance_recovering(t, events[0]);
        lemma_run_step(t, events);
        assert(seq![a] + run(t, events) =~= removals_from(flags, from) + restorations_from(s.backed_up.flags(), 0)
            + cleanup_actions());
    } else {
        assert(removals_from(flags, j) =~= Seq::<CommitAction>::empty());
        lemma_restore_trace(s, 0, events);
        assert(seq![a] + run(t, events) =~= removals_from(flags, from) + restorations_from(s.backed_up.flags(), 0)
            + cleanup_actions());
    }
}

/// A failed step ends the commit in full recovery: whatever the clean-up operations report,
/// the commit removes exactly the targets it committed and restores exactly the targets it
/// moved aside, each in artifact order, then removes the temporaries and the transaction
/// directory and finishes.
pub proof fn lemma_failure_recovers(s: CommitState, failure: CommitFailure, events: Seq<CommitEvent>)
    requires
        events.len() + 1 == recovery_actions(s.committed.flags(), s.backed_up.flags()).len(),
    ensures
        seq![fail_with(s, failure).1] + run(fail_with(s, failure).0, events) == recovery_actions(
            s.committed.flags(),
            s.backed_up.flags(),
        ),
        fail_with(s, failure).0.failure == Some(failure),
{
    let t = CommitState { failure: Some(failure), ..s };
    lemma_rollback_trace(t, 0, events);
    lemma_failure_kept(t, 0);
}

proof fn lemma_failure_kept(s: CommitState, from: int)
    ensures
        rollback_from(s, from).0.failure == s.failure,
        restore_from(s, from).0.failure == s.failure,
{
}

/// A failing commit step recovers: when moving a temporary file onto its target fails, the
/// following operations remove the targets committed before it and restore every backup.
pub proof fn lemma_failed_commit_recovers(s: CommitState, event: CommitEvent, events: Seq<CommitEvent>)
    requires
        commit_wf(s),
        s.stage == CommitStage::Committing,
        event != CommitEvent::Succeeded,
        events.len() + 1 == recovery_actions(s.committed.flags(), s.backed_up.flags()).len(),
    ensures
        run(s, seq![event] + events) == recovery_actions(s.committed.flags(), s.backed_up.flags()),
        spec_advance(s, event).0.failure == Some(CommitFailure::Commit(s.index)),
{
    lemma_failure_recovers(s, CommitFailure::Commit(s.index), events);
    assert((seq![event] + events).drop_first() =~= events);
    assert((seq![event] + events)[0] == event);
    lemma_advance_recovering(s, event);
    lemma_run_step(s, seq![event] + events);
}


/// A commit state that was not forced and has moved nothing aside.
pub open spec fn unforced_untouched(s: CommitState) -> bool {
    &&& !s.force
    &&& s.stage != CommitStage::BackingUp
    &&& s.backed_up == ArtifactFlags { expected: false, actual: false, diff: false, report: false }
}

proof fn lemma_unforced_step(s: CommitState, event: CommitEvent)
    requires
        unforced_untouched(s),
    ensures
        unforced_untouched(spec_advance(s, event).0),
        !(spec_advance(s, event).1 is BackUpTarget),
{
    reveal(spec_advance);
}

/// Without `force`, a commit never moves an existing target aside, whatever the operations
/// report: an existing target ends the commit before anything is replaced.
pub proof fn lemma_unforced_commit_replaces_nothing(s: CommitState, events: Seq<CommitEvent>, k: int)
    requires
        unforced_untouched(s),
        0 <= k < run(s, events).len(),
    ensures
        !(run(s, events)[k] is BackUpTarget),
    decreases events.len(),
{
    lemma_unforced_step(s, events[0]);
    if k > 0 {
        lemma_unforced_commit_replaces_nothing(spec_advance(s, events[0]).0, events.drop_first(), k - 1);
    }
}

/// A fresh commit without `force` starts untouched.
pub proof fn lemma_fresh_commit_untouched()
    ensures
        unforced_untouched(CommitState {
            stage: CommitStage::Writing,
            index: 0,
            force: false,
            backed_up: ArtifactFlags { expected: false, actual: false, diff: false, report: false },
            committed: ArtifactFlags { expected: false, actual: false, diff: false, report: false },
            failure: None,
        }),
{
}

} // verus!
