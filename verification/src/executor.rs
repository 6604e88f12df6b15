//! The executor: applies pending migrations, one atomic unit each.
//!
//! The executor never touches the database. It is a machine that names the
//! next action, takes the outcome of that action, and moves on. For every
//! migration the host is asked to begin a unit of work, execute the script,
//! record the version, and commit. The first failure ends the run: the open
//! unit is rolled back and no later migration is attempted.

use crate::ledger::{
    distinct_versions, lemma_distinct_push, lemma_recorded_contains, recorded, row_versions,
    DuplicateVersionError, Ledger, LedgerEntry,
};
use crate::migration::{
    fault_of, strictly_ascending, validate, versions, well_formed, ConfigurationError,
    Direction, Migration,
};
use crate::planner::lemma_filter_keeps_well_formed;
use vstd::prelude::*;

verus! {

/// What the host reports after it has carried out an action.
#[derive(Debug, PartialEq, Eq)]
pub enum Outcome {
    /// The action completed. `rows` holds the ledger rows it returned; only
    /// reading the ledger returns any.
    Succeeded { rows: Vec<LedgerEntry> },
    /// The action failed, for the reason the database gave.
    Failed { cause: String },
}

/// Why a migration could not be applied.
#[derive(Debug, PartialEq, Eq)]
pub enum FailureCause {
    /// The database refused a step of the unit of work.
    Database(String),
    /// The version was already in the ledger when it was to be recorded.
    DuplicateVersion(DuplicateVersionError),
}

impl Clone for FailureCause {
    fn clone(&self) -> (copy: Self)
        ensures
            copy == *self,
    {
        match self {
            FailureCause::Database(cause) => FailureCause::Database(cause.clone()),
            FailureCause::DuplicateVersion(e) => FailureCause::DuplicateVersion(*e),
        }
    }
}

/// The migration that failed, and why. Every migration before it is applied;
/// it and every one after it are not.
#[derive(Debug, PartialEq, Eq)]
pub struct MigrationError {
    pub failed_version: i64,
    pub cause: FailureCause,
}

impl Clone for MigrationError {
    fn clone(&self) -> (copy: Self)
        ensures
            copy == *self,
    {
        MigrationError { failed_version: self.failed_version, cause: self.cause.clone() }
    }
}

/// What the host is to do next, always for the migration in progress.
#[derive(Debug, PartialEq, Eq)]
pub enum Action {
    /// Open an atomic unit of work.
    Begin { version: i64 },
    /// Run the script inside the open unit.
    Execute { version: i64, script: String },
    /// Insert this row into the ledger table, inside the open unit.
    Record { entry: LedgerEntry },
    /// Commit the open unit.
    Commit { version: i64 },
    /// Undo the open unit entirely.
    Rollback { version: i64 },
    /// Nothing is left to do.
    Stop,
}

impl Clone for Action {
    fn clone(&self) -> (copy: Self)
        ensures
            copy == *self,
    {
        match self {
            Action::Begin { version } => Action::Begin { version: *version },
            Action::Execute { version, script } => Action::Execute {
                version: *version,
                script: script.clone(),
            },
            Action::Record { entry } => Action::Record { entry: *entry },
            Action::Commit { version } => Action::Commit { version: *version },
            Action::Rollback { version } => Action::Rollback { version: *version },
            Action::Stop => Action::Stop,
        }
    }
}

/// Where the executor stands within the migration in progress.
#[derive(Debug, PartialEq, Eq)]
pub enum Phase {
    /// `Begin` is outstanding.
    Beginning,
    /// `Execute` is outstanding.
    Executing,
    /// `Record` is outstanding, with this timestamp.
    Recording { applied_at: i64 },
    /// `Commit` is outstanding for a row with this timestamp.
    Committing { applied_at: i64 },
    /// `Rollback` is outstanding, after this failure.
    RollingBack { cause: FailureCause },
    /// Every migration was applied.
    Succeeded,
    /// The migration in progress failed; nothing after it was attempted.
    Failed { error: MigrationError },
}

/// The test that picks the migrations this engine runs.
pub open spec fn is_up() -> spec_fn(Migration) -> bool {
    |m: Migration| m.direction == Direction::Up
}

/// The migrations of `pending` that are run, in order: `Down` records are
/// never executed and never recorded.
pub open spec fn runnable(pending: Seq<Migration>) -> Seq<Migration> {
    pending.filter(is_up())
}

/// Every record moves the schema forward.
pub open spec fn all_up(queue: Seq<Migration>) -> bool {
    forall|i: int| 0 <= i < queue.len() ==> (#[trigger] queue[i]).direction == Direction::Up
}

/// The executor as a mathematical value.
pub struct ExecutorState {
    /// The migrations to apply, in order.
    pub queue: Seq<Migration>,
    /// The committed ledger rows.
    pub ledger: Seq<LedgerEntry>,
    /// How many migrations of the queue are committed; the index of the one in
    /// progress.
    pub cursor: int,
    pub phase: Phase,
}

impl ExecutorState {
    /// The state before the first action.
    pub open spec fn start(queue: Seq<Migration>, ledger: Seq<LedgerEntry>) -> ExecutorState {
        ExecutorState {
            queue,
            ledger,
            cursor: 0,
            phase: if queue.len() == 0 {
                Phase::Succeeded
            } else {
                Phase::Beginning
            },
        }
    }

    /// The migration in progress.
    pub open spec fn current(self) -> Migration {
        self.queue[self.cursor]
    }

    /// The run has ended, well or badly.
    pub open spec fn finished(self) -> bool {
        self.phase is Succeeded || self.phase is Failed
    }

    /// The ledger rows that were there before this run.
    pub open spec fn baseline(self) -> Seq<LedgerEntry> {
        self.ledger.take(self.ledger.len() - self.cursor)
    }

    /// What holds of every state the executor can be in.
    pub open spec fn inv(self) -> bool {
        &&& well_formed(self.queue)
        &&& all_up(self.queue)
        &&& distinct_versions(self.ledger)
        &&& 0 <= self.cursor <= self.queue.len()
        &&& self.cursor <= self.ledger.len()
        &&& self.queue.len() <= usize::MAX
        &&& forall|j: int|
            0 <= j < self.cursor ==> self.ledger[self.ledger.len() - self.cursor + j].version == (
            #[trigger] self.queue[j]).version
        &&& (self.phase is Succeeded <==> self.cursor == self.queue.len())
        &&& (self.phase matches Phase::Failed { error } ==> error.failed_version
            == self.current().version)
        &&& (self.phase is Recording || self.phase is Committing ==> !recorded(
            self.ledger,
        ).contains(self.current().version as int))
    }

    /// The action that is outstanding in this state.
    pub open spec fn action(self) -> Action {
        match self.phase {
            Phase::Beginning => Action::Begin { version: self.current().version },
            Phase::Executing => Action::Execute {
                version: self.current().version,
                script: self.current().script,
            },
            Phase::Recording { applied_at } => Action::Record {
                entry: LedgerEntry { version: self.current().version, applied_at },
            },
            Phase::Committing { .. } => Action::Commit { version: self.current().version },
            Phase::RollingBack { .. } => Action::Rollback { version: self.current().version },
            Phase::Succeeded | Phase::Failed { .. } => Action::Stop,
        }
    }

    /// The state with another phase, all else unchanged.
    pub open spec fn with_phase(self, phase: Phase) -> ExecutorState {
        ExecutorState { phase, ..self }
    }

    /// The state after the open unit failed for `cause`: what was done in it
    /// must be undone.
    pub open spec fn roll_back(self, cause: FailureCause) -> ExecutorState {
        self.with_phase(Phase::RollingBack { cause })
    }

    /// The state after the run has failed for `cause`.
    pub open spec fn fail(self, cause: FailureCause) -> ExecutorState {
        self.with_phase(
            Phase::Failed {
                error: MigrationError { failed_version: self.current().version, cause },
            },
        )
    }

    /// The state after the unit of the migration in progress was committed
    /// with timestamp `applied_at`.
    pub open spec fn committed(self, applied_at: i64) -> ExecutorState {
        ExecutorState {
            queue: self.queue,
            ledger: self.ledger.push(
                LedgerEntry { version: self.current().version, applied_at },
            ),
            cursor: self.cursor + 1,
            phase: if self.cursor + 1 == self.queue.len() {
                Phase::Succeeded
            } else {
                Phase::Beginning
            },
        }
    }

    /// The state after the outstanding action ended with `outcome`, the host's
    /// clock reading `now`.
    pub open spec fn advance(self, outcome: Outcome, now: i64) -> ExecutorState {
        match self.phase {
            Phase::Beginning => match outcome {
                Outcome::Succeeded { .. } => self.with_phase(Phase::Executing),
                Outcome::Failed { cause } => self.fail(FailureCause::Database(cause)),
            },
            Phase::Executing => match outcome {
                Outcome::Succeeded { .. } => if recorded(self.ledger).contains(
                    self.current().version as int,
                ) {
                    self.roll_back(
                        FailureCause::DuplicateVersion(
                            DuplicateVersionError { version: self.current().version },
                        ),
                    )
                } else {
                    self.with_phase(Phase::Recording { applied_at: now })
                },
                Outcome::Failed { cause } => self.roll_back(FailureCause::Database(cause)),
            },
            Phase::Recording { applied_at } => match outcome {
                Outcome::Succeeded { .. } => self.with_phase(Phase::Committing { applied_at }),
                Outcome::Failed { cause } => self.roll_back(FailureCause::Database(cause)),
            },
            Phase::Committing { applied_at } => match outcome {
                Outcome::Succeeded { .. } => self.committed(applied_at),
                Outcome::Failed { cause } => self.roll_back(FailureCause::Database(cause)),
            },
            Phase::RollingBack { cause } => self.fail(cause),
            Phase::Succeeded | Phase::Failed { .. } => self,
        }
    }

    /// The result of the run, once it has ended: the number of migrations
    /// applied, or the migration that failed.
    pub open spec fn result(self) -> Option<Result<usize, MigrationError>> {
        match self.phase {
            Phase::Succeeded => Some(Ok(self.cursor as usize)),
            Phase::Failed { error } => Some(Err(error)),
            _ => None,
        }
    }
}

/// A well-formed queue of `Up` records and a ledger give a valid first state.
pub proof fn lemma_start_inv(queue: Seq<Migration>, ledger: Seq<LedgerEntry>)
    requires
        well_formed(queue),
        all_up(queue),
        distinct_versions(ledger),
        queue.len() <= usize::MAX,
    ensures
        ExecutorState::start(queue, ledger).inv(),
{
}

/// Whatever the host reports, the executor stays in a valid state.
pub proof fn lemma_advance_inv(s: ExecutorState, outcome: Outcome, now: i64)
    requires
        s.inv(),
    ensures
        s.advance(outcome, now).inv(),
{
    let next = s.advance(outcome, now);
    if s.phase is Committing && outcome is Succeeded {
        let entry = LedgerEntry {
            version: s.current().version,
            applied_at: s.phase->Committing_applied_at,
        };
        lemma_distinct_push(s.ledger, entry);
        assert(next.ledger == s.ledger.push(entry));
        assert forall|j: int| 0 <= j < next.cursor implies next.ledger[next.ledger.len()
            - next.cursor + j].version == (#[trigger] next.queue[j]).version by {
            if j < s.cursor {
                assert(s.ledger[s.ledger.len() - s.cursor + j].version == s.queue[j].version);
            }
        }
    }
}

impl ExecutorState {
    /// The state after a whole series of replies, each an outcome with the
    /// host's clock reading, taken in order.
    pub open spec fn after(self, replies: Seq<(Outcome, i64)>) -> ExecutorState
        decreases replies.len(),
    {
        if replies.len() == 0 {
            self
        } else {
            self.after(replies.drop_last()).advance(replies.last().0, replies.last().1)
        }
    }

    /// The rows that this run has added to the ledger.
    pub open spec fn added(self) -> Seq<LedgerEntry> {
        self.ledger.skip(self.ledger.len() - self.cursor)
    }

    /// An upper bound on the number of replies the run can still take.
    pub open spec fn remaining(self) -> int {
        match self.phase {
            Phase::Beginning => 5 * (self.queue.len() - self.cursor),
            Phase::Executing => 5 * (self.queue.len() - self.cursor) - 1,
            Phase::Recording { .. } => 5 * (self.queue.len() - self.cursor) - 2,
            Phase::Committing { .. } => 5 * (self.queue.len() - self.cursor) - 3,
            Phase::RollingBack { .. } => 1,
            Phase::Succeeded | Phase::Failed { .. } => 0,
        }
    }
}

/// However the host answers, and however often, the executor stays in a valid
/// state, applies the same queue, and leaves the rows that were in the ledger
/// before the run untouched.
pub proof fn lemma_after_inv(s: ExecutorState, replies: Seq<(Outcome, i64)>)
    requires
        s.inv(),
    ensures
        s.after(replies).inv(),
        s.after(replies).queue == s.queue,
        s.after(replies).baseline() == s.baseline(),
        s.after(replies).cursor >= s.cursor,
    decreases replies.len(),
{
    if replies.len() > 0 {
        lemma_after_inv(s, replies.drop_last());
        let before = s.after(replies.drop_last());
        lemma_advance_inv(before, replies.last().0, replies.last().1);
        lemma_advance_one_unit(before, replies.last().0, replies.last().1);
    }
}

/// One reply changes the ledger in one way only: the commit of the migration
/// in progress adds its row and moves on to the next migration. Every other
/// reply leaves the ledger and the number of applied migrations as they were.
pub proof fn lemma_advance_one_unit(s: ExecutorState, outcome: Outcome, now: i64)
    requires
        s.inv(),
    ensures
        s.advance(outcome, now).queue == s.queue,
        s.advance(outcome, now).baseline() == s.baseline(),
        s.phase is Committing && outcome is Succeeded ==> {
            &&& s.advance(outcome, now).cursor == s.cursor + 1
            &&& s.advance(outcome, now).ledger == s.ledger.push(
                LedgerEntry {
                    version: s.current().version,
                    applied_at: s.phase->Committing_applied_at,
                },
            )
        },
        !(s.phase is Committing && outcome is Succeeded) ==> {
            &&& s.advance(outcome, now).cursor == s.cursor
            &&& s.advance(outcome, now).ledger == s.ledger
        },
{
    let next = s.advance(outcome, now);
    assert(next.baseline() =~= s.baseline());
}

/// Ordering. Every action is for the first migration of the queue that is not
/// yet applied, all before it are in the ledger, and the rows the run has
/// added are those of the applied migrations in queue order, which is
/// strictly ascending: no migration is applied before an earlier one.
pub proof fn lemma_applied_in_order(s: ExecutorState)
    requires
        s.inv(),
    ensures
        row_versions(s.added()) == versions(s.queue.take(s.cursor)),
        strictly_ascending(row_versions(s.added())),
        forall|j: int|
            0 <= j < s.cursor ==> recorded(s.ledger).contains((#[trigger] s.queue[j]).version as int),
        !s.finished() ==> s.cursor < s.queue.len() && forall|j: int|
            s.cursor < j < s.queue.len() ==> s.current().version < (#[trigger] s.queue[j]).version,
{
    let added = row_versions(s.added());
    let applied = versions(s.queue.take(s.cursor));
    assert(added.len() == applied.len());
    assert forall|j: int| 0 <= j < added.len() implies added[j] == applied[j] by {
        assert(s.ledger[s.ledger.len() - s.cursor + j].version == s.queue[j].version);
    }
    assert(added =~= applied);
    let vs = versions(s.queue);
    assert forall|i: int, j: int| 0 <= i < j < applied.len() implies applied[i] < applied[j] by {
        assert(vs[i] < vs[j]);
    }
    assert forall|j: int| 0 <= j < s.cursor implies recorded(s.ledger).contains(
        (#[trigger] s.queue[j]).version as int,
    ) by {
        let k = s.ledger.len() - s.cursor + j;
        assert(s.ledger[k].version == s.queue[j].version);
        lemma_recorded_contains(s.ledger, s.queue[j].version as int);
    }
    if !s.finished() {
        assert forall|j: int| s.cursor < j < s.queue.len() implies s.current().version < (
        #[trigger] s.queue[j]).version by {
            assert(vs[s.cursor] < vs[j]);
        }
    }
}

/// The ledger holds what it held before the run and the versions of the
/// migrations applied since, and nothing else.
pub proof fn lemma_ledger_is_baseline_and_applied(s: ExecutorState)
    requires
        s.inv(),
    ensures
        recorded(s.ledger) == recorded(s.baseline()).union(
            versions(s.queue.take(s.cursor)).to_set(),
        ),
{
    lemma_applied_in_order(s);
    let base = s.baseline();
    let added = s.added();
    let applied = versions(s.queue.take(s.cursor));
    assert(s.ledger =~= base + added);
    assert forall|v: int| recorded(s.ledger).contains(v) <==> recorded(base).union(
        applied.to_set(),
    ).contains(v) by {
        lemma_recorded_contains(s.ledger, v);
        lemma_recorded_contains(base, v);
        lemma_recorded_contains(added, v);
        if recorded(s.ledger).contains(v) {
            let i = choose|i: int| 0 <= i < s.ledger.len() && s.ledger[i].version == v;
            if i < base.len() {
                assert(base[i].version == v);
            } else {
                assert(added[i - base.len()].version == v);
                assert(recorded(added).contains(v));
            }
        }
        if recorded(base).contains(v) {
            let i = choose|i: int| 0 <= i < base.len() && base[i].version == v;
            assert(s.ledger[i].version == v);
        }
        if recorded(added).contains(v) {
            let i = choose|i: int| 0 <= i < added.len() && added[i].version == v;
            assert(s.ledger[base.len() + i].version == v);
        }
    }
    assert(recorded(s.ledger) =~= recorded(base).union(applied.to_set()));
}

/// Atomicity. When the queue holds no version that was in the ledger before
/// the run, as every planned queue does, then at every moment a migration of
/// the queue is in the ledger exactly when it comes before the one in
/// progress. After a failure that one is the migration the error names: the
/// ledger holds the queued versions below the failed version, and neither the
/// failed version nor any above it.
pub proof fn lemma_failure_is_atomic(s: ExecutorState)
    requires
        s.inv(),
        forall|j: int|
            0 <= j < s.queue.len() ==> !recorded(s.baseline()).contains(
                (#[trigger] s.queue[j]).version as int,
            ),
    ensures
        forall|j: int|
            0 <= j < s.queue.len() ==> (recorded(s.ledger).contains(
                (#[trigger] s.queue[j]).version as int,
            ) <==> j < s.cursor),
        s.phase matches Phase::Failed { error } ==> {
            &&& error.failed_version == s.current().version
            &&& !recorded(s.ledger).contains(error.failed_version as int)
            &&& forall|j: int|
                0 <= j < s.queue.len() ==> (recorded(s.ledger).contains(
                    (#[trigger] s.queue[j]).version as int,
                ) <==> s.queue[j].version < error.failed_version)
        },
{
    lemma_ledger_is_baseline_and_applied(s);
    lemma_applied_in_order(s);
    let applied = versions(s.queue.take(s.cursor));
    let vs = versions(s.queue);
    assert forall|j: int| 0 <= j < s.queue.len() implies (recorded(s.ledger).contains(
        (#[trigger] s.queue[j]).version as int,
    ) <==> j < s.cursor) by {
        if recorded(s.ledger).contains(s.queue[j].version as int) && j >= s.cursor {
            assert(applied.to_set().contains(s.queue[j].version as int));
            let k = choose|k: int| 0 <= k < applied.len() && applied[k] == s.queue[j].version as int;
            assert(vs[k] < vs[j]);
        }
    }
    if s.phase is Failed {
        let failed = s.current().version;
        assert forall|j: int| 0 <= j < s.queue.len() implies (recorded(s.ledger).contains(
            (#[trigger] s.queue[j]).version as int,
        ) <==> s.queue[j].version < failed) by {
            if j < s.cursor {
                assert(vs[j] < vs[s.cursor]);
            } else if j > s.cursor {
                assert(vs[s.cursor] < vs[j]);
            }
        }
    }
}

/// A failure inside an open unit is answered with a rollback of that unit and
/// nothing else: the ledger is left as it was, and whatever the rollback
/// reports, the run then ends with the error that names this migration and
/// the first cause.
pub proof fn lemma_failure_rolls_back(
    s: ExecutorState,
    cause: String,
    now: i64,
    reply: Outcome,
    later: i64,
)
    requires
        s.inv(),
        s.phase is Executing || s.phase is Recording || s.phase is Committing,
    ensures
        ({
            let next = s.advance(Outcome::Failed { cause }, now);
            &&& next.action() == Action::Rollback { version: s.current().version }
            &&& next.ledger == s.ledger
            &&& next.cursor == s.cursor
            &&& next.advance(reply, later).result() == Some(
                Err::<usize, MigrationError>(
                    MigrationError {
                        failed_version: s.current().version,
                        cause: FailureCause::Database(cause),
                    },
                ),
            )
            &&& next.advance(reply, later).ledger == s.ledger
        }),
{
}

/// A run that succeeded applied the whole queue: the count it reports is the
/// length of the queue, and every queued version is in the ledger.
pub proof fn lemma_success_applies_all(s: ExecutorState)
    requires
        s.inv(),
        s.phase is Succeeded,
    ensures
        s.result() == Some(Ok::<usize, MigrationError>(s.queue.len() as usize)),
        forall|j: int|
            0 <= j < s.queue.len() ==> recorded(s.ledger).contains(
                (#[trigger] s.queue[j]).version as int,
            ),
{
    lemma_applied_in_order(s);
}

/// A run over `n` migrations has at most `5 * n` replies to take, and none
/// exactly when it has ended.
pub proof fn lemma_remaining_bounds(s: ExecutorState)
    requires
        s.inv(),
    ensures
        0 <= s.remaining() <= 5 * s.queue.len(),
        s.finished() <==> s.remaining() == 0,
{
}

/// Every reply brings the run closer to its end, and a run that has ended
/// stays as it is: no step is retried.
pub proof fn lemma_advance_progress(s: ExecutorState, outcome: Outcome, now: i64)
    requires
        s.inv(),
    ensures
        !s.finished() ==> s.advance(outcome, now).remaining() < s.remaining(),
        s.finished() ==> s.advance(outcome, now) == s,
{
}

/// Termination. A run that has taken as many replies as it had remaining has
/// ended; from the start that is at most five for each migration.
pub proof fn lemma_run_ends(s: ExecutorState, replies: Seq<(Outcome, i64)>)
    requires
        s.inv(),
    ensures
        s.after(replies).remaining() <= s.remaining(),
        s.after(replies).finished() || s.after(replies).remaining() <= s.remaining()
            - replies.len(),
        replies.len() >= 5 * s.queue.len() ==> s.after(replies).finished(),
    decreases replies.len(),
{
    lemma_remaining_bounds(s);
    if replies.len() > 0 {
        let earlier = replies.drop_last();
        lemma_run_ends(s, earlier);
        lemma_after_inv(s, earlier);
        lemma_remaining_bounds(s.after(earlier));
        lemma_advance_progress(s.after(earlier), replies.last().0, replies.last().1);
    }
    lemma_after_inv(s, replies);
    lemma_remaining_bounds(s.after(replies));
}

/// The executor.
#[derive(Debug)]
pub struct Executor {
    queue: Vec<Migration>,
    ledger: Ledger,
    cursor: usize,
    phase: Phase,
}

impl View for Executor {
    type V = ExecutorState;

    closed spec fn view(&self) -> ExecutorState {
        ExecutorState {
            queue: self.queue@,
            ledger: self.ledger@,
            cursor: self.cursor as int,
            phase: self.phase,
        }
    }
}

/// Picks the `Up` records of `pending`, in order.
fn select_runnable(pending: &Vec<Migration>) -> (queue: Vec<Migration>)
    ensures
        queue@ == runnable(pending@),
{
    let mut queue: Vec<Migration> = Vec::new();
    let mut i: usize = 0;
    proof {
        assert(pending@.take(0).filter(is_up()) =~= Seq::<Migration>::empty());
    }
    while i < pending.len()
        invariant
            i <= pending.len(),
            queue@ == pending@.take(i as int).filter(is_up()),
        decreases pending.len() - i,
    {
        proof {
            pending@.take(i as int).lemma_filter_push(pending@[i as int], is_up());
            assert(pending@.take(i + 1) =~= pending@.take(i as int).push(pending@[i as int]));
        }
        match pending[i].direction {
            Direction::Up => {
                queue.push(pending[i].clone());
            },
            Direction::Down => {},
        }
        i += 1;
    }
    proof {
        assert(pending@.take(pending.len() as int) =~= pending@);
    }
    queue
}

/// A list that holds only `Up` records is run whole.
pub proof fn lemma_all_up_is_runnable(pending: Seq<Migration>)
    requires
        all_up(pending),
    ensures
        runnable(pending) == pending,
    decreases pending.len(),
{
    reveal(Seq::filter);
    if pending.len() > 0 {
        let front = pending.drop_last();
        assert forall|i: int| 0 <= i < front.len() implies (#[trigger] front[i]).direction
            == Direction::Up by {
            assert(pending[i].direction == Direction::Up);
        }
        lemma_all_up_is_runnable(front);
        assert(pending.last().direction == Direction::Up);
        assert(front.push(pending.last()) =~= pending);
    }
}

/// The runnable part of a well-formed list is a valid queue.
pub proof fn lemma_runnable_is_queue(pending: Seq<Migration>)
    requires
        well_formed(pending),
    ensures
        well_formed(runnable(pending)),
        all_up(runnable(pending)),
        runnable(pending).len() <= pending.len(),
{
    lemma_filter_keeps_well_formed(pending, is_up());
    pending.lemma_filter_len(is_up());
    assert forall|i: int| 0 <= i < runnable(pending).len() implies (#[trigger] runnable(
        pending,
    )[i]).direction == Direction::Up by {
        pending.lemma_filter_pred(is_up(), i);
    }
}

impl Executor {
    /// Every executor is in a valid state.
    #[verifier::type_invariant]
    pub open spec fn valid(&self) -> bool {
        self@.inv()
    }

    /// Sets out to apply `pending` to a database whose ledger is `ledger`.
    ///
    /// `pending` must be well formed, or it is refused with the error that
    /// `validate` gives. The executor starts before the first `Up` record of
    /// `pending`, and has already succeeded if there is none.
    pub fn new(ledger: Ledger, pending: &Vec<Migration>) -> (r: Result<
        Executor,
        ConfigurationError,
    >)
        ensures
            r is Ok <==> well_formed(pending@),
            r matches Ok(executor) ==> executor@ == ExecutorState::start(
                runnable(pending@),
                ledger@,
            ) && executor@.inv(),
            r matches Err(e) ==> fault_of(pending@) == Some(e),
    {
        match validate(pending) {
            Err(e) => Err(e),
            Ok(()) => Ok(Executor::begin(ledger, pending)),
        }
    }

    /// Sets out to apply a list that is known to be well formed.
    pub(crate) fn begin(ledger: Ledger, pending: &Vec<Migration>) -> (executor: Executor)
        requires
            well_formed(pending@),
        ensures
            executor@ == ExecutorState::start(runnable(pending@), ledger@),
            executor@.inv(),
    {
        let queue = select_runnable(pending);
        let phase = if queue.len() == 0 {
            Phase::Succeeded
        } else {
            Phase::Beginning
        };
        proof {
            use_type_invariant(&ledger);
            lemma_runnable_is_queue(pending@);
            lemma_start_inv(queue@, ledger@);
        }
        Executor { queue, ledger, cursor: 0, phase }
    }

    /// The action the host is to carry out now.
    pub fn action(&self) -> (action: Action)
        ensures
            action == self@.action(),
    {
        proof {
            use_type_invariant(self);
        }
        match &self.phase {
            Phase::Beginning => Action::Begin { version: self.queue[self.cursor].version },
            Phase::Executing => Action::Execute {
                version: self.queue[self.cursor].version,
                script: self.queue[self.cursor].script.clone(),
            },
            Phase::Recording { applied_at } => Action::Record {
                entry: LedgerEntry {
                    version: self.queue[self.cursor].version,
                    applied_at: *applied_at,
                },
            },
            Phase::Committing { .. } => Action::Commit {
                version: self.queue[self.cursor].version,
            },
            Phase::RollingBack { .. } => Action::Rollback {
                version: self.queue[self.cursor].version,
            },
            Phase::Succeeded => Action::Stop,
            Phase::Failed { .. } => Action::Stop,
        }
    }

    /// Takes the outcome of the outstanding action and moves on. `now` is the
    /// host's clock reading; it becomes the timestamp of a row that is about
    /// to be recorded.
    pub fn advance(self, outcome: Outcome, now: i64) -> (next: Executor)
        ensures
            next@ == self@.advance(outcome, now),
            next@.inv(),
    {
        proof {
            use_type_invariant(&self);
            lemma_advance_inv(self@, outcome, now);
        }
        let Executor { queue, ledger, cursor, phase } = self;
        match phase {
            Phase::Beginning => match outcome {
                Outcome::Succeeded { .. } => Executor {
                    queue,
                    ledger,
                    cursor,
                    phase: Phase::Executing,
                },
                Outcome::Failed { cause } => {
                    let failed_version = queue[cursor].version;
                    Executor {
                        queue,
                        ledger,
                        cursor,
                        phase: Phase::Failed {
                            error: MigrationError {
                                failed_version,
                                cause: FailureCause::Database(cause),
                            },
                        },
                    }
                },
            },
            Phase::Executing => match outcome {
                Outcome::Succeeded { .. } => {
                    let version = queue[cursor].version;
                    if ledger.contains(version) {
                        Executor {
                            queue,
                            ledger,
                            cursor,
                            phase: Phase::RollingBack {
                                cause: FailureCause::DuplicateVersion(
                                    DuplicateVersionError { version },
                                ),
                            },
                        }
                    } else {
                        Executor {
                            queue,
                            ledger,
                            cursor,
                            phase: Phase::Recording { applied_at: now },
                        }
                    }
                },
                Outcome::Failed { cause } => Executor {
                    queue,
                    ledger,
                    cursor,
                    phase: Phase::RollingBack { cause: FailureCause::Database(cause) },
                },
            },
            Phase::Recording { applied_at } => match outcome {
                Outcome::Succeeded { .. } => Executor {
                    queue,
                    ledger,
                    cursor,
                    phase: Phase::Committing { applied_at },
                },
                Outcome::Failed { cause } => Executor {
                    queue,
                    ledger,
                    cursor,
                    phase: Phase::RollingBack { cause: FailureCause::Database(cause) },
                },
            },
            Phase::Committing { applied_at } => match outcome {
                Outcome::Succeeded { .. } => {
                    let mut ledger = ledger;
                    ledger.append(LedgerEntry { version: queue[cursor].version, applied_at });
                    let phase = if cursor + 1 == queue.len() {
                        Phase::Succeeded
                    } else {
                        Phase::Beginning
                    };
                    Executor { queue, ledger, cursor: cursor + 1, phase }
                },
                Outcome::Failed { cause } => Executor {
                    queue,
                    ledger,
                    cursor,
                    phase: Phase::RollingBack { cause: FailureCause::Database(cause) },
                },
            },
            Phase::RollingBack { cause } => {
                let failed_version = queue[cursor].version;
                Executor {
                    queue,
                    ledger,
                    cursor,
                    phase: Phase::Failed { error: MigrationError { failed_version, cause } },
                }
            },
            Phase::Succeeded => Executor { queue, ledger, cursor, phase: Phase::Succeeded },
            Phase::Failed { error } => Executor {
                queue,
                ledger,
                cursor,
                phase: Phase::Failed { error },
            },
        }
    }

    /// Whether the run has ended.
    pub fn is_finished(&self) -> (done: bool)
        ensures
            done == self@.finished(),
    {
        match &self.phase {
            Phase::Succeeded => true,
            Phase::Failed { .. } => true,
            _ => false,
        }
    }

    /// The number of migrations applied so far. After a failure this is the
    /// number applied before it.
    pub fn applied(&self) -> (count: usize)
        ensures
            count == self@.cursor,
    {
        self.cursor
    }

    /// The result of the run: `None` while it is under way, then the number
    /// of migrations applied, or the migration that failed and why.
    pub fn result(&self) -> (r: Option<Result<usize, MigrationError>>)
        ensures
            r == self@.result(),
    {
        match &self.phase {
            Phase::Succeeded => Some(Ok(self.cursor)),
            Phase::Failed { error } => Some(Err(error.clone())),
            _ => None,
        }
    }

    /// The ledger as committed so far.
    pub fn ledger(&self) -> (ledger: &Ledger)
        ensures
            ledger@ == self@.ledger,
    {
        &self.ledger
    }
}

} // verus!
