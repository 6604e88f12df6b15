//! The runner: one whole migration run, from opening the database to the
//! result the host acts on.
//!
//! Like the executor, the runner decides and the host acts. It checks the
//! migration set before anything touches the database, then asks for the
//! database to be opened, the ledger table to be created if absent, and the
//! ledger to be read; it plans, and hands the plan to an executor. The first
//! failure of any step ends the run with an error that wraps the cause.

use crate::executor::{
    all_up, is_up, lemma_advance_inv, lemma_advance_one_unit, lemma_advance_progress,
    lemma_failure_is_atomic, lemma_ledger_is_baseline_and_applied, lemma_remaining_bounds,
    lemma_runnable_is_queue, lemma_start_inv, lemma_success_applies_all, runnable, Action,
    Executor, ExecutorState, MigrationError, Outcome, Phase,
};
use crate::ledger::{
    distinct_versions, lemma_distinct_has_no_repeat, recorded, repeat_of, row_versions,
    stored_versions, DuplicateVersionError, Ledger, LedgerEntry,
};
use crate::migration::{
    fault_of, lemma_well_formed_has_no_fault, validate, well_formed, ConfigurationError,
    Direction, Migration,
};
use crate::planner::{
    applied_set, lemma_pending_is_difference, lemma_pending_keeps_order, not_in, pending_of,
    select_pending, unknown_of, unknown_versions,
};
use vstd::prelude::*;

verus! {

/// What a run needs to know: which database, and which migrations.
#[derive(Debug, PartialEq, Eq)]
pub struct RunnerConfig {
    /// The identifier or path of the database, passed through to the host.
    pub database: String,
    /// The full migration set, in ascending version order.
    pub migrations: Vec<Migration>,
}

/// A step of the run that comes before any migration is applied.
#[derive(Clone, Copy, Debug, PartialEq, Eq, Structural)]
pub enum Stage {
    Open,
    EnsureLedger,
    ReadLedger,
}

/// Why the run failed. The host is expected to halt its own startup.
#[derive(Debug, PartialEq, Eq)]
pub enum FatalStartupError {
    /// The migration set is malformed. Found before any database I/O.
    Configuration(ConfigurationError),
    /// The database refused a step before any migration was applied.
    Database { stage: Stage, cause: String },
    /// The ledger read from the database holds a version twice.
    DuplicateVersion(DuplicateVersionError),
    /// A migration failed; the database is at the last committed version.
    Migration(MigrationError),
}

impl Clone for FatalStartupError {
    fn clone(&self) -> (copy: Self)
        ensures
            copy == *self,
    {
        match self {
            FatalStartupError::Configuration(e) => FatalStartupError::Configuration(*e),
            FatalStartupError::Database { stage, cause } => FatalStartupError::Database {
                stage: *stage,
                cause: cause.clone(),
            },
            FatalStartupError::DuplicateVersion(e) => FatalStartupError::DuplicateVersion(*e),
            FatalStartupError::Migration(e) => FatalStartupError::Migration(e.clone()),
        }
    }
}

/// What a successful run did and found.
#[derive(Debug, PartialEq, Eq)]
pub struct RunReport {
    /// The number of migrations applied by this run.
    pub applied: usize,
    /// The versions found in the ledger for which the set has no migration,
    /// in ledger order. Not empty when the database is ahead of the set.
    pub diverged: Vec<i64>,
}

/// A report as a mathematical value.
pub struct RunSummary {
    pub applied: int,
    pub diverged: Seq<i64>,
}

impl View for RunReport {
    type V = RunSummary;

    open spec fn view(&self) -> RunSummary {
        RunSummary { applied: self.applied as int, diverged: self.diverged@ }
    }
}

/// What the host is to do next.
#[derive(Debug, PartialEq, Eq)]
pub enum Request {
    /// Open the database, creating the file if it does not exist.
    Open { database: String },
    /// Create the ledger table if it is absent.
    EnsureLedger,
    /// Read all rows of the ledger table.
    ReadLedger,
    /// Carry out this action of the executor.
    Apply(Action),
    /// Nothing is left to do; the result is available.
    Stop,
}

impl Clone for Request {
    fn clone(&self) -> (copy: Self)
        ensures
            copy == *self,
    {
        match self {
            Request::Open { database } => Request::Open { database: database.clone() },
            Request::EnsureLedger => Request::EnsureLedger,
            Request::ReadLedger => Request::ReadLedger,
            Request::Apply(action) => Request::Apply(action.clone()),
            Request::Stop => Request::Stop,
        }
    }
}

/// How far a run has come.
pub enum Progress {
    /// `Open` is outstanding.
    Opening,
    /// `EnsureLedger` is outstanding.
    Ensuring,
    /// `ReadLedger` is outstanding.
    Reading,
    /// The plan is made and the executor is at work, or has ended.
    Applying { executor: ExecutorState, diverged: Seq<i64> },
    /// The run ended before any migration was attempted.
    Aborted { error: FatalStartupError },
}

/// The runner as a mathematical value.
pub struct RunnerState {
    pub database: String,
    pub migrations: Seq<Migration>,
    pub progress: Progress,
}

/// The result of a run in terms of its view.
pub open spec fn summary_of(r: Option<Result<RunReport, FatalStartupError>>) -> Option<
    Result<RunSummary, FatalStartupError>,
> {
    match r {
        None => None,
        Some(Err(e)) => Some(Err(e)),
        Some(Ok(report)) => Some(Ok(report@)),
    }
}

/// The migrations that a run over a database with these ledger rows applies,
/// in order: those of the set that the ledger does not cover and that move
/// the schema forward.
pub open spec fn queue_for(migrations: Seq<Migration>, rows: Seq<LedgerEntry>) -> Seq<Migration> {
    runnable(pending_of(migrations, recorded(rows)))
}

/// Where a run stands once the ledger has been read as `rows`: refused if a
/// version occurs twice, else planned and ready to apply.
pub open spec fn loaded(migrations: Seq<Migration>, rows: Seq<LedgerEntry>) -> Progress {
    match repeat_of(rows) {
        Some(e) => Progress::Aborted { error: FatalStartupError::DuplicateVersion(e) },
        None => Progress::Applying {
            executor: ExecutorState::start(queue_for(migrations, rows), rows),
            diverged: unknown_of(migrations, stored_versions(rows)),
        },
    }
}

impl RunnerState {
    /// The state before the first request. A malformed set ends the run here,
    /// before any request is made.
    pub open spec fn initial(database: String, migrations: Seq<Migration>) -> RunnerState {
        RunnerState {
            database,
            migrations,
            progress: match fault_of(migrations) {
                Some(e) => Progress::Aborted { error: FatalStartupError::Configuration(e) },
                None => Progress::Opening,
            },
        }
    }

    /// The state with other progress, all else unchanged.
    pub open spec fn with_progress(self, progress: Progress) -> RunnerState {
        RunnerState { progress, ..self }
    }

    /// The state after the step `stage` failed for `cause`.
    pub open spec fn abort(self, stage: Stage, cause: String) -> RunnerState {
        self.with_progress(
            Progress::Aborted { error: FatalStartupError::Database { stage, cause } },
        )
    }

    /// The state after the outstanding request ended with `outcome`, the
    /// host's clock reading `now`.
    pub open spec fn advance(self, outcome: Outcome, now: i64) -> RunnerState {
        match self.progress {
            Progress::Opening => match outcome {
                Outcome::Succeeded { .. } => self.with_progress(Progress::Ensuring),
                Outcome::Failed { cause } => self.abort(Stage::Open, cause),
            },
            Progress::Ensuring => match outcome {
                Outcome::Succeeded { .. } => self.with_progress(Progress::Reading),
                Outcome::Failed { cause } => self.abort(Stage::EnsureLedger, cause),
            },
            Progress::Reading => match outcome {
                Outcome::Succeeded { rows } => self.with_progress(loaded(self.migrations, rows@)),
                Outcome::Failed { cause } => self.abort(Stage::ReadLedger, cause),
            },
            Progress::Applying { executor, diverged } => self.with_progress(
                Progress::Applying { executor: executor.advance(outcome, now), diverged },
            ),
            Progress::Aborted { .. } => self,
        }
    }

    /// The request that is outstanding in this state.
    pub open spec fn request(self) -> Request {
        match self.progress {
            Progress::Opening => Request::Open { database: self.database },
            Progress::Ensuring => Request::EnsureLedger,
            Progress::Reading => Request::ReadLedger,
            Progress::Applying { executor, .. } => if executor.finished() {
                Request::Stop
            } else {
                Request::Apply(executor.action())
            },
            Progress::Aborted { .. } => Request::Stop,
        }
    }

    /// The run has ended, well or badly.
    pub open spec fn finished(self) -> bool {
        match self.progress {
            Progress::Applying { executor, .. } => executor.finished(),
            Progress::Aborted { .. } => true,
            _ => false,
        }
    }

    /// The result of the run, once it has ended.
    pub open spec fn result(self) -> Option<Result<RunSummary, FatalStartupError>> {
        match self.progress {
            Progress::Applying { executor, diverged } => match executor.phase {
                Phase::Succeeded => Some(Ok(RunSummary { applied: executor.cursor, diverged })),
                Phase::Failed { error } => Some(Err(FatalStartupError::Migration(error))),
                _ => None,
            },
            Progress::Aborted { error } => Some(Err(error)),
            _ => None,
        }
    }

    /// The committed ledger rows, once the ledger has been read.
    pub open spec fn ledger(self) -> Option<Seq<LedgerEntry>> {
        match self.progress {
            Progress::Applying { executor, .. } => Some(executor.ledger),
            _ => None,
        }
    }

    /// What holds of every state the runner can be in.
    pub open spec fn inv(self) -> bool {
        &&& self.migrations.len() <= usize::MAX
        &&& match self.progress {
            Progress::Aborted { error: FatalStartupError::Configuration(e) } => fault_of(
                self.migrations,
            ) == Some(e),
            Progress::Aborted { .. } => well_formed(self.migrations),
            Progress::Applying { executor, diverged } => {
                &&& well_formed(self.migrations)
                &&& executor.inv()
                &&& executor.queue == queue_for(self.migrations, executor.baseline())
                &&& diverged == unknown_of(self.migrations, stored_versions(executor.baseline()))
            },
            _ => well_formed(self.migrations),
        }
    }
}

/// The versions as stored stand for the recorded set.
pub proof fn lemma_stored_is_recorded(rows: Seq<LedgerEntry>)
    ensures
        applied_set(stored_versions(rows)) == recorded(rows),
{
    assert(stored_versions(rows).map_values(|v: i64| v as int) =~= row_versions(rows));
}

/// The plan for a well-formed set is a valid queue, whatever the ledger holds.
pub proof fn lemma_queue_for_is_queue(migrations: Seq<Migration>, rows: Seq<LedgerEntry>)
    requires
        well_formed(migrations),
    ensures
        well_formed(queue_for(migrations, rows)),
        all_up(queue_for(migrations, rows)),
        queue_for(migrations, rows).len() <= migrations.len(),
{
    let pending = pending_of(migrations, recorded(rows));
    lemma_pending_keeps_order(migrations, recorded(rows));
    lemma_runnable_is_queue(pending);
    migrations.lemma_filter_len(not_in(recorded(rows)));
}

/// Every run starts in a valid state.
pub proof fn lemma_initial_inv(database: String, migrations: Seq<Migration>)
    requires
        migrations.len() <= usize::MAX,
    ensures
        RunnerState::initial(database, migrations).inv(),
{
    lemma_well_formed_has_no_fault(migrations);
}

/// Whatever the host reports, the runner stays in a valid state, and the
/// database and the migration set it works on stay the same.
pub proof fn lemma_run_advance_inv(s: RunnerState, outcome: Outcome, now: i64)
    requires
        s.inv(),
    ensures
        s.advance(outcome, now).inv(),
        s.advance(outcome, now).database == s.database,
        s.advance(outcome, now).migrations == s.migrations,
{
    match s.progress {
        Progress::Reading => {
            if let Outcome::Succeeded { rows } = outcome {
                lemma_distinct_has_no_repeat(rows@);
                if repeat_of(rows@) is None {
                    lemma_queue_for_is_queue(s.migrations, rows@);
                    lemma_start_inv(queue_for(s.migrations, rows@), rows@);
                    let e = ExecutorState::start(queue_for(s.migrations, rows@), rows@);
                    assert(e.baseline() =~= rows@);
                }
            }
        },
        Progress::Applying { executor, diverged } => {
            lemma_advance_inv(executor, outcome, now);
            lemma_advance_one_unit(executor, outcome, now);
        },
        _ => {},
    }
}

impl RunnerState {
    /// The state after a whole series of replies, each an outcome with the
    /// host's clock reading, taken in order.
    pub open spec fn after(self, replies: Seq<(Outcome, i64)>) -> RunnerState
        decreases replies.len(),
    {
        if replies.len() == 0 {
            self
        } else {
            self.after(replies.drop_last()).advance(replies.last().0, replies.last().1)
        }
    }
}

/// However the host answers, and however often, the runner stays in a valid
/// state and works on the same database and migration set.
pub proof fn lemma_run_after_inv(s: RunnerState, replies: Seq<(Outcome, i64)>)
    requires
        s.inv(),
    ensures
        s.after(replies).inv(),
        s.after(replies).database == s.database,
        s.after(replies).migrations == s.migrations,
    decreases replies.len(),
{
    if replies.len() > 0 {
        lemma_run_after_inv(s, replies.drop_last());
        lemma_run_advance_inv(s.after(replies.drop_last()), replies.last().0, replies.last().1);
    }
}

/// A malformed migration set is found before any database I/O: the run has
/// failed with the configuration error before its first request, asks for
/// nothing, and stays so whatever it is told.
pub proof fn lemma_malformed_set_asks_nothing(
    database: String,
    migrations: Seq<Migration>,
    replies: Seq<(Outcome, i64)>,
)
    requires
        !well_formed(migrations),
    ensures
        fault_of(migrations) is Some,
        ({
            let run = RunnerState::initial(database, migrations).after(replies);
            &&& run.request() == Request::Stop
            &&& run.result() == Some(
                Err::<RunSummary, FatalStartupError>(
                    FatalStartupError::Configuration(fault_of(migrations)->Some_0),
                ),
            )
        }),
    decreases replies.len(),
{
    lemma_well_formed_has_no_fault(migrations);
    if replies.len() > 0 {
        lemma_malformed_set_asks_nothing(database, migrations, replies.drop_last());
    }
}

/// A well-formed migration set starts the run with the request to open the
/// database it was configured with.
pub proof fn lemma_well_formed_set_opens(database: String, migrations: Seq<Migration>)
    requires
        well_formed(migrations),
    ensures
        RunnerState::initial(database, migrations).request() == (Request::Open { database }),
        RunnerState::initial(database, migrations).result() is None,
{
    lemma_well_formed_has_no_fault(migrations);
}

/// Fail fast. When opening the database, creating the ledger table or
/// reading the ledger fails, the run ends at once with an error that names
/// the step and wraps the cause; nothing further is asked for, and nothing
/// the host says afterwards changes that.
pub proof fn lemma_step_failure_is_fatal(
    s: RunnerState,
    cause: String,
    now: i64,
    reply: Outcome,
    later: i64,
)
    requires
        s.progress is Opening || s.progress is Ensuring || s.progress is Reading,
    ensures
        ({
            let next = s.advance(Outcome::Failed { cause }, now);
            let stage = match s.progress {
                Progress::Opening => Stage::Open,
                Progress::Ensuring => Stage::EnsureLedger,
                _ => Stage::ReadLedger,
            };
            &&& next.request() == Request::Stop
            &&& next.result() == Some(
                Err::<RunSummary, FatalStartupError>(FatalStartupError::Database { stage, cause }),
            )
            &&& next.advance(reply, later) == next
        }),
{
}

/// The steps before the plan come in a fixed order: open the database, make
/// sure the ledger table exists, read the ledger.
pub proof fn lemma_steps_in_order(s: RunnerState, rows: Vec<LedgerEntry>, now: i64)
    ensures
        s.progress is Opening ==> s.request() == (Request::Open { database: s.database })
            && s.advance(Outcome::Succeeded { rows }, now).request() == Request::EnsureLedger,
        s.progress is Ensuring ==> s.request() == Request::EnsureLedger && s.advance(
            Outcome::Succeeded { rows },
            now,
        ).request() == Request::ReadLedger,
        s.progress is Reading ==> s.request() == Request::ReadLedger && s.advance(
            Outcome::Succeeded { rows },
            now,
        ).progress == loaded(s.migrations, rows@),
{
}

/// A migration failure ends the run with the error of the executor, wrapped.
pub proof fn lemma_migration_failure_is_fatal(s: RunnerState)
    requires
        s.progress matches Progress::Applying { executor, .. } && executor.phase is Failed,
    ensures
        s.request() == Request::Stop,
        s.result() == Some(
            Err::<RunSummary, FatalStartupError>(
                FatalStartupError::Migration(
                    s.progress->Applying_executor.phase->Failed_error,
                ),
            ),
        ),
{
}

/// A planned queue holds no version that the ledger already held.
pub proof fn lemma_queue_is_fresh(migrations: Seq<Migration>, rows: Seq<LedgerEntry>)
    ensures
        forall|j: int|
            0 <= j < queue_for(migrations, rows).len() ==> {
                &&& !recorded(rows).contains((#[trigger] queue_for(migrations, rows)[j]).version as int)
                &&& migrations.contains(queue_for(migrations, rows)[j])
                &&& queue_for(migrations, rows)[j].direction == Direction::Up
            },
{
    let pending = pending_of(migrations, recorded(rows));
    let queue = queue_for(migrations, rows);
    assert forall|j: int| 0 <= j < queue.len() implies {
        &&& !recorded(rows).contains((#[trigger] queue[j]).version as int)
        &&& migrations.contains(queue[j])
        &&& queue[j].direction == Direction::Up
    } by {
        pending.lemma_filter_pred(is_up(), j);
        assert(queue.contains(queue[j]));
        pending.lemma_filter_contains_rev(is_up(), queue[j]);
        lemma_pending_is_difference(migrations, recorded(rows), queue[j]);
    }
}

/// Every `Up` migration of the set that the ledger does not hold is queued.
pub proof fn lemma_queue_is_complete(migrations: Seq<Migration>, rows: Seq<LedgerEntry>, i: int)
    requires
        0 <= i < migrations.len(),
        migrations[i].direction == Direction::Up,
        !recorded(rows).contains(migrations[i].version as int),
    ensures
        queue_for(migrations, rows).contains(migrations[i]),
{
    let pending = pending_of(migrations, recorded(rows));
    assert(migrations.contains(migrations[i]));
    lemma_pending_is_difference(migrations, recorded(rows), migrations[i]);
    let k = choose|k: int| 0 <= k < pending.len() && pending[k] == migrations[i];
    pending.lemma_filter_contains(is_up(), k);
}

/// Atomicity of a run. While migrations are applied, and after one has
/// failed, a migration of the plan is in the ledger exactly when it comes
/// before the one in progress. After a failure the ledger therefore holds the
/// planned versions below the failed one, and neither the failed version nor
/// any planned version above it.
pub proof fn lemma_run_failure_is_atomic(s: RunnerState)
    requires
        s.inv(),
        s.progress is Applying,
    ensures
        ({
            let executor = s.progress->Applying_executor;
            &&& forall|j: int|
                0 <= j < executor.queue.len() ==> (recorded(executor.ledger).contains(
                    (#[trigger] executor.queue[j]).version as int,
                ) <==> j < executor.cursor)
            &&& executor.phase matches Phase::Failed { error } ==> {
                &&& s.result() == Some(
                    Err::<RunSummary, FatalStartupError>(FatalStartupError::Migration(error)),
                )
                &&& !recorded(executor.ledger).contains(error.failed_version as int)
                &&& forall|j: int|
                    0 <= j < executor.queue.len() ==> (recorded(executor.ledger).contains(
                        (#[trigger] executor.queue[j]).version as int,
                    ) <==> executor.queue[j].version < error.failed_version)
            }
        }),
{
    let executor = s.progress->Applying_executor;
    lemma_queue_is_fresh(s.migrations, executor.baseline());
    lemma_failure_is_atomic(executor);
}

/// A run that succeeded leaves every `Up` migration of the set in the ledger,
/// and reports as applied the number that were missing before it.
pub proof fn lemma_success_covers_set(s: RunnerState)
    requires
        s.inv(),
        s.result() matches Some(Ok(_)),
    ensures
        ({
            let executor = s.progress->Applying_executor;
            &&& s.result() == Some(
                Ok::<RunSummary, FatalStartupError>(
                    RunSummary {
                        applied: queue_for(s.migrations, executor.baseline()).len() as int,
                        diverged: unknown_of(s.migrations, stored_versions(executor.baseline())),
                    },
                ),
            )
            &&& forall|i: int|
                0 <= i < s.migrations.len() && (#[trigger] s.migrations[i]).direction
                    == Direction::Up ==> recorded(executor.ledger).contains(
                    s.migrations[i].version as int,
                )
        }),
{
    let executor = s.progress->Applying_executor;
    lemma_success_applies_all(executor);
    lemma_ledger_is_baseline_and_applied(executor);
    assert forall|i: int|
        0 <= i < s.migrations.len() && (#[trigger] s.migrations[i]).direction
            == Direction::Up implies recorded(executor.ledger).contains(
        s.migrations[i].version as int,
    ) by {
        if !recorded(executor.baseline()).contains(s.migrations[i].version as int) {
            lemma_queue_is_complete(s.migrations, executor.baseline(), i);
            let k = choose|k: int|
                0 <= k < executor.queue.len() && executor.queue[k] == s.migrations[i];
            assert(recorded(executor.ledger).contains(executor.queue[k].version as int));
        }
    }
}

/// Nothing is queued when the ledger holds every `Up` migration of the set.
pub proof fn lemma_covered_set_queues_nothing(migrations: Seq<Migration>, rows: Seq<LedgerEntry>)
    requires
        forall|i: int|
            0 <= i < migrations.len() && (#[trigger] migrations[i]).direction
                == Direction::Up ==> recorded(rows).contains(
                migrations[i].version as int,
            ),
    ensures
        queue_for(migrations, rows).len() == 0,
{
    let queue = queue_for(migrations, rows);
    if queue.len() > 0 {
        lemma_queue_is_fresh(migrations, rows);
        let m = queue[0];
        assert(migrations.contains(m));
        let i = choose|i: int| 0 <= i < migrations.len() && migrations[i] == m;
        assert(recorded(rows).contains(migrations[i].version as int));
    }
}

/// Ledger ahead of the set. Versions in the ledger that the set does not know
/// never stop a run: with a well-formed set and a ledger that covers it, the
/// run succeeds as soon as the ledger is read, applies nothing, asks for
/// nothing more, and reports exactly the unknown versions.
pub proof fn lemma_ledger_ahead_is_reported(s: RunnerState, rows: Vec<LedgerEntry>, now: i64)
    requires
        s.inv(),
        s.progress is Reading,
        distinct_versions(rows@),
        forall|i: int|
            0 <= i < s.migrations.len() && (#[trigger] s.migrations[i]).direction
                == Direction::Up ==> recorded(rows@).contains(
                s.migrations[i].version as int,
            ),
    ensures
        ({
            let next = s.advance(Outcome::Succeeded { rows }, now);
            &&& next.request() == Request::Stop
            &&& next.result() == Some(
                Ok::<RunSummary, FatalStartupError>(
                    RunSummary {
                        applied: 0,
                        diverged: unknown_of(s.migrations, stored_versions(rows@)),
                    },
                ),
            )
            &&& next.ledger() == Some(rows@)
        }),
{
    lemma_distinct_has_no_repeat(rows@);
    lemma_covered_set_queues_nothing(s.migrations, rows@);
}

/// Idempotence. After a run has succeeded, a second run with the same
/// configuration against the same database, whose ledger now reads as the
/// first run left it, succeeds too, applies no migration, and never asks for
/// a unit of work: its requests are to open, to ensure the ledger, to read
/// it, and then to stop.
pub proof fn lemma_second_run_applies_nothing(
    first: RunnerState,
    rows: Vec<LedgerEntry>,
    opened: (Outcome, i64),
    ensured: (Outcome, i64),
    now: i64,
)
    requires
        first.inv(),
        first.result() matches Some(Ok(_)),
        first.ledger() == Some(rows@),
        opened.0 is Succeeded,
        ensured.0 is Succeeded,
    ensures
        ({
            let start = RunnerState::initial(first.database, first.migrations);
            let second = start.advance(opened.0, opened.1).advance(ensured.0, ensured.1);
            let end = second.advance(Outcome::Succeeded { rows }, now);
            &&& start.request() == (Request::Open { database: first.database })
            &&& start.advance(opened.0, opened.1).request() == Request::EnsureLedger
            &&& second.request() == Request::ReadLedger
            &&& end.request() == Request::Stop
            &&& end.result() matches Some(Ok(summary)) && summary.applied == 0
            &&& end.ledger() == Some(rows@)
        }),
{
    let executor = first.progress->Applying_executor;
    lemma_well_formed_has_no_fault(first.migrations);
    lemma_success_covers_set(first);
    lemma_initial_inv(first.database, first.migrations);
    let start = RunnerState::initial(first.database, first.migrations);
    lemma_run_advance_inv(start, opened.0, opened.1);
    let ensuring = start.advance(opened.0, opened.1);
    lemma_run_advance_inv(ensuring, ensured.0, ensured.1);
    let second = ensuring.advance(ensured.0, ensured.1);
    lemma_ledger_ahead_is_reported(second, rows, now);
}

impl RunnerState {
    /// An upper bound on the number of replies the run can still take.
    pub open spec fn remaining(self) -> int {
        match self.progress {
            Progress::Opening => 5 * (self.migrations.len() as int) + 3,
            Progress::Ensuring => 5 * (self.migrations.len() as int) + 2,
            Progress::Reading => 5 * (self.migrations.len() as int) + 1,
            Progress::Applying { executor, .. } => executor.remaining(),
            Progress::Aborted { .. } => 0,
        }
    }
}

/// Every reply brings the run closer to its end, and a run that has ended
/// stays as it is: nothing is retried, and a run over `n` migrations ends
/// within `5 * n + 3` replies.
pub proof fn lemma_run_progress(s: RunnerState, outcome: Outcome, now: i64)
    requires
        s.inv(),
    ensures
        0 <= s.remaining() <= 5 * s.migrations.len() + 3,
        s.finished() <==> s.remaining() == 0,
        !s.finished() ==> s.advance(outcome, now).remaining() < s.remaining(),
        s.finished() ==> s.advance(outcome, now) == s,
{
    lemma_run_advance_inv(s, outcome, now);
    match s.progress {
        Progress::Applying { executor, .. } => {
            lemma_remaining_bounds(executor);
            lemma_advance_progress(executor, outcome, now);
            lemma_queue_for_is_queue(s.migrations, executor.baseline());
        },
        Progress::Reading => {
            if let Outcome::Succeeded { rows } = outcome {
                if repeat_of(rows@) is None {
                    let executor = s.advance(outcome, now).progress->Applying_executor;
                    lemma_queue_for_is_queue(s.migrations, rows@);
                    lemma_remaining_bounds(executor);
                }
            }
        },
        _ => {},
    }
}

/// How far an exec run has come.
#[derive(Debug)]
enum Track {
    Opening,
    Ensuring,
    Reading,
    Applying { executor: Executor, diverged: Vec<i64> },
    Aborted { error: FatalStartupError },
}

/// The runner.
#[derive(Debug)]
pub struct Runner {
    database: String,
    migrations: Vec<Migration>,
    track: Track,
}

impl View for Runner {
    type V = RunnerState;

    closed spec fn view(&self) -> RunnerState {
        RunnerState {
            database: self.database,
            migrations: self.migrations@,
            progress: match self.track {
                Track::Opening => Progress::Opening,
                Track::Ensuring => Progress::Ensuring,
                Track::Reading => Progress::Reading,
                Track::Applying { executor, diverged } => Progress::Applying {
                    executor: executor@,
                    diverged: diverged@,
                },
                Track::Aborted { error } => Progress::Aborted { error },
            },
        }
    }
}

/// Copies a list of versions.
fn copy_versions(versions: &Vec<i64>) -> (copy: Vec<i64>)
    ensures
        copy@ == versions@,
{
    let mut copy: Vec<i64> = Vec::new();
    let mut i: usize = 0;
    while i < versions.len()
        invariant
            i <= versions.len(),
            copy@ == versions@.take(i as int),
        decreases versions.len() - i,
    {
        copy.push(versions[i]);
        proof {
            assert(versions@.take(i + 1) =~= versions@.take(i as int).push(versions@[i as int]));
        }
        i += 1;
    }
    proof {
        assert(versions@.take(versions.len() as int) =~= versions@);
    }
    copy
}

impl Runner {
    /// Every runner is in a valid state.
    #[verifier::type_invariant]
    pub open spec fn valid(&self) -> bool {
        self@.inv()
    }

    /// Prepares a run. The migration set is checked here, before any request
    /// is made: a malformed set leaves a runner that has already failed and
    /// asks for nothing.
    pub fn new(config: RunnerConfig) -> (runner: Runner)
        ensures
            runner@ == RunnerState::initial(config.database, config.migrations@),
            runner@.inv(),
    {
        let RunnerConfig { database, migrations } = config;
        proof {
            assert(migrations@.len() == migrations.len());
            lemma_initial_inv(database, migrations@);
            lemma_well_formed_has_no_fault(migrations@);
        }
        let track = match validate(&migrations) {
            Err(e) => Track::Aborted { error: FatalStartupError::Configuration(e) },
            Ok(()) => Track::Opening,
        };
        Runner { database, migrations, track }
    }

    /// The request the host is to carry out now.
    pub fn request(&self) -> (request: Request)
        ensures
            request == self@.request(),
    {
        match &self.track {
            Track::Opening => Request::Open { database: self.database.clone() },
            Track::Ensuring => Request::EnsureLedger,
            Track::Reading => Request::ReadLedger,
            Track::Applying { executor, .. } => {
                if executor.is_finished() {
                    Request::Stop
                } else {
                    Request::Apply(executor.action())
                }
            },
            Track::Aborted { .. } => Request::Stop,
        }
    }

    /// Takes the outcome of the outstanding request and moves on. `now` is
    /// the host's clock reading.
    pub fn advance(self, outcome: Outcome, now: i64) -> (next: Runner)
        ensures
            next@ == self@.advance(outcome, now),
            next@.inv(),
    {
        proof {
            use_type_invariant(&self);
            lemma_run_advance_inv(self@, outcome, now);
        }
        let Runner { database, migrations, track } = self;
        match track {
            Track::Opening => match outcome {
                Outcome::Succeeded { .. } => Runner { database, migrations, track: Track::Ensuring },
                Outcome::Failed { cause } => Runner {
                    database,
                    migrations,
                    track: Track::Aborted {
                        error: FatalStartupError::Database { stage: Stage::Open, cause },
                    },
                },
            },
            Track::Ensuring => match outcome {
                Outcome::Succeeded { .. } => Runner { database, migrations, track: Track::Reading },
                Outcome::Failed { cause } => Runner {
                    database,
                    migrations,
                    track: Track::Aborted {
                        error: FatalStartupError::Database { stage: Stage::EnsureLedger, cause },
                    },
                },
            },
            Track::Reading => match outcome {
                Outcome::Succeeded { rows } => {
                    let track = Runner::load(&migrations, rows);
                    Runner { database, migrations, track }
                },
                Outcome::Failed { cause } => Runner {
                    database,
                    migrations,
                    track: Track::Aborted {
                        error: FatalStartupError::Database { stage: Stage::ReadLedger, cause },
                    },
                },
            },
            Track::Applying { executor, diverged } => {
                let executor = executor.advance(outcome, now);
                Runner { database, migrations, track: Track::Applying { executor, diverged } }
            },
            Track::Aborted { error } => Runner {
                database,
                migrations,
                track: Track::Aborted { error },
            },
        }
    }

    /// Plans the run from the ledger rows read out of the database.
    fn load(migrations: &Vec<Migration>, rows: Vec<LedgerEntry>) -> (track: Track)
        requires
            well_formed(migrations@),
        ensures
            track_view(track) == loaded(migrations@, rows@),
    {
        proof {
            lemma_distinct_has_no_repeat(rows@);
        }
        match Ledger::from_rows(rows) {
            Err(e) => Track::Aborted { error: FatalStartupError::DuplicateVersion(e) },
            Ok(ledger) => {
                let applied = ledger.applied_versions();
                let pending = select_pending(migrations, &applied);
                let diverged = unknown_versions(migrations, &applied);
                proof {
                    lemma_stored_is_recorded(ledger@);
                    lemma_pending_keeps_order(migrations@, recorded(ledger@));
                }
                let executor = Executor::begin(ledger, &pending);
                Track::Applying { executor, diverged }
            },
        }
    }

    /// Whether the run has ended.
    pub fn is_finished(&self) -> (done: bool)
        ensures
            done == self@.finished(),
    {
        match &self.track {
            Track::Applying { executor, .. } => executor.is_finished(),
            Track::Aborted { .. } => true,
            _ => false,
        }
    }

    /// The result of the run: `None` while it is under way, then the report
    /// of a successful run, or the error that stopped it.
    pub fn result(&self) -> (r: Option<Result<RunReport, FatalStartupError>>)
        ensures
            summary_of(r) == self@.result(),
    {
        proof {
            use_type_invariant(self);
        }
        match &self.track {
            Track::Applying { executor, diverged } => match executor.result() {
                Some(Ok(applied)) => Some(
                    Ok(RunReport { applied, diverged: copy_versions(diverged) }),
                ),
                Some(Err(error)) => Some(Err(FatalStartupError::Migration(error))),
                None => None,
            },
            Track::Aborted { error } => Some(Err(error.clone())),
            _ => None,
        }
    }

    /// The versions found in the ledger for which the set has no migration.
    /// Known once the ledger has been read, whether the run then succeeds or
    /// fails; empty before.
    pub fn diverged(&self) -> (versions: Vec<i64>)
        ensures
            versions@ == match self@.progress {
                Progress::Applying { diverged, .. } => diverged,
                _ => Seq::<i64>::empty(),
            },
    {
        match &self.track {
            Track::Applying { diverged, .. } => copy_versions(diverged),
            _ => Vec::new(),
        }
    }

    /// The number of migrations applied so far.
    pub fn applied(&self) -> (count: usize)
        ensures
            count == match self@.progress {
                Progress::Applying { executor, .. } => executor.cursor,
                _ => 0,
            },
    {
        match &self.track {
            Track::Applying { executor, .. } => executor.applied(),
            _ => 0,
        }
    }

    /// The ledger as committed so far, once it has been read.
    pub fn ledger(&self) -> (ledger: Option<&Ledger>)
        ensures
            match ledger {
                Some(l) => self@.ledger() == Some(l@),
                None => self@.ledger() is None,
            },
    {
        match &self.track {
            Track::Applying { executor, .. } => Some(executor.ledger()),
            _ => None,
        }
    }
}

/// The progress that a track stands for.
spec fn track_view(track: Track) -> Progress {
    match track {
        Track::Opening => Progress::Opening,
        Track::Ensuring => Progress::Ensuring,
        Track::Reading => Progress::Reading,
        Track::Applying { executor, diverged } => Progress::Applying {
            executor: executor@,
            diverged: diverged@,
        },
        Track::Aborted { error } => Progress::Aborted { error },
    }
}

} // verus!
