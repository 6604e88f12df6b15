use schema_migrator::executor::{Action, FailureCause, MigrationError, Outcome};
use schema_migrator::ledger::{DuplicateVersionError, LedgerEntry};
use schema_migrator::migration::{ConfigurationError, Direction, Migration};
use schema_migrator::runner::{FatalStartupError, Request, RunReport, Runner, RunnerConfig, Stage};

fn up(version: i64, description: &str, script: &str) -> Migration {
    Migration {
        version,
        description: description.to_string(),
        script: script.to_string(),
        direction: Direction::Up,
    }
}

fn config(migrations: Vec<Migration>) -> RunnerConfig {
    RunnerConfig { database: "sqlite:app.db".to_string(), migrations }
}

fn row(version: i64, applied_at: i64) -> LedgerEntry {
    LedgerEntry { version, applied_at }
}

/// A database kept in memory: what is committed, what the open unit of work
/// holds, and every request it was given.
struct Host {
    opened: Option<String>,
    ledger_table: bool,
    ledger: Vec<LedgerEntry>,
    schema: Vec<String>,
    unit: Option<(Vec<String>, Vec<LedgerEntry>)>,
    bad_script: Option<String>,
    refuse: Option<Stage>,
    clock: i64,
    log: Vec<Request>,
}

impl Host {
    fn new() -> Host {
        Host {
            opened: None,
            ledger_table: false,
            ledger: Vec::new(),
            schema: Vec::new(),
            unit: None,
            bad_script: None,
            refuse: None,
            clock: 0,
            log: Vec::new(),
        }
    }

    fn done() -> Outcome {
        Outcome::Succeeded { rows: Vec::new() }
    }

    fn error(cause: &str) -> Outcome {
        Outcome::Failed { cause: cause.to_string() }
    }

    fn perform(&mut self, request: &Request) -> Outcome {
        self.log.push(request.clone());
        match request {
            Request::Open { database } => {
                if self.refuse == Some(Stage::Open) {
                    return Host::error("unable to open database file");
                }
                self.opened = Some(database.clone());
                Host::done()
            }
            Request::EnsureLedger => {
                if self.refuse == Some(Stage::EnsureLedger) {
                    return Host::error("attempt to write a readonly database");
                }
                self.ledger_table = true;
                Host::done()
            }
            Request::ReadLedger => {
                if self.refuse == Some(Stage::ReadLedger) || !self.ledger_table {
                    return Host::error("no such table");
                }
                Outcome::Succeeded { rows: self.ledger.clone() }
            }
            Request::Apply(Action::Begin { .. }) => {
                self.unit = Some((Vec::new(), Vec::new()));
                Host::done()
            }
            Request::Apply(Action::Execute { script, .. }) => {
                if self.bad_script.as_ref() == Some(script) {
                    return Host::error("near \"oops\": syntax error");
                }
                self.unit.as_mut().unwrap().0.push(script.clone());
                Host::done()
            }
            Request::Apply(Action::Record { entry }) => {
                self.unit.as_mut().unwrap().1.push(*entry);
                Host::done()
            }
            Request::Apply(Action::Commit { .. }) => {
                let (scripts, rows) = self.unit.take().unwrap();
                self.schema.extend(scripts);
                self.ledger.extend(rows);
                Host::done()
            }
            Request::Apply(Action::Rollback { .. }) => {
                self.unit = None;
                Host::done()
            }
            Request::Apply(Action::Stop) | Request::Stop => panic!("nothing to perform"),
        }
    }

    fn versions(&self) -> Vec<i64> {
        self.ledger.iter().map(|e| e.version).collect()
    }
}

/// One whole run of the engine against `host`.
fn run(host: &mut Host, config: RunnerConfig) -> Result<RunReport, FatalStartupError> {
    let mut runner = Runner::new(config);
    loop {
        let request = runner.request();
        if request == Request::Stop {
            assert!(runner.is_finished());
            return runner.result().unwrap();
        }
        assert!(!runner.is_finished());
        assert_eq!(runner.result(), None);
        let outcome = host.perform(&request);
        host.clock += 1;
        runner = runner.advance(outcome, host.clock);
    }
}

#[test]
fn first_run_creates_the_table_and_records_version_one() {
    let mut host = Host::new();
    let report = run(&mut host, config(vec![up(1, "create_table", "CREATE TABLE t(id)")]));
    assert_eq!(report, Ok(RunReport { applied: 1, diverged: Vec::new() }));
    assert_eq!(host.versions(), vec![1]);
    assert_eq!(host.schema, vec!["CREATE TABLE t(id)".to_string()]);
    assert_eq!(host.opened, Some("sqlite:app.db".to_string()));
    assert!(host.ledger_table);
}

#[test]
fn second_migration_is_applied_and_the_first_is_not_run_again() {
    let mut host = Host::new();
    host.ledger_table = true;
    host.ledger = vec![row(1, 50)];
    host.schema = vec!["CREATE TABLE t(id)".to_string()];
    let report = run(
        &mut host,
        config(vec![
            up(1, "create_table", "CREATE TABLE t(id)"),
            up(2, "add_col", "ALTER TABLE t ADD COLUMN x"),
        ]),
    );
    assert_eq!(report, Ok(RunReport { applied: 1, diverged: Vec::new() }));
    assert_eq!(host.versions(), vec![1, 2]);
    assert_eq!(
        host.schema,
        vec!["CREATE TABLE t(id)".to_string(), "ALTER TABLE t ADD COLUMN x".to_string()]
    );
    assert!(host.log.iter().all(|r| !matches!(r, Request::Apply(Action::Execute { version: 1, .. }))));
    assert_eq!(host.ledger[0], row(1, 50));
}

#[test]
fn a_second_run_applies_nothing_and_succeeds() {
    let set = || vec![up(1, "a", "A"), up(2, "b", "B"), up(5, "c", "C")];
    let mut host = Host::new();
    assert_eq!(run(&mut host, config(set())), Ok(RunReport { applied: 3, diverged: Vec::new() }));
    let ledger = host.ledger.clone();
    let schema = host.schema.clone();
    host.log.clear();
    assert_eq!(run(&mut host, config(set())), Ok(RunReport { applied: 0, diverged: Vec::new() }));
    assert_eq!(host.ledger, ledger);
    assert_eq!(host.schema, schema);
    assert_eq!(
        host.log,
        vec![
            Request::Open { database: "sqlite:app.db".to_string() },
            Request::EnsureLedger,
            Request::ReadLedger,
        ]
    );
}

#[test]
fn a_failure_at_version_three_leaves_one_and_two_applied() {
    let mut host = Host::new();
    host.bad_script = Some("C".to_string());
    let report = run(
        &mut host,
        config(vec![up(1, "a", "A"), up(2, "b", "B"), up(3, "c", "C"), up(4, "d", "D")]),
    );
    assert_eq!(
        report,
        Err(FatalStartupError::Migration(MigrationError {
            failed_version: 3,
            cause: FailureCause::Database("near \"oops\": syntax error".to_string()),
        }))
    );
    assert_eq!(host.versions(), vec![1, 2]);
    assert_eq!(host.schema, vec!["A".to_string(), "B".to_string()]);
    assert_eq!(host.unit, None);
    assert!(host.log.iter().all(|r| !matches!(r, Request::Apply(Action::Begin { version: 4 }))));
}

#[test]
fn a_failed_run_can_be_repeated_once_the_script_is_mended() {
    let mut host = Host::new();
    host.bad_script = Some("C".to_string());
    let set = || vec![up(1, "a", "A"), up(2, "b", "B"), up(3, "c", "C")];
    assert!(run(&mut host, config(set())).is_err());
    host.bad_script = None;
    assert_eq!(run(&mut host, config(set())), Ok(RunReport { applied: 1, diverged: Vec::new() }));
    assert_eq!(host.versions(), vec![1, 2, 3]);
}

#[test]
fn the_runner_applies_one_two_five_in_that_order() {
    let mut host = Host::new();
    run(&mut host, config(vec![up(1, "a", "A"), up(2, "b", "B"), up(5, "c", "C")])).unwrap();
    assert_eq!(host.schema, vec!["A".to_string(), "B".to_string(), "C".to_string()]);
    assert_eq!(host.versions(), vec![1, 2, 5]);
}

#[test]
fn a_ledger_ahead_of_the_set_is_reported_and_does_not_fail_the_run() {
    let mut host = Host::new();
    host.ledger_table = true;
    host.ledger = vec![row(1, 10), row(5, 50), row(7, 70)];
    let report = run(&mut host, config(vec![up(1, "a", "A"), up(5, "e", "E")]));
    assert_eq!(report, Ok(RunReport { applied: 0, diverged: vec![7] }));
    assert_eq!(host.versions(), vec![1, 5, 7]);
    assert!(host.schema.is_empty());
}

#[test]
fn divergence_is_known_even_when_a_migration_fails() {
    let mut host = Host::new();
    host.ledger_table = true;
    host.ledger = vec![row(9, 90)];
    host.bad_script = Some("A".to_string());
    let mut runner = Runner::new(config(vec![up(1, "a", "A")]));
    assert_eq!(runner.diverged(), Vec::<i64>::new());
    while !runner.is_finished() {
        let outcome = host.perform(&runner.request());
        runner = runner.advance(outcome, 1);
    }
    assert!(matches!(runner.result(), Some(Err(FatalStartupError::Migration(_)))));
    assert_eq!(runner.diverged(), vec![9]);
    assert_eq!(runner.applied(), 0);
}

#[test]
fn a_malformed_set_fails_before_any_request() {
    let mut host = Host::new();
    let report = run(&mut host, config(vec![up(2, "b", "B"), up(2, "again", "B")]));
    assert_eq!(
        report,
        Err(FatalStartupError::Configuration(ConfigurationError::DuplicateVersion { index: 1 }))
    );
    assert!(host.log.is_empty());
    assert_eq!(host.opened, None);
    let runner = Runner::new(config(vec![up(3, "c", "C"), up(1, "a", "A")]));
    assert!(runner.is_finished());
    assert_eq!(runner.request(), Request::Stop);
    let runner = runner.advance(Host::done(), 1);
    assert_eq!(
        runner.result(),
        Some(Err(FatalStartupError::Configuration(ConfigurationError::UnsortedVersions {
            index: 1
        })))
    );
}

#[test]
fn a_failure_before_the_plan_names_the_step() {
    for (stage, cause, requests) in [
        (Stage::Open, "unable to open database file", 1),
        (Stage::EnsureLedger, "attempt to write a readonly database", 2),
        (Stage::ReadLedger, "no such table", 3),
    ] {
        let mut host = Host::new();
        host.refuse = Some(stage);
        let report = run(&mut host, config(vec![up(1, "a", "A")]));
        assert_eq!(report, Err(FatalStartupError::Database { stage, cause: cause.to_string() }));
        assert_eq!(host.log.len(), requests);
        assert!(host.schema.is_empty());
    }
}

#[test]
fn a_ledger_with_a_repeated_version_is_fatal() {
    let mut host = Host::new();
    host.ledger_table = true;
    host.ledger = vec![row(1, 10), row(1, 11)];
    let report = run(&mut host, config(vec![up(1, "a", "A"), up(2, "b", "B")]));
    assert_eq!(
        report,
        Err(FatalStartupError::DuplicateVersion(DuplicateVersionError { version: 1 }))
    );
    assert!(host.schema.is_empty());
}

#[test]
fn the_requests_of_a_run_come_in_a_fixed_order() {
    let mut host = Host::new();
    run(&mut host, config(vec![up(4, "d", "D")])).unwrap();
    assert_eq!(
        host.log,
        vec![
            Request::Open { database: "sqlite:app.db".to_string() },
            Request::EnsureLedger,
            Request::ReadLedger,
            Request::Apply(Action::Begin { version: 4 }),
            Request::Apply(Action::Execute { version: 4, script: "D".to_string() }),
            Request::Apply(Action::Record { entry: row(4, 5) }),
            Request::Apply(Action::Commit { version: 4 }),
        ]
    );
}

#[test]
fn the_runner_mirrors_the_ledger_of_the_database() {
    let mut host = Host::new();
    host.ledger_table = true;
    host.ledger = vec![row(1, 10)];
    let mut runner = Runner::new(config(vec![up(1, "a", "A"), up(2, "b", "B")]));
    assert!(runner.ledger().is_none());
    while !runner.is_finished() {
        let outcome = host.perform(&runner.request());
        host.clock += 1;
        runner = runner.advance(outcome, host.clock);
    }
    assert_eq!(runner.ledger().unwrap().rows(), &host.ledger);
    assert_eq!(runner.applied(), 1);
}

#[test]
fn an_empty_set_opens_the_database_and_applies_nothing() {
    let mut host = Host::new();
    assert_eq!(run(&mut host, config(Vec::new())), Ok(RunReport { applied: 0, diverged: Vec::new() }));
    assert_eq!(host.log.len(), 3);
    assert!(host.ledger_table);
}
