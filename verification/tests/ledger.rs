use schema_migrator::ledger::{DuplicateVersionError, Ledger, LedgerEntry};

fn row(version: i64, applied_at: i64) -> LedgerEntry {
    LedgerEntry { version, applied_at }
}

#[test]
fn new_ledger_is_empty() {
    let ledger = Ledger::new();
    assert_eq!(ledger.len(), 0);
    assert!(!ledger.contains(1));
    assert_eq!(ledger.applied_versions(), Vec::<i64>::new());
    assert_eq!(ledger.rows(), &Vec::<LedgerEntry>::new());
}

#[test]
fn record_applied_appends_a_row() {
    let mut ledger = Ledger::new();
    assert_eq!(ledger.record_applied(3, 100), Ok(()));
    assert_eq!(ledger.record_applied(1, 101), Ok(()));
    assert_eq!(ledger.len(), 2);
    assert!(ledger.contains(3));
    assert!(ledger.contains(1));
    assert!(!ledger.contains(2));
    assert_eq!(ledger.applied_versions(), vec![3, 1]);
    assert_eq!(ledger.rows(), &vec![row(3, 100), row(1, 101)]);
}

#[test]
fn record_applied_refuses_a_recorded_version() {
    let mut ledger = Ledger::new();
    ledger.record_applied(4, 100).unwrap();
    assert_eq!(ledger.record_applied(4, 200), Err(DuplicateVersionError { version: 4 }));
    assert_eq!(ledger.rows(), &vec![row(4, 100)]);
}

#[test]
fn from_rows_keeps_the_rows_as_read() {
    let ledger = Ledger::from_rows(vec![row(2, 20), row(1, 10), row(7, 70)]).unwrap();
    assert_eq!(ledger.applied_versions(), vec![2, 1, 7]);
    assert_eq!(ledger.rows(), &vec![row(2, 20), row(1, 10), row(7, 70)]);
    assert_eq!(Ledger::from_rows(Vec::new()).unwrap().len(), 0);
}

#[test]
fn from_rows_names_the_first_repeated_version() {
    let r = Ledger::from_rows(vec![row(1, 10), row(2, 20), row(3, 30), row(2, 40), row(1, 50)]);
    assert_eq!(r.err(), Some(DuplicateVersionError { version: 2 }));
}

#[test]
fn a_copy_of_a_ledger_holds_the_same_rows() {
    let mut ledger = Ledger::from_rows(vec![row(1, 10)]).unwrap();
    let copy = ledger.clone();
    ledger.record_applied(2, 20).unwrap();
    assert_eq!(copy.rows(), &vec![row(1, 10)]);
    assert_eq!(ledger.rows(), &vec![row(1, 10), row(2, 20)]);
}
