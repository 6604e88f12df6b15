use schema_migrator::migration::{validate, ConfigurationError, Direction, Migration};
use schema_migrator::planner::{plan, select_pending, unknown_versions};

fn up(version: i64, description: &str, script: &str) -> Migration {
    Migration {
        version,
        description: description.to_string(),
        script: script.to_string(),
        direction: Direction::Up,
    }
}

fn down(version: i64) -> Migration {
    Migration {
        version,
        description: "undo".to_string(),
        script: "DROP TABLE t".to_string(),
        direction: Direction::Down,
    }
}

fn versions_of(list: &[Migration]) -> Vec<i64> {
    list.iter().map(|m| m.version).collect()
}

#[test]
fn plan_of_empty_set_is_empty() {
    let all: Vec<Migration> = Vec::new();
    assert_eq!(plan(&all, &vec![1, 2]), Ok(Vec::new()));
    assert_eq!(plan(&all, &Vec::new()), Ok(Vec::new()));
}

#[test]
fn plan_with_nothing_applied_is_the_whole_set() {
    let all = vec![up(1, "a", "A"), up(2, "b", "B"), up(5, "c", "C")];
    assert_eq!(plan(&all, &Vec::new()), Ok(all.clone()));
}

#[test]
fn plan_skips_applied_versions_and_keeps_order() {
    let all = vec![up(1, "a", "A"), up(2, "b", "B"), up(5, "c", "C")];
    let pending = plan(&all, &vec![2]).unwrap();
    assert_eq!(pending, vec![up(1, "a", "A"), up(5, "c", "C")]);
}

#[test]
fn plan_is_the_difference_for_every_subset() {
    let all = vec![up(1, "a", "A"), up(2, "b", "B"), up(5, "c", "C"), up(9, "d", "D")];
    for mask in 0..16u32 {
        let applied: Vec<i64> =
            all.iter().enumerate().filter(|(i, _)| mask & (1 << i) != 0).map(|(_, m)| m.version).collect();
        let expected: Vec<Migration> =
            all.iter().enumerate().filter(|(i, _)| mask & (1 << i) == 0).map(|(_, m)| m.clone()).collect();
        assert_eq!(plan(&all, &applied), Ok(expected));
    }
}

#[test]
fn plan_ignores_order_and_repeats_in_applied() {
    let all = vec![up(1, "a", "A"), up(2, "b", "B"), up(5, "c", "C")];
    let pending = plan(&all, &vec![5, 1, 5, 1]).unwrap();
    assert_eq!(versions_of(&pending), vec![2]);
}

#[test]
fn plan_keeps_the_whole_record() {
    let all = vec![up(3, "add_index", "CREATE INDEX i ON t(id)")];
    let pending = plan(&all, &Vec::new()).unwrap();
    assert_eq!(pending[0].description, "add_index");
    assert_eq!(pending[0].script, "CREATE INDEX i ON t(id)");
    assert_eq!(pending[0].direction, Direction::Up);
}

#[test]
fn plan_does_not_look_at_direction() {
    let all = vec![up(1, "a", "A"), down(2), up(3, "c", "C")];
    let pending = plan(&all, &vec![1]).unwrap();
    assert_eq!(pending, vec![down(2), up(3, "c", "C")]);
}

#[test]
fn plan_tolerates_gaps() {
    let all = vec![up(10, "a", "A"), up(20, "b", "B"), up(1000, "c", "C")];
    assert_eq!(versions_of(&plan(&all, &vec![20]).unwrap()), vec![10, 1000]);
}

#[test]
fn plan_applies_a_version_below_an_applied_one() {
    let all = vec![up(1, "a", "A"), up(2, "late", "B"), up(3, "c", "C")];
    assert_eq!(versions_of(&plan(&all, &vec![1, 3]).unwrap()), vec![2]);
}

#[test]
fn plan_refuses_a_malformed_set() {
    let dup = vec![up(1, "a", "A"), up(1, "b", "B")];
    assert_eq!(plan(&dup, &Vec::new()), Err(ConfigurationError::DuplicateVersion { index: 1 }));
    let unsorted = vec![up(2, "a", "A"), up(3, "b", "B"), up(1, "c", "C")];
    assert_eq!(plan(&unsorted, &vec![2, 3, 1]), Err(ConfigurationError::UnsortedVersions { index: 2 }));
}

#[test]
fn validate_accepts_ascending_positive_versions() {
    assert_eq!(validate(&Vec::new()), Ok(()));
    assert_eq!(validate(&vec![up(1, "a", "A")]), Ok(()));
    assert_eq!(validate(&vec![up(1, "a", "A"), up(2, "b", "B"), up(5, "c", "C")]), Ok(()));
    assert_eq!(validate(&vec![up(i64::MAX - 1, "a", "A"), up(i64::MAX, "b", "B")]), Ok(()));
}

#[test]
fn validate_names_the_first_fault() {
    assert_eq!(
        validate(&vec![up(1, "a", "A"), up(1, "b", "B")]),
        Err(ConfigurationError::DuplicateVersion { index: 1 })
    );
    assert_eq!(
        validate(&vec![up(2, "a", "A"), up(1, "b", "B")]),
        Err(ConfigurationError::UnsortedVersions { index: 1 })
    );
    assert_eq!(
        validate(&vec![up(0, "a", "A")]),
        Err(ConfigurationError::NonPositiveVersion { index: 0 })
    );
    assert_eq!(
        validate(&vec![up(-3, "a", "A"), up(-3, "b", "B")]),
        Err(ConfigurationError::NonPositiveVersion { index: 0 })
    );
    assert_eq!(
        validate(&vec![up(1, "a", "A"), up(4, "b", "B"), up(4, "c", "C"), up(2, "d", "D")]),
        Err(ConfigurationError::DuplicateVersion { index: 2 })
    );
    assert_eq!(
        validate(&vec![up(1, "a", "A"), up(3, "b", "B"), up(2, "c", "C"), up(2, "d", "D")]),
        Err(ConfigurationError::UnsortedVersions { index: 2 })
    );
}

#[test]
fn select_pending_works_on_any_list() {
    let all = vec![up(5, "c", "C"), up(1, "a", "A"), up(5, "c", "C")];
    assert_eq!(versions_of(&select_pending(&all, &vec![1])), vec![5, 5]);
}

#[test]
fn ledger_ahead_of_the_set_is_reported() {
    let all = vec![up(1, "a", "A"), up(5, "c", "C")];
    assert_eq!(unknown_versions(&all, &vec![1, 5, 7]), vec![7]);
    assert_eq!(plan(&all, &vec![1, 5, 7]), Ok(Vec::new()));
}

#[test]
fn unknown_versions_keep_the_order_given() {
    let all = vec![up(2, "b", "B")];
    assert_eq!(unknown_versions(&all, &vec![9, 2, 7, 9]), vec![9, 7, 9]);
    assert_eq!(unknown_versions(&all, &vec![2]), Vec::<i64>::new());
    assert_eq!(unknown_versions(&Vec::new(), &vec![3, 1]), vec![3, 1]);
}
