//! Migration records and the rules a migration set must obey.

use vstd::prelude::*;

verus! {

/// Whether a record moves the schema forward or back. Only `Up` is ever run.
#[derive(Clone, Copy, Debug, PartialEq, Eq, Structural)]
pub enum Direction {
    Up,
    Down,
}

/// One versioned, pre-written change to the schema or data.
#[derive(Debug, PartialEq, Eq)]
pub struct Migration {
    pub version: i64,
    pub description: String,
    pub script: String,
    pub direction: Direction,
}

impl Clone for Migration {
    fn clone(&self) -> (copy: Self)
        ensures
            copy == *self,
    {
        Migration {
            version: self.version,
            description: self.description.clone(),
            script: self.script.clone(),
            direction: self.direction,
        }
    }
}

/// Why a migration set was refused. `index` is the position of the first
/// record that breaks a rule.
#[derive(Clone, Copy, Debug, PartialEq, Eq, Structural)]
pub enum ConfigurationError {
    /// The version at `index` is zero or negative.
    NonPositiveVersion { index: usize },
    /// The version at `index` repeats the one just before it.
    DuplicateVersion { index: usize },
    /// The version at `index` is smaller than the one just before it.
    UnsortedVersions { index: usize },
}

/// The versions of a migration list, in list order.
pub open spec fn versions(all: Seq<Migration>) -> Seq<int> {
    all.map_values(|m: Migration| m.version as int)
}

/// Every version is smaller than all that follow it: sorted, without repeats.
pub open spec fn strictly_ascending(vs: Seq<int>) -> bool {
    forall|i: int, j: int| 0 <= i < j < vs.len() ==> vs[i] < vs[j]
}

/// Every version is at least one.
pub open spec fn all_positive(vs: Seq<int>) -> bool {
    forall|i: int| 0 <= i < vs.len() ==> vs[i] >= 1
}

/// A migration set is well formed when its versions are positive and strictly
/// ascending. Gaps between versions are allowed.
pub open spec fn well_formed(all: Seq<Migration>) -> bool {
    all_positive(versions(all)) && strictly_ascending(versions(all))
}

/// The record at `i` breaks a rule, judged against its predecessor alone.
pub open spec fn faulty_at(vs: Seq<int>, i: int) -> bool {
    vs[i] < 1 || (i > 0 && vs[i] <= vs[i - 1])
}

/// The error that names the fault at `i`.
pub open spec fn fault_at(vs: Seq<int>, i: int) -> ConfigurationError {
    if vs[i] < 1 {
        ConfigurationError::NonPositiveVersion { index: i as usize }
    } else if vs[i] == vs[i - 1] {
        ConfigurationError::DuplicateVersion { index: i as usize }
    } else {
        ConfigurationError::UnsortedVersions { index: i as usize }
    }
}

/// `i` is the first position at which a rule is broken.
pub open spec fn first_fault(vs: Seq<int>, i: int) -> bool {
    &&& 0 <= i < vs.len()
    &&& faulty_at(vs, i)
    &&& forall|k: int| 0 <= k < i ==> !faulty_at(vs, k)
}

/// The error that a migration set is refused with, if it is refused: the
/// fault at the first position that breaks a rule.
pub open spec fn fault_of(all: Seq<Migration>) -> Option<ConfigurationError> {
    let vs = versions(all);
    if exists|i: int| first_fault(vs, i) {
        Some(fault_at(vs, choose|i: int| first_fault(vs, i)))
    } else {
        None
    }
}

/// A list has at most one first fault, and `fault_of` names it.
pub proof fn lemma_first_fault_unique(all: Seq<Migration>, i: int)
    requires
        first_fault(versions(all), i),
    ensures
        fault_of(all) == Some(fault_at(versions(all), i)),
        !well_formed(all),
{
    let vs = versions(all);
    let j = choose|j: int| first_fault(vs, j);
    if j < i {
        assert(!faulty_at(vs, j));
    } else if i < j {
        assert(!faulty_at(vs, i));
    }
    lemma_fault_is_not_well_formed(vs, i);
}

/// A set is well formed exactly when it has no fault.
pub proof fn lemma_well_formed_has_no_fault(all: Seq<Migration>)
    ensures
        well_formed(all) <==> fault_of(all) is None,
{
    let vs = versions(all);
    if exists|i: int| first_fault(vs, i) {
        let i = choose|i: int| first_fault(vs, i);
        lemma_fault_is_not_well_formed(vs, i);
    } else {
        assert forall|k: int| 0 <= k < vs.len() implies !faulty_at(vs, k) by {
            lemma_no_earlier_fault(vs, k);
        }
        lemma_no_fault_is_well_formed(vs, vs.len() as int);
        assert(vs.take(vs.len() as int) =~= vs);
    }
}

/// Where no position is a first fault, no position up to `k` is faulty.
proof fn lemma_no_earlier_fault(vs: Seq<int>, k: int)
    requires
        0 <= k < vs.len(),
        !exists|i: int| first_fault(vs, i),
    ensures
        forall|j: int| 0 <= j <= k ==> !faulty_at(vs, j),
    decreases k,
{
    if k > 0 {
        lemma_no_earlier_fault(vs, k - 1);
    }
    if faulty_at(vs, k) {
        assert(first_fault(vs, k));
    }
}

/// A list with no fault before `n` is positive and strictly ascending up to `n`.
pub proof fn lemma_no_fault_is_well_formed(vs: Seq<int>, n: int)
    requires
        0 <= n <= vs.len(),
        forall|k: int| 0 <= k < n ==> !faulty_at(vs, k),
    ensures
        all_positive(vs.take(n)),
        strictly_ascending(vs.take(n)),
    decreases n,
{
    if n > 0 {
        lemma_no_fault_is_well_formed(vs, n - 1);
        let shorter = vs.take(n - 1);
        let longer = vs.take(n);
        assert(!faulty_at(vs, n - 1));
        assert forall|i: int, j: int| 0 <= i < j < longer.len() implies longer[i] < longer[j] by {
            if j < n - 1 {
                assert(shorter[i] < shorter[j]);
            } else if i < n - 2 {
                assert(shorter[i] < shorter[n - 2]);
            }
        }
    }
}

/// A faulty position rules out a well-formed list.
pub proof fn lemma_fault_is_not_well_formed(vs: Seq<int>, i: int)
    requires
        0 <= i < vs.len(),
        faulty_at(vs, i),
    ensures
        !(all_positive(vs) && strictly_ascending(vs)),
{
}

/// Checks a migration set before anything touches the database.
///
/// Succeeds exactly on well-formed sets. Otherwise the error names the first
/// offending position and the rule broken there.
pub fn validate(all: &Vec<Migration>) -> (r: Result<(), ConfigurationError>)
    ensures
        r is Ok <==> well_formed(all@),
        r matches Err(e) ==> fault_of(all@) == Some(e),
{
    let ghost vs = versions(all@);
    let mut i: usize = 0;
    while i < all.len()
        invariant
            i <= all.len(),
            vs == versions(all@),
            forall|k: int| 0 <= k < i ==> !faulty_at(vs, k),
        decreases all.len() - i,
    {
        let v: i64 = all[i].version;
        if v < 1 {
            proof {
                assert(first_fault(vs, i as int));
                lemma_first_fault_unique(all@, i as int);
            }
            return Err(ConfigurationError::NonPositiveVersion { index: i });
        }
        if i > 0 {
            let before: i64 = all[i - 1].version;
            if v <= before {
                proof {
                    assert(first_fault(vs, i as int));
                    lemma_first_fault_unique(all@, i as int);
                }
                if v == before {
                    return Err(ConfigurationError::DuplicateVersion { index: i });
                }
                return Err(ConfigurationError::UnsortedVersions { index: i });
            }
        }
        i += 1;
    }
    proof {
        lemma_no_fault_is_well_formed(vs, vs.len() as int);
        assert(vs.take(vs.len() as int) =~= vs);
    }
    Ok(())
}

} // verus!
