//! The ledger: which versions have been applied, and when.
//!
//! `Ledger` mirrors the rows of the bookkeeping table that the host keeps in
//! the database file. A version is in the ledger exactly when its migration
//! has been committed.

use vstd::prelude::*;

verus! {

/// One row of the bookkeeping table.
#[derive(Clone, Copy, Debug, PartialEq, Eq, Structural)]
pub struct LedgerEntry {
    pub version: i64,
    pub applied_at: i64,
}

/// A version was about to be recorded a second time.
#[derive(Clone, Copy, Debug, PartialEq, Eq, Structural)]
pub struct DuplicateVersionError {
    pub version: i64,
}

/// The versions of ledger rows, in row order.
pub open spec fn row_versions(rows: Seq<LedgerEntry>) -> Seq<int> {
    rows.map_values(|e: LedgerEntry| e.version as int)
}

/// The set of versions that the rows record.
pub open spec fn recorded(rows: Seq<LedgerEntry>) -> Set<int> {
    row_versions(rows).to_set()
}

/// No version is recorded twice.
pub open spec fn distinct_versions(rows: Seq<LedgerEntry>) -> bool {
    row_versions(rows).no_duplicates()
}

/// The row at `j` repeats the version of an earlier row.
pub open spec fn repeats_at(rows: Seq<LedgerEntry>, j: int) -> bool {
    exists|i: int| 0 <= i < j && rows[i].version == rows[j].version
}

/// `j` is the first row that repeats an earlier version.
pub open spec fn first_repeat(rows: Seq<LedgerEntry>, j: int) -> bool {
    &&& 0 <= j < rows.len()
    &&& repeats_at(rows, j)
    &&& forall|k: int| 0 <= k < j ==> !repeats_at(rows, k)
}

/// The versions of ledger rows as stored, in row order.
pub open spec fn stored_versions(rows: Seq<LedgerEntry>) -> Seq<i64> {
    rows.map_values(|e: LedgerEntry| e.version)
}

/// The error that rows are refused with, if they are refused: the version of
/// the first row that repeats an earlier one.
pub open spec fn repeat_of(rows: Seq<LedgerEntry>) -> Option<DuplicateVersionError> {
    if exists|j: int| first_repeat(rows, j) {
        Some(DuplicateVersionError { version: rows[choose|j: int| first_repeat(rows, j)].version })
    } else {
        None
    }
}

/// Rows have at most one first repeat, and `repeat_of` names its version.
pub proof fn lemma_first_repeat_unique(rows: Seq<LedgerEntry>, j: int)
    requires
        first_repeat(rows, j),
    ensures
        repeat_of(rows) == Some(DuplicateVersionError { version: rows[j].version }),
        !distinct_versions(rows),
{
    let k = choose|k: int| first_repeat(rows, k);
    if k < j {
        assert(!repeats_at(rows, k));
    } else if j < k {
        assert(!repeats_at(rows, j));
    }
    let i = choose|i: int| 0 <= i < j && rows[i].version == rows[j].version;
    let vs = row_versions(rows);
    assert(vs[i] == vs[j]);
}

/// Rows are distinct exactly when none repeats an earlier one.
pub proof fn lemma_distinct_has_no_repeat(rows: Seq<LedgerEntry>)
    ensures
        distinct_versions(rows) <==> repeat_of(rows) is None,
{
    let vs = row_versions(rows);
    if exists|j: int| first_repeat(rows, j) {
        let j = choose|j: int| first_repeat(rows, j);
        lemma_first_repeat_unique(rows, j);
    } else {
        assert forall|a: int, b: int| 0 <= a < vs.len() && 0 <= b < vs.len() && a != b implies vs[a]
            != vs[b] by {
            if vs[a] == vs[b] {
                let hi = if a < b { b } else { a };
                let lo = if a < b { a } else { b };
                assert(rows[lo].version == rows[hi].version);
                assert(repeats_at(rows, hi));
                lemma_no_earlier_repeat(rows, hi);
            }
        }
    }
}

/// Where no row is a first repeat, no row up to `k` repeats an earlier one.
proof fn lemma_no_earlier_repeat(rows: Seq<LedgerEntry>, k: int)
    requires
        0 <= k < rows.len(),
        !exists|j: int| first_repeat(rows, j),
    ensures
        forall|j: int| 0 <= j <= k ==> !repeats_at(rows, j),
    decreases k,
{
    if k > 0 {
        lemma_no_earlier_repeat(rows, k - 1);
    }
    if repeats_at(rows, k) {
        assert(first_repeat(rows, k));
    }
}

/// Membership in `recorded` is membership of some row's version.
pub proof fn lemma_recorded_contains(rows: Seq<LedgerEntry>, v: int)
    ensures
        recorded(rows).contains(v) <==> exists|i: int|
            0 <= i < rows.len() && rows[i].version == v,
{
    let vs = row_versions(rows);
    if recorded(rows).contains(v) {
        let i = choose|i: int| 0 <= i < vs.len() && vs[i] == v;
        assert(rows[i].version == v);
    }
    if exists|i: int| 0 <= i < rows.len() && rows[i].version == v {
        let i = choose|i: int| 0 <= i < rows.len() && rows[i].version == v;
        assert(vs[i] == v);
    }
}

/// Adding a row adds its version to the recorded set, and nothing else.
pub proof fn lemma_recorded_push(rows: Seq<LedgerEntry>, e: LedgerEntry)
    ensures
        recorded(rows.push(e)) == recorded(rows).insert(e.version as int),
{
    let longer = rows.push(e);
    assert forall|v: int| recorded(longer).contains(v) <==> recorded(rows).insert(
        e.version as int,
    ).contains(v) by {
        lemma_recorded_contains(longer, v);
        lemma_recorded_contains(rows, v);
        if recorded(longer).contains(v) {
            let i = choose|i: int| 0 <= i < longer.len() && longer[i].version == v;
            if i < rows.len() {
                assert(rows[i].version == v);
            }
        }
        if recorded(rows).contains(v) {
            let i = choose|i: int| 0 <= i < rows.len() && rows[i].version == v;
            assert(longer[i].version == v);
        }
        if v == e.version {
            assert(longer[rows.len() as int].version == v);
        }
    }
    assert(recorded(longer) =~= recorded(rows).insert(e.version as int));
}

/// A row with a new version keeps the versions distinct.
pub proof fn lemma_distinct_push(rows: Seq<LedgerEntry>, e: LedgerEntry)
    requires
        distinct_versions(rows),
        !recorded(rows).contains(e.version as int),
    ensures
        distinct_versions(rows.push(e)),
{
    let before = row_versions(rows);
    let after = row_versions(rows.push(e));
    assert(after =~= before.push(e.version as int));
    assert(!before.contains(e.version as int));
    assert forall|a: int, b: int| 0 <= a < after.len() && 0 <= b < after.len() && a != b implies after[a]
        != after[b] by {
        if a < before.len() && b < before.len() {
            assert(before[a] != before[b]);
        } else if a < before.len() {
            assert(before.contains(before[a]));
        } else {
            assert(before.contains(before[b]));
        }
    }
}

/// The committed rows of the bookkeeping table, in the order they were
/// written. No version occurs twice.
#[derive(Debug)]
pub struct Ledger {
    rows: Vec<LedgerEntry>,
}

impl View for Ledger {
    type V = Seq<LedgerEntry>;

    closed spec fn view(&self) -> Seq<LedgerEntry> {
        self.rows@
    }
}

impl Clone for Ledger {
    fn clone(&self) -> (copy: Self)
        ensures
            copy@ == self@,
    {
        proof {
            use_type_invariant(self);
        }
        let mut rows: Vec<LedgerEntry> = Vec::new();
        let mut i: usize = 0;
        while i < self.rows.len()
            invariant
                i <= self.rows.len(),
                rows@ == self.rows@.take(i as int),
            decreases self.rows.len() - i,
        {
            rows.push(self.rows[i]);
            proof {
                assert(self.rows@.take(i + 1) =~= self.rows@.take(i as int).push(self.rows@[i as int]));
            }
            i += 1;
        }
        proof {
            assert(self.rows@.take(self.rows.len() as int) =~= self.rows@);
        }
        Ledger { rows }
    }
}

impl Ledger {
    /// Every ledger holds each version at most once.
    #[verifier::type_invariant]
    pub open spec fn distinct(&self) -> bool {
        distinct_versions(self@)
    }

    /// The set of versions recorded so far.
    pub open spec fn versions(&self) -> Set<int> {
        recorded(self@)
    }

    /// The ledger of a database that has never been migrated.
    pub fn new() -> (ledger: Ledger)
        ensures
            ledger@ == Seq::<LedgerEntry>::empty(),
    {
        Ledger { rows: Vec::new() }
    }

    /// Builds the mirror from rows read out of the database.
    ///
    /// Succeeds exactly when no version occurs twice, and then holds the rows
    /// as given. Otherwise the error carries the version of the first row
    /// that repeats an earlier one.
    pub fn from_rows(rows: Vec<LedgerEntry>) -> (r: Result<Ledger, DuplicateVersionError>)
        ensures
            r is Ok <==> distinct_versions(rows@),
            r matches Ok(ledger) ==> ledger@ == rows@,
            r matches Err(e) ==> repeat_of(rows@) == Some(e),
    {
        let mut j: usize = 0;
        while j < rows.len()
            invariant
                j <= rows.len(),
                forall|k: int| 0 <= k < j ==> !repeats_at(rows@, k),
            decreases rows.len() - j,
        {
            let v: i64 = rows[j].version;
            let mut i: usize = 0;
            while i < j
                invariant
                    i <= j < rows.len(),
                    v == rows@[j as int].version,
                    forall|k: int| 0 <= k < j ==> !repeats_at(rows@, k),
                    forall|k: int| 0 <= k < i ==> rows@[k].version != v,
                decreases j - i,
            {
                if rows[i].version == v {
                    proof {
                        assert(repeats_at(rows@, j as int));
                        assert(first_repeat(rows@, j as int));
                        lemma_first_repeat_unique(rows@, j as int);
                    }
                    return Err(DuplicateVersionError { version: v });
                }
                i += 1;
            }
            j += 1;
        }
        proof {
            let vs = row_versions(rows@);
            assert forall|a: int, b: int| 0 <= a < vs.len() && 0 <= b < vs.len() && a != b implies vs[a]
                != vs[b] by {
                if a < b {
                    assert(!repeats_at(rows@, b));
                } else {
                    assert(!repeats_at(rows@, a));
                }
            }
        }
        Ok(Ledger { rows })
    }

    /// The number of rows.
    pub fn len(&self) -> (n: usize)
        ensures
            n == self@.len(),
    {
        self.rows.len()
    }

    /// Whether `version` has been recorded.
    pub fn contains(&self, version: i64) -> (found: bool)
        ensures
            found == self.versions().contains(version as int),
    {
        let mut i: usize = 0;
        while i < self.rows.len()
            invariant
                i <= self.rows.len(),
                forall|k: int| 0 <= k < i ==> self.rows@[k].version != version,
            decreases self.rows.len() - i,
        {
            if self.rows[i].version == version {
                proof {
                    lemma_recorded_contains(self@, version as int);
                }
                return true;
            }
            i += 1;
        }
        proof {
            lemma_recorded_contains(self@, version as int);
        }
        false
    }

    /// All recorded versions, in row order.
    pub fn applied_versions(&self) -> (vs: Vec<i64>)
        ensures
            vs@ == stored_versions(self@),
    {
        let mut vs: Vec<i64> = Vec::new();
        let mut i: usize = 0;
        while i < self.rows.len()
            invariant
                i <= self.rows.len(),
                vs@.len() == i,
                forall|k: int| 0 <= k < i ==> vs@[k] == self.rows@[k].version,
            decreases self.rows.len() - i,
        {
            vs.push(self.rows[i].version);
            i += 1;
        }
        proof {
            assert(vs@ =~= stored_versions(self@));
        }
        vs
    }

    /// The rows themselves, in the order they were written.
    pub fn rows(&self) -> (rows: &Vec<LedgerEntry>)
        ensures
            rows@ == self@,
    {
        &self.rows
    }

    /// Appends a row whose version is known to be new.
    pub(crate) fn append(&mut self, entry: LedgerEntry)
        requires
            !old(self).versions().contains(entry.version as int),
        ensures
            final(self)@ == old(self)@.push(entry),
    {
        proof {
            use_type_invariant(&*self);
            lemma_distinct_push(self.rows@, entry);
        }
        let mut rows: Vec<LedgerEntry> = Vec::new();
        core::mem::swap(&mut self.rows, &mut rows);
        rows.push(entry);
        core::mem::swap(&mut self.rows, &mut rows);
    }

    /// Records that `version` was applied at `applied_at`.
    ///
    /// Insert-only: a version already present is refused and the ledger is
    /// left as it was.
    pub fn record_applied(&mut self, version: i64, applied_at: i64) -> (r: Result<
        (),
        DuplicateVersionError,
    >)
        ensures
            r is Err <==> old(self).versions().contains(version as int),
            r is Ok ==> final(self)@ == old(self)@.push(LedgerEntry { version, applied_at }),
            r is Ok ==> final(self).versions() == old(self).versions().insert(version as int),
            r matches Err(e) ==> e.version == version && final(self)@ == old(self)@,
    {
        if self.contains(version) {
            return Err(DuplicateVersionError { version });
        }
        proof {
            lemma_recorded_push(self@, LedgerEntry { version, applied_at });
        }
        self.append(LedgerEntry { version, applied_at });
        Ok(())
    }
}

} // verus!
