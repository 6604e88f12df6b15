//! The planner: which migrations are still to be applied.

use crate::migration::{
    all_positive, fault_of, strictly_ascending, validate, versions, well_formed,
    ConfigurationError, Migration,
};
use vstd::prelude::*;

verus! {

/// The set of versions that a list of applied versions stands for. Order and
/// repeats in the list carry no meaning.
pub open spec fn applied_set(applied: Seq<i64>) -> Set<int> {
    applied.map_values(|v: i64| v as int).to_set()
}

/// The test that picks the migrations whose version is not among `applied`.
pub open spec fn not_in(applied: Set<int>) -> spec_fn(Migration) -> bool {
    |m: Migration| !applied.contains(m.version as int)
}

/// The migrations of `all` that `applied` does not cover, in the order of `all`.
pub open spec fn pending_of(all: Seq<Migration>, applied: Set<int>) -> Seq<Migration> {
    all.filter(not_in(applied))
}

/// The test that picks the applied versions for which `all` has no migration.
pub open spec fn not_among(all: Seq<Migration>) -> spec_fn(i64) -> bool {
    |v: i64| !versions(all).contains(v as int)
}

/// The applied versions that no migration of `all` accounts for, in the order
/// given: the sign that the ledger is ahead of the migration set.
pub open spec fn unknown_of(all: Seq<Migration>, applied: Seq<i64>) -> Seq<i64> {
    applied.filter(not_among(all))
}

/// Membership in `applied_set` is membership in the list.
pub proof fn lemma_applied_set_contains(applied: Seq<i64>, v: i64)
    ensures
        applied_set(applied).contains(v as int) <==> applied.contains(v),
{
    let ints = applied.map_values(|v: i64| v as int);
    if applied_set(applied).contains(v as int) {
        let i = choose|i: int| 0 <= i < ints.len() && ints[i] == v as int;
        assert(applied[i] == v);
    }
    if applied.contains(v) {
        let i = choose|i: int| 0 <= i < applied.len() && applied[i] == v;
        assert(ints[i] == v as int);
    }
}

/// Whether `v` occurs in `applied`.
fn is_applied(applied: &Vec<i64>, v: i64) -> (found: bool)
    ensures
        found == applied_set(applied@).contains(v as int),
{
    let mut i: usize = 0;
    while i < applied.len()
        invariant
            i <= applied.len(),
            forall|k: int| 0 <= k < i ==> applied@[k] != v,
        decreases applied.len() - i,
    {
        if applied[i] == v {
            proof {
                lemma_applied_set_contains(applied@, v);
            }
            return true;
        }
        i += 1;
    }
    proof {
        lemma_applied_set_contains(applied@, v);
    }
    false
}

/// Whether some migration of `all` has version `v`.
fn has_version(all: &Vec<Migration>, v: i64) -> (found: bool)
    ensures
        found == versions(all@).contains(v as int),
{
    let mut i: usize = 0;
    while i < all.len()
        invariant
            i <= all.len(),
            forall|k: int| 0 <= k < i ==> all@[k].version != v,
        decreases all.len() - i,
    {
        if all[i].version == v {
            proof {
                assert(versions(all@)[i as int] == v as int);
            }
            return true;
        }
        i += 1;
    }
    proof {
        let vs = versions(all@);
        assert forall|k: int| 0 <= k < vs.len() implies vs[k] != v as int by {
            assert(all@[k].version != v);
        }
    }
    false
}

/// Computes the migrations still to be applied.
///
/// A set that is not well formed is refused, with the error that `validate`
/// gives. Otherwise the result holds exactly the migrations of `all` whose
/// version is not among `applied`, in the order of `all`. Applied versions that
/// `all` does not know are ignored here; `unknown_versions` reports them.
pub fn plan(all: &Vec<Migration>, applied: &Vec<i64>) -> (r: Result<
    Vec<Migration>,
    ConfigurationError,
>)
    ensures
        r is Ok <==> well_formed(all@),
        r matches Ok(pending) ==> pending@ == pending_of(all@, applied_set(applied@)),
        r matches Err(e) ==> fault_of(all@) == Some(e),
{
    match validate(all) {
        Err(e) => Err(e),
        Ok(()) => Ok(select_pending(all, applied)),
    }
}

/// The selection behind `plan`, for any list.
pub fn select_pending(all: &Vec<Migration>, applied: &Vec<i64>) -> (pending: Vec<Migration>)
    ensures
        pending@ == pending_of(all@, applied_set(applied@)),
{
    let ghost keep = not_in(applied_set(applied@));
    let mut pending: Vec<Migration> = Vec::new();
    let mut i: usize = 0;
    proof {
        assert(all@.take(0).filter(keep) =~= Seq::<Migration>::empty());
    }
    while i < all.len()
        invariant
            i <= all.len(),
            keep == not_in(applied_set(applied@)),
            pending@ == all@.take(i as int).filter(keep),
        decreases all.len() - i,
    {
        proof {
            all@.take(i as int).lemma_filter_push(all@[i as int], keep);
            assert(all@.take(i + 1) =~= all@.take(i as int).push(all@[i as int]));
        }
        if !is_applied(applied, all[i].version) {
            pending.push(all[i].clone());
        }
        i += 1;
    }
    proof {
        assert(all@.take(all.len() as int) =~= all@);
    }
    pending
}

/// Reports the applied versions that the migration set does not know, in the
/// order given. A non-empty result means the database was migrated by a newer
/// or different migration set.
pub fn unknown_versions(all: &Vec<Migration>, applied: &Vec<i64>) -> (unknown: Vec<i64>)
    ensures
        unknown@ == unknown_of(all@, applied@),
{
    let ghost keep = not_among(all@);
    let mut unknown: Vec<i64> = Vec::new();
    let mut i: usize = 0;
    proof {
        assert(applied@.take(0).filter(keep) =~= Seq::<i64>::empty());
    }
    while i < applied.len()
        invariant
            i <= applied.len(),
            keep == not_among(all@),
            unknown@ == applied@.take(i as int).filter(keep),
        decreases applied.len() - i,
    {
        proof {
            applied@.take(i as int).lemma_filter_push(applied@[i as int], keep);
            assert(applied@.take(i + 1) =~= applied@.take(i as int).push(applied@[i as int]));
        }
        if !has_version(all, applied[i]) {
            unknown.push(applied[i]);
        }
        i += 1;
    }
    proof {
        assert(applied@.take(applied.len() as int) =~= applied@);
    }
    unknown
}

/// Picking records out of a well-formed list leaves a well-formed list:
/// whatever the test, the versions stay positive and strictly ascending.
pub proof fn lemma_filter_keeps_well_formed(all: Seq<Migration>, keep: spec_fn(Migration) -> bool)
    requires
        well_formed(all),
    ensures
        well_formed(all.filter(keep)),
    decreases all.len(),
{
    reveal(Seq::filter);
    let kept = all.filter(keep);
    if all.len() == 0 {
        assert(versions(kept) =~= Seq::<int>::empty());
    } else {
        let front = all.drop_last();
        let vs = versions(all);
        assert forall|i: int, j: int| 0 <= i < j < versions(front).len() implies versions(front)[i]
            < versions(front)[j] by {
            assert(vs[i] < vs[j]);
        }
        assert forall|i: int| 0 <= i < versions(front).len() implies versions(front)[i] >= 1 by {
            assert(vs[i] >= 1);
        }
        lemma_filter_keeps_well_formed(front, keep);
        let kept_front = front.filter(keep);
        if keep(all.last()) {
            assert(kept == kept_front.push(all.last()));
            let ks = versions(kept);
            assert forall|i: int| 0 <= i < ks.len() implies ks[i] >= 1 by {
                if i < kept_front.len() {
                    assert(versions(kept_front)[i] >= 1);
                } else {
                    assert(vs[all.len() - 1] >= 1);
                }
            }
            assert forall|i: int, j: int| 0 <= i < j < ks.len() implies ks[i] < ks[j] by {
                if j < kept_front.len() {
                    assert(versions(kept_front)[i] < versions(kept_front)[j]);
                } else {
                    assert(kept_front.contains(kept_front[i]));
                    front.lemma_filter_contains_rev(keep, kept_front[i]);
                    let k = choose|k: int| 0 <= k < front.len() && front[k] == kept_front[i];
                    assert(vs[k] < vs[all.len() - 1]);
                }
            }
        } else {
            assert(kept == kept_front);
        }
    }
}

/// The plan is the difference of the migration set and the applied set: a
/// migration is pending exactly when it belongs to `all` and its version has
/// not been applied.
pub proof fn lemma_pending_is_difference(all: Seq<Migration>, applied: Set<int>, m: Migration)
    ensures
        pending_of(all, applied).contains(m) <==> all.contains(m) && !applied.contains(
            m.version as int,
        ),
{
    let keep = not_in(applied);
    let pending = pending_of(all, applied);
    if pending.contains(m) {
        all.lemma_filter_contains_rev(keep, m);
        let i = choose|i: int| 0 <= i < pending.len() && pending[i] == m;
        all.lemma_filter_pred(keep, i);
    }
    if all.contains(m) && !applied.contains(m.version as int) {
        let i = choose|i: int| 0 <= i < all.len() && all[i] == m;
        all.lemma_filter_contains(keep, i);
    }
}

/// The plan of a well-formed set is itself well formed: the pending migrations
/// come out in ascending version order, each once.
pub proof fn lemma_pending_keeps_order(all: Seq<Migration>, applied: Set<int>)
    requires
        well_formed(all),
    ensures
        well_formed(pending_of(all, applied)),
        all_positive(versions(pending_of(all, applied))),
        strictly_ascending(versions(pending_of(all, applied))),
{
    lemma_filter_keeps_well_formed(all, not_in(applied));
}

/// Nothing is pending exactly when every version of the set has been applied.
pub proof fn lemma_nothing_pending(all: Seq<Migration>, applied: Set<int>)
    ensures
        pending_of(all, applied).len() == 0 <==> forall|i: int|
            0 <= i < all.len() ==> applied.contains(#[trigger] all[i].version as int),
{
    let keep = not_in(applied);
    let pending = pending_of(all, applied);
    if pending.len() == 0 {
        assert forall|i: int| 0 <= i < all.len() implies applied.contains(
            #[trigger] all[i].version as int,
        ) by {
            if !applied.contains(all[i].version as int) {
                all.lemma_filter_contains(keep, i);
            }
        }
    } else {
        all.lemma_filter_pred(keep, 0);
        assert(pending.contains(pending[0]));
        all.lemma_filter_contains_rev(keep, pending[0]);
        let k = choose|k: int| 0 <= k < all.len() && all[k] == pending[0];
        assert(!applied.contains(all[k].version as int));
    }
}

} // verus!
