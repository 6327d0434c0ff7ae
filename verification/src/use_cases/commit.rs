//! Committing what the stage holds, and reading the history back.

use vstd::prelude::*;

use crate::domain::{Change, ChangeView, CommitRecord, CommitRecordView, ObjectView, change_views, record_views};
use crate::errors::UseCaseError;
use crate::ports::{
    Clock, CommitRepository, Randomness, StageRepository, StoreData, apply_changes, lists_changes, new_commit_id,
};

verus! {

/// Records everything staged as one commit, which empties the stage.
/// Nothing staged is nothing to commit.
pub fn commit<S: StageRepository + CommitRepository, K: Clock, R: Randomness>(
    store: &mut S,
    clock: &K,
    random: &mut R,
    message: &str,
) -> (r: Result<CommitRecord, UseCaseError>)
    ensures
        final(store).model().unit == old(store).model().unit,
        r matches Ok(record) ==> {
            let d = old(store).model().data;
            &&& record.message@ == message@
            &&& record.changes@.len() > 0
            &&& lists_changes(change_views(record.changes@), d.staged)
            &&& final(store).model() == old(store).model().with(d.committed_with(record@))
        },
        old(store).model().data.staged.dom().len() == 0 && old(store).model().data.staged.dom().finite() ==> r is Err,
        r matches Err(UseCaseError::Parse(m)) ==> old(store).model().data.staged =~= Map::empty() && m@
            == "nothing to commit"@,
        old(store).model().data.staged.dom().len() == 0 && old(store).model().data.staged.dom().finite() && old(
            store,
        ).reliable() ==> r is Err && r->Err_0 is Parse,
        old(store).model().data.staged.dom().len() > 0 && old(store).reliable() ==> r is Ok,
        r matches Err(e) ==> e is Store || e is Parse,
        r matches Err(UseCaseError::Parse(_)) ==> final(store).model() == old(store).model(),
{
    proof {
        store.lemma_model_wf();
    }
    let changes = match store.staged() {
        Ok(c) => c,
        Err(e) => return Err(UseCaseError::Store(e)),
    };
    proof {
        let d = store.model().data;
        let cv = changes@.map_values(|c: Change| c@);
        if d.staged.dom().len() == 0 {
            assert(d.staged.dom() =~= Set::empty()) by {
                if exists|k: Seq<char>| d.staged.dom().contains(k) {
                    let k = choose|k: Seq<char>| d.staged.dom().contains(k);
                    assert(d.staged.dom().remove(k).len() < d.staged.dom().len());
                }
            }
            if changes@.len() > 0 {
                assert(d.staged.contains_key(cv[0].oid));
            }
        }
        if changes@.len() == 0 {
            assert forall|k: Seq<char>| !d.staged.contains_key(k) by {
                if d.staged.contains_key(k) {
                    let i = choose|i: int| 0 <= i < cv.len() && #[trigger] cv[i].oid == k;
                }
            }
            assert(d.staged =~= Map::empty());
        }
    }
    if changes.len() == 0 {
        proof {
            reveal_strlit("nothing to commit");
        }
        return Err(UseCaseError::Parse(String::from_str("nothing to commit")));
    }
    let id = new_commit_id(random);
    let record = CommitRecord { id, message: String::from_str(message), at: clock.now(), changes };
    match store.commit(&record) {
        Ok(()) => {},
        Err(e) => return Err(UseCaseError::Store(e)),
    }
    Ok(record)
}

/// Every commit, newest first.
pub fn log<S: CommitRepository>(store: &S) -> (r: Result<Vec<CommitRecord>, UseCaseError>)
    ensures
        r matches Ok(v) ==> record_views(v@) == store.model().data.commits.reverse(),
        r matches Err(e) ==> e is Store,
{
    match store.log() {
        Ok(v) => Ok(v),
        Err(e) => Err(UseCaseError::Store(e)),
    }
}

/// The stage after `changes` are committed is the stage without their oids.
proof fn lemma_applied_stage(
    committed: Map<Seq<char>, ObjectView>,
    staged: Map<Seq<char>, ChangeView>,
    changes: Seq<ChangeView>,
)
    ensures
        apply_changes(committed, staged, changes).1 == staged.remove_keys(
            changes.map_values(|c: ChangeView| c.oid).to_set(),
        ),
    decreases changes.len(),
{
    reveal(apply_changes);
    let keys = changes.map_values(|c: ChangeView| c.oid).to_set();
    if changes.len() == 0 {
        assert(keys =~= Set::empty());
        assert(staged.remove_keys(keys) =~= staged);
    } else {
        let c = changes[0];
        let committed2 = match c.after {
            Some(a) => committed.insert(c.oid, a),
            None => committed.remove(c.oid),
        };
        let rest = changes.drop_first();
        lemma_applied_stage(committed2, staged.remove(c.oid), rest);
        let ks = changes.map_values(|c: ChangeView| c.oid);
        let rks = rest.map_values(|c: ChangeView| c.oid);
        let rest_keys = rks.to_set();
        assert(keys =~= rest_keys.insert(c.oid)) by {
            assert forall|k: Seq<char>| keys.contains(k) implies rest_keys.insert(c.oid).contains(k) by {
                let i = choose|i: int| 0 <= i < ks.len() && #[trigger] ks[i] == k;
                if i > 0 {
                    assert(rks[i - 1] == k);
                }
            }
            assert forall|k: Seq<char>| rest_keys.insert(c.oid).contains(k) implies keys.contains(k) by {
                if k == c.oid {
                    assert(ks[0] == k);
                } else {
                    let i = choose|i: int| 0 <= i < rks.len() && #[trigger] rks[i] == k;
                    assert(ks[i + 1] == k);
                }
            }
        }
        assert(staged.remove(c.oid).remove_keys(rest_keys) =~= staged.remove_keys(keys));
    }
}

/// Applying changes of distinct oids leaves each at what its change
/// leaves, and every other oid as it was.
proof fn lemma_applied_committed(
    committed: Map<Seq<char>, ObjectView>,
    staged: Map<Seq<char>, ChangeView>,
    changes: Seq<ChangeView>,
)
    requires
        forall|i: int, j: int| 0 <= i < j < changes.len() ==> changes[i].oid != changes[j].oid,
    ensures
        forall|i: int| 0 <= i < changes.len() ==> #[trigger] apply_changes(committed, staged, changes).0.get(
            changes[i].oid,
        ) == changes[i].after,
        forall|k: Seq<char>| (forall|i: int| 0 <= i < changes.len() ==> #[trigger] changes[i].oid != k) ==> #[trigger]
            apply_changes(committed, staged, changes).0.get(k) == committed.get(k),
    decreases changes.len(),
{
    reveal(apply_changes);
    if changes.len() > 0 {
        let c = changes[0];
        let committed2 = match c.after {
            Some(a) => committed.insert(c.oid, a),
            None => committed.remove(c.oid),
        };
        let rest = changes.drop_first();
        assert forall|i: int, j: int| 0 <= i < j < rest.len() implies rest[i].oid != rest[j].oid by {
            assert(rest[i] == changes[i + 1] && rest[j] == changes[j + 1]);
        }
        lemma_applied_committed(committed2, staged.remove(c.oid), rest);
        let r = apply_changes(committed, staged, changes).0;
        assert(r == apply_changes(committed2, staged.remove(c.oid), rest).0);
        assert forall|i: int| 0 <= i < changes.len() implies #[trigger] r.get(changes[i].oid) == changes[i].after by {
            if i > 0 {
                assert(rest[i - 1] == changes[i]);
            } else {
                assert forall|m: int| 0 <= m < rest.len() implies #[trigger] rest[m].oid != c.oid by {
                    assert(rest[m] == changes[m + 1]);
                }
            }
        }
        assert forall|k: Seq<char>| (forall|i: int| 0 <= i < changes.len() ==> #[trigger] changes[i].oid != k) implies #[trigger] r.get(k)
            == committed.get(k) by {
            assert(changes[0].oid != k);
            assert forall|m: int| 0 <= m < rest.len() implies #[trigger] rest[m].oid != k by {
                assert(rest[m] == changes[m + 1]);
            }
        }
    }
}

/// Committing the stage makes each staged change the committed state of its
/// object, a deletion leaving nothing committed, and leaves every object not
/// staged, and the working layer, as they were; the record is added to the
/// history.
pub proof fn lemma_commit_records_the_stage(d: StoreData, record: CommitRecordView, k: Seq<char>)
    requires
        lists_changes(record.changes, d.staged),
    ensures
        d.staged.contains_key(k) ==> d.committed_with(record).committed.get(k) == d.staged[k].after,
        !d.staged.contains_key(k) ==> d.committed_with(record).committed.get(k) == d.committed.get(k),
        d.committed_with(record).working == d.working,
        d.committed_with(record).commits == d.commits.push(record),
{
    lemma_applied_committed(d.committed, d.staged, record.changes);
    if d.staged.contains_key(k) {
        let i = choose|i: int| 0 <= i < record.changes.len() && #[trigger] record.changes[i].oid == k;
        assert(apply_changes(d.committed, d.staged, record.changes).0.get(record.changes[i].oid) == record.changes[i].after);
    } else {
        assert forall|i: int| 0 <= i < record.changes.len() implies #[trigger] record.changes[i].oid != k by {}
    }
}

/// Committing everything the stage holds leaves the stage empty.
pub proof fn lemma_commit_empties_stage(d: StoreData, record: CommitRecordView)
    requires
        lists_changes(record.changes, d.staged),
    ensures
        d.committed_with(record).staged == Map::<Seq<char>, ChangeView>::empty(),
{
    lemma_applied_stage(d.committed, d.staged, record.changes);
    let ks = record.changes.map_values(|c: ChangeView| c.oid);
    let keys = ks.to_set();
    assert forall|k: Seq<char>| d.staged.contains_key(k) implies keys.contains(k) by {
        let i = choose|i: int| 0 <= i < record.changes.len() && #[trigger] record.changes[i].oid == k;
        assert(ks[i] == k);
    }
    assert(d.staged.remove_keys(keys) =~= Map::<Seq<char>, ChangeView>::empty());
}

} // verus!
