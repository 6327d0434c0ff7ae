//! Throwing a working change away: back to the last commit, and out of the
//! stage.

use vstd::prelude::*;

use crate::domain::{Change, Object, ObjectView, Oid, oid_texts, oids_contain, opt_object, short_text};
use crate::errors::{Refusal, UseCaseError};
use crate::ports::{ObjectRepository, StageRepository, StoreData, lists_changes};
use crate::use_cases::edit::deps_added;

verus! {

/// What restoring one oid did. `changed` is false when the working copy
/// already equalled the last commit and the stage held nothing for it.
#[derive(Debug, PartialEq, Eq)]
pub struct Restored {
    pub oid: Oid,
    pub changed: bool,
}

/// The oids of `oids`, each once, in the order first named.
pub open spec fn once_each(oids: Seq<Seq<char>>) -> Seq<Seq<char>> {
    deps_added(Seq::empty(), oids)
}

/// Appending what is not held yet keeps a list free of repeats.
proof fn lemma_once_each_unique(s: Seq<Seq<char>>, adds: Seq<Seq<char>>)
    requires
        s.no_duplicates(),
    ensures
        deps_added(s, adds).no_duplicates(),
    decreases adds.len(),
{
    if adds.len() > 0 {
        lemma_once_each_unique(s, adds.drop_last());
        let r = deps_added(s, adds.drop_last());
        if !r.contains(adds.last()) {
            assert forall|a: int, b: int| 0 <= a < r.len() + 1 && 0 <= b < r.len() + 1 && a != b implies r.push(
                adds.last(),
            )[a] != r.push(adds.last())[b] by {
                if a == r.len() {
                    assert(r.contains(r[b]));
                } else if b == r.len() {
                    assert(r.contains(r[a]));
                }
            }
        }
    }
}

/// Whether restoring `oid` changes anything in `d`.
pub open spec fn restore_changes(d: StoreData, oid: Seq<char>) -> bool {
    d.staged.contains_key(oid) || d.working.get(oid) != d.committed.get(oid)
}

/// `d` once every oid of `u` is back at its last commit and unstaged.
pub open spec fn restored_data(d: StoreData, u: Set<Seq<char>>) -> StoreData {
    StoreData {
        working: Map::new(
            |k: Seq<char>| d.working.contains_key(k) || u.contains(k),
            |k: Seq<char>|
                if u.contains(k) {
                    d.committed[k]
                } else {
                    d.working[k]
                },
        ),
        staged: d.staged.remove_keys(u),
        ..d
    }
}

/// Restoring sets each object named back to its last commit and unstages
/// it, and touches nothing else: every other object, staged change and
/// commit stays as it was.
pub proof fn lemma_restore_goes_back_to_the_commit(d: StoreData, u: Set<Seq<char>>, k: Seq<char>)
    requires
        forall|o: Seq<char>| #[trigger] u.contains(o) ==> d.committed.contains_key(o),
    ensures
        u.contains(k) ==> restored_data(d, u).working.get(k) == d.committed.get(k),
        u.contains(k) ==> !restored_data(d, u).staged.contains_key(k),
        !u.contains(k) ==> restored_data(d, u).working.get(k) == d.working.get(k),
        !u.contains(k) ==> restored_data(d, u).staged.get(k) == d.staged.get(k),
        restored_data(d, u).committed == d.committed,
        restored_data(d, u).commits == d.commits,
        restored_data(d, u).conflicts == d.conflicts,
{
}

/// The `k`th of `u` is the first with no commit behind it.
pub open spec fn first_uncommitted(d: StoreData, u: Seq<Seq<char>>, k: int) -> bool {
    &&& 0 <= k < u.len()
    &&& !d.committed.contains_key(u[k])
    &&& forall|j: int| 0 <= j < k ==> d.committed.contains_key(#[trigger] u[j])
}

/// Sets each object's working copy back to its last commit and drops
/// whatever the stage held for it, so afterwards the object equals the
/// commit and nothing about it is staged. Every oid is read before any is
/// written: an object with no commit behind it refuses the whole command
/// rather than leaving half of it done. A repeated oid answers once.
pub fn restore<S: ObjectRepository + StageRepository>(store: &mut S, oids: &Vec<Oid>) -> (r: Result<Vec<Restored>, UseCaseError>)
    ensures
        final(store).model().unit == old(store).model().unit,
        r matches Ok(v) ==> {
            let d = old(store).model().data;
            let u = once_each(oid_texts(oids@));
            &&& forall|i: int| 0 <= i < u.len() ==> d.committed.contains_key(#[trigger] u[i])
            &&& v@.len() == u.len()
            &&& forall|i: int|
                0 <= i < u.len() ==> (#[trigger] v@[i]).oid@ == u[i] && v@[i].changed == restore_changes(d, u[i])
            &&& final(store).model() == old(store).model().with(restored_data(d, u.to_set()))
        },
        (exists|i: int| 0 <= i < oids@.len() && !old(store).model().data.committed.contains_key(#[trigger] oids@[i]@))
            ==> r is Err,
        r matches Err(UseCaseError::Refused(Refusal::NotCommitted(o))) ==> final(store).model() == old(store).model()
            && !old(store).model().data.committed.contains_key(o@) && old(store).model().data.working.contains_key(o@)
            && oid_texts(oids@).contains(o@),
        r matches Err(UseCaseError::Refused(Refusal::NoSuchObject(s))) ==> final(store).model() == old(store).model()
            && exists|i: int|
            0 <= i < oids@.len() && !old(store).model().data.committed.contains_key(#[trigger] oids@[i]@)
                && !old(store).model().data.working.contains_key(oids@[i]@) && s@ == short_text(oids@[i]@),
        r matches Err(UseCaseError::Refused(Refusal::NotCommitted(o))) ==> exists|k: int|
            #[trigger] first_uncommitted(old(store).model().data, once_each(oid_texts(oids@)), k) && once_each(
                oid_texts(oids@),
            )[k] == o@,
        r matches Err(UseCaseError::Refused(Refusal::NoSuchObject(s))) ==> exists|k: int|
            #[trigger] first_uncommitted(old(store).model().data, once_each(oid_texts(oids@)), k) && short_text(
                once_each(oid_texts(oids@))[k],
            ) == s@,
        r matches Err(e) ==> e is Store || e matches UseCaseError::Refused(Refusal::NotCommitted(_))
            || e matches UseCaseError::Refused(Refusal::NoSuchObject(_)),
{
    proof {
        store.lemma_model_wf();
    }
    let ghost m0 = store.model();
    let ghost d = m0.data;
    let ghost ov = oid_texts(oids@);
    let mut unique: Vec<Oid> = Vec::new();
    let mut i: usize = 0;
    while i < oids.len()
        invariant
            ov == oid_texts(oids@),
            i <= oids.len(),
            oid_texts(unique@) == deps_added(Seq::empty(), ov.take(i as int)),
            forall|j: int| 0 <= j < unique@.len() ==> ov.contains(#[trigger] oid_texts(unique@)[j]),
            forall|j: int| 0 <= j < i ==> oid_texts(unique@).contains(#[trigger] ov[j]),
        decreases oids.len() - i,
    {
        proof {
            assert(ov.take(i + 1).drop_last() =~= ov.take(i as int));
            assert(ov.take(i + 1).last() == ov[i as int]);
        }
        let ghost before = oid_texts(unique@);
        if !oids_contain(&unique, &oids[i]) {
            unique.push(oids[i].copy());
            assert(oid_texts(unique@) =~= before.push(ov[i as int]));
            proof {
                assert forall|j: int| 0 <= j < i + 1 implies oid_texts(unique@).contains(#[trigger] ov[j]) by {
                    if j < i {
                        let n = choose|n: int| 0 <= n < before.len() && before[n] == ov[j];
                        assert(oid_texts(unique@)[n] == ov[j]);
                    } else {
                        assert(oid_texts(unique@)[before.len() as int] == ov[j]);
                    }
                }
                assert forall|j: int| 0 <= j < unique@.len() implies ov.contains(#[trigger] oid_texts(unique@)[j]) by {
                    if j < before.len() {
                        assert(oid_texts(unique@)[j] == before[j]);
                    } else {
                        assert(ov[i as int] == oid_texts(unique@)[j]);
                    }
                }
            }
        }
        i = i + 1;
    }
    assert(ov.take(oids.len() as int) =~= ov);
    let ghost u = oid_texts(unique@);
    proof {
        lemma_once_each_unique(Seq::empty(), ov);
        assert(u.take(0).to_set() =~= Set::<Seq<char>>::empty());
        assert(restored_data(d, Set::empty()).working =~= d.working);
        assert(restored_data(d, Set::empty()).staged =~= d.staged);
    }
    let mut committed: Vec<Object> = Vec::new();
    let mut k: usize = 0;
    while k < unique.len()
        invariant
            d == store.model().data,
            m0 == old(store).model(),
            store.model() == m0,
            u == oid_texts(unique@),
            u == once_each(ov),
            ov == oid_texts(oids@),
            forall|j: int| 0 <= j < unique@.len() ==> ov.contains(#[trigger] oid_texts(unique@)[j]),
            forall|j: int| 0 <= j < oids@.len() ==> u.contains(#[trigger] ov[j]),
            k <= unique.len(),
            committed@.len() == k,
            forall|j: int| 0 <= j < k ==> d.committed.get(#[trigger] u[j]) == Some(committed@[j]@),
        decreases unique.len() - k,
    {
        let oid = &unique[k];
        assert(u[k as int] == oid@);
        match store.committed(oid) {
            Ok(Some(object)) => {
                committed.push(object);
            },
            Ok(None) => {
                proof {
                    assert forall|j: int| 0 <= j < k implies d.committed.contains_key(#[trigger] u[j]) by {
                        assert(d.committed.get(u[j]) == Some(committed@[j]@));
                    }
                    assert(first_uncommitted(d, u, k as int));
                }
                match store.get(oid) {
                    Ok(Some(_)) => return Err(UseCaseError::Refused(Refusal::NotCommitted(oid.copy()))),
                    Ok(None) => {
                        proof {
                            assert(ov.contains(u[k as int]));
                            let n = choose|n: int| 0 <= n < ov.len() && ov[n] == u[k as int];
                            assert(oids@[n]@ == ov[n]);
                        }
                        return Err(UseCaseError::Refused(Refusal::NoSuchObject(oid.short())));
                    },
                    Err(e) => return Err(UseCaseError::Store(e)),
                }
            },
            Err(e) => return Err(UseCaseError::Store(e)),
        }
        k = k + 1;
    }
    proof {
        assert forall|i: int| 0 <= i < oids@.len() implies d.committed.contains_key(#[trigger] oids@[i]@) by {
            assert(ov[i] == oids@[i]@);
            assert(u.contains(ov[i]));
            let n = choose|n: int| 0 <= n < u.len() && u[n] == ov[i];
            assert(d.committed.get(u[n]) is Some);
        }
    }
    let staged = match store.staged() {
        Ok(s) => s,
        Err(e) => return Err(UseCaseError::Store(e)),
    };
    let mut restored: Vec<Restored> = Vec::new();
    let mut n: usize = 0;
    while n < unique.len()
        invariant
            d == m0.data,
            m0 == old(store).model(),
            d.wf(),
            u == oid_texts(unique@),
            u.no_duplicates(),
            lists_changes(staged@.map_values(|c: Change| c@), d.staged),
            committed@.len() == unique@.len(),
            forall|j: int| 0 <= j < u.len() ==> d.committed.get(#[trigger] u[j]) == Some(committed@[j]@),
            forall|i: int| 0 <= i < oids@.len() ==> d.committed.contains_key(#[trigger] oids@[i]@),
            n <= unique.len(),
            restored@.len() == n,
            forall|j: int| 0 <= j < n ==> (#[trigger] restored@[j]).oid@ == u[j] && restored@[j].changed == restore_changes(d, u[j]),
            store.model() == m0.with(restored_data(d, u.take(n as int).to_set())),
        decreases unique.len() - n,
    {
        let oid = &unique[n];
        assert(u[n as int] == oid@);
        let ghost done = u.take(n as int).to_set();
        assert(!done.contains(oid@)) by {
            if done.contains(oid@) {
                let j = choose|j: int| 0 <= j < n && u.take(n as int)[j] == oid@;
                assert(u[j] == u[n as int]);
            }
        }
        let in_stage = crate::use_cases::status::staged_has(&staged, oid, Ghost(d.staged));
        let current = match store.get(oid) {
            Ok(c) => c,
            Err(e) => return Err(UseCaseError::Store(e)),
        };
        let same = match &current {
            Some(c) => c.same(&committed[n]),
            None => false,
        };
        assert(opt_object(current) == d.working.get(oid@));
        let changed = in_stage || !same;
        if changed {
            match store.put(&committed[n]) {
                Ok(()) => {},
                Err(e) => return Err(UseCaseError::Store(e)),
            }
            match store.unstage(oid) {
                Ok(()) => {},
                Err(e) => return Err(UseCaseError::Store(e)),
            }
        }
        restored.push(Restored { oid: oid.copy(), changed });
        proof {
            let after = u.take(n + 1).to_set();
            assert(u.take(n + 1) =~= u.take(n as int).push(oid@));
            crate::domain::lemma_to_set_push(u.take(n as int), oid@);
            assert(after =~= done.insert(oid@));
            let want = restored_data(d, after);
            let have = store.model().data;
            assert(d.committed[oid@].oid() == oid@);
            assert forall|key: Seq<char>| #[trigger] have.working.contains_key(key) <==> want.working.contains_key(key) by {}
            assert forall|key: Seq<char>| #[trigger] have.working.contains_key(key) implies have.working[key] == want.working[key] by {
                if key == oid@ && !changed {
                    assert(d.working.get(oid@) == Some(committed@[n as int]@));
                }
            }
            assert(have.working =~= want.working);
            assert(have.staged =~= want.staged) by {
                if !changed {
                    assert(!d.staged.contains_key(oid@));
                }
            }
        }
        n = n + 1;
    }
    assert(u.take(unique.len() as int) =~= u);
    Ok(restored)
}

} // verus!
