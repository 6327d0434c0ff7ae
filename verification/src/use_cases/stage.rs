//! Staging: the change each object made since the last commit, set aside
//! for the next one.

use vstd::prelude::*;

use crate::domain::{
    Change, ChangeView, CommitRecord, Oid, Op, change_views, diff, diff_spec, oid_texts, oids_contain,
    opt_change, record_views, short_text, text_less, text_lt,
};
use crate::errors::{Refusal, UseCaseError};
use crate::ports::{CommitRepository, ObjectRepository, StageRepository, StoreData, lists_objects, lists_oids, object_views};
use crate::use_cases::edit::{insert_sorted, label_added};

verus! {

/// Whether `oid` names anything in the working layer or the last commit.
pub open spec fn known(d: StoreData, oid: Seq<char>) -> bool {
    d.working.contains_key(oid) || d.committed.contains_key(oid)
}

/// The change staging `oid` records: the last commit to the working copy.
pub open spec fn stage_change(d: StoreData, oid: Seq<char>) -> Option<ChangeView> {
    diff_spec(oid, d.committed.get(oid), d.working.get(oid))
}

/// Staging records exactly the difference between the last commit and the
/// working copy: nothing when they agree; otherwise a change from the one
/// to the other, a create when nothing was committed, a delete when nothing
/// is left, and an update in between.
pub proof fn lemma_staging_records_the_difference(d: StoreData, oid: Seq<char>)
    ensures
        stage_change(d, oid) is None <==> d.committed.get(oid) == d.working.get(oid),
        stage_change(d, oid) matches Some(c) ==> {
            &&& c.oid == oid
            &&& c.before == d.committed.get(oid)
            &&& c.after == d.working.get(oid)
            &&& (c.op == Op::Create) == (d.committed.get(oid) is None)
            &&& (c.op == Op::Delete) == (d.working.get(oid) is None)
        },
{
}

/// The stage once each of `oids` is staged, in order.
pub open spec fn staged_all(d: StoreData, oids: Seq<Seq<char>>) -> Map<Seq<char>, ChangeView>
    decreases oids.len(),
{
    if oids.len() == 0 {
        d.staged
    } else {
        let s = staged_all(d, oids.drop_last());
        match stage_change(d, oids.last()) {
            Some(c) => StoreData { staged: s, ..d }.staged_with(c),
            None => s,
        }
    }
}

/// The changes staging each of `oids` records, in order; an object that
/// did not change records none.
pub open spec fn stage_changes(d: StoreData, oids: Seq<Seq<char>>) -> Seq<ChangeView>
    decreases oids.len(),
{
    if oids.len() == 0 {
        Seq::empty()
    } else {
        let r = stage_changes(d, oids.drop_last());
        match stage_change(d, oids.last()) {
            Some(c) => r.push(c),
            None => r,
        }
    }
}

/// Stages the change each of `oids` made since the last commit; an oid that
/// names nothing in either layer is refused.
pub fn add<S: ObjectRepository + StageRepository>(store: &mut S, oids: &Vec<Oid>) -> (r: Result<Vec<Change>, UseCaseError>)
    ensures
        final(store).model().unit == old(store).model().unit,
        r matches Ok(v) ==> {
            let d = old(store).model().data;
            &&& forall|i: int| 0 <= i < oids@.len() ==> known(d, #[trigger] oids@[i]@)
            &&& change_views(v@) == stage_changes(d, oid_texts(oids@))
            &&& final(store).model() == old(store).model().with(
                StoreData { staged: staged_all(d, oid_texts(oids@)), ..d },
            )
        },
        (exists|i: int| 0 <= i < oids@.len() && !known(old(store).model().data, #[trigger] oids@[i]@)) ==> r is Err,
        r matches Err(UseCaseError::Refused(Refusal::NoSuchObject(s))) ==> exists|i: int|
            0 <= i < oids@.len() && !known(old(store).model().data, #[trigger] oids@[i]@) && s@ == short_text(oids@[i]@),
        r matches Err(e) ==> e is Store || e matches UseCaseError::Refused(Refusal::NoSuchObject(_)),
{
    let ghost m0 = store.model();
    let ghost d = m0.data;
    let ghost ov = oid_texts(oids@);
    let mut staged: Vec<Change> = Vec::new();
    let mut i: usize = 0;
    while i < oids.len()
        invariant
            m0 == old(store).model(),
            d == m0.data,
            ov == oid_texts(oids@),
            i <= oids.len(),
            forall|j: int| 0 <= j < i ==> known(d, #[trigger] oids@[j]@),
            change_views(staged@) == stage_changes(d, ov.take(i as int)),
            store.model() == m0.with((StoreData { staged: staged_all(d, ov.take(i as int)), ..d })),
        decreases oids.len() - i,
    {
        let oid = &oids[i];
        proof {
            assert(ov.take(i + 1).drop_last() =~= ov.take(i as int));
            assert(ov.take(i + 1).last() == oid@);
        }
        let working = match store.get(oid) {
            Ok(w) => w,
            Err(e) => return Err(UseCaseError::Store(e)),
        };
        let committed = match store.committed(oid) {
            Ok(c) => c,
            Err(e) => return Err(UseCaseError::Store(e)),
        };
        if working.is_none() && committed.is_none() {
            return Err(UseCaseError::Refused(Refusal::NoSuchObject(oid.short())));
        }
        let base = match &committed {
            Some(c) => Some(c),
            None => None,
        };
        let work = match &working {
            Some(w) => Some(w),
            None => None,
        };
        match diff(oid, base, work) {
            Some(change) => {
                let ghost before = change_views(staged@);
                let kept = change.copy();
                match store.stage(change) {
                    Ok(()) => {},
                    Err(e) => return Err(UseCaseError::Store(e)),
                }
                staged.push(kept);
                assert(change_views(staged@) =~= before.push(stage_change(d, oid@).unwrap()));
            },
            None => {},
        }
        i = i + 1;
    }
    assert(ov.take(oids.len() as int) =~= ov);
    Ok(staged)
}

/// `v` with `o` inserted in order unless it is already there.
fn insert_oid(v: &mut Vec<Oid>, o: &Oid)
    ensures
        oid_texts(final(v)@) == label_added(oid_texts(old(v)@), o@),
{
    if oids_contain(v, o) {
        return;
    }
    let ghost s = oid_texts(v@);
    let mut k: usize = 0;
    while k < v.len() && !text_less(o.as_str(), v[k].as_str())
        invariant
            s == oid_texts(v@),
            k <= v.len(),
            forall|j: int| 0 <= j < k ==> !text_lt(o@, #[trigger] s[j]),
        decreases v.len() - k,
    {
        k = k + 1;
    }
    proof {
        if k < v.len() {
            assert(text_lt(o@, s[k as int]));
        }
        crate::use_cases::edit::lemma_insert_sorted_at(s, o@, k as int);
    }
    v.insert(k, o.copy());
    assert(oid_texts(v@) =~= s.take(k as int) + seq![o@] + s.skip(k as int));
}

/// Adding a member keeps a list free of repeats and adds it to its set.
proof fn lemma_label_added(s: Seq<Seq<char>>, l: Seq<char>)
    requires
        s.no_duplicates(),
    ensures
        label_added(s, l).no_duplicates(),
        forall|x: Seq<char>| #[trigger] label_added(s, l).contains(x) <==> s.contains(x) || x == l,
{
    if !s.contains(l) {
        lemma_insert_sorted_members(s, l);
    }
}

proof fn lemma_insert_sorted_members(s: Seq<Seq<char>>, l: Seq<char>)
    requires
        s.no_duplicates(),
        !s.contains(l),
    ensures
        insert_sorted(s, l).no_duplicates(),
        forall|x: Seq<char>| #[trigger] insert_sorted(s, l).contains(x) <==> s.contains(x) || x == l,
    decreases s.len(),
{
    if s.len() == 0 {
        assert(insert_sorted(s, l) =~= seq![l]);
        assert forall|x: Seq<char>| #[trigger] insert_sorted(s, l).contains(x) <==> s.contains(x) || x == l by {
            if x == l {
                assert(insert_sorted(s, l)[0] == l);
            }
        }
    } else if text_lt(l, s[0]) {
        let r = seq![l] + s;
        assert(insert_sorted(s, l) == r);
        assert forall|x: Seq<char>| #[trigger] r.contains(x) <==> s.contains(x) || x == l by {
            if s.contains(x) {
                let j = choose|j: int| 0 <= j < s.len() && s[j] == x;
                assert(r[j + 1] == x);
            }
            if x == l {
                assert(r[0] == l);
            }
            if r.contains(x) {
                let j = choose|j: int| 0 <= j < r.len() && r[j] == x;
                if j > 0 {
                    assert(s[j - 1] == x);
                }
            }
        }
    } else {
        let t = s.drop_first();
        assert(!t.contains(l)) by {
            if t.contains(l) {
                let j = choose|j: int| 0 <= j < t.len() && t[j] == l;
                assert(s[j + 1] == l);
            }
        }
        lemma_insert_sorted_members(t, l);
        let it = insert_sorted(t, l);
        let r = seq![s[0]] + it;
        assert(insert_sorted(s, l) == r);
        assert(!it.contains(s[0])) by {
            if it.contains(s[0]) {
                if t.contains(s[0]) {
                    let j = choose|j: int| 0 <= j < t.len() && t[j] == s[0];
                    assert(s[j + 1] == s[0]);
                } else {
                    assert(s[0] == l);
                }
            }
        }
        assert forall|x: Seq<char>| #[trigger] r.contains(x) <==> s.contains(x) || x == l by {
            if r.contains(x) {
                let j = choose|j: int| 0 <= j < r.len() && r[j] == x;
                if j == 0 {
                    assert(s[0] == x);
                } else {
                    assert(it[j - 1] == x);
                    assert(it.contains(x));
                    if t.contains(x) {
                        let n = choose|n: int| 0 <= n < t.len() && t[n] == x;
                        assert(s[n + 1] == x);
                        assert(s.contains(x));
                    }
                }
            }
            if s.contains(x) {
                let j = choose|j: int| 0 <= j < s.len() && s[j] == x;
                if j == 0 {
                    assert(r[0] == x);
                } else {
                    assert(t[j - 1] == x);
                    assert(t.contains(x));
                    assert(it.contains(x));
                    let n = choose|n: int| 0 <= n < it.len() && it[n] == x;
                    assert(r[n + 1] == x);
                }
            }
            if x == l {
                assert(it.contains(l));
                let n = choose|n: int| 0 <= n < it.len() && it[n] == l;
                assert(r[n + 1] == l);
            }
        }
        assert forall|a: int, b: int| 0 <= a < r.len() && 0 <= b < r.len() && a != b implies r[a] != r[b] by {
            if a == 0 && b > 0 {
                assert(it.contains(r[b]));
            } else if b == 0 && a > 0 {
                assert(it.contains(r[a]));
            } else if a > 0 && b > 0 {
                assert(r[a] == it[a - 1] && r[b] == it[b - 1]);
            }
        }
    }
}

/// Every oid the commits of `d` touched.
pub open spec fn committed_oids(d: StoreData) -> Set<Seq<char>> {
    Set::new(
        |o: Seq<char>|
            exists|i: int, j: int|
                0 <= i < d.commits.len() && 0 <= j < d.commits[i].changes.len() && #[trigger] d.commits[i].changes[j].oid
                    == o,
    )
}

/// Every oid that could still need staging: every working object, plus
/// every oid any commit has touched, so a committed object deleted from
/// working but not yet staged is not missed.
pub open spec fn tracked_set(d: StoreData) -> Set<Seq<char>> {
    d.working.dom().union(committed_oids(d))
}

/// The tracked oids, each once, in order.
pub fn tracked_oids<S: ObjectRepository + CommitRepository>(store: &S) -> (r: Result<Vec<Oid>, UseCaseError>)
    ensures
        r matches Ok(v) ==> lists_oids(oid_texts(v@), tracked_set(store.model().data)),
        r matches Err(e) ==> e is Store,
{
    let ghost d = store.model().data;
    let all = match store.all() {
        Ok(a) => a,
        Err(e) => return Err(UseCaseError::Store(e)),
    };
    let mut oids: Vec<Oid> = Vec::new();
    let mut i: usize = 0;
    while i < all.len()
        invariant
            d == store.model().data,
            lists_objects(object_views(all@), d.working),
            i <= all.len(),
            oid_texts(oids@).no_duplicates(),
            forall|x: Seq<char>| oid_texts(oids@).contains(x) <==> exists|j: int| 0 <= j < i && #[trigger] object_views(all@)[j].oid() == x,
        decreases all.len() - i,
    {
        let ghost before = oid_texts(oids@);
        proof {
            lemma_label_added(before, all@[i as int]@.oid());
        }
        insert_oid(&mut oids, all[i].oid());
        proof {
            assert(object_views(all@)[i as int] == all@[i as int]@);
            assert forall|x: Seq<char>| oid_texts(oids@).contains(x) <==> exists|j: int| 0 <= j < i + 1 && #[trigger] object_views(all@)[j].oid() == x by {
                if oid_texts(oids@).contains(x) && x != all@[i as int]@.oid() {
                    assert(before.contains(x));
                }
            }
        }
        i = i + 1;
    }
    proof {
        let vs = object_views(all@);
        assert forall|x: Seq<char>| oid_texts(oids@).contains(x) <==> d.working.contains_key(x) by {
            if d.working.contains_key(x) {
                let j = choose|j: int| 0 <= j < vs.len() && #[trigger] vs[j].oid() == x;
                assert(vs[j].oid() == x);
            }
            if oid_texts(oids@).contains(x) {
                let j = choose|j: int| 0 <= j < all@.len() && #[trigger] object_views(all@)[j].oid() == x;
                assert(d.working.contains_key(vs[j].oid()));
            }
        }
    }
    let log = match store.log() {
        Ok(l) => l,
        Err(e) => return Err(UseCaseError::Store(e)),
    };
    let ghost lv = log@.map_values(|c: CommitRecord| c@);
    proof {
        assert(lv == d.commits.reverse());
    }
    let mut k: usize = 0;
    while k < log.len()
        invariant
            d == store.model().data,
            lv == log@.map_values(|c: CommitRecord| c@),
            lv == d.commits.reverse(),
            lists_objects(object_views(all@), d.working),
            k <= log.len(),
            oid_texts(oids@).no_duplicates(),
            forall|x: Seq<char>| oid_texts(oids@).contains(x) <==> (d.working.contains_key(x) || exists|a: int, b: int|
                0 <= a < k && 0 <= b < lv[a].changes.len() && #[trigger] lv[a].changes[b].oid == x),
        decreases log.len() - k,
    {
        let record = &log[k];
        assert(lv[k as int] == record@);
        let mut c: usize = 0;
        while c < record.changes.len()
            invariant
                d == store.model().data,
                lv == log@.map_values(|c: CommitRecord| c@),
                lv == d.commits.reverse(),
                k < log.len(),
                lv[k as int] == record@,
                c <= record.changes.len(),
                oid_texts(oids@).no_duplicates(),
                forall|x: Seq<char>| oid_texts(oids@).contains(x) <==> (d.working.contains_key(x) || (exists|a: int, b: int|
                    0 <= a < k && 0 <= b < lv[a].changes.len() && #[trigger] lv[a].changes[b].oid == x) || exists|b: int|
                    0 <= b < c && #[trigger] lv[k as int].changes[b].oid == x),
            decreases record.changes.len() - c,
        {
            let ghost before = oid_texts(oids@);
            let o = &record.changes[c].oid;
            assert(lv[k as int].changes[c as int].oid == o@);
            proof {
                lemma_label_added(before, o@);
            }
            insert_oid(&mut oids, o);
            proof {
                assert forall|x: Seq<char>| oid_texts(oids@).contains(x) <==> (d.working.contains_key(x) || (exists|a: int, b: int|
                    0 <= a < k && 0 <= b < lv[a].changes.len() && #[trigger] lv[a].changes[b].oid == x) || exists|b: int|
                    0 <= b < c + 1 && #[trigger] lv[k as int].changes[b].oid == x) by {
                    if x == o@ {
                        assert(lv[k as int].changes[c as int].oid == x);
                    }
                }
            }
            c = c + 1;
        }
        proof {
            assert forall|x: Seq<char>| oid_texts(oids@).contains(x) <==> (d.working.contains_key(x) || exists|a: int, b: int|
                0 <= a < k + 1 && 0 <= b < lv[a].changes.len() && #[trigger] lv[a].changes[b].oid == x) by {
                if exists|a: int, b: int| 0 <= a < k + 1 && 0 <= b < lv[a].changes.len() && #[trigger] lv[a].changes[b].oid == x {
                    let (a, b) = choose|a: int, b: int| 0 <= a < k + 1 && 0 <= b < lv[a].changes.len() && #[trigger] lv[a].changes[b].oid == x;
                    if a == k {
                        assert(lv[k as int].changes[b].oid == x);
                    }
                }
            }
        }
        k = k + 1;
    }
    proof {
        let t = tracked_set(d);
        assert forall|x: Seq<char>| t.contains(x) <==> oid_texts(oids@).contains(x) by {
            if committed_oids(d).contains(x) {
                let (a, b) = choose|a: int, b: int|
                    0 <= a < d.commits.len() && 0 <= b < d.commits[a].changes.len() && #[trigger] d.commits[a].changes[b].oid == x;
                let ra = d.commits.len() - 1 - a;
                assert(lv[ra] == d.commits[a]);
                assert(lv[ra].changes[b].oid == x);
            }
            if exists|a: int, b: int| 0 <= a < log@.len() && 0 <= b < lv[a].changes.len() && #[trigger] lv[a].changes[b].oid == x {
                let (a, b) = choose|a: int, b: int| 0 <= a < log@.len() && 0 <= b < lv[a].changes.len() && #[trigger] lv[a].changes[b].oid == x;
                let ca = d.commits.len() - 1 - a;
                assert(lv[a] == d.commits[ca]);
                assert(d.commits[ca].changes[b].oid == x);
            }
        }
    }
    Ok(oids)
}

/// `d1` is `d` once every tracked oid, listed as `t`, is staged, which
/// recorded `changes`.
pub open spec fn staged_every(d: StoreData, d1: StoreData, t: Seq<Seq<char>>, changes: Seq<ChangeView>) -> bool {
    &&& lists_oids(t, tracked_set(d))
    &&& forall|i: int| 0 <= i < t.len() ==> known(d, #[trigger] t[i])
    &&& changes == stage_changes(d, t)
    &&& d1 == StoreData { staged: staged_all(d, t), ..d }
}

/// Every working object that differs from committed, plus every committed
/// object missing from working, staged as a delete.
pub fn add_all<S: ObjectRepository + StageRepository + CommitRepository>(store: &mut S) -> (r: Result<Vec<Change>, UseCaseError>)
    ensures
        final(store).model().unit == old(store).model().unit,
        r matches Ok(v) ==> final(store).model() == old(store).model().with(final(store).model().data) && exists|
            t: Seq<Seq<char>>,
        | #[trigger] staged_every(old(store).model().data, final(store).model().data, t, change_views(v@)),
        (exists|x: Seq<char>| tracked_set(old(store).model().data).contains(x) && !#[trigger] known(old(store).model().data, x))
            ==> r is Err,
        r matches Err(UseCaseError::Refused(Refusal::NoSuchObject(s))) ==> exists|x: Seq<char>|
            tracked_set(old(store).model().data).contains(x) && !#[trigger] known(old(store).model().data, x) && s@
                == short_text(x),
        r matches Err(e) ==> e is Store || e matches UseCaseError::Refused(Refusal::NoSuchObject(_)),
{
    let list = match tracked_oids(store) {
        Ok(l) => l,
        Err(e) => return Err(e),
    };
    let ghost d = store.model().data;
    proof {
        if exists|x: Seq<char>| tracked_set(d).contains(x) && !#[trigger] known(d, x) {
            let x = choose|x: Seq<char>| tracked_set(d).contains(x) && !#[trigger] known(d, x);
            assert(oid_texts(list@).contains(x));
            let i = choose|i: int| 0 <= i < oid_texts(list@).len() && oid_texts(list@)[i] == x;
            assert(list@[i]@ == x);
        }
    }
    let r = self::add(store, &list);
    proof {
        if r is Ok {
            let v = r->Ok_0;
            assert forall|i: int| 0 <= i < oid_texts(list@).len() implies known(d, #[trigger] oid_texts(list@)[i]) by {
                assert(known(d, list@[i]@));
            }
            assert(staged_every(d, store.model().data, oid_texts(list@), change_views(v@)));
        }
        if r matches Err(UseCaseError::Refused(Refusal::NoSuchObject(_))) {
            let s = r->Err_0->Refused_0->NoSuchObject_0;
            let i = choose|i: int| 0 <= i < list@.len() && !known(d, #[trigger] list@[i]@) && s@ == short_text(list@[i]@);
            assert(oid_texts(list@)[i] == list@[i]@);
            assert(tracked_set(d).contains(list@[i]@));
        }
    }
    r
}

/// Drops what the stage holds for each of `oids`, or everything when none
/// is named.
pub fn reset<S: StageRepository>(store: &mut S, oids: &Vec<Oid>) -> (r: Result<(), UseCaseError>)
    ensures
        final(store).model().unit == old(store).model().unit,
        r is Ok ==> final(store).model() == old(store).model().with(
            StoreData {
                staged: if oids@.len() == 0 {
                    Map::empty()
                } else {
                    old(store).model().data.staged.remove_keys(oid_texts(oids@).to_set())
                },
                ..old(store).model().data
            },
        ),
        r matches Err(e) ==> e is Store,
{
    let ghost m0 = store.model();
    let ghost d = m0.data;
    if oids.len() == 0 {
        match store.unstage_all() {
            Ok(()) => {},
            Err(e) => return Err(UseCaseError::Store(e)),
        }
        return Ok(());
    }
    assert(oid_texts(oids@).take(0).to_set() =~= Set::<Seq<char>>::empty());
    assert(d.staged.remove_keys(Set::<Seq<char>>::empty()) =~= d.staged);
    let mut i: usize = 0;
    while i < oids.len()
        invariant
            m0 == old(store).model(),
            d == m0.data,
            i <= oids.len(),
            store.model() == m0.with((StoreData { staged: d.staged.remove_keys(oid_texts(oids@).take(i as int).to_set()), ..d })),
        decreases oids.len() - i,
    {
        match store.unstage(&oids[i]) {
            Ok(()) => {},
            Err(e) => return Err(UseCaseError::Store(e)),
        }
        proof {
            let before = oid_texts(oids@).take(i as int).to_set();
            let after = oid_texts(oids@).take(i + 1).to_set();
            assert(oid_texts(oids@).take(i + 1) =~= oid_texts(oids@).take(i as int).push(oids@[i as int]@));
            crate::domain::lemma_to_set_push(oid_texts(oids@).take(i as int), oids@[i as int]@);
            assert(after =~= before.insert(oids@[i as int]@));
            assert(d.staged.remove_keys(before).remove(oids@[i as int]@) =~= d.staged.remove_keys(after));
        }
        i = i + 1;
    }
    assert(oid_texts(oids@).take(oids.len() as int) =~= oid_texts(oids@));
    Ok(())
}

} // verus!
