//! What the working layer, the stage and the remotes have that the last
//! commit does not.

use vstd::prelude::*;

use crate::domain::{Change, ChangeView, Object, ObjectView, Oid, change_views, copy_opt, diff, diff_spec, opt_object, oid_texts};
use crate::errors::UseCaseError;
use crate::ports::{
    CommitRepository, Conflict, ConflictRepository, Notice, NoticeRepository, ObjectRepository, RemoteName,
    StageRepository, StoreData, conflict_views, lists_changes, lists_conflicts, lists_oids, notice_views,
};
use crate::use_cases::stage::{tracked_oids, tracked_set};

verus! {

/// Everything `status` reports.
#[derive(Debug)]
pub struct Status {
    pub staged: Vec<Change>,
    pub unstaged: Vec<Change>,
    pub conflicts: Vec<Conflict>,
    pub notices: Vec<Notice>,
    /// How many commits each remote asked about has not taken.
    pub unpushed: Vec<(RemoteName, usize)>,
}

/// What the stage would leave of `oid`: the staged change's result, or the
/// last commit when nothing is staged.
pub open spec fn staged_base(d: StoreData, oid: Seq<char>) -> Option<ObjectView> {
    match d.staged.get(oid) {
        Some(c) => c.after,
        None => d.committed.get(oid),
    }
}

/// The change the working copy of `oid` makes over what the stage would
/// leave.
pub open spec fn working_change(d: StoreData, oid: Seq<char>) -> Option<ChangeView> {
    diff_spec(oid, staged_base(d, oid), d.working.get(oid))
}

/// An object shows an unstaged change exactly when its working copy differs
/// from what the stage would leave, its staged change's result or else its
/// last commit; the change runs from that to the working copy.
pub proof fn lemma_unstaged_is_what_the_stage_misses(d: StoreData, oid: Seq<char>)
    ensures
        d.staged.contains_key(oid) ==> (working_change(d, oid) is None <==> d.working.get(oid)
            == d.staged[oid].after),
        !d.staged.contains_key(oid) ==> (working_change(d, oid) is None <==> d.working.get(oid) == d.committed.get(
            oid,
        )),
        working_change(d, oid) matches Some(c) ==> c.oid == oid && c.after == d.working.get(oid) && (
        d.staged.contains_key(oid) ==> c.before == d.staged[oid].after) && (!d.staged.contains_key(oid)
            ==> c.before == d.committed.get(oid)),
{
}

/// The unstaged changes of each of `oids`, in order.
pub open spec fn working_changes(d: StoreData, oids: Seq<Seq<char>>) -> Seq<ChangeView>
    decreases oids.len(),
{
    if oids.len() == 0 {
        Seq::empty()
    } else {
        let r = working_changes(d, oids.drop_last());
        match working_change(d, oids.last()) {
            Some(c) => r.push(c),
            None => r,
        }
    }
}

/// `changes` are the unstaged changes of every tracked oid, listed as `t`.
pub open spec fn unstaged_as(d: StoreData, t: Seq<Seq<char>>, changes: Seq<ChangeView>) -> bool {
    lists_oids(t, tracked_set(d)) && changes == working_changes(d, t)
}

/// `changes` are the unstaged changes of every tracked oid, in some order.
pub open spec fn unstaged_of(d: StoreData, changes: Seq<ChangeView>) -> bool {
    exists|t: Seq<Seq<char>>| #[trigger] unstaged_as(d, t, changes)
}

/// What the stage holds.
pub fn diff_staged<S: StageRepository>(store: &S) -> (r: Result<Vec<Change>, UseCaseError>)
    ensures
        r matches Ok(v) ==> lists_changes(change_views(v@), store.model().data.staged),
        r matches Err(e) ==> e is Store,
{
    match store.staged() {
        Ok(v) => Ok(v),
        Err(e) => Err(UseCaseError::Store(e)),
    }
}

/// The change staged for `oid` in `staged`, which lists the stage.
fn staged_for<'a>(staged: &'a Vec<Change>, oid: &Oid, Ghost(m): Ghost<Map<Seq<char>, ChangeView>>) -> (r: Option<&'a Change>)
    requires
        lists_changes(change_views(staged@), m),
    ensures
        match r {
            Some(c) => m.get(oid@) == Some(c@),
            None => !m.contains_key(oid@),
        },
{
    let mut i: usize = 0;
    while i < staged.len()
        invariant
            lists_changes(change_views(staged@), m),
            i <= staged.len(),
            forall|j: int| 0 <= j < i ==> (#[trigger] staged@[j])@.oid != oid@,
        decreases staged.len() - i,
    {
        assert(change_views(staged@)[i as int] == staged@[i as int]@);
        assert(m.contains_key(change_views(staged@)[i as int].oid));
        if staged[i].oid.same(oid) {
            return Some(&staged[i]);
        }
        i = i + 1;
    }
    proof {
        if m.contains_key(oid@) {
            let j = choose|j: int| 0 <= j < change_views(staged@).len() && #[trigger] change_views(staged@)[j].oid == oid@;
            assert(staged@[j]@.oid == oid@);
        }
    }
    None
}

/// Whether `staged`, which lists the stage, holds a change for `oid`.
pub fn staged_has(staged: &Vec<Change>, oid: &Oid, Ghost(m): Ghost<Map<Seq<char>, ChangeView>>) -> (r: bool)
    requires
        lists_changes(staged@.map_values(|c: Change| c@), m),
    ensures
        r == m.contains_key(oid@),
{
    assert(change_views(staged@) == staged@.map_values(|c: Change| c@));
    match staged_for(staged, oid, Ghost(m)) {
        Some(_) => true,
        None => false,
    }
}

/// Working against what the stage would leave: committed with the stage
/// applied. Walks every tracked oid, not just working objects, so a working
/// object deleted but not yet staged still shows as an unstaged delete.
pub fn diff_working<S: ObjectRepository + StageRepository + CommitRepository>(store: &S) -> (r: Result<Vec<Change>, UseCaseError>)
    ensures
        r matches Ok(v) ==> unstaged_of(store.model().data, change_views(v@)),
        r matches Err(e) ==> e is Store,
{
    let ghost d = store.model().data;
    let staged = match store.staged() {
        Ok(s) => s,
        Err(e) => return Err(UseCaseError::Store(e)),
    };
    let listed = match tracked_oids(store) {
        Ok(t) => t,
        Err(e) => return Err(e),
    };
    let ghost tv = oid_texts(listed@);
    let mut out: Vec<Change> = Vec::new();
    let mut i: usize = 0;
    while i < listed.len()
        invariant
            d == store.model().data,
            tv == oid_texts(listed@),
            lists_changes(staged@.map_values(|c: Change| c@), d.staged),
            i <= listed.len(),
            change_views(out@) == working_changes(d, tv.take(i as int)),
        decreases listed.len() - i,
    {
        let oid = &listed[i];
        proof {
            assert(tv.take(i + 1).drop_last() =~= tv.take(i as int));
            assert(tv.take(i + 1).last() == oid@);
            assert(change_views(staged@) == staged@.map_values(|c: Change| c@));
        }
        let base: Option<Object> = match staged_for(&staged, oid, Ghost(d.staged)) {
            Some(c) => copy_opt(&c.after),
            None => match store.committed(oid) {
                Ok(b) => b,
                Err(e) => return Err(UseCaseError::Store(e)),
            },
        };
        assert(opt_object(base) == staged_base(d, oid@));
        let working = match store.get(oid) {
            Ok(w) => w,
            Err(e) => return Err(UseCaseError::Store(e)),
        };
        let b = match &base {
            Some(x) => Some(x),
            None => None,
        };
        let w = match &working {
            Some(x) => Some(x),
            None => None,
        };
        match diff(oid, b, w) {
            Some(change) => {
                let ghost before = change_views(out@);
                out.push(change);
                assert(change_views(out@) =~= before.push(working_change(d, oid@).unwrap()));
            },
            None => {},
        }
        i = i + 1;
    }
    assert(tv.take(listed.len() as int) =~= tv);
    assert(unstaged_as(d, tv, change_views(out@)));
    assert(unstaged_of(d, change_views(out@)));
    Ok(out)
}

/// The stage, the unstaged changes, the conflicts, the notices, and how far
/// behind each of `remotes` is.
pub fn status<S: ObjectRepository + StageRepository + CommitRepository + ConflictRepository + NoticeRepository>(
    store: &S,
    remotes: &Vec<RemoteName>,
) -> (r: Result<Status, UseCaseError>)
    ensures
        r matches Ok(s) ==> {
            let d = store.model().data;
            &&& lists_changes(change_views(s.staged@), d.staged)
            &&& unstaged_of(d, change_views(s.unstaged@))
            &&& lists_conflicts(conflict_views(s.conflicts@), d.conflicts)
            &&& notice_views(s.notices@) == d.notices
            &&& s.unpushed@.len() == remotes@.len()
            &&& forall|i: int|
                0 <= i < remotes@.len() ==> (#[trigger] s.unpushed@[i]).0@ == remotes@[i]@ && s.unpushed@[i].1
                    == d.unpushed(remotes@[i]@).len()
        },
        r matches Err(e) ==> e is Store,
{
    let mut unpushed: Vec<(RemoteName, usize)> = Vec::new();
    let mut i: usize = 0;
    while i < remotes.len()
        invariant
            i <= remotes.len(),
            unpushed@.len() == i,
            forall|j: int|
                0 <= j < i ==> (#[trigger] unpushed@[j]).0@ == remotes@[j]@ && unpushed@[j].1
                    == store.model().data.unpushed(remotes@[j]@).len(),
        decreases remotes.len() - i,
    {
        let n = match store.unpushed(&remotes[i]) {
            Ok(v) => v.len(),
            Err(e) => return Err(UseCaseError::Store(e)),
        };
        unpushed.push((remotes[i].copy(), n));
        i = i + 1;
    }
    let staged = match diff_staged(store) {
        Ok(s) => s,
        Err(e) => return Err(e),
    };
    let unstaged = match diff_working(store) {
        Ok(u) => u,
        Err(e) => return Err(e),
    };
    let conflicts = match store.conflicts() {
        Ok(c) => c,
        Err(e) => return Err(UseCaseError::Store(e)),
    };
    let notices = match store.notices() {
        Ok(n) => n,
        Err(e) => return Err(UseCaseError::Store(e)),
    };
    Ok(Status { staged, unstaged, conflicts, notices, unpushed })
}

} // verus!
