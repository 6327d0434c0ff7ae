//! What one pulled object should do against the local state: create it, fast
//! forward it, raise a conflict, or nothing at all.

use vstd::prelude::*;

use crate::config::RemoteConfig;
use crate::domain::{BaseView, Change, Field, Object, ObjectView, Oid, hex_of, opt_object};
use crate::errors::{Refusal, UseCaseError};
use crate::merge::{kind_change, kind_change_spec, merge_fields, merge_spec};
use crate::ports::{
    Notice, NoticeView, Randomness, Store, StoreData, lists_changes, new_oid, notice_views,
};
use crate::remote::{IncomingObject, RemoteCapabilities, incoming_views};

verus! {

/// What one pulled object does to the local state.
pub enum Incoming {
    Create(Object),
    FastForward(Object),
    Conflict(Object),
    Unchanged,
}

pub enum IncomingView {
    Create(ObjectView),
    FastForward(ObjectView),
    Conflict(ObjectView),
    Unchanged,
}

impl View for Incoming {
    type V = IncomingView;

    open spec fn view(&self) -> IncomingView {
        match self {
            Incoming::Create(o) => IncomingView::Create(o@),
            Incoming::FastForward(o) => IncomingView::FastForward(o@),
            Incoming::Conflict(o) => IncomingView::Conflict(o@),
            Incoming::Unchanged => IncomingView::Unchanged,
        }
    }
}

/// `o` tracked under `oid`.
pub open spec fn with_oid(o: ObjectView, oid: Seq<char>) -> ObjectView {
    o.with_base(BaseView { oid, ..o.base() })
}

/// Theirs brought onto ours, or theirs alone when there is no ours.
pub open spec fn theirs_merged(local: Option<ObjectView>, theirs: ObjectView, fields: Seq<Field>) -> ObjectView {
    match local {
        Some(l) => merge_spec(l, theirs, fields),
        None => merge_spec(theirs, theirs, fields),
    }
}

/// What the remote's `theirs`, tracked here under `oid`, does against `d`;
/// `None` when ours moved since the last commit, or is staged, and a merge
/// would be needed over it.
pub open spec fn decide(
    d: StoreData,
    remote: Seq<char>,
    fields: Seq<Field>,
    oid: Seq<char>,
    theirs: ObjectView,
) -> Option<IncomingView> {
    let local = d.working.get(oid);
    let merged = theirs_merged(local, theirs, fields);
    match local {
        None => Some(IncomingView::Create(merged)),
        Some(l) => if l == merged {
            Some(IncomingView::Unchanged)
        } else {
            let base = d.snapshots.get((remote, oid));
            if base == Some(l) {
                Some(IncomingView::FastForward(merged))
            } else if base == Some(merged) {
                Some(IncomingView::Unchanged)
            } else if d.committed.get(oid) != Some(l) || d.staged.contains_key(oid) {
                None
            } else {
                Some(IncomingView::Conflict(merged))
            }
        },
    }
}

/// What a pulled object does to the local copy: with none, it is created;
/// ours untouched since the last pull is fast forwarded to theirs; where
/// both sides moved, it is a conflict only over committed, unstaged work,
/// and never over work not committed yet; a pull that would change nothing
/// is unchanged.
pub proof fn lemma_what_a_pulled_object_does(
    d: StoreData,
    remote: Seq<char>,
    fields: Seq<Field>,
    oid: Seq<char>,
    theirs: ObjectView,
)
    ensures
        d.working.get(oid) is None ==> decide(d, remote, fields, oid, theirs) matches Some(IncomingView::Create(_)),
        d.working.get(oid) matches Some(l) ==> (d.snapshots.get((remote, oid)) == Some(l) ==> (
        decide(d, remote, fields, oid, theirs) matches Some(IncomingView::FastForward(_))
            || decide(d, remote, fields, oid, theirs) == Some(IncomingView::Unchanged))),
        d.working.get(oid) matches Some(l) ==> (d.committed.get(oid) != Some(l) ==> (decide(
            d,
            remote,
            fields,
            oid,
            theirs,
        ) is None || decide(d, remote, fields, oid, theirs) == Some(IncomingView::Unchanged) || d.snapshots.get(
            (remote, oid),
        ) == Some(l))),
        decide(d, remote, fields, oid, theirs) matches Some(IncomingView::Conflict(m)) ==> (d.working.get(oid)
            matches Some(l) && l != m && d.snapshots.get((remote, oid)) != Some(l) && d.snapshots.get((remote, oid))
            != Some(m) && d.committed.get(oid) == Some(l) && !d.staged.contains_key(oid)),
        decide(d, remote, fields, oid, theirs) matches Some(IncomingView::FastForward(m)) ==> (d.working.get(oid)
            matches Some(l) && l != m && d.snapshots.get((remote, oid)) == Some(l)),
        decide(d, remote, fields, oid, theirs) matches Some(IncomingView::Create(m)) ==> d.working.get(oid) is None
            && m == merge_spec(theirs, theirs, fields),
{
}

/// The notice a pulled object of another kind than ours raises.
pub open spec fn kind_notice(d: StoreData, oid: Seq<char>, theirs: ObjectView) -> Option<NoticeView> {
    match d.working.get(oid) {
        Some(l) => match kind_change_spec(l, theirs) {
            Some((o, t)) => Some(NoticeView::KindChanged { oid, ours: o, theirs: t }),
            None => None,
        },
        None => None,
    }
}

/// `notices` with `n` added, unless it is already there.
pub open spec fn say_once(notices: Seq<NoticeView>, n: Option<NoticeView>) -> Seq<NoticeView> {
    match n {
        Some(x) => if notices.contains(x) {
            notices
        } else {
            notices.push(x)
        },
        None => notices,
    }
}

/// The notices once each pulled object, as (oid, object), was read.
pub open spec fn kind_notices(d: StoreData, pairs: Seq<(Seq<char>, ObjectView)>) -> Seq<NoticeView>
    decreases pairs.len(),
{
    if pairs.len() == 0 {
        d.notices
    } else {
        let p = pairs.last();
        say_once(kind_notices(d, pairs.drop_last()), kind_notice(d, p.0, p.1))
    }
}

/// No oid is known to `remote` by `rid`.
pub open spec fn unmapped(d: StoreData, remote: Seq<char>, rid: Seq<char>) -> bool {
    forall|o: Seq<char>| d.remote_ids.get((remote, o)) != Some(rid)
}

/// `oid` may stand for the remote's `rid`: it is the oid mapped to it, or,
/// when none is, an oid written from twenty random bytes.
pub open spec fn oid_for(d: StoreData, remote: Seq<char>, rid: Seq<char>, oid: Seq<char>) -> bool {
    ||| unmapped(d, remote, rid) && exists|bytes: Seq<u8>| bytes.len() == 20 && oid == #[trigger] hex_of(bytes)
    ||| d.remote_ids.get((remote, oid)) == Some(rid)
}

/// The new (oid, remote id) mappings a pull of objects tagged (remote id,
/// oid) makes: one for each remote id nothing was mapped to.
pub open spec fn fresh_spec(d: StoreData, remote: Seq<char>, tagged: Seq<(Seq<char>, Seq<char>)>) -> Seq<
    (Seq<char>, Seq<char>),
>
    decreases tagged.len(),
{
    if tagged.len() == 0 {
        Seq::empty()
    } else {
        let rest = fresh_spec(d, remote, tagged.drop_last());
        let t = tagged.last();
        if unmapped(d, remote, t.0) {
            rest.push((t.1, t.0))
        } else {
            rest
        }
    }
}

pub open spec fn planned_views(planned: Seq<(Oid, Incoming)>) -> Seq<(Seq<char>, IncomingView)> {
    planned.map_values(|p: (Oid, Incoming)| (p.0@, p.1@))
}

pub open spec fn fresh_views(fresh: Seq<(Oid, String)>) -> Seq<(Seq<char>, Seq<char>)> {
    fresh.map_values(|p: (Oid, String)| (p.0@, p.1@))
}

/// Each pulled (remote id, object) tagged with the oid it goes under.
pub open spec fn tagged(raws: Seq<(Seq<char>, ObjectView)>, oids: Seq<Seq<char>>) -> Seq<(Seq<char>, Seq<char>)> {
    Seq::new(oids.len(), |i: int| (raws[i].0, oids[i]))
}

/// Each pulled object under the oid it goes under.
pub open spec fn pulled_pairs(raws: Seq<(Seq<char>, ObjectView)>, oids: Seq<Seq<char>>) -> Seq<(Seq<char>, ObjectView)> {
    Seq::new(oids.len(), |i: int| (oids[i], with_oid(raws[i].1, oids[i])))
}

/// `d1` is `d` once the pulled `raws` are classified: `planned` says what
/// each does under the oid it goes under, `fresh` maps the oids made for
/// remote ids nothing was mapped to, and the only write is a notice for each
/// change of kind not noticed yet.
pub open spec fn classified_as(
    d: StoreData,
    d1: StoreData,
    remote: Seq<char>,
    fields: Seq<Field>,
    raws: Seq<(Seq<char>, ObjectView)>,
    planned: Seq<(Seq<char>, IncomingView)>,
    fresh: Seq<(Seq<char>, Seq<char>)>,
) -> bool {
    let oids = planned.map_values(|p: (Seq<char>, IncomingView)| p.0);
    &&& planned.len() == raws.len()
    &&& forall|i: int| 0 <= i < planned.len() ==> oid_for(d, remote, raws[i].0, #[trigger] oids[i])
    &&& forall|i: int|
        0 <= i < planned.len() ==> decide(d, remote, fields, oids[i], with_oid(raws[i].1, oids[i])) == Some(
            (#[trigger] planned[i]).1,
        )
    &&& fresh == fresh_spec(d, remote, tagged(raws, oids))
    &&& d1 == StoreData { notices: kind_notices(d, pulled_pairs(raws, oids)), ..d }
}

fn staged_contains(staged: &Vec<Change>, oid: &Oid) -> (r: bool)
    ensures
        r == exists|i: int| 0 <= i < staged@.len() && (#[trigger] staged@[i])@.oid == oid@,
{
    let mut i: usize = 0;
    while i < staged.len()
        invariant
            i <= staged.len(),
            forall|j: int| 0 <= j < i ==> (#[trigger] staged@[j])@.oid != oid@,
        decreases staged.len() - i,
    {
        if staged[i].oid.same(oid) {
            return true;
        }
        i = i + 1;
    }
    false
}

fn notices_contain(notices: &Vec<Notice>, n: &Notice) -> (r: bool)
    ensures
        r == notice_views(notices@).contains(n@),
{
    let mut i: usize = 0;
    while i < notices.len()
        invariant
            i <= notices.len(),
            forall|j: int| 0 <= j < i ==> (#[trigger] notices@[j])@ != n@,
        decreases notices.len() - i,
    {
        if notices[i].same(n) {
            assert(notice_views(notices@)[i as int] == n@);
            return true;
        }
        i = i + 1;
    }
    proof {
        if notice_views(notices@).contains(n@) {
            let k = choose|k: int| 0 <= k < notice_views(notices@).len() && notice_views(notices@)[k] == n@;
            assert(notices@[k]@ == n@);
        }
    }
    false
}

/// Whether `o` holds `x`.
fn holds(o: &Option<Object>, x: &Object) -> (r: bool)
    ensures
        r == (opt_object(*o) == Some(x@)),
{
    match o {
        Some(y) => y.same(x),
        None => false,
    }
}

/// Reads every pulled object against local state and decides what to do with
/// it. Notices are the only thing it writes; no object is touched. The oids
/// made for objects with no local match yet come back paired with the
/// remote id each one maps to, applied by the caller once classification
/// succeeds.
pub fn classify<S: Store, R: Randomness>(
    store: &mut S,
    remote: &RemoteConfig,
    caps: &RemoteCapabilities,
    objects: &Vec<IncomingObject>,
    random: &mut R,
) -> (r: Result<(Vec<(Oid, Incoming)>, Vec<(Oid, String)>), UseCaseError>)
    ensures
        final(store).model().unit == old(store).model().unit,
        r matches Ok((planned, fresh)) ==> classified_as(
            old(store).model().data,
            final(store).model().data,
            remote.name@,
            caps.fields@,
            incoming_views(objects@),
            planned_views(planned@),
            fresh_views(fresh@),
        ),
        r matches Err(UseCaseError::Refused(Refusal::DirtyOnPull { oid })) ==> exists|i: int|
            0 <= i < objects@.len() && oid_for(
                old(store).model().data,
                remote.name@,
                (#[trigger] objects@[i]).remote_id@,
                oid@,
            ) && decide(
                old(store).model().data,
                remote.name@,
                caps.fields@,
                oid@,
                with_oid(objects@[i].object@, oid@),
            ) is None,
        r matches Err(e) ==> e is Store || e matches UseCaseError::Refused(Refusal::DirtyOnPull { .. }),
{
    let ghost m0 = store.model();
    let ghost d = m0.data;
    let ghost raws = incoming_views(objects@);
    let staged = match store.staged() {
        Ok(s) => s,
        Err(e) => return Err(UseCaseError::Store(e)),
    };
    let mut notices = match store.notices() {
        Ok(n) => n,
        Err(e) => return Err(UseCaseError::Store(e)),
    };
    let mut planned: Vec<(Oid, Incoming)> = Vec::new();
    let mut fresh: Vec<(Oid, String)> = Vec::new();
    let ghost mut pairs: Seq<(Seq<char>, ObjectView)> = Seq::empty();
    let ghost mut tags: Seq<(Seq<char>, Seq<char>)> = Seq::empty();
    let mut i: usize = 0;
    while i < objects.len()
        invariant
            m0 == old(store).model(),
            d == m0.data,
            raws == incoming_views(objects@),
            lists_changes(staged@.map_values(|c: Change| c@), d.staged),
            i <= objects.len(),
            planned@.len() == i,
            pairs.len() == i,
            tags.len() == i,
            forall|j: int|
                0 <= j < i ==> oid_for(d, remote.name@, raws[j].0, (#[trigger] planned@[j]).0@),
            forall|j: int|
                0 <= j < i ==> decide(
                    d,
                    remote.name@,
                    caps.fields@,
                    (#[trigger] planned@[j]).0@,
                    with_oid(raws[j].1, planned@[j].0@),
                ) == Some(planned@[j].1@),
            forall|j: int|
                0 <= j < i ==> #[trigger] pairs[j] == (planned@[j].0@, with_oid(raws[j].1, planned@[j].0@)),
            forall|j: int| 0 <= j < i ==> #[trigger] tags[j] == (raws[j].0, planned@[j].0@),
            fresh_views(fresh@) == fresh_spec(d, remote.name@, tags),
            store.model() == m0.with(StoreData { notices: kind_notices(d, pairs), ..d }),
            notice_views(notices@) == store.model().data.notices,
        decreases objects.len() - i,
    {
        let ghost m_before = store.model();
        let rid = &objects[i].remote_id;
        let existing = match store.oid_for_remote_id(&remote.name, rid.as_str()) {
            Ok(e) => e,
            Err(e) => return Err(UseCaseError::Store(e)),
        };
        let is_new = existing.is_none();
        let oid = match existing {
            Some(o) => o,
            None => new_oid(random),
        };
        let mut object = objects[i].object.copy();
        {
            let b = object.base_mut();
            b.oid = oid.copy();
        }
        assert(object@ == with_oid(raws[i as int].1, oid@));
        let ghost before_fresh = fresh_views(fresh@);
        if is_new {
            fresh.push((oid.copy(), rid.clone()));
            assert(fresh_views(fresh@) =~= before_fresh.push((oid@, rid@)));
        }
        let local = match store.get(&oid) {
            Ok(l) => l,
            Err(e) => return Err(UseCaseError::Store(e)),
        };
        let ghost before_notices = store.model().data.notices;
        match &local {
            Some(l) => {
                match kind_change(l, &object) {
                    Some((ours, theirs)) => {
                        let notice = Notice::KindChanged { oid: oid.copy(), ours, theirs };
                        if !notices_contain(&notices, &notice) {
                            match store.add_notice(&notice) {
                                Ok(()) => {},
                                Err(e) => return Err(UseCaseError::Store(e)),
                            }
                            let ghost nb = notice_views(notices@);
                            notices.push(notice);
                            assert(notice_views(notices@) =~= nb.push(kind_notice(d, oid@, object@).unwrap()));
                        }
                    },
                    None => {},
                }
            },
            None => {},
        }
        assert(store.model().data.notices == say_once(before_notices, kind_notice(d, oid@, object@)));
        let theirs = match &local {
            Some(l) => merge_fields(l, &object, &caps.fields),
            None => merge_fields(&object, &object, &caps.fields),
        };
        let incoming = match local {
            None => Incoming::Create(theirs),
            Some(l) => {
                if l.same(&theirs) {
                    Incoming::Unchanged
                } else {
                    let base = match store.remote_snapshot(&remote.name, &oid) {
                        Ok(b) => b,
                        Err(e) => return Err(UseCaseError::Store(e)),
                    };
                    if holds(&base, &l) {
                        Incoming::FastForward(theirs)
                    } else if holds(&base, &theirs) {
                        Incoming::Unchanged
                    } else {
                        let committed = match store.committed(&oid) {
                            Ok(c) => c,
                            Err(e) => return Err(UseCaseError::Store(e)),
                        };
                        let dirty = staged_contains(&staged, &oid);
                        proof {
                            if dirty {
                                let k = choose|k: int| 0 <= k < staged@.len() && (#[trigger] staged@[k])@.oid == oid@;
                                assert(staged@.map_values(|c: Change| c@)[k].oid == oid@);
                            }
                            if d.staged.contains_key(oid@) {
                                let sv = staged@.map_values(|c: Change| c@);
                                let k = choose|k: int| 0 <= k < sv.len() && #[trigger] sv[k].oid == oid@;
                                assert(staged@[k]@.oid == oid@);
                            }
                        }
                        if !holds(&committed, &l) || dirty {
                            assert(decide(d, remote.name@, caps.fields@, oid@, object@) is None);
                            assert(oid_for(d, remote.name@, objects@[i as int].remote_id@, oid@));
                            assert(with_oid(objects@[i as int].object@, oid@) == object@);
                            assert(d == old(store).model().data);
                            return Err(UseCaseError::Refused(Refusal::DirtyOnPull { oid }));
                        }
                        Incoming::Conflict(theirs)
                    }
                }
            },
        };
        assert(decide(d, remote.name@, caps.fields@, oid@, object@) == Some(incoming@));
        proof {
            let p = (oid@, object@);
            assert(pairs.push(p).drop_last() =~= pairs);
            assert(tags.push((rid@, oid@)).drop_last() =~= tags);
            pairs = pairs.push(p);
            tags = tags.push((rid@, oid@));
        }
        planned.push((oid, incoming));
        i = i + 1;
    }
    proof {
        let pv = planned_views(planned@);
        let oids = pv.map_values(|p: (Seq<char>, IncomingView)| p.0);
        assert(pairs =~= pulled_pairs(raws, oids));
        assert(tags =~= tagged(raws, oids));
        assert forall|k: int| 0 <= k < pv.len() implies #[trigger] oids[k] == planned@[k].0@ && pv[k].1
            == planned@[k].1@ by {}
    }
    Ok((planned, fresh))
}

} // verus!
