//! What a pull reports and never acts on: an object the remote removed, and
//! an event the remote cancelled.

use vstd::prelude::*;

use crate::config::RemoteConfig;
use crate::domain::{EventStatus, Object, ObjectView, texts};
use crate::errors::UseCaseError;
use crate::ports::{
    Notice, NoticeRepository, NoticeView, ObjectRepository, RemoteTrackingRepository, StoreData,
    lists_objects, object_views,
};

use super::cancelled::looked_up;

verus! {

/// Whether `o` is a task attached to the event `oid`.
pub open spec fn attached_to(o: ObjectView, oid: Seq<char>) -> bool {
    o matches ObjectView::Task(t) && t.event == Some(oid)
}

/// The working objects attached to the event `oid`.
pub open spec fn attached_set(d: StoreData, oid: Seq<char>) -> Set<Seq<char>> {
    d.working.dom().filter(|k: Seq<char>| attached_to(d.working[k], oid))
}

/// `d` once the pulled `o` has landed: a cancelled event with tasks attached
/// to it is noticed, with how many.
pub open spec fn cancel_noticed(d: StoreData, o: ObjectView) -> StoreData {
    match o {
        ObjectView::Event(e) => if e.status == EventStatus::Cancelled && attached_set(d, o.oid()).len() > 0 {
            StoreData {
                notices: d.notices.push(
                    NoticeView::EventCancelled {
                        oid: o.oid(),
                        subject: o.base().subject,
                        attached: attached_set(d, o.oid()).len() as usize,
                    },
                ),
                ..d
            }
        } else {
            d
        },
        ObjectView::Task(_) => d,
    }
}

/// How many of `v`, which lists the objects of `m` once each, are attached
/// to `oid`.
fn count_attached(v: &Vec<Object>, oid: &crate::domain::Oid, Ghost(m): Ghost<Map<Seq<char>, ObjectView>>) -> (r: usize)
    requires
        lists_objects(object_views(v@), m),
        m.dom().finite(),
    ensures
        r == m.dom().filter(|k: Seq<char>| attached_to(m[k], oid@)).len(),
{
    let ghost vs = object_views(v@);
    let ghost mut seen: Set<Seq<char>> = Set::empty();
    let mut count: usize = 0;
    let mut i: usize = 0;
    while i < v.len()
        invariant
            vs == object_views(v@),
            lists_objects(vs, m),
            i <= v.len(),
            seen.finite(),
            count == seen.len(),
            count <= i,
            forall|k: Seq<char>| #[trigger] seen.contains(k) <==> exists|j: int|
                0 <= j < i && (#[trigger] vs[j]).oid() == k && attached_to(vs[j], oid@),
        decreases v.len() - i,
    {
        let attached = match v[i].as_task() {
            Some(t) => match &t.event {
                Some(e) => e.same(oid),
                None => false,
            },
            None => false,
        };
        assert(vs[i as int] == v@[i as int]@);
        assert(attached == attached_to(vs[i as int], oid@));
        if attached {
            proof {
                let k = vs[i as int].oid();
                assert(!seen.contains(k)) by {
                    if seen.contains(k) {
                        let j = choose|j: int| 0 <= j < i && (#[trigger] vs[j]).oid() == k && attached_to(vs[j], oid@);
                        assert(vs[j].oid() != vs[i as int].oid());
                    }
                }
                seen = seen.insert(k);
            }
            count = count + 1;
        }
        proof {
            assert forall|k: Seq<char>| #[trigger] seen.contains(k) <==> exists|j: int|
                0 <= j < i + 1 && (#[trigger] vs[j]).oid() == k && attached_to(vs[j], oid@) by {
                if exists|j: int| 0 <= j < i + 1 && (#[trigger] vs[j]).oid() == k && attached_to(vs[j], oid@) {
                    let j = choose|j: int| 0 <= j < i + 1 && (#[trigger] vs[j]).oid() == k && attached_to(vs[j], oid@);
                    if j < i {
                        assert(seen.contains(k));
                    }
                }
            }
        }
        i = i + 1;
    }
    proof {
        let target = m.dom().filter(|k: Seq<char>| attached_to(m[k], oid@));
        assert forall|k: Seq<char>| #[trigger] target.contains(k) <==> seen.contains(k) by {
            if target.contains(k) {
                let j = choose|j: int| 0 <= j < vs.len() && #[trigger] vs[j].oid() == k;
                assert(m[vs[j].oid()] == vs[j]);
            }
            if seen.contains(k) {
                let j = choose|j: int| 0 <= j < i && (#[trigger] vs[j]).oid() == k && attached_to(vs[j], oid@);
                assert(m.contains_key(vs[j].oid()) && m[vs[j].oid()] == vs[j]);
            }
        }
        assert(target =~= seen);
    }
    count
}

/// Notices a pulled event the remote cancelled while tasks are attached to
/// it, with how many are.
pub fn note_cancelled<S: ObjectRepository + NoticeRepository>(store: &mut S, object: &Object) -> (r: Result<(), UseCaseError>)
    ensures
        final(store).model().unit == old(store).model().unit,
        r is Ok ==> final(store).model() == old(store).model().with(cancel_noticed(old(store).model().data, object@)),
        r matches Err(e) ==> e is Store,
{
    proof {
        store.lemma_model_wf();
    }
    match object {
        Object::Event(e) => {
            if e.status == EventStatus::Cancelled {
                let all = match store.all() {
                    Ok(a) => a,
                    Err(err) => return Err(UseCaseError::Store(err)),
                };
                let attached = count_attached(&all, &e.base.oid, Ghost(store.model().data.working));
                if attached > 0 {
                    let notice = Notice::EventCancelled {
                        oid: e.base.oid.copy(),
                        subject: e.base.subject.clone(),
                        attached,
                    };
                    match store.add_notice(&notice) {
                        Ok(()) => {},
                        Err(err) => return Err(UseCaseError::Store(err)),
                    }
                }
            }
            Ok(())
        },
        Object::Task(_) => Ok(()),
    }
}

/// `d` once the remote's removal of `rid`, looked up as `found`, is
/// recorded: noticed with the subject we hold, and nothing about the oid
/// tracks that remote any more. An id mapped to nothing changes nothing.
pub open spec fn removal_step(d: StoreData, remote: Seq<char>, found: Option<Seq<char>>) -> StoreData {
    match found {
        None => d,
        Some(o) => {
            let subject = match d.working.get(o) {
                Some(x) => x.base().subject,
                None => Seq::empty(),
            };
            StoreData {
                notices: d.notices.push(NoticeView::RemovedUpstream { remote, oid: o, subject }),
                remote_ids: d.remote_ids.remove((remote, o)),
                snapshots: d.snapshots.remove((remote, o)),
                ..d
            }
        },
    }
}

/// `d` once every removal of `found` is recorded, in order.
pub open spec fn removals(d: StoreData, remote: Seq<char>, found: Seq<Option<Seq<char>>>) -> StoreData
    decreases found.len(),
{
    if found.len() == 0 {
        d
    } else {
        removal_step(removals(d, remote, found.drop_last()), remote, found.last())
    }
}

/// Each lookup of `found` is one `rids` may give, each against the store as
/// the removals before it left it.
pub open spec fn removals_looked_up(
    d: StoreData,
    remote: Seq<char>,
    rids: Seq<Seq<char>>,
    found: Seq<Option<Seq<char>>>,
) -> bool
    decreases rids.len(),
{
    if rids.len() == 0 {
        found.len() == 0
    } else {
        &&& found.len() == rids.len()
        &&& removals_looked_up(d, remote, rids.drop_last(), found.drop_last())
        &&& looked_up(removals(d, remote, found.drop_last()), remote, rids.last(), found.last())
    }
}

/// How many lookups found an oid.
pub open spec fn hits(found: Seq<Option<Seq<char>>>) -> nat
    decreases found.len(),
{
    if found.len() == 0 {
        0
    } else {
        hits(found.drop_last()) + if found.last() is Some {
            1nat
        } else {
            0nat
        }
    }
}

/// `d1` is `d` once the removals `rids` are recorded, `count` of them for
/// an oid dam tracked, under some lookup of each.
pub open spec fn removed_as(d: StoreData, d1: StoreData, remote: Seq<char>, rids: Seq<Seq<char>>, count: nat) -> bool {
    exists|found: Seq<Option<Seq<char>>>|
        #[trigger] removals_looked_up(d, remote, rids, found) && d1 == removals(d, remote, found) && count
            == hits(found)
}

/// Turns each remote id the remote no longer has into a notice, and drops
/// its oid-to-remote-id mapping and snapshot: the local object stays, but
/// nothing about it still tracks that remote.
pub fn record_removals<S: ObjectRepository + NoticeRepository + RemoteTrackingRepository>(
    store: &mut S,
    remote: &RemoteConfig,
    removed: &Vec<String>,
) -> (r: Result<usize, UseCaseError>)
    ensures
        final(store).model().unit == old(store).model().unit,
        r matches Ok(count) ==> removed_as(
            old(store).model().data,
            final(store).model().data,
            remote.name@,
            texts(removed@),
            count as nat,
        ),
        r matches Err(e) ==> e is Store,
{
    let ghost m0 = store.model();
    let ghost rids = texts(removed@);
    let ghost mut found: Seq<Option<Seq<char>>> = Seq::empty();
    let mut count: usize = 0;
    let mut i: usize = 0;
    while i < removed.len()
        invariant
            m0 == old(store).model(),
            rids == texts(removed@),
            i <= removed.len(),
            count <= i,
            removals_looked_up(m0.data, remote.name@, rids.take(i as int), found),
            store.model() == m0.with(removals(m0.data, remote.name@, found)),
            count == hits(found),
        decreases removed.len() - i,
    {
        let ghost d = store.model().data;
        let rid = &removed[i];
        let lookup = match store.oid_for_remote_id(&remote.name, rid.as_str()) {
            Ok(l) => l,
            Err(e) => return Err(UseCaseError::Store(e)),
        };
        let ghost hit: Option<Seq<char>> = crate::domain::opt_oid_text(lookup);
        match lookup {
            Some(oid) => {
                let subject = match store.get(&oid) {
                    Ok(Some(o)) => o.base().subject.clone(),
                    Ok(None) => String::new(),
                    Err(e) => return Err(UseCaseError::Store(e)),
                };
                let notice = Notice::RemovedUpstream { remote: remote.name.copy(), oid: oid.copy(), subject };
                match store.add_notice(&notice) {
                    Ok(()) => {},
                    Err(e) => return Err(UseCaseError::Store(e)),
                }
                match store.clear_remote_mapping(&remote.name, &oid) {
                    Ok(()) => {},
                    Err(e) => return Err(UseCaseError::Store(e)),
                }
                count = count + 1;
            },
            None => {},
        }
        proof {
            assert(rids.take(i + 1).drop_last() =~= rids.take(i as int));
            assert(found.push(hit).drop_last() =~= found);
            found = found.push(hit);
            assert(store.model().data == removal_step(d, remote.name@, hit));
        }
        i = i + 1;
    }
    assert(rids.take(removed.len() as int) =~= rids);
    Ok(count)
}

} // verus!
