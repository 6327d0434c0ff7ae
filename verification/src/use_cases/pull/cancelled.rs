//! A cancellation the remote reported by id alone, as the whole object the
//! rest of the pull already knows how to land.

use vstd::prelude::*;

use crate::config::RemoteConfig;
use crate::domain::{Event, EventStatus, EventView, Object, ObjectView, texts};
use crate::errors::UseCaseError;
use crate::ports::{ObjectRepository, RemoteTrackingRepository, StoreData};
use crate::remote::{IncomingObject, incoming_views};

use super::classify::unmapped;

verus! {

/// `found` is what a lookup of `rid` on `remote` may give against `d`: an
/// oid mapped to it, or nothing when none is.
pub open spec fn looked_up(d: StoreData, remote: Seq<char>, rid: Seq<char>, found: Option<Seq<char>>) -> bool {
    match found {
        Some(o) => d.remote_ids.get((remote, o)) == Some(rid),
        None => unmapped(d, remote, rid),
    }
}

/// Each lookup of `found` is one `rids` may give against `d`.
pub open spec fn all_looked_up(
    d: StoreData,
    remote: Seq<char>,
    rids: Seq<Seq<char>>,
    found: Seq<Option<Seq<char>>>,
) -> bool {
    &&& found.len() == rids.len()
    &&& forall|i: int| 0 <= i < rids.len() ==> looked_up(d, remote, rids[i], #[trigger] found[i])
}

/// The event the remote cancelled under `rid`, as dam last knew it with its
/// status set to cancelled: the remote's own snapshot first, the working
/// copy when none was kept. A remote id mapped to nothing, or to a task,
/// yields nothing.
pub open spec fn cancelled_one(
    d: StoreData,
    remote: Seq<char>,
    rid: Seq<char>,
    found: Option<Seq<char>>,
) -> Option<(Seq<char>, ObjectView)> {
    match found {
        None => None,
        Some(o) => {
            let known = match d.snapshots.get((remote, o)) {
                Some(s) => Some(s),
                None => d.working.get(o),
            };
            match known {
                Some(ObjectView::Event(e)) => Some(
                    (rid, ObjectView::Event(EventView { status: EventStatus::Cancelled, ..e })),
                ),
                _ => None,
            }
        },
    }
}

/// The cancelled events of `rids`, in order, each looked up as `found` says.
pub open spec fn cancelled_spec(
    d: StoreData,
    remote: Seq<char>,
    rids: Seq<Seq<char>>,
    found: Seq<Option<Seq<char>>>,
) -> Seq<(Seq<char>, ObjectView)>
    decreases rids.len(),
{
    if rids.len() == 0 || found.len() == 0 {
        Seq::empty()
    } else {
        let rest = cancelled_spec(d, remote, rids.drop_last(), found.drop_last());
        match cancelled_one(d, remote, rids.last(), found.last()) {
            Some(x) => rest.push(x),
            None => rest,
        }
    }
}

/// `out` is what the cancellations `rids` become against `d`, under some
/// lookup of each.
pub open spec fn cancelled_as(
    d: StoreData,
    remote: Seq<char>,
    rids: Seq<Seq<char>>,
    out: Seq<(Seq<char>, ObjectView)>,
) -> bool {
    exists|found: Seq<Option<Seq<char>>>|
        #[trigger] all_looked_up(d, remote, rids, found) && out == cancelled_spec(d, remote, rids, found)
}

/// Each remote id the remote cancelled, as the event dam last knew under it
/// with its status set to cancelled. An id dam never mapped, and one mapped
/// to a task, yields nothing. Only the status differs from what the remote
/// held before, so classification sees exactly one upstream change.
pub fn cancelled_events<S: ObjectRepository + RemoteTrackingRepository>(
    store: &S,
    remote: &RemoteConfig,
    cancelled: &Vec<String>,
) -> (r: Result<Vec<IncomingObject>, UseCaseError>)
    ensures
        r matches Ok(out) ==> cancelled_as(store.model().data, remote.name@, texts(cancelled@), incoming_views(out@)),
        r matches Err(e) ==> e is Store,
{
    let ghost d = store.model().data;
    let ghost rids = texts(cancelled@);
    let ghost mut found: Seq<Option<Seq<char>>> = Seq::empty();
    let mut out: Vec<IncomingObject> = Vec::new();
    let mut i: usize = 0;
    while i < cancelled.len()
        invariant
            d == store.model().data,
            rids == texts(cancelled@),
            i <= cancelled.len(),
            all_looked_up(d, remote.name@, rids.take(i as int), found),
            incoming_views(out@) == cancelled_spec(d, remote.name@, rids.take(i as int), found),
        decreases cancelled.len() - i,
    {
        let rid = &cancelled[i];
        let lookup = match store.oid_for_remote_id(&remote.name, rid.as_str()) {
            Ok(l) => l,
            Err(e) => return Err(UseCaseError::Store(e)),
        };
        let ghost hit: Option<Seq<char>> = crate::domain::opt_oid_text(lookup);
        let ghost before = incoming_views(out@);
        match lookup {
            Some(oid) => {
                let known = match store.remote_snapshot(&remote.name, &oid) {
                    Ok(Some(s)) => Some(s),
                    Ok(None) => match store.get(&oid) {
                        Ok(w) => w,
                        Err(e) => return Err(UseCaseError::Store(e)),
                    },
                    Err(e) => return Err(UseCaseError::Store(e)),
                };
                match known {
                    Some(Object::Event(event)) => {
                        let mut ev: Event = event;
                        ev.status = EventStatus::Cancelled;
                        out.push(IncomingObject { remote_id: rid.clone(), object: Object::Event(ev) });
                        assert(incoming_views(out@) =~= before.push(
                            cancelled_one(d, remote.name@, rids[i as int], hit).unwrap(),
                        ));
                    },
                    _ => {},
                }
            },
            None => {},
        }
        proof {
            assert(rids.take(i + 1).drop_last() =~= rids.take(i as int));
            assert(found.push(hit).drop_last() =~= found);
            found = found.push(hit);
        }
        i = i + 1;
    }
    assert(rids.take(cancelled.len() as int) =~= rids);
    Ok(out)
}

} // verus!
