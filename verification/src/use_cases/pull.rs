//! Pulling: what each remote holds, brought onto the working layer in one
//! unit of work per remote.

pub mod cancelled;
pub mod classify;
pub mod local_work;
pub mod notices;

use vstd::prelude::*;

use crate::config::{Config, RemoteConfig, remote_index};
use crate::domain::{
    Change, ChangeView, CommitRecord, CommitRecordView, Field, ObjectView, Oid, Op, Timestamp,
};
use crate::errors::{Refusal, UseCaseError};
use crate::ports::{
    Clock, ConflictView, CredentialSource, HelperLauncher, Notice, NoticeView, Randomness,
    RemoteHelper, RemoteName, Store, StoreData, new_commit_id,
};
use crate::remote::{IncomingObject, PullOutcome, PullOutcomeView, RemoteCapabilities, incoming_views};
use crate::use_cases::connect::connect;
use crate::use_cases::push::select_remotes;

use cancelled::{cancelled_as, cancelled_events};
use classify::{Incoming, IncomingView, classified_as, classify, fresh_views, planned_views};
use notices::{cancel_noticed, note_cancelled, record_removals, removed_as};

verus! {

/// What one pull from one remote did.
#[derive(Debug)]
pub struct PullReport {
    pub remote: RemoteName,
    pub created: usize,
    pub updated: usize,
    pub conflicts: usize,
    pub removed_upstream: usize,
    pub unchanged: usize,
}

/// The counts of a report.
pub struct PullCounts {
    pub created: nat,
    pub updated: nat,
    pub conflicts: nat,
    pub removed_upstream: nat,
    pub unchanged: nat,
}

pub open spec fn counts_of(r: PullReport) -> PullCounts {
    PullCounts {
        created: r.created as nat,
        updated: r.updated as nat,
        conflicts: r.conflicts as nat,
        removed_upstream: r.removed_upstream as nat,
        unchanged: r.unchanged as nat,
    }
}

/// `d` once one planned object has landed: a create or fast forward is
/// written and snapshotted, a conflict is held against ours and
/// snapshotted, and either way a cancelled event with tasks attached is
/// noticed.
pub open spec fn land_step(d: StoreData, remote: Seq<char>, oid: Seq<char>, inc: IncomingView) -> StoreData {
    match inc {
        IncomingView::Unchanged => d,
        IncomingView::Create(o) => cancel_noticed(
            StoreData {
                working: d.working.insert(o.oid(), o),
                snapshots: d.snapshots.insert((remote, o.oid()), o),
                ..d
            },
            o,
        ),
        IncomingView::FastForward(o) => cancel_noticed(
            StoreData {
                working: d.working.insert(o.oid(), o),
                snapshots: d.snapshots.insert((remote, o.oid()), o),
                ..d
            },
            o,
        ),
        IncomingView::Conflict(o) => cancel_noticed(
            StoreData {
                conflicts: d.conflicts.insert(
                    oid,
                    ConflictView { remote, oid, ours: d.working[oid], theirs: o },
                ),
                snapshots: d.snapshots.insert((remote, o.oid()), o),
                ..d
            },
            o,
        ),
    }
}

/// The change the pull commit records for one planned object, if any: a
/// create when nothing stood under the oid, an update otherwise.
pub open spec fn landed_change(d: StoreData, oid: Seq<char>, inc: IncomingView) -> Option<ChangeView> {
    let op = if d.working.contains_key(oid) {
        Op::Update
    } else {
        Op::Create
    };
    match inc {
        IncomingView::Create(o) => Some(ChangeView { oid, op, before: None, after: Some(o) }),
        IncomingView::FastForward(o) => Some(ChangeView { oid, op, before: None, after: Some(o) }),
        _ => None,
    }
}

/// What landing a plan leaves: the store, the changes to commit, and the
/// counts a report gives.
pub struct Landing {
    pub data: StoreData,
    pub changes: Seq<ChangeView>,
    pub created: nat,
    pub updated: nat,
    pub conflicts: nat,
    pub unchanged: nat,
}

/// Landing every planned object in order.
pub open spec fn landing(d: StoreData, remote: Seq<char>, planned: Seq<(Seq<char>, IncomingView)>) -> Landing
    decreases planned.len(),
{
    if planned.len() == 0 {
        Landing { data: d, changes: Seq::empty(), created: 0, updated: 0, conflicts: 0, unchanged: 0 }
    } else {
        let l = landing(d, remote, planned.drop_last());
        let p = planned.last();
        let c = landed_change(l.data, p.0, p.1);
        Landing {
            data: land_step(l.data, remote, p.0, p.1),
            changes: match c {
                Some(x) => l.changes.push(x),
                None => l.changes,
            },
            created: l.created + if c matches Some(x) && x.op == Op::Create {
                1nat
            } else {
                0nat
            },
            updated: l.updated + if c matches Some(x) && x.op == Op::Update {
                1nat
            } else {
                0nat
            },
            conflicts: l.conflicts + if p.1 is Conflict {
                1nat
            } else {
                0nat
            },
            unchanged: l.unchanged + if p.1 is Unchanged {
                1nat
            } else {
                0nat
            },
        }
    }
}

/// The message of a pull commit from `remote`.
pub open spec fn pull_message(remote: Seq<char>) -> Seq<char> {
    seq!['p', 'u', 'l', 'l', ' ', 'f', 'r', 'o', 'm', ' '] + remote
}

/// `d` once the pull commit of `changes` is made and marked taken by the
/// remote it came from, since it is exactly what that remote holds.
pub open spec fn pull_commit(
    d: StoreData,
    remote: Seq<char>,
    changes: Seq<ChangeView>,
    id: Seq<char>,
    at: Timestamp,
) -> StoreData {
    let c = d.committed_with(CommitRecordView { id, message: pull_message(remote), at, changes });
    StoreData { pushed: c.pushed.insert(remote, c.pushed_to(remote).insert(id)), ..c }
}

/// `d1` is `d` once `planned` has landed and, when it changed anything,
/// been committed under some fresh id and time; `counts` are the landing's.
pub open spec fn landed_as(
    d: StoreData,
    d1: StoreData,
    remote: Seq<char>,
    planned: Seq<(Seq<char>, IncomingView)>,
    counts: PullCounts,
) -> bool {
    let l = landing(d, remote, planned);
    &&& counts.created == l.created
    &&& counts.updated == l.updated
    &&& counts.conflicts == l.conflicts
    &&& counts.unchanged == l.unchanged
    &&& if l.changes.len() == 0 {
        d1 == l.data
    } else {
        exists|id: Seq<char>, at: Timestamp| #[trigger] pull_commit(l.data, remote, l.changes, id, at) == d1
    }
}

/// The text a rejected object is noticed with.
pub open spec fn rejection_text(rid: Seq<char>, why: Seq<char>) -> Seq<char> {
    rid + seq![':', ' '] + why
}

/// `d` once each rejected object is noticed, in order.
pub open spec fn rejections(d: StoreData, remote: Seq<char>, rejected: Seq<(Seq<char>, Seq<char>)>) -> StoreData
    decreases rejected.len(),
{
    if rejected.len() == 0 {
        d
    } else {
        let r = rejections(d, remote, rejected.drop_last());
        let x = rejected.last();
        StoreData {
            notices: r.notices.push(NoticeView::PullFailed { remote, why: rejection_text(x.0, x.1) }),
            ..r
        }
    }
}

/// `d` once each fresh oid is mapped to its remote id, in order.
pub open spec fn mapped(d: StoreData, remote: Seq<char>, fresh: Seq<(Seq<char>, Seq<char>)>) -> StoreData
    decreases fresh.len(),
{
    if fresh.len() == 0 {
        d
    } else {
        let m = mapped(d, remote, fresh.drop_last());
        let f = fresh.last();
        StoreData { remote_ids: m.remote_ids.insert((remote, f.0), f.1), ..m }
    }
}

/// `d` once the sync token the remote gave and the time of the pull are
/// kept.
pub open spec fn synced(d: StoreData, remote: Seq<char>, sync: Option<Seq<char>>, at: Timestamp) -> StoreData {
    StoreData {
        sync: match sync {
            Some(t) => d.sync.insert(remote, t),
            None => d.sync.remove(remote),
        },
        last_pulls: d.last_pulls.insert(remote, at),
        ..d
    }
}

/// What a pull decided along the way, which the store alone does not say:
/// the events the remote cancelled, the plan and the fresh mappings, the
/// states between the steps, and when it ended.
pub struct PullSteps {
    pub cancelled: Seq<(Seq<char>, ObjectView)>,
    pub planned: Seq<(Seq<char>, IncomingView)>,
    pub fresh: Seq<(Seq<char>, Seq<char>)>,
    pub classified: StoreData,
    pub landed: StoreData,
    pub removed: StoreData,
    pub at: Timestamp,
}

/// Each step of one pull, from `d0` to `d1`: rejected objects are noticed,
/// the cancelled events join what the remote sent, everything is
/// classified, the fresh oids are mapped, the plan lands, the removals are
/// recorded, and the sync token and time are kept.
pub open spec fn pulled_steps(
    d0: StoreData,
    d1: StoreData,
    remote: Seq<char>,
    fields: Seq<Field>,
    response: PullOutcomeView,
    counts: PullCounts,
    s: PullSteps,
) -> bool {
    let after_rejections = rejections(d0, remote, response.rejected);
    &&& cancelled_as(after_rejections, remote, response.cancelled, s.cancelled)
    &&& classified_as(
        after_rejections,
        s.classified,
        remote,
        fields,
        response.objects + s.cancelled,
        s.planned,
        s.fresh,
    )
    &&& landed_as(mapped(s.classified, remote, s.fresh), s.landed, remote, s.planned, counts)
    &&& removed_as(s.landed, s.removed, remote, response.removed, counts.removed_upstream)
    &&& d1 == synced(s.removed, remote, response.sync, s.at)
}

/// `d1` is what pulling `response` from `remote` onto `d0` leaves, with
/// `counts` reported.
pub open spec fn pulled_as(
    d0: StoreData,
    d1: StoreData,
    remote: Seq<char>,
    fields: Seq<Field>,
    response: PullOutcomeView,
    counts: PullCounts,
) -> bool {
    exists|s: PullSteps| #[trigger] pulled_steps(d0, d1, remote, fields, response, counts, s)
}

/// Writes every classified object to the store and commits the batch of
/// creates and fast-forwards as one pull commit, already marked pushed for
/// this remote since it is exactly what the remote holds.
fn land<S: Store, K: Clock, R: Randomness>(
    store: &mut S,
    clock: &K,
    random: &mut R,
    remote: &RemoteConfig,
    planned: &Vec<(Oid, Incoming)>,
    report: &mut PullReport,
) -> (r: Result<(), UseCaseError>)
    requires
        old(report).created == 0,
        old(report).updated == 0,
        old(report).conflicts == 0,
        old(report).unchanged == 0,
    ensures
        final(store).model().unit == old(store).model().unit,
        final(report).remote@ == old(report).remote@,
        final(report).removed_upstream == old(report).removed_upstream,
        r is Ok ==> landed_as(
            old(store).model().data,
            final(store).model().data,
            remote.name@,
            planned_views(planned@),
            counts_of(*final(report)),
        ),
        r matches Err(e) ==> e is Store,
{
    let ghost m0 = store.model();
    let ghost pv = planned_views(planned@);
    let mut landed: Vec<Change> = Vec::new();
    let mut i: usize = 0;
    while i < planned.len()
        invariant
            m0 == old(store).model(),
            pv == planned_views(planned@),
            i <= planned.len(),
            store.model() == m0.with(landing(m0.data, remote.name@, pv.take(i as int)).data),
            crate::domain::change_views(landed@) == landing(m0.data, remote.name@, pv.take(i as int)).changes,
            report.created == landing(m0.data, remote.name@, pv.take(i as int)).created,
            report.updated == landing(m0.data, remote.name@, pv.take(i as int)).updated,
            report.conflicts == landing(m0.data, remote.name@, pv.take(i as int)).conflicts,
            report.unchanged == landing(m0.data, remote.name@, pv.take(i as int)).unchanged,
            report.created + report.updated + report.conflicts + report.unchanged <= i,
            report.remote@ == old(report).remote@,
            report.removed_upstream == old(report).removed_upstream,
        decreases planned.len() - i,
    {
        let ghost l = landing(m0.data, remote.name@, pv.take(i as int));
        let ghost before_changes = crate::domain::change_views(landed@);
        proof {
            assert(pv.take(i + 1).drop_last() =~= pv.take(i as int));
            assert(pv.take(i + 1).last() == pv[i as int]);
        }
        let oid = &planned[i].0;
        match &planned[i].1 {
            Incoming::Unchanged => {
                report.unchanged = report.unchanged + 1;
            },
            Incoming::Conflict(o) => {
                match store.mark_conflict(&remote.name, oid, o) {
                    Ok(()) => {},
                    Err(e) => return Err(UseCaseError::Store(e)),
                }
                match store.set_remote_snapshot(&remote.name, o) {
                    Ok(()) => {},
                    Err(e) => return Err(UseCaseError::Store(e)),
                }
                report.conflicts = report.conflicts + 1;
                match note_cancelled(store, o) {
                    Ok(()) => {},
                    Err(e) => return Err(e),
                }
            },
            Incoming::Create(o) | Incoming::FastForward(o) => {
                let is_create = match store.get(oid) {
                    Ok(x) => x.is_none(),
                    Err(e) => return Err(UseCaseError::Store(e)),
                };
                match store.put(o) {
                    Ok(()) => {},
                    Err(e) => return Err(UseCaseError::Store(e)),
                }
                match store.set_remote_snapshot(&remote.name, o) {
                    Ok(()) => {},
                    Err(e) => return Err(UseCaseError::Store(e)),
                }
                let op = if is_create {
                    Op::Create
                } else {
                    Op::Update
                };
                landed.push(Change { oid: oid.copy(), op, before: None, after: Some(o.copy()) });
                assert(crate::domain::change_views(landed@) =~= before_changes.push(
                    landed_change(l.data, pv[i as int].0, pv[i as int].1).unwrap(),
                ));
                if is_create {
                    report.created = report.created + 1;
                } else {
                    report.updated = report.updated + 1;
                }
                match note_cancelled(store, o) {
                    Ok(()) => {},
                    Err(e) => return Err(e),
                }
            },
        }
        i = i + 1;
    }
    assert(pv.take(planned.len() as int) =~= pv);
    if landed.len() == 0 {
        return Ok(());
    }
    let id = new_commit_id(random);
    let mut message = String::from_str("pull from ");
    message.append(remote.name.0.as_str());
    proof {
        reveal_strlit("pull from ");
        assert(message@ =~= pull_message(remote.name@));
    }
    let at = clock.now();
    let record = CommitRecord { id, message, at, changes: landed };
    match store.commit(&record) {
        Ok(()) => {},
        Err(e) => return Err(UseCaseError::Store(e)),
    }
    match store.mark_pushed(&remote.name, &record.id) {
        Ok(()) => {},
        Err(e) => return Err(UseCaseError::Store(e)),
    }
    proof {
        let l = landing(m0.data, remote.name@, pv);
        assert(pull_commit(l.data, remote.name@, l.changes, record.id@, at) == store.model().data);
    }
    Ok(())
}

/// Whether `oid` has work of its own a pull would overwrite: a working
/// object that differs from its last commit, or one with a change staged.
pub open spec fn dirty(d: StoreData, oid: Seq<char>) -> bool {
    d.working.get(oid) matches Some(l) && (d.committed.get(oid) != Some(l) || d.staged.contains_key(oid))
}

/// Recording rejections touches neither the working layer, the committed
/// view nor the stage.
proof fn lemma_rejections_keep_work(d: StoreData, remote: Seq<char>, rejected: Seq<(Seq<char>, Seq<char>)>)
    ensures
        rejections(d, remote, rejected).working == d.working,
        rejections(d, remote, rejected).committed == d.committed,
        rejections(d, remote, rejected).staged == d.staged,
    decreases rejected.len(),
{
    if rejected.len() > 0 {
        lemma_rejections_keep_work(d, remote, rejected.drop_last());
    }
}

/// Every write of one pull, inside a unit of work the caller holds open.
fn land_everything<S: Store, K: Clock, R: Randomness>(
    store: &mut S,
    clock: &K,
    random: &mut R,
    remote: &RemoteConfig,
    caps: &RemoteCapabilities,
    response: &PullOutcome,
    report: &mut PullReport,
) -> (r: Result<(), UseCaseError>)
    requires
        old(report).created == 0,
        old(report).updated == 0,
        old(report).conflicts == 0,
        old(report).unchanged == 0,
        old(report).removed_upstream == 0,
    ensures
        final(store).model().unit == old(store).model().unit,
        final(report).remote@ == old(report).remote@,
        r is Ok ==> pulled_as(
            old(store).model().data,
            final(store).model().data,
            remote.name@,
            caps.fields@,
            response@,
            counts_of(*final(report)),
        ),
        r matches Err(e) ==> e is Store || e matches UseCaseError::Refused(Refusal::DirtyOnPull { .. }),
        r matches Err(UseCaseError::Refused(Refusal::DirtyOnPull { oid })) ==> dirty(old(store).model().data, oid@),
{
    let ghost m0 = store.model();
    let ghost rv = response@;
    let mut i: usize = 0;
    while i < response.rejected.len()
        invariant
            m0 == old(store).model(),
            rv == response@,
            i <= response.rejected.len(),
            store.model() == m0.with(rejections(m0.data, remote.name@, rv.rejected.take(i as int))),
        decreases response.rejected.len() - i,
    {
        let rejected = &response.rejected[i];
        let mut why = rejected.remote_id.clone();
        why.append(": ");
        why.append(rejected.why.as_str());
        proof {
            reveal_strlit(": ");
            assert(why@ =~= rejection_text(rv.rejected[i as int].0, rv.rejected[i as int].1));
            assert(rv.rejected.take(i + 1).drop_last() =~= rv.rejected.take(i as int));
        }
        match store.add_notice(&Notice::PullFailed { remote: remote.name.copy(), why }) {
            Ok(()) => {},
            Err(e) => return Err(UseCaseError::Store(e)),
        }
        i = i + 1;
    }
    assert(rv.rejected.take(response.rejected.len() as int) =~= rv.rejected);
    let ghost d1 = store.model().data;
    let extra = match cancelled_events(store, remote, &response.cancelled) {
        Ok(x) => x,
        Err(e) => return Err(e),
    };
    let mut objects: Vec<IncomingObject> = Vec::new();
    let mut j: usize = 0;
    while j < response.objects.len()
        invariant
            j <= response.objects.len(),
            incoming_views(objects@) == incoming_views(response.objects@).take(j as int),
        decreases response.objects.len() - j,
    {
        let ghost before = incoming_views(objects@);
        objects.push(response.objects[j].copy());
        assert(incoming_views(objects@) =~= before.push(incoming_views(response.objects@)[j as int]));
        assert(incoming_views(response.objects@).take(j + 1) =~= incoming_views(response.objects@).take(
            j as int,
        ).push(incoming_views(response.objects@)[j as int]));
        j = j + 1;
    }
    let mut k: usize = 0;
    while k < extra.len()
        invariant
            k <= extra.len(),
            incoming_views(objects@) == incoming_views(response.objects@) + incoming_views(extra@).take(k as int),
        decreases extra.len() - k,
    {
        let ghost before = incoming_views(objects@);
        objects.push(extra[k].copy());
        assert(incoming_views(objects@) =~= before.push(incoming_views(extra@)[k as int]));
        assert(incoming_views(response.objects@) + incoming_views(extra@).take(k + 1) =~= (incoming_views(
            response.objects@,
        ) + incoming_views(extra@).take(k as int)).push(incoming_views(extra@)[k as int]));
        k = k + 1;
    }
    assert(incoming_views(extra@).take(extra.len() as int) =~= incoming_views(extra@));
    let (planned, fresh) = match classify(store, remote, caps, &objects, random) {
        Ok(p) => p,
        Err(e) => {
            proof {
                lemma_rejections_keep_work(m0.data, remote.name@, rv.rejected);
            }
            return Err(e);
        },
    };
    let ghost d2 = store.model().data;
    let ghost fv = fresh_views(fresh@);
    let mut f: usize = 0;
    while f < fresh.len()
        invariant
            m0 == old(store).model(),
            fv == fresh_views(fresh@),
            f <= fresh.len(),
            store.model() == m0.with(mapped(d2, remote.name@, fv.take(f as int))),
        decreases fresh.len() - f,
    {
        match store.map_remote_id(&remote.name, &fresh[f].0, fresh[f].1.as_str()) {
            Ok(()) => {},
            Err(e) => return Err(UseCaseError::Store(e)),
        }
        assert(fv.take(f + 1).drop_last() =~= fv.take(f as int));
        f = f + 1;
    }
    assert(fv.take(fresh.len() as int) =~= fv);
    let ghost d3 = store.model().data;
    match land(store, clock, random, remote, &planned, report) {
        Ok(()) => {},
        Err(e) => return Err(e),
    }
    let ghost d4 = store.model().data;
    let removed = match record_removals(store, remote, &response.removed) {
        Ok(n) => n,
        Err(e) => return Err(e),
    };
    report.removed_upstream = removed;
    let ghost d5 = store.model().data;
    let token = match &response.sync {
        Some(t) => Some(t.as_str()),
        None => None,
    };
    match store.set_sync_token(&remote.name, token) {
        Ok(()) => {},
        Err(e) => return Err(UseCaseError::Store(e)),
    }
    let at = clock.now();
    match store.set_last_pull(&remote.name, at) {
        Ok(()) => {},
        Err(e) => return Err(UseCaseError::Store(e)),
    }
    proof {
        let steps = PullSteps {
            cancelled: incoming_views(extra@),
            planned: planned_views(planned@),
            fresh: fv,
            classified: d2,
            landed: d4,
            removed: d5,
            at,
        };
        assert(store.model().data == synced(d5, remote.name@, rv.sync, at));
        assert(pulled_steps(m0.data, store.model().data, remote.name@, caps.fields@, rv, counts_of(*report), steps));
    }
    Ok(())
}

/// Lands one response from `remote` as a single unit of work: when any write
/// fails, none of them lands and the store is as it was.
pub fn apply<S: Store, K: Clock, R: Randomness>(
    store: &mut S,
    clock: &K,
    random: &mut R,
    remote: &RemoteConfig,
    caps: &RemoteCapabilities,
    response: &PullOutcome,
) -> (r: Result<PullReport, UseCaseError>)
    ensures
        r matches Ok(report) ==> {
            &&& report.remote@ == remote.name@
            &&& old(store).model().unit is None
            &&& final(store).model().unit is None
            &&& pulled_as(
                old(store).model().data,
                final(store).model().data,
                remote.name@,
                caps.fields@,
                response@,
                counts_of(report),
            )
        },
        r is Err ==> final(store).model() == old(store).model(),
        r matches Err(e) ==> e is Store || e matches UseCaseError::Refused(Refusal::DirtyOnPull { .. }),
        r matches Err(UseCaseError::Refused(Refusal::DirtyOnPull { oid })) ==> dirty(old(store).model().data, oid@),
{
    match store.begin() {
        Ok(()) => {},
        Err(e) => return Err(UseCaseError::Store(e)),
    }
    let mut report = PullReport {
        remote: remote.name.copy(),
        created: 0,
        updated: 0,
        conflicts: 0,
        removed_upstream: 0,
        unchanged: 0,
    };
    match land_everything(store, clock, random, remote, caps, response, &mut report) {
        Ok(()) => match store.finish() {
            Ok(()) => Ok(report),
            Err(e) => Err(UseCaseError::Store(e)),
        },
        Err(e) => {
            store.abandon();
            Err(e)
        },
    }
}

/// One remote's turn in a pull: what the helper declared and answered, and
/// the store before the turn.
pub struct PullRun {
    pub fields: Seq<Field>,
    pub response: PullOutcomeView,
    pub before: StoreData,
}

/// The store before turn `i`, or `last` after the final turn.
pub open spec fn state_before(runs: Seq<PullRun>, last: StoreData, i: int) -> StoreData {
    if i < runs.len() {
        runs[i].before
    } else {
        last
    }
}

/// `runs` take the store from `d0` to `d1`, one remote of `remotes` each,
/// with the counts reported.
pub open spec fn pulled_all(
    d0: StoreData,
    d1: StoreData,
    remotes: Seq<Seq<char>>,
    counts: Seq<PullCounts>,
    runs: Seq<PullRun>,
) -> bool {
    &&& runs.len() == remotes.len()
    &&& counts.len() == remotes.len()
    &&& state_before(runs, d1, 0) == d0
    &&& forall|i: int|
        0 <= i < runs.len() ==> pulled_as(
            (#[trigger] runs[i]).before,
            state_before(runs, d1, i + 1),
            remotes[i],
            runs[i].fields,
            runs[i].response,
            counts[i],
        )
}

/// `d1` is `d0` once each of `remotes` was pulled in turn, whatever each
/// helper declared and answered.
pub open spec fn pulled_in_turn(d0: StoreData, d1: StoreData, remotes: Seq<Seq<char>>, counts: Seq<PullCounts>) -> bool {
    exists|runs: Seq<PullRun>| #[trigger] pulled_all(d0, d1, remotes, counts, runs)
}

pub open spec fn report_remotes(reports: Seq<PullReport>) -> Seq<Seq<char>> {
    reports.map_values(|r: PullReport| r.remote@)
}

pub open spec fn report_counts(reports: Seq<PullReport>) -> Seq<PullCounts> {
    reports.map_values(|r: PullReport| counts_of(r))
}

/// Pulls every remote, or the one named, each in its own unit of work: a
/// remote whose pull fails lands nothing, and the remotes before it stay
/// pulled.
pub fn pull<S: Store, L: HelperLauncher, C: CredentialSource, K: Clock, R: Randomness>(
    store: &mut S,
    launcher: &mut L,
    credentials: &mut C,
    clock: &K,
    random: &mut R,
    config: &Config,
    remote: Option<&str>,
) -> (r: Result<Vec<PullReport>, UseCaseError>)
    ensures
        r matches Ok(reports) ==> {
            &&& match remote {
                None => reports@.len() == config.remotes@.len() && forall|i: int|
                    0 <= i < reports@.len() ==> (#[trigger] reports@[i]).remote@ == config.remotes@[i].name@,
                Some(name) => remote_index(config.remotes@, name@) matches Some(k) && reports@.len() == 1
                    && reports@[0].remote@ == config.remotes@[k].name@,
            }
            &&& pulled_in_turn(
                old(store).model().data,
                final(store).model().data,
                report_remotes(reports@),
                report_counts(reports@),
            )
            &&& reports@.len() == 0 ==> final(store).model() == old(store).model()
            &&& reports@.len() > 0 ==> old(store).model().unit is None && final(store).model().unit is None
        },
        match remote {
            Some(name) => remote_index(config.remotes@, name@) is None ==> (r matches Err(
                UseCaseError::Refused(Refusal::NoSuchRemote(n)),
            ) && n@ == name@),
            None => true,
        },
        r matches Err(UseCaseError::Refused(Refusal::DirtyOnPull { oid })) ==> dirty(final(store).model().data, oid@),
        r matches Err(UseCaseError::Refused(Refusal::NoSuchRemote(_))) ==> final(launcher).launched() == old(
            launcher,
        ).launched() && final(store).model() == old(store).model(),
{
    let ghost m0 = store.model();
    let targets = match select_remotes(config, remote) {
        Ok(t) => t,
        Err(e) => return Err(e),
    };
    let mut reports: Vec<PullReport> = Vec::new();
    let ghost mut runs: Seq<PullRun> = Seq::empty();
    let mut i: usize = 0;
    while i < targets.len()
        invariant
            m0 == old(store).model(),
            i <= targets.len(),
            reports@.len() == i,
            forall|j: int| 0 <= j < i ==> (#[trigger] reports@[j]).remote@ == targets@[j].name@,
            match remote {
                None => targets@ == config.remotes@.map_values(|c: RemoteConfig| &c),
                Some(name) => remote_index(config.remotes@, name@) matches Some(k) && targets@ == seq![
                    &config.remotes@[k],
                ],
            },
            pulled_all(m0.data, store.model().data, report_remotes(reports@), report_counts(reports@), runs),
            i == 0 ==> store.model() == m0,
            i > 0 ==> m0.unit is None && store.model().unit is None,
        decreases targets.len() - i,
    {
        let target = targets[i];
        let (mut helper, caps) = match connect(launcher, credentials, target) {
            Ok(c) => c,
            Err(e) => return Err(e),
        };
        let since = match store.sync_token(&target.name) {
            Ok(s) => s,
            Err(e) => return Err(UseCaseError::Store(e)),
        };
        let since_text = match &since {
            Some(t) => Some(t.as_str()),
            None => None,
        };
        let response = match helper.pull(since_text) {
            Ok(p) => p,
            Err(e) => return Err(UseCaseError::Helper(e)),
        };
        let ghost before = store.model().data;
        let report = match apply(store, clock, random, target, &caps, &response) {
            Ok(rep) => rep,
            Err(e) => return Err(e),
        };
        let ghost rs0 = report_remotes(reports@);
        let ghost cs0 = report_counts(reports@);
        let ghost run = PullRun { fields: caps.fields@, response: response@, before };
        reports.push(report);
        proof {
            let runs2 = runs.push(run);
            let after = store.model().data;
            assert(report_remotes(reports@) =~= rs0.push(target.name@));
            assert(report_counts(reports@) =~= cs0.push(counts_of(reports@[i as int])));
            assert forall|j: int| 0 <= j < runs2.len() implies pulled_as(
                (#[trigger] runs2[j]).before,
                state_before(runs2, after, j + 1),
                report_remotes(reports@)[j],
                runs2[j].fields,
                runs2[j].response,
                report_counts(reports@)[j],
            ) by {
                if j < runs.len() {
                    assert(state_before(runs2, after, j + 1) == state_before(runs, before, j + 1));
                }
            }
            assert(state_before(runs2, after, 0) == m0.data);
            assert(pulled_all(m0.data, after, report_remotes(reports@), report_counts(reports@), runs2));
            runs = runs2;
        }
        i = i + 1;
    }
    Ok(reports)
}

} // verus!
