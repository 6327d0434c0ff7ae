//! What a pull promises about local work: it never deletes an object, and it
//! never writes over an object whose working copy holds uncommitted work.

use vstd::prelude::*;

use crate::domain::{Field, ObjectView};
use crate::merge::merge_spec;
use crate::ports::StoreData;
use crate::remote::PullOutcomeView;

use super::classify::{IncomingView, decide, theirs_merged, with_oid};
use super::notices::{cancel_noticed, removals};
use super::{
    PullCounts, PullRun, PullSteps, land_step, landing, mapped, pull_commit, pulled_all, pulled_as, pulled_in_turn,
    pulled_steps, rejections, state_before,
};

verus! {

/// Whether landing `planned` writes a working copy under `k`.
pub open spec fn writes(planned: Seq<(Seq<char>, IncomingView)>, k: Seq<char>) -> bool {
    exists|i: int|
        0 <= i < planned.len() && match #[trigger] planned[i].1 {
            IncomingView::Create(o) => o.oid() == k,
            IncomingView::FastForward(o) => o.oid() == k,
            _ => false,
        }
}

/// `d1` still holds every object `d0` held.
pub open spec fn keeps_objects(d0: StoreData, d1: StoreData) -> bool {
    forall|k: Seq<char>| d0.working.contains_key(k) ==> #[trigger] d1.working.contains_key(k)
}

/// Whether `k` holds uncommitted work in `d`: its working copy moved since
/// the last commit, or it is staged.
pub open spec fn uncommitted(d: StoreData, k: Seq<char>) -> bool {
    d.working.contains_key(k) && (d.committed.get(k) != Some(d.working[k]) || d.staged.contains_key(k))
}

/// A merge keeps our oid.
proof fn lemma_merge_keeps_oid(o: ObjectView, t: ObjectView, fields: Seq<Field>)
    ensures
        merge_spec(o, t, fields).oid() == o.oid(),
{
}

proof fn lemma_rejections_keep_objects(d: StoreData, remote: Seq<char>, rejected: Seq<(Seq<char>, Seq<char>)>)
    ensures
        rejections(d, remote, rejected).working == d.working,
        rejections(d, remote, rejected).committed == d.committed,
        rejections(d, remote, rejected).staged == d.staged,
        rejections(d, remote, rejected).snapshots == d.snapshots,
    decreases rejected.len(),
{
    if rejected.len() > 0 {
        lemma_rejections_keep_objects(d, remote, rejected.drop_last());
    }
}

proof fn lemma_mapped_keeps_working(d: StoreData, remote: Seq<char>, fresh: Seq<(Seq<char>, Seq<char>)>)
    ensures
        mapped(d, remote, fresh).working == d.working,
    decreases fresh.len(),
{
    if fresh.len() > 0 {
        lemma_mapped_keeps_working(d, remote, fresh.drop_last());
    }
}

proof fn lemma_removals_keep_working(d: StoreData, remote: Seq<char>, found: Seq<Option<Seq<char>>>)
    ensures
        removals(d, remote, found).working == d.working,
    decreases found.len(),
{
    if found.len() > 0 {
        lemma_removals_keep_working(d, remote, found.drop_last());
    }
}

proof fn lemma_cancel_noticed_keeps_working(d: StoreData, o: ObjectView)
    ensures
        cancel_noticed(d, o).working == d.working,
{
}

/// The working layer after one planned object lands.
proof fn lemma_land_step_working(d: StoreData, remote: Seq<char>, oid: Seq<char>, inc: IncomingView)
    ensures
        land_step(d, remote, oid, inc).working == match inc {
            IncomingView::Create(o) => d.working.insert(o.oid(), o),
            IncomingView::FastForward(o) => d.working.insert(o.oid(), o),
            _ => d.working,
        },
{
    match inc {
        IncomingView::Create(o) => {
            lemma_cancel_noticed_keeps_working(
                StoreData { working: d.working.insert(o.oid(), o), snapshots: d.snapshots.insert((remote, o.oid()), o), ..d },
                o,
            );
        },
        IncomingView::FastForward(o) => {
            lemma_cancel_noticed_keeps_working(
                StoreData { working: d.working.insert(o.oid(), o), snapshots: d.snapshots.insert((remote, o.oid()), o), ..d },
                o,
            );
        },
        IncomingView::Conflict(o) => {
            lemma_cancel_noticed_keeps_working(
                StoreData {
                    conflicts: d.conflicts.insert(oid, crate::ports::ConflictView { remote, oid, ours: d.working[oid], theirs: o }),
                    snapshots: d.snapshots.insert((remote, o.oid()), o),
                    ..d
                },
                o,
            );
        },
        IncomingView::Unchanged => {},
    }
}

/// Landing keeps every object, and changes none that it does not write.
proof fn lemma_landing_keeps_objects(d: StoreData, remote: Seq<char>, planned: Seq<(Seq<char>, IncomingView)>)
    ensures
        forall|k: Seq<char>| d.working.contains_key(k) ==> #[trigger] landing(d, remote, planned).data.working.contains_key(k),
        forall|k: Seq<char>| !writes(planned, k) ==> #[trigger] landing(d, remote, planned).data.working.get(k) == d.working.get(k),
    decreases planned.len(),
{
    if planned.len() > 0 {
        let front = planned.drop_last();
        lemma_landing_keeps_objects(d, remote, front);
        let l = landing(d, remote, front);
        let p = planned.last();
        lemma_land_step_working(l.data, remote, p.0, p.1);
        assert forall|k: Seq<char>| !writes(planned, k) implies !writes(front, k) by {
            if writes(front, k) {
                let i = choose|i: int|
                    0 <= i < front.len() && match #[trigger] front[i].1 {
                        IncomingView::Create(o) => o.oid() == k,
                        IncomingView::FastForward(o) => o.oid() == k,
                        _ => false,
                    };
                assert(planned[i] == front[i]);
            }
        }
        assert forall|k: Seq<char>| !writes(planned, k) implies #[trigger] landing(d, remote, planned).data.working.get(k)
            == d.working.get(k) by {
            let last = planned.len() - 1;
            assert(planned[last] == p);
            assert(!(match planned[last].1 {
                IncomingView::Create(o) => o.oid() == k,
                IncomingView::FastForward(o) => o.oid() == k,
                _ => false,
            }));
            assert(!writes(front, k));
            assert(l.data.working.get(k) == d.working.get(k));
            assert(landing(d, remote, planned).data == land_step(l.data, remote, p.0, p.1));
        }
    }
}

/// A pull never deletes a local object: whatever the remote removed, sent or
/// cancelled, every object the working layer held is still there.
pub proof fn lemma_pull_never_deletes(
    d0: StoreData,
    d1: StoreData,
    remote: Seq<char>,
    fields: Seq<Field>,
    response: PullOutcomeView,
    counts: PullCounts,
)
    requires
        pulled_as(d0, d1, remote, fields, response, counts),
    ensures
        keeps_objects(d0, d1),
{
    let s = choose|s: PullSteps| #[trigger] pulled_steps(d0, d1, remote, fields, response, counts, s);
    let dr = rejections(d0, remote, response.rejected);
    lemma_rejections_keep_objects(d0, remote, response.rejected);
    let dm = mapped(s.classified, remote, s.fresh);
    lemma_mapped_keeps_working(s.classified, remote, s.fresh);
    lemma_landing_keeps_objects(dm, remote, s.planned);
    let l = landing(dm, remote, s.planned);
    if l.changes.len() > 0 {
        let (id, at) = choose|id: Seq<char>, at: crate::domain::Timestamp| #[trigger] pull_commit(l.data, remote, l.changes, id, at) == s.landed;
    }
    assert(s.landed.working == l.data.working);
    let found = choose|found: Seq<Option<Seq<char>>>|
        #[trigger] super::notices::removals_looked_up(s.landed, remote, response.removed, found) && s.removed
            == removals(s.landed, remote, found) && counts.removed_upstream == super::notices::hits(found);
    lemma_removals_keep_working(s.landed, remote, found);
}

/// A pull never writes over uncommitted work: an object whose working copy
/// moved since the last commit, or that is staged, keeps that working copy,
/// unless the copy is exactly what the remote last sent.
pub proof fn lemma_pull_keeps_uncommitted_work(
    d0: StoreData,
    d1: StoreData,
    remote: Seq<char>,
    fields: Seq<Field>,
    response: PullOutcomeView,
    counts: PullCounts,
    k: Seq<char>,
)
    requires
        d0.wf(),
        pulled_as(d0, d1, remote, fields, response, counts),
        uncommitted(d0, k),
        d0.snapshots.get((remote, k)) != Some(d0.working[k]),
    ensures
        d1.working.get(k) == d0.working.get(k),
{
    let s = choose|s: PullSteps| #[trigger] pulled_steps(d0, d1, remote, fields, response, counts, s);
    let dr = rejections(d0, remote, response.rejected);
    lemma_rejections_keep_objects(d0, remote, response.rejected);
    let raws = response.objects + s.cancelled;
    let oids = s.planned.map_values(|p: (Seq<char>, IncomingView)| p.0);
    assert(!writes(s.planned, k)) by {
        if writes(s.planned, k) {
            let i = choose|i: int|
                0 <= i < s.planned.len() && match #[trigger] s.planned[i].1 {
                    IncomingView::Create(o) => o.oid() == k,
                    IncomingView::FastForward(o) => o.oid() == k,
                    _ => false,
                };
            let theirs = with_oid(raws[i].1, oids[i]);
            assert(decide(dr, remote, fields, oids[i], theirs) == Some(s.planned[i].1));
            let local = dr.working.get(oids[i]);
            lemma_merge_keeps_oid(theirs, theirs, fields);
            if let Some(lv) = local {
                lemma_merge_keeps_oid(lv, theirs, fields);
                assert(lv.oid() == oids[i]);
            }
            assert(theirs_merged(local, theirs, fields).oid() == oids[i]);
            assert(oids[i] == k);
        }
    }
    let dm = mapped(s.classified, remote, s.fresh);
    lemma_mapped_keeps_working(s.classified, remote, s.fresh);
    lemma_landing_keeps_objects(dm, remote, s.planned);
    let l = landing(dm, remote, s.planned);
    if l.changes.len() > 0 {
        let (id, at) = choose|id: Seq<char>, at: crate::domain::Timestamp| #[trigger] pull_commit(l.data, remote, l.changes, id, at) == s.landed;
    }
    assert(s.landed.working == l.data.working);
    let found = choose|found: Seq<Option<Seq<char>>>|
        #[trigger] super::notices::removals_looked_up(s.landed, remote, response.removed, found) && s.removed
            == removals(s.landed, remote, found) && counts.removed_upstream == super::notices::hits(found);
    lemma_removals_keep_working(s.landed, remote, found);
}

proof fn lemma_chain_keeps_objects(states: spec_fn(int) -> StoreData, n: int)
    requires
        0 <= n,
        forall|j: int| 0 <= j < n ==> keeps_objects(#[trigger] states(j), states(j + 1)),
    ensures
        keeps_objects(states(0), states(n)),
    decreases n,
{
    if n > 0 {
        lemma_chain_keeps_objects(states, n - 1);
        assert(keeps_objects(states(n - 1), states(n)));
    }
}

/// Pulling remote after remote never deletes a local object either.
#[verifier::spinoff_prover]
pub proof fn lemma_pulls_never_delete(d0: StoreData, d1: StoreData, remotes: Seq<Seq<char>>, counts: Seq<PullCounts>)
    requires
        pulled_in_turn(d0, d1, remotes, counts),
    ensures
        keeps_objects(d0, d1),
{
    let runs = choose|runs: Seq<PullRun>| #[trigger] pulled_all(d0, d1, remotes, counts, runs);
    let states = |j: int| state_before(runs, d1, j);
    assert forall|j: int| 0 <= j < runs.len() implies keeps_objects(#[trigger] states(j), states(j + 1)) by {
        let r = runs[j];
        lemma_pull_never_deletes(r.before, state_before(runs, d1, j + 1), remotes[j], r.fields, r.response, counts[j]);
    }
    lemma_chain_keeps_objects(states, runs.len() as int);
}

} // verus!
