//! Sending what the remote is owed.

use vstd::prelude::*;

use crate::config::{Config, RemoteConfig, remote_index};
use crate::domain::{CommitRecord, CommitRecordView, Object, ObjectView, Oid, copy_opt, opt_object, record_views};
use crate::errors::{Refusal, UseCaseError};
use crate::ports::{
    Answers, Batches, Clock, CredentialSource, HelperLauncher, Notice, NoticeView, RemoteHelper, RemoteName, Store,
    StoreData, StoreModel,
};
use crate::remote::{MutationOp, MutationOutcome, MutationOutcomeView, RemoteCapabilities, RemoteMutation, RemoteMutationView};

pub mod idempotency;
pub mod mutations;

use mutations::{Outgoing, OutgoingView, changes_to_send, mutation_for, mutation_spec, opt_mutation, outgoing_views, owed, scope_of};

verus! {

/// What one push to one remote did.
#[derive(Debug)]
pub struct PushReport {
    pub remote: RemoteName,
    pub sent: usize,
    pub succeeded: usize,
    pub failed: Vec<(Oid, String)>,
    pub skipped: usize,
}

/// The remotes a verb acts on: every configured one, or the one named.
pub fn select_remotes<'a>(config: &'a Config, remote: Option<&str>) -> (r: Result<Vec<&'a RemoteConfig>, UseCaseError>)
    ensures
        match remote {
            None => (r matches Ok(v) && v@ == config.remotes@.map_values(|c: RemoteConfig| &c)),
            Some(name) => match remote_index(config.remotes@, name@) {
                Some(i) => (r matches Ok(v) && v@ == seq![&config.remotes@[i]]),
                None => (r matches Err(UseCaseError::Refused(Refusal::NoSuchRemote(n))) && n@ == name@),
            },
        },
{
    match remote {
        None => {
            let mut out: Vec<&'a RemoteConfig> = Vec::new();
            let mut i: usize = 0;
            while i < config.remotes.len()
                invariant
                    i <= config.remotes.len(),
                    out@ == config.remotes@.take(i as int).map_values(|c: RemoteConfig| &c),
                decreases config.remotes.len() - i,
            {
                out.push(&config.remotes[i]);
                assert(config.remotes@.take(i + 1).map_values(|c: RemoteConfig| &c) =~= config.remotes@.take(
                    i as int,
                ).map_values(|c: RemoteConfig| &c).push(&config.remotes@[i as int]));
                i = i + 1;
            }
            assert(config.remotes@.take(config.remotes.len() as int) =~= config.remotes@);
            Ok(out)
        },
        Some(name) => match config.remote(name) {
            Some(r) => {
                let mut out: Vec<&'a RemoteConfig> = Vec::new();
                out.push(r);
                Ok(out)
            },
            None => Err(UseCaseError::Refused(Refusal::NoSuchRemote(String::from_str(name)))),
        },
    }
}

/// The mutations a list of owed changes becomes, in order.
pub open spec fn plan_spec(
    entries: Seq<OutgoingView>,
    caps: RemoteCapabilities,
    remote: RemoteConfig,
    d: StoreData,
) -> Seq<RemoteMutationView>
    decreases entries.len(),
{
    if entries.len() == 0 {
        Seq::empty()
    } else {
        let rest = plan_spec(entries.drop_last(), caps, remote, d);
        let e = entries.last();
        match mutation_spec(
            e.change,
            e.origin,
            caps.kinds@,
            caps.fields@,
            scope_of(remote),
            d.remote_ids.get((remote.name@, e.change.oid)),
        ) {
            Some(m) => rest.push(m),
            None => rest,
        }
    }
}

/// Whether some answer of `answers` is about `oid`.
pub open spec fn answered(answers: Seq<MutationOutcomeView>, oid: Seq<char>) -> bool {
    exists|i: int| 0 <= i < answers.len() && (#[trigger] answers[i]).oid == oid
}

/// Whether some mutation of `sent` is about `oid`.
pub open spec fn was_sent(sent: Seq<RemoteMutationView>, oid: Seq<char>) -> bool {
    exists|i: int| 0 <= i < sent.len() && (#[trigger] sent[i]).oid == oid
}

/// The answers that count: the helper is an untrusted subprocess, so an
/// answer about an oid dam never sent is dropped, and of several answers
/// about one oid only the first counts.
pub open spec fn counted(outcomes: Seq<MutationOutcomeView>, sent: Seq<RemoteMutationView>) -> Seq<MutationOutcomeView>
    decreases outcomes.len(),
{
    if outcomes.len() == 0 {
        Seq::empty()
    } else {
        let c = counted(outcomes.drop_last(), sent);
        let o = outcomes.last();
        if was_sent(sent, o.oid) && !answered(c, o.oid) {
            c.push(o)
        } else {
            c
        }
    }
}

/// The mutations that got no answer that counts, in the order they were sent.
pub open spec fn unanswered(sent: Seq<RemoteMutationView>, answers: Seq<MutationOutcomeView>) -> Seq<Seq<char>>
    decreases sent.len(),
{
    if sent.len() == 0 {
        Seq::empty()
    } else {
        let rest = unanswered(sent.drop_last(), answers);
        if answered(answers, sent.last().oid) {
            rest
        } else {
            rest.push(sent.last().oid)
        }
    }
}

/// The reason a failed mutation is reported with.
pub open spec fn why_failed(o: MutationOutcomeView) -> Seq<char> {
    match o.why {
        Some(w) => w,
        None => "the remote gave no reason"@,
    }
}

/// The reason a mutation with no answer is reported with.
pub open spec fn no_answer() -> Seq<char> {
    "no answer from helper"@
}

/// The first mutation sent about `oid`.
pub open spec fn sent_for(sent: Seq<RemoteMutationView>, oid: Seq<char>) -> RemoteMutationView {
    sent[choose|i: int| 0 <= i < sent.len() && (#[trigger] sent[i]).oid == oid && forall|j: int| 0 <= j < i ==> sent[j].oid != oid]
}

/// What one answer that counts does to the store: a success maps the remote
/// id it names and then forgets the object's mapping if it was a delete, or
/// records what the remote now holds; a failure is noticed.
#[verifier::opaque]
pub open spec fn apply_answer(d: StoreData, remote: Seq<char>, sent: Seq<RemoteMutationView>, o: MutationOutcomeView) -> StoreData {
    if o.ok {
        let d1 = match o.remote_id {
            Some(id) => StoreData { remote_ids: d.remote_ids.insert((remote, o.oid), id), ..d },
            None => d,
        };
        let m = sent_for(sent, o.oid);
        if m.op == MutationOp::Delete {
            StoreData {
                remote_ids: d1.remote_ids.remove((remote, o.oid)),
                snapshots: d1.snapshots.remove((remote, o.oid)),
                ..d1
            }
        } else {
            match m.object {
                Some(a) => StoreData { snapshots: d1.snapshots.insert((remote, a.oid()), a), ..d1 },
                None => d1,
            }
        }
    } else {
        StoreData {
            notices: d.notices.push(NoticeView::PushFailed { remote, oid: o.oid, why: why_failed(o) }),
            ..d
        }
    }
}

/// What one answer does: a failure is noticed with its reason and changes
/// no mapping; a success of a delete forgets the remote's id and copy of
/// the object; any other success maps the id the remote gave and records
/// what the remote now holds. Local objects and commits are never touched.
pub proof fn lemma_an_answer_settles_its_object(
    d: StoreData,
    remote: Seq<char>,
    sent: Seq<RemoteMutationView>,
    o: MutationOutcomeView,
)
    ensures
        !o.ok ==> apply_answer(d, remote, sent, o).notices == d.notices.push(
            (NoticeView::PushFailed { remote, oid: o.oid, why: why_failed(o) }),
        ),
        !o.ok ==> apply_answer(d, remote, sent, o).remote_ids == d.remote_ids,
        !o.ok ==> apply_answer(d, remote, sent, o).snapshots == d.snapshots,
        o.ok ==> apply_answer(d, remote, sent, o).notices == d.notices,
        o.ok && sent_for(sent, o.oid).op == MutationOp::Delete ==> !apply_answer(
            d,
            remote,
            sent,
            o,
        ).remote_ids.contains_key((remote, o.oid)) && !apply_answer(d, remote, sent, o).snapshots.contains_key(
            (remote, o.oid),
        ),
        o.ok && sent_for(sent, o.oid).op != MutationOp::Delete ==> (o.remote_id matches Some(id) ==> apply_answer(
            d,
            remote,
            sent,
            o,
        ).remote_ids.get((remote, o.oid)) == Some(id)),
        o.ok && sent_for(sent, o.oid).op != MutationOp::Delete ==> (sent_for(sent, o.oid).object matches Some(a)
            ==> apply_answer(d, remote, sent, o).snapshots.get((remote, a.oid())) == Some(a)),
        apply_answer(d, remote, sent, o).working == d.working,
        apply_answer(d, remote, sent, o).committed == d.committed,
        apply_answer(d, remote, sent, o).commits == d.commits,
{
    reveal(apply_answer);
}

pub open spec fn apply_answers(d: StoreData, remote: Seq<char>, sent: Seq<RemoteMutationView>, answers: Seq<MutationOutcomeView>) -> StoreData
    decreases answers.len(),
{
    if answers.len() == 0 {
        d
    } else {
        apply_answer(apply_answers(d, remote, sent, answers.drop_last()), remote, sent, answers.last())
    }
}

/// Every mutation with no answer noticed as a failure.
pub open spec fn notice_unanswered(d: StoreData, remote: Seq<char>, oids: Seq<Seq<char>>) -> StoreData
    decreases oids.len(),
{
    if oids.len() == 0 {
        d
    } else {
        let d1 = notice_unanswered(d, remote, oids.drop_last());
        StoreData {
            notices: d1.notices.push(NoticeView::PushFailed { remote, oid: oids.last(), why: no_answer() }),
            ..d1
        }
    }
}

/// The oids whose answer was a failure, in answer order.
pub open spec fn failed_oids(answers: Seq<MutationOutcomeView>) -> Seq<Seq<char>>
    decreases answers.len(),
{
    if answers.len() == 0 {
        Seq::empty()
    } else {
        let rest = failed_oids(answers.drop_last());
        if answers.last().ok {
            rest
        } else {
            rest.push(answers.last().oid)
        }
    }
}

/// The failures a push reports: every failed answer with its reason, then
/// every mutation with no answer.
pub open spec fn failures(answers: Seq<MutationOutcomeView>, missing: Seq<Seq<char>>) -> Seq<(Seq<char>, Seq<char>)> {
    failed_answers(answers) + missing.map_values(|o: Seq<char>| (o, no_answer()))
}

pub open spec fn failed_answers(answers: Seq<MutationOutcomeView>) -> Seq<(Seq<char>, Seq<char>)>
    decreases answers.len(),
{
    if answers.len() == 0 {
        Seq::empty()
    } else {
        let rest = failed_answers(answers.drop_last());
        if answers.last().ok {
            rest
        } else {
            rest.push((answers.last().oid, why_failed(answers.last())))
        }
    }
}

/// Whether a commit touches any of `oids`.
pub open spec fn touches(record: CommitRecordView, oids: Seq<Seq<char>>) -> bool {
    exists|i: int| 0 <= i < record.changes.len() && oids.contains(#[trigger] record.changes[i].oid)
}

/// The remote takes every unpushed commit that touches no unanswered oid.
pub open spec fn mark_taken(d: StoreData, remote: Seq<char>, records: Seq<CommitRecordView>, missing: Seq<Seq<char>>) -> StoreData
    decreases records.len(),
{
    if records.len() == 0 {
        d
    } else {
        let d1 = mark_taken(d, remote, records.drop_last(), missing);
        if touches(records.last(), missing) {
            d1
        } else {
            StoreData { pushed: d1.pushed.insert(remote, d1.pushed_to(remote).insert(records.last().id)), ..d1 }
        }
    }
}

/// A push marks as taken by the remote exactly the commits that touch no
/// object left without an answer, on top of those it had taken; what other
/// remotes have taken, and everything but the marks, stays as it was.
pub proof fn lemma_taken_exactly_when_all_answered(
    d: StoreData,
    remote: Seq<char>,
    records: Seq<CommitRecordView>,
    missing: Seq<Seq<char>>,
)
    ensures
        forall|id: Seq<char>| #[trigger] mark_taken(d, remote, records, missing).pushed_to(remote).contains(id) <==> (
        d.pushed_to(remote).contains(id) || exists|i: int|
            0 <= i < records.len() && (#[trigger] records[i]).id == id && !touches(records[i], missing)),
        forall|r: Seq<char>| r != remote ==> #[trigger] mark_taken(d, remote, records, missing).pushed_to(r)
            == d.pushed_to(r),
        mark_taken(d, remote, records, missing).working == d.working,
        mark_taken(d, remote, records, missing).committed == d.committed,
        mark_taken(d, remote, records, missing).retries == d.retries,
        mark_taken(d, remote, records, missing).notices == d.notices,
    decreases records.len(),
{
    if records.len() > 0 {
        let rest = records.drop_last();
        lemma_taken_exactly_when_all_answered(d, remote, rest, missing);
        let d1 = mark_taken(d, remote, rest, missing);
        let last = records.last();
        assert forall|id: Seq<char>| #[trigger] mark_taken(d, remote, records, missing).pushed_to(remote).contains(
            id,
        ) <==> (d.pushed_to(remote).contains(id) || exists|i: int|
            0 <= i < records.len() && (#[trigger] records[i]).id == id && !touches(records[i], missing)) by {
            if exists|i: int| 0 <= i < records.len() && (#[trigger] records[i]).id == id && !touches(records[i], missing) {
                let i = choose|i: int| 0 <= i < records.len() && (#[trigger] records[i]).id == id && !touches(records[i], missing);
                if i < rest.len() {
                    assert(rest[i] == records[i]);
                } else {
                    assert(records[i] == last);
                }
            }
            if exists|i: int| 0 <= i < rest.len() && (#[trigger] rest[i]).id == id && !touches(rest[i], missing) {
                let i = choose|i: int| 0 <= i < rest.len() && (#[trigger] rest[i]).id == id && !touches(rest[i], missing);
                assert(records[i] == rest[i]);
            }
            if !touches(last, missing) && last.id == id {
                assert(records[records.len() - 1] == last);
            }
        }
        assert forall|r: Seq<char>| r != remote implies #[trigger] mark_taken(d, remote, records, missing).pushed_to(r)
            == d.pushed_to(r) by {
            assert(d1.pushed_to(r) == d.pushed_to(r));
            if !touches(last, missing) {
                assert(mark_taken(d, remote, records, missing).pushed.get(r) == d1.pushed.get(r));
            }
        }
    }
}

/// Everything a push leaves in the store once the helper has answered
/// `outcomes` to `sent`.
pub open spec fn settled(
    d: StoreData,
    remote: Seq<char>,
    sent: Seq<RemoteMutationView>,
    outcomes: Seq<MutationOutcomeView>,
    records: Seq<CommitRecordView>,
) -> StoreData {
    let answers = counted(outcomes, sent);
    let missing = unanswered(sent, answers);
    let d1 = notice_unanswered(apply_answers(d, remote, sent, answers), remote, missing);
    let d2 = StoreData { retries: d1.retries.insert(remote, failed_oids(answers) + missing), ..d1 };
    mark_taken(d2, remote, records, missing)
}


proof fn lemma_answers_keep_push_times(d: StoreData, remote: Seq<char>, sent: Seq<RemoteMutationView>, answers: Seq<MutationOutcomeView>)
    ensures
        apply_answers(d, remote, sent, answers).last_pushes == d.last_pushes,
    decreases answers.len(),
{
    if answers.len() > 0 {
        lemma_answers_keep_push_times(d, remote, sent, answers.drop_last());
        let x = apply_answers(d, remote, sent, answers.drop_last());
        reveal(apply_answer);
        assert(apply_answer(x, remote, sent, answers.last()).last_pushes == x.last_pushes);
    }
}

proof fn lemma_notices_keep_push_times(d: StoreData, remote: Seq<char>, oids: Seq<Seq<char>>)
    ensures
        notice_unanswered(d, remote, oids).last_pushes == d.last_pushes,
    decreases oids.len(),
{
    if oids.len() > 0 {
        lemma_notices_keep_push_times(d, remote, oids.drop_last());
    }
}

proof fn lemma_taken_keeps_push_times(d: StoreData, remote: Seq<char>, records: Seq<CommitRecordView>, missing: Seq<Seq<char>>)
    ensures
        mark_taken(d, remote, records, missing).last_pushes == d.last_pushes,
    decreases records.len(),
{
    if records.len() > 0 {
        lemma_taken_keeps_push_times(d, remote, records.drop_last(), missing);
    }
}

/// Settling a push leaves every remote's last push time as it was.
proof fn lemma_settled_keeps_push_times(
    d: StoreData,
    remote: Seq<char>,
    sent: Seq<RemoteMutationView>,
    outcomes: Seq<MutationOutcomeView>,
    records: Seq<CommitRecordView>,
)
    ensures
        settled(d, remote, sent, outcomes, records).last_pushes == d.last_pushes,
{
    let answers = counted(outcomes, sent);
    let missing = unanswered(sent, answers);
    lemma_answers_keep_push_times(d, remote, sent, answers);
    let d0 = apply_answers(d, remote, sent, answers);
    lemma_notices_keep_push_times(d0, remote, missing);
    let d1 = notice_unanswered(d0, remote, missing);
    let d2 = StoreData { retries: d1.retries.insert(remote, failed_oids(answers) + missing), ..d1 };
    lemma_taken_keeps_push_times(d2, remote, records, missing);
}

} // verus!

verus! {

pub open spec fn mutation_views(v: Seq<RemoteMutation>) -> Seq<RemoteMutationView> {
    v.map_values(|m: RemoteMutation| m@)
}

pub open spec fn outcome_views(v: Seq<MutationOutcome>) -> Seq<MutationOutcomeView> {
    v.map_values(|m: MutationOutcome| m@)
}

pub open spec fn failure_views(v: Seq<(Oid, String)>) -> Seq<(Seq<char>, Seq<char>)> {
    v.map_values(|f: (Oid, String)| (f.0@, f.1@))
}

fn copy_mutation(m: &RemoteMutation) -> (r: RemoteMutation)
    ensures
        r@ == m@,
{
    RemoteMutation {
        op: m.op,
        oid: m.oid.copy(),
        idempotency_key: m.idempotency_key.clone(),
        remote_id: crate::domain::copy_opt_text(&m.remote_id),
        object: copy_opt(&m.object),
        fields: m.fields.clone(),
    }
}

proof fn lemma_plan_step(entries: Seq<OutgoingView>, k: int, caps: RemoteCapabilities, remote: RemoteConfig, d: StoreData)
    requires
        0 <= k < entries.len(),
    ensures
        plan_spec(entries.take(k + 1), caps, remote, d) == {
            let rest = plan_spec(entries.take(k), caps, remote, d);
            let e = entries[k];
            match mutation_spec(
                e.change,
                e.origin,
                caps.kinds@,
                caps.fields@,
                scope_of(remote),
                d.remote_ids.get((remote.name@, e.change.oid)),
            ) {
                Some(m) => rest.push(m),
                None => rest,
            }
        },
{
    assert(entries.take(k + 1).drop_last() =~= entries.take(k));
}

/// The mutations the owed changes become, and how many became none.
fn plan<S: Store>(
    store: &S,
    caps: &RemoteCapabilities,
    remote: &RemoteConfig,
    entries: &Vec<Outgoing>,
) -> (r: Result<(Vec<RemoteMutation>, usize), UseCaseError>)
    ensures
        r matches Ok((ms, skipped)) ==> {
            &&& mutation_views(ms@) == plan_spec(outgoing_views(entries@), *caps, *remote, store.model().data)
            &&& skipped + ms@.len() == entries@.len()
        },
        r matches Err(e) ==> e is Store,
{
    let ghost es = outgoing_views(entries@);
    let mut out: Vec<RemoteMutation> = Vec::new();
    let mut skipped: usize = 0;
    let mut i: usize = 0;
    while i < entries.len()
        invariant
            es == outgoing_views(entries@),
            i <= entries.len(),
            mutation_views(out@) == plan_spec(es.take(i as int), *caps, *remote, store.model().data),
            skipped + out@.len() == i,
        decreases entries.len() - i,
    {
        proof {
            lemma_plan_step(es, i as int, *caps, *remote, store.model().data);
        }
        let e = &entries[i];
        let origin = match &e.origin {
            Some(id) => Some(id),
            None => None,
        };
        match mutation_for(store, caps, remote, &e.change, origin) {
            Ok(Some(m)) => {
                let ghost before = out@;
                out.push(m);
                assert(mutation_views(out@) =~= mutation_views(before).push(m@));
            },
            Ok(None) => {
                skipped = skipped + 1;
            },
            Err(e) => return Err(e),
        }
        i = i + 1;
    }
    assert(es.take(entries.len() as int) =~= es);
    Ok((out, skipped))
}

fn find_sent(sent: &Vec<RemoteMutation>, oid: &Oid) -> (r: Option<usize>)
    ensures
        match r {
            Some(i) => i < sent@.len() && was_sent(mutation_views(sent@), oid@) && mutation_views(sent@)[i as int] == sent_for(mutation_views(sent@), oid@),
            None => !was_sent(mutation_views(sent@), oid@),
        },
{
    let ghost s = mutation_views(sent@);
    let mut i: usize = 0;
    while i < sent.len()
        invariant
            s == mutation_views(sent@),
            i <= sent.len(),
            forall|j: int| 0 <= j < i ==> s[j].oid != oid@,
        decreases sent.len() - i,
    {
        if sent[i].oid.same(oid) {
            proof {
                assert(s[i as int].oid == oid@);
                let w = choose|k: int| 0 <= k < s.len() && (#[trigger] s[k]).oid == oid@ && forall|j: int| 0 <= j < k ==> s[j].oid != oid@;
                if w < i {
                } else if w > i {
                }
            }
            return Some(i);
        }
        i = i + 1;
    }
    None
}

fn find_answered(kept: &Vec<Oid>, oid: &Oid) -> (r: bool)
    ensures
        r == crate::domain::oid_texts(kept@).contains(oid@),
{
    crate::domain::oids_contain(kept, oid)
}

/// The oids of a list of answers.
pub open spec fn answer_oids(answers: Seq<MutationOutcomeView>) -> Seq<Seq<char>> {
    answers.map_values(|o: MutationOutcomeView| o.oid)
}

proof fn lemma_answered_oids(answers: Seq<MutationOutcomeView>, oid: Seq<char>)
    ensures
        answered(answers, oid) == answer_oids(answers).contains(oid),
{
    if answered(answers, oid) {
        let i = choose|i: int| 0 <= i < answers.len() && (#[trigger] answers[i]).oid == oid;
        assert(answer_oids(answers)[i] == oid);
    }
    if answer_oids(answers).contains(oid) {
        let i = choose|i: int| 0 <= i < answer_oids(answers).len() && answer_oids(answers)[i] == oid;
        assert(answers[i].oid == oid);
    }
}

} // verus!

verus! {

fn apply_answer_exec<S: Store>(
    store: &mut S,
    remote: &RemoteName,
    sent: &Vec<RemoteMutation>,
    o: &MutationOutcome,
    failed: &mut Vec<(Oid, String)>,
    retries: &mut Vec<Oid>,
) -> (r: Result<(), UseCaseError>)
    requires
        was_sent(mutation_views(sent@), o.oid@),
    ensures
        r is Ok ==> final(store).model() == old(store).model().with(
            apply_answer(old(store).model().data, remote@, mutation_views(sent@), o@),
        ),
        failure_views(final(failed)@) == if o.ok {
            failure_views(old(failed)@)
        } else {
            failure_views(old(failed)@).push((o.oid@, why_failed(o@)))
        },
        crate::domain::oid_texts(final(retries)@) == if o.ok {
            crate::domain::oid_texts(old(retries)@)
        } else {
            crate::domain::oid_texts(old(retries)@).push(o.oid@)
        },
        r matches Err(e) ==> e is Store,
{
    let ghost m0 = store.model();
    let ghost sv = mutation_views(sent@);
    reveal(apply_answer);
    if o.ok {
        match &o.remote_id {
            Some(id) => {
                match store.map_remote_id(remote, &o.oid, id.as_str()) {
                    Ok(()) => {},
                    Err(e) => return Err(UseCaseError::Store(e)),
                }
            },
            None => {},
        }
        let ghost d1 = store.model().data;
        let i = match find_sent(sent, &o.oid) {
            Some(i) => i,
            None => {
                return Ok(());
            },
        };
        if sent[i].op == MutationOp::Delete {
            match store.clear_remote_mapping(remote, &o.oid) {
                Ok(()) => {},
                Err(e) => return Err(UseCaseError::Store(e)),
            }
        } else {
            match &sent[i].object {
                Some(a) => {
                    match store.set_remote_snapshot(remote, a) {
                        Ok(()) => {},
                        Err(e) => return Err(UseCaseError::Store(e)),
                    }
                },
                None => {},
            }
        }
        Ok(())
    } else {
        let why = match &o.why {
            Some(w) => w.clone(),
            None => String::from_str("the remote gave no reason"),
        };
        let notice = Notice::PushFailed { remote: remote.copy(), oid: o.oid.copy(), why: why.clone() };
        let res = store.add_notice(&notice);
        let ghost before_f = failed@;
        failed.push((o.oid.copy(), why));
        assert(failure_views(failed@) =~= failure_views(before_f).push((o.oid@, why_failed(o@))));
        let ghost before_r = retries@;
        retries.push(o.oid.copy());
        assert(crate::domain::oid_texts(retries@) =~= crate::domain::oid_texts(before_r).push(o.oid@));
        match res {
            Ok(()) => Ok(()),
            Err(e) => Err(UseCaseError::Store(e)),
        }
    }
}

proof fn lemma_counted_step(outs: Seq<MutationOutcomeView>, k: int, sent: Seq<RemoteMutationView>)
    requires
        0 <= k < outs.len(),
    ensures
        counted(outs.take(k + 1), sent) == {
            let c = counted(outs.take(k), sent);
            if was_sent(sent, outs[k].oid) && !answered(c, outs[k].oid) {
                c.push(outs[k])
            } else {
                c
            }
        },
{
    assert(outs.take(k + 1).drop_last() =~= outs.take(k));
}

proof fn lemma_fold_answers_step(d: StoreData, remote: Seq<char>, sent: Seq<RemoteMutationView>, c: Seq<MutationOutcomeView>, o: MutationOutcomeView)
    ensures
        apply_answers(d, remote, sent, c.push(o)) == apply_answer(apply_answers(d, remote, sent, c), remote, sent, o),
        failed_oids(c.push(o)) == if o.ok { failed_oids(c) } else { failed_oids(c).push(o.oid) },
        failed_answers(c.push(o)) == if o.ok { failed_answers(c) } else { failed_answers(c).push((o.oid, why_failed(o))) },
        answer_oids(c.push(o)) == answer_oids(c).push(o.oid),
{
    assert(c.push(o).drop_last() =~= c);
    assert(answer_oids(c.push(o)) =~= answer_oids(c).push(o.oid));
}

/// Takes in every answer that counts, in the order the helper gave them.
#[verifier::rlimit(60)]
fn settle_answers<S: Store>(
    store: &mut S,
    remote: &RemoteName,
    sent: &Vec<RemoteMutation>,
    outcomes: &Vec<MutationOutcome>,
    failed: &mut Vec<(Oid, String)>,
    retries: &mut Vec<Oid>,
) -> (r: Result<Vec<Oid>, UseCaseError>)
    requires
        old(failed)@.len() == 0,
        old(retries)@.len() == 0,
    ensures
        r matches Ok(kept) ==> {
            let answers = counted(outcome_views(outcomes@), mutation_views(sent@));
            &&& crate::domain::oid_texts(kept@) == answer_oids(answers)
            &&& final(store).model() == old(store).model().with(
                apply_answers(old(store).model().data, remote@, mutation_views(sent@), answers),
            )
            &&& failure_views(final(failed)@) == failed_answers(answers)
            &&& crate::domain::oid_texts(final(retries)@) == failed_oids(answers)
        },
        r matches Err(e) ==> e is Store,
{
    let ghost m0 = store.model();
    let ghost outs = outcome_views(outcomes@);
    let ghost sv = mutation_views(sent@);
    let mut kept: Vec<Oid> = Vec::new();
    assert(failure_views(failed@) =~= failed_answers(Seq::empty()));
    assert(crate::domain::oid_texts(retries@) =~= failed_oids(Seq::empty()));
    assert(crate::domain::oid_texts(kept@) =~= answer_oids(Seq::empty()));
    let mut i: usize = 0;
    while i < outcomes.len()
        invariant
            outs == outcome_views(outcomes@),
            sv == mutation_views(sent@),
            i <= outcomes.len(),
            crate::domain::oid_texts(kept@) == answer_oids(counted(outs.take(i as int), sv)),
            store.model() == m0.with(apply_answers(m0.data, remote@, sv, counted(outs.take(i as int), sv))),
            failure_views(failed@) == failed_answers(counted(outs.take(i as int), sv)),
            crate::domain::oid_texts(retries@) == failed_oids(counted(outs.take(i as int), sv)),
        decreases outcomes.len() - i,
    {
        let o = &outcomes[i];
        let ghost c = counted(outs.take(i as int), sv);
        proof {
            lemma_counted_step(outs, i as int, sv);
            lemma_answered_oids(c, o.oid@);
            assert(outs[i as int] == o@);
        }
        if find_sent(sent, &o.oid).is_some() && !find_answered(&kept, &o.oid) {
            proof {
                lemma_fold_answers_step(m0.data, remote@, sv, c, o@);
            }
            let ghost before_k = kept@;
            kept.push(o.oid.copy());
            assert(crate::domain::oid_texts(kept@) =~= crate::domain::oid_texts(before_k).push(o.oid@));
            match apply_answer_exec(store, remote, sent, o, failed, retries) {
                Ok(()) => {},
                Err(e) => return Err(e),
            }
        }
        i = i + 1;
    }
    assert(outs.take(outcomes.len() as int) =~= outs);
    Ok(kept)
}

} // verus!

verus! {

proof fn lemma_unanswered_step(sent: Seq<RemoteMutationView>, k: int, answers: Seq<MutationOutcomeView>)
    requires
        0 <= k < sent.len(),
    ensures
        unanswered(sent.take(k + 1), answers) == if answered(answers, sent[k].oid) {
            unanswered(sent.take(k), answers)
        } else {
            unanswered(sent.take(k), answers).push(sent[k].oid)
        },
{
    assert(sent.take(k + 1).drop_last() =~= sent.take(k));
}

proof fn lemma_notice_step(d: StoreData, remote: Seq<char>, missing: Seq<Seq<char>>, oid: Seq<char>)
    ensures
        notice_unanswered(d, remote, missing.push(oid)) == {
            let d1 = notice_unanswered(d, remote, missing);
            StoreData {
                notices: d1.notices.push(NoticeView::PushFailed { remote, oid, why: no_answer() }),
                ..d1
            }
        },
{
    assert(missing.push(oid).drop_last() =~= missing);
}

/// Every sent mutation with no answer that counts, noticed and owed a retry.
fn settle_silence<S: Store>(
    store: &mut S,
    remote: &RemoteName,
    sent: &Vec<RemoteMutation>,
    kept: &Vec<Oid>,
    failed: &mut Vec<(Oid, String)>,
    retries: &mut Vec<Oid>,
    Ghost(answers): Ghost<Seq<MutationOutcomeView>>,
) -> (r: Result<Vec<Oid>, UseCaseError>)
    requires
        crate::domain::oid_texts(kept@) == answer_oids(answers),
    ensures
        r matches Ok(missing) ==> {
            let m = unanswered(mutation_views(sent@), answers);
            &&& crate::domain::oid_texts(missing@) == m
            &&& final(store).model() == old(store).model().with(notice_unanswered(old(store).model().data, remote@, m))
            &&& failure_views(final(failed)@) == failure_views(old(failed)@) + m.map_values(
                |o: Seq<char>| (o, no_answer()),
            )
            &&& crate::domain::oid_texts(final(retries)@) == crate::domain::oid_texts(old(retries)@) + m
        },
        r matches Err(e) ==> e is Store,
{
    let ghost m0 = store.model();
    let ghost sv = mutation_views(sent@);
    let ghost f0 = failure_views(failed@);
    let ghost r0 = crate::domain::oid_texts(retries@);
    let mut missing: Vec<Oid> = Vec::new();
    assert(f0 + Seq::<Seq<char>>::empty().map_values(|o: Seq<char>| (o, no_answer())) =~= f0);
    assert(r0 + Seq::<Seq<char>>::empty() =~= r0);
    let mut i: usize = 0;
    while i < sent.len()
        invariant
            sv == mutation_views(sent@),
            crate::domain::oid_texts(kept@) == answer_oids(answers),
            i <= sent.len(),
            crate::domain::oid_texts(missing@) == unanswered(sv.take(i as int), answers),
            store.model() == m0.with(notice_unanswered(m0.data, remote@, unanswered(sv.take(i as int), answers))),
            failure_views(failed@) == f0 + unanswered(sv.take(i as int), answers).map_values(
                |o: Seq<char>| (o, no_answer()),
            ),
            crate::domain::oid_texts(retries@) == r0 + unanswered(sv.take(i as int), answers),
        decreases sent.len() - i,
    {
        let oid = &sent[i].oid;
        let ghost u = unanswered(sv.take(i as int), answers);
        proof {
            lemma_unanswered_step(sv, i as int, answers);
            lemma_answered_oids(answers, oid@);
        }
        if !find_answered(kept, oid) {
            proof {
                lemma_notice_step(m0.data, remote@, u, oid@);
            }
            let why = String::from_str("no answer from helper");
            let notice = Notice::PushFailed { remote: remote.copy(), oid: oid.copy(), why: why.clone() };
            let res = store.add_notice(&notice);
            let ghost bf = failed@;
            failed.push((oid.copy(), why));
            assert(failure_views(failed@) =~= failure_views(bf).push((oid@, no_answer())));
            assert(f0 + u.push(oid@).map_values(|o: Seq<char>| (o, no_answer())) =~= (f0 + u.map_values(
                |o: Seq<char>| (o, no_answer()),
            )).push((oid@, no_answer())));
            let ghost br = retries@;
            retries.push(oid.copy());
            assert(crate::domain::oid_texts(retries@) =~= crate::domain::oid_texts(br).push(oid@));
            assert(r0 + u.push(oid@) =~= (r0 + u).push(oid@));
            let ghost bm = missing@;
            missing.push(oid.copy());
            assert(crate::domain::oid_texts(missing@) =~= crate::domain::oid_texts(bm).push(oid@));
            match res {
                Ok(()) => {},
                Err(e) => return Err(UseCaseError::Store(e)),
            }
        }
        i = i + 1;
    }
    assert(sv.take(sent.len() as int) =~= sv);
    Ok(missing)
}

fn touches_any(record: &CommitRecord, missing: &Vec<Oid>) -> (r: bool)
    ensures
        r == touches(record@, crate::domain::oid_texts(missing@)),
{
    let ghost m = crate::domain::oid_texts(missing@);
    let mut i: usize = 0;
    while i < record.changes.len()
        invariant
            m == crate::domain::oid_texts(missing@),
            i <= record.changes.len(),
            forall|j: int| 0 <= j < i ==> !m.contains(#[trigger] record@.changes[j].oid),
        decreases record.changes.len() - i,
    {
        if crate::domain::oids_contain(missing, &record.changes[i].oid) {
            assert(record@.changes[i as int].oid == record.changes@[i as int].oid@);
            return true;
        }
        i = i + 1;
    }
    false
}

proof fn lemma_mark_step(d: StoreData, remote: Seq<char>, records: Seq<CommitRecordView>, k: int, missing: Seq<Seq<char>>)
    requires
        0 <= k < records.len(),
    ensures
        mark_taken(d, remote, records.take(k + 1), missing) == {
            let d1 = mark_taken(d, remote, records.take(k), missing);
            if touches(records[k], missing) {
                d1
            } else {
                StoreData { pushed: d1.pushed.insert(remote, d1.pushed_to(remote).insert(records[k].id)), ..d1 }
            }
        },
{
    assert(records.take(k + 1).drop_last() =~= records.take(k));
}

/// The remote takes every unpushed commit that touches no unanswered oid.
fn mark_taken_exec<S: Store>(store: &mut S, remote: &RemoteName, records: &Vec<CommitRecord>, missing: &Vec<Oid>) -> (r: Result<(), UseCaseError>)
    ensures
        r is Ok ==> final(store).model() == old(store).model().with(
            mark_taken(old(store).model().data, remote@, record_views(records@), crate::domain::oid_texts(missing@)),
        ),
        r matches Err(e) ==> e is Store,
{
    let ghost m0 = store.model();
    let ghost rv = record_views(records@);
    let ghost ms = crate::domain::oid_texts(missing@);
    let mut i: usize = 0;
    while i < records.len()
        invariant
            rv == record_views(records@),
            ms == crate::domain::oid_texts(missing@),
            i <= records.len(),
            store.model() == m0.with(mark_taken(m0.data, remote@, rv.take(i as int), ms)),
        decreases records.len() - i,
    {
        proof {
            lemma_mark_step(m0.data, remote@, rv, i as int, ms);
        }
        if !touches_any(&records[i], missing) {
            match store.mark_pushed(remote, &records[i].id) {
                Ok(()) => {},
                Err(e) => return Err(UseCaseError::Store(e)),
            }
        }
        i = i + 1;
    }
    assert(rv.take(records.len() as int) =~= rv);
    Ok(())
}

} // verus!

verus! {

/// How many of `sent` succeeded when `failed` of them did not.
pub open spec fn succeeded_count(sent: nat, failed: nat) -> nat {
    if sent >= failed {
        (sent - failed) as nat
    } else {
        0
    }
}

/// What a push to one remote leaves, once the helper has answered `outcomes`
/// to the mutations `sent`: the store settled and the failures reported.
pub open spec fn pushed_as(
    m0: StoreModel,
    m1: StoreModel,
    remote: Seq<char>,
    sent: Seq<RemoteMutationView>,
    outcomes: Seq<MutationOutcomeView>,
    records: Seq<CommitRecordView>,
    failed: Seq<(Seq<char>, Seq<char>)>,
    succeeded: nat,
) -> bool {
    let answers = counted(outcomes, sent);
    let missing = unanswered(sent, answers);
    &&& m1 == m0.with(settled(m0.data, remote, sent, outcomes, records))
    &&& failed == failures(answers, missing)
    &&& succeeded == succeeded_count(sent.len(), failed.len())
}

/// The helper's answer to the last push it was handed, none when it gave
/// no answer since `before`.
pub open spec fn last_answer(before: Answers, after: Answers) -> Seq<MutationOutcomeView> {
    if after.len() > before.len() {
        after.last()
    } else {
        Seq::empty()
    }
}

/// The mutations a push to `remote` sends from store contents `d`.
pub open spec fn push_plan(d: StoreData, caps: RemoteCapabilities, remote: RemoteConfig) -> Seq<RemoteMutationView> {
    plan_spec(owed(d, remote.name@, d.unpushed(remote.name@)), caps, remote, d)
}

/// The batches a helper holds once a push hands it `plan`: a push with
/// nothing to send hands it nothing, any other hands it the plan, once.
pub open spec fn handed_after(before: Batches, plan: Seq<RemoteMutationView>) -> Batches {
    if plan.len() == 0 {
        before
    } else {
        before.push(plan)
    }
}

/// Sends `remote` what it is owed and settles what the helper answers. A
/// sent mutation whose answer was a failure, or that got no answer at all,
/// is noticed and owed a retry; a commit is taken by the remote unless it
/// touches a mutation that got no answer.
pub fn push_one<S: Store, H: RemoteHelper>(
    store: &mut S,
    helper: &mut H,
    caps: &RemoteCapabilities,
    remote: &RemoteConfig,
) -> (r: Result<PushReport, UseCaseError>)
    ensures
        r matches Ok(rep) ==> {
            let d = old(store).model().data;
            let records = d.unpushed(remote.name@);
            let entries = owed(d, remote.name@, records);
            let sent = push_plan(d, *caps, *remote);
            &&& rep.remote@ == remote.name@
            &&& rep.sent == sent.len()
            &&& rep.skipped + sent.len() == entries.len()
            &&& pushed_as(
                old(store).model(),
                final(store).model(),
                remote.name@,
                sent,
                last_answer(old(helper).answered(), final(helper).answered()),
                records,
                failure_views(rep.failed@),
                rep.succeeded as nat,
            )
            &&& final(helper).answered() == (if sent.len() == 0 {
                old(helper).answered()
            } else {
                old(helper).answered().push(last_answer(old(helper).answered(), final(helper).answered()))
            })
        },
        r matches Err(e) ==> e is Store || e is Helper,
        r is Ok ==> final(helper).handed() == handed_after(
            old(helper).handed(),
            push_plan(old(store).model().data, *caps, *remote),
        ),
        final(helper).handed() == old(helper).handed() || final(helper).handed() == handed_after(
            old(helper).handed(),
            push_plan(old(store).model().data, *caps, *remote),
        ),
{
    let ghost m0 = store.model();
    let ghost h0 = helper.handed();
    let ghost a0 = helper.answered();
    let unpushed = match store.unpushed(&remote.name) {
        Ok(u) => u,
        Err(e) => return Err(UseCaseError::Store(e)),
    };
    let entries = match changes_to_send(store, remote, &unpushed) {
        Ok(c) => c,
        Err(e) => return Err(e),
    };
    let (mutations, skipped) = match plan(store, caps, remote, &entries) {
        Ok(p) => p,
        Err(e) => return Err(e),
    };
    let mut sent: Vec<RemoteMutation> = Vec::new();
    let mut i: usize = 0;
    while i < mutations.len()
        invariant
            i <= mutations.len(),
            mutation_views(sent@) == mutation_views(mutations@).take(i as int),
        decreases mutations.len() - i,
    {
        let ghost before = sent@;
        sent.push(copy_mutation(&mutations[i]));
        assert(mutation_views(sent@) =~= mutation_views(before).push(mutations@[i as int]@));
        assert(mutation_views(mutations@).take(i + 1) =~= mutation_views(mutations@).take(i as int).push(mutations@[i as int]@));
        i = i + 1;
    }
    assert(mutation_views(mutations@).take(mutations.len() as int) =~= mutation_views(mutations@));
    assert(mutation_views(sent@) == push_plan(m0.data, *caps, *remote));
    let count = mutations.len();
    let ghost plan = mutation_views(mutations@);
    assert(mutations@.map_values(|m: RemoteMutation| m@) == plan);
    let outcomes: Vec<MutationOutcome> = if mutations.len() == 0 {
        Vec::new()
    } else {
        match helper.push(mutations) {
            Ok(o) => o,
            Err(e) => return Err(UseCaseError::Helper(e)),
        }
    };
    assert(helper.handed() == handed_after(h0, plan));
    let ghost outs = outcome_views(outcomes@);
    let ghost answers = counted(outs, mutation_views(sent@));
    let mut failed: Vec<(Oid, String)> = Vec::new();
    let mut retries: Vec<Oid> = Vec::new();
    let kept = match settle_answers(store, &remote.name, &sent, &outcomes, &mut failed, &mut retries) {
        Ok(k) => k,
        Err(e) => return Err(e),
    };
    let missing = match settle_silence(store, &remote.name, &sent, &kept, &mut failed, &mut retries, Ghost(answers)) {
        Ok(m) => m,
        Err(e) => return Err(e),
    };
    match store.set_push_retries(&remote.name, &retries) {
        Ok(()) => {},
        Err(e) => return Err(UseCaseError::Store(e)),
    }
    match mark_taken_exec(store, &remote.name, &unpushed, &missing) {
        Ok(()) => {},
        Err(e) => return Err(e),
    }
    let succeeded = if count >= failed.len() {
        count - failed.len()
    } else {
        0
    };
    proof {
        let sv = mutation_views(sent@);
        let mis = unanswered(sv, answers);
        assert(failure_views(failed@) == failed_answers(answers) + mis.map_values(|o: Seq<char>| (o, no_answer())));
        assert(pushed_as(m0, store.model(), remote.name@, sv, outs, record_views(unpushed@), failure_views(failed@), succeeded as nat));
        assert(sv.len() == 0 ==> outs.len() == 0);
        assert(record_views(unpushed@) == m0.data.unpushed(remote.name@));
        assert(skipped + sv.len() == owed(m0.data, remote.name@, m0.data.unpushed(remote.name@)).len());
        assert(count == sv.len());
        assert(m0 == old(store).model());
        assert(sv == push_plan(old(store).model().data, *caps, *remote));
        assert(sv == push_plan(m0.data, *caps, *remote));
        assert(outs == last_answer(a0, helper.answered()));
    }
    Ok(PushReport { remote: remote.name.copy(), sent: count, succeeded, failed, skipped })
}

/// Pushes every remote, or the one named, what it is owed, and records when
/// each one answered, whether or not it was sent anything; refused while any
/// conflict is unresolved.
pub fn push<S: Store, L: HelperLauncher, C: CredentialSource, K: Clock>(
    store: &mut S,
    launcher: &mut L,
    credentials: &mut C,
    clock: &K,
    config: &Config,
    remote: Option<&str>,
) -> (r: Result<Vec<PushReport>, UseCaseError>)
    ensures
        r matches Err(UseCaseError::Refused(Refusal::UnresolvedConflicts(n))) ==> n > 0 && n
            == old(store).model().data.conflicts.dom().len(),
        old(store).model().data.conflicts.dom().len() > 0 ==> r matches Err(
            UseCaseError::Refused(Refusal::UnresolvedConflicts(_)),
        ) || r matches Err(UseCaseError::Store(_)),
        old(store).model().data.conflicts.dom().len() > 0 && old(store).reliable() ==> r matches Err(
            UseCaseError::Refused(Refusal::UnresolvedConflicts(_)),
        ),
        r matches Ok(reports) ==> match remote {
            None => reports@.len() == config.remotes@.len() && forall|i: int|
                0 <= i < reports@.len() ==> (#[trigger] reports@[i]).remote@ == config.remotes@[i].name@,
            Some(name) => remote_index(config.remotes@, name@) matches Some(k) && reports@.len() == 1
                && reports@[0].remote@ == config.remotes@[k].name@,
        },
        match remote {
            Some(name) => remote_index(config.remotes@, name@) is None
                && old(store).model().data.conflicts.dom().len() == 0 ==> (r matches Err(
                UseCaseError::Refused(Refusal::NoSuchRemote(n)),
            ) && n@ == name@) || (r matches Err(UseCaseError::Store(_))),
            None => true,
        },
        r matches Err(UseCaseError::Refused(Refusal::UnresolvedConflicts(_))) ==> final(store).model() == old(
            store,
        ).model(),
        r matches Err(UseCaseError::Refused(Refusal::NoSuchRemote(_))) ==> final(store).model() == old(store).model(),
        r matches Err(UseCaseError::Refused(Refusal::UnresolvedConflicts(_))) ==> final(launcher).launched() == old(
            launcher,
        ).launched() && final(credentials).resolved() == old(credentials).resolved(),
        r matches Err(UseCaseError::Refused(Refusal::NoSuchRemote(_))) ==> final(launcher).launched() == old(
            launcher,
        ).launched() && final(credentials).resolved() == old(credentials).resolved(),
        r matches Ok(reports) ==> forall|i: int|
            0 <= i < reports@.len() ==> final(store).model().data.last_pushes.contains_key(
                #[trigger] reports@[i].remote@,
            ),
{
    proof {
        store.lemma_model_wf();
    }
    let conflicts = match store.conflicts() {
        Ok(c) => c,
        Err(e) => return Err(UseCaseError::Store(e)),
    };
    proof {
        crate::ports::lemma_listed_conflicts_len(crate::ports::conflict_views(conflicts@), store.model().data.conflicts);
    }
    if conflicts.len() > 0 {
        return Err(UseCaseError::Refused(Refusal::UnresolvedConflicts(conflicts.len())));
    }
    let targets = match select_remotes(config, remote) {
        Ok(t) => t,
        Err(e) => return Err(e),
    };
    let mut reports: Vec<PushReport> = Vec::new();
    let mut i: usize = 0;
    while i < targets.len()
        invariant
            i <= targets.len(),
            old(store).model().data.conflicts.dom().len() == 0,
            reports@.len() == i,
            forall|j: int| 0 <= j < i ==> (#[trigger] reports@[j]).remote@ == targets@[j].name@,
            forall|j: int| 0 <= j < i ==> store.model().data.last_pushes.contains_key(#[trigger] reports@[j].remote@),
            match remote {
                None => targets@ == config.remotes@.map_values(|c: RemoteConfig| &c),
                Some(name) => remote_index(config.remotes@, name@) matches Some(k) && targets@ == seq![
                    &config.remotes@[k],
                ],
            },
        decreases targets.len() - i,
    {
        let target = targets[i];
        let (mut helper, caps) = match crate::use_cases::connect::connect(launcher, credentials, target) {
            Ok(c) => c,
            Err(e) => return Err(e),
        };
        let ghost before = store.model();
        let ghost answers_before = helper.answered();
        let report = match push_one(store, &mut helper, &caps, target) {
            Ok(rep) => rep,
            Err(e) => return Err(e),
        };
        proof {
            let d = before.data;
            let records = d.unpushed(target.name@);
            let sent = push_plan(d, caps, *target);
            let outcomes = last_answer(answers_before, helper.answered());
            lemma_settled_keeps_push_times(d, target.name@, sent, outcomes, records);
        }
        match store.set_last_push(&target.name, clock.now()) {
            Ok(()) => {},
            Err(e) => return Err(UseCaseError::Store(e)),
        }
        reports.push(report);
        i = i + 1;
    }
    Ok(reports)
}

} // verus!
