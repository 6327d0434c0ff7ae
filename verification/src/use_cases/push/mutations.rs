//! What a push sends: which committed changes are owed to a remote, and the
//! one mutation each of them becomes.

use vstd::prelude::*;

use crate::config::RemoteConfig;
use crate::domain::{
    Change, ChangeView, CommitId, CommitRecord, CommitRecordView, Field, Kind, Op, Oid,
    ObjectView, change_views, changed_fields, changed_fields_spec, coalesce, coalesce_spec, copy_opt,
    fields_contain, lemma_filter_push, opt_object, opt_text, record_views, text_less, text_lt,
    within,
};
use crate::ports::RemoteTrackingRepository;
use crate::remote::{MutationOp, RemoteCapabilities, RemoteMutation, RemoteMutationView};
use super::idempotency::{Origin, key, key_spec};
use crate::errors::UseCaseError;
use crate::ports::{CommitRepository, ObjectRepository, StoreData};

verus! {

/// One change owed to a remote, with the commit the last of its parts came
/// from; a change owed only because an earlier push failed names no commit.
#[derive(Debug)]
pub struct Outgoing {
    pub change: Change,
    pub origin: Option<CommitId>,
}

pub struct OutgoingView {
    pub change: ChangeView,
    pub origin: Option<Seq<char>>,
}

impl View for Outgoing {
    type V = OutgoingView;

    open spec fn view(&self) -> OutgoingView {
        OutgoingView {
            change: self.change@,
            origin: match self.origin {
                Some(id) => Some(id@),
                None => None,
            },
        }
    }
}

pub open spec fn outgoing_views(v: Seq<Outgoing>) -> Seq<OutgoingView> {
    v.map_values(|o: Outgoing| o@)
}

/// Where the entry for `oid` stands, if there is one.
pub open spec fn index_of_oid(s: Seq<OutgoingView>, oid: Seq<char>) -> Option<int> {
    if exists|i: int| 0 <= i < s.len() && (#[trigger] s[i]).change.oid == oid {
        Some(choose|i: int| 0 <= i < s.len() && (#[trigger] s[i]).change.oid == oid && forall|j: int|
            0 <= j < i ==> s[j].change.oid != oid)
    } else {
        None
    }
}

/// Where an entry for `oid` goes to keep the list in oid order: before the
/// first entry that does not sort before it.
pub open spec fn insert_pos(s: Seq<OutgoingView>, oid: Seq<char>) -> int {
    if exists|i: int| 0 <= i < s.len() && !text_lt((#[trigger] s[i]).change.oid, oid) {
        choose|i: int| 0 <= i < s.len() && !text_lt((#[trigger] s[i]).change.oid, oid) && forall|j: int|
            0 <= j < i ==> text_lt(s[j].change.oid, oid)
    } else {
        s.len() as int
    }
}

/// The list after one more committed change is owed: coalesced onto the
/// entry its object already has, or added in oid order.
pub open spec fn owe_change(s: Seq<OutgoingView>, c: ChangeView, id: Seq<char>) -> Seq<OutgoingView> {
    match index_of_oid(s, c.oid) {
        Some(i) => match coalesce_spec(s[i].change, c) {
            Some(n) => s.update(i, OutgoingView { change: n, origin: Some(id) }),
            None => s.remove(i),
        },
        None => s.insert(insert_pos(s, c.oid), OutgoingView { change: c, origin: Some(id) }),
    }
}

pub open spec fn owe_changes(s: Seq<OutgoingView>, changes: Seq<ChangeView>, id: Seq<char>) -> Seq<OutgoingView>
    decreases changes.len(),
{
    if changes.len() == 0 {
        s
    } else {
        owe_change(owe_changes(s, changes.drop_last(), id), changes.last(), id)
    }
}

/// Every change of `records`, oldest commit first, coalesced per object.
pub open spec fn owed_by_commits(records: Seq<CommitRecordView>) -> Seq<OutgoingView>
    decreases records.len(),
{
    if records.len() == 0 {
        Seq::empty()
    } else {
        owe_changes(owed_by_commits(records.drop_last()), records.last().changes, records.last().id)
    }
}

/// The list after a retry of `oid` is owed: an update to its committed state,
/// unless an entry for it stands already or it has no committed state.
pub open spec fn owe_retry(s: Seq<OutgoingView>, oid: Seq<char>, d: StoreData) -> Seq<OutgoingView> {
    if index_of_oid(s, oid) is Some {
        s
    } else {
        match d.committed.get(oid) {
            Some(cur) => s.insert(
                insert_pos(s, oid),
                OutgoingView {
                    change: ChangeView { oid, op: Op::Update, before: None, after: Some(cur) },
                    origin: None,
                },
            ),
            None => s,
        }
    }
}

pub open spec fn owe_retries(s: Seq<OutgoingView>, retries: Seq<Seq<char>>, d: StoreData) -> Seq<OutgoingView>
    decreases retries.len(),
{
    if retries.len() == 0 {
        s
    } else {
        owe_retry(owe_retries(s, retries.drop_last(), d), retries.last(), d)
    }
}

/// What a remote is owed: every unpushed commit's changes coalesced per
/// object, each paired with the commit the last of them came from, plus an
/// update of the committed state for each oid owed a retry that no unpushed
/// commit already covers; in oid order.
pub open spec fn owed(d: StoreData, remote: Seq<char>, unpushed: Seq<CommitRecordView>) -> Seq<OutgoingView> {
    owe_retries(owed_by_commits(unpushed), d.retries_of(remote), d)
}

fn find_oid(v: &Vec<Outgoing>, oid: &Oid) -> (r: Option<usize>)
    ensures
        r matches Some(i) ==> i < v@.len(),
        match r {
            Some(i) => index_of_oid(outgoing_views(v@), oid@) == Some(i as int),
            None => index_of_oid(outgoing_views(v@), oid@) is None,
        },
{
    let ghost s = outgoing_views(v@);
    let mut i: usize = 0;
    while i < v.len()
        invariant
            s == outgoing_views(v@),
            i <= v.len(),
            forall|j: int| 0 <= j < i ==> s[j].change.oid != oid@,
        decreases v.len() - i,
    {
        if v[i].change.oid.same(oid) {
            proof {
                assert(s[i as int].change.oid == oid@);
                let w = index_of_oid(s, oid@).unwrap();
                if w < i {
                } else if w > i {
                }
            }
            return Some(i);
        }
        i = i + 1;
    }
    proof {
        if index_of_oid(s, oid@) is Some {
            let w = choose|k: int| 0 <= k < s.len() && (#[trigger] s[k]).change.oid == oid@;
            assert(s[w].change.oid != oid@);
        }
    }
    None
}

fn insert_position(v: &Vec<Outgoing>, oid: &Oid) -> (r: usize)
    ensures
        r as int == insert_pos(outgoing_views(v@), oid@),
        r <= v@.len(),
{
    let ghost s = outgoing_views(v@);
    let mut i: usize = 0;
    while i < v.len()
        invariant
            s == outgoing_views(v@),
            i <= v.len(),
            forall|j: int| 0 <= j < i ==> text_lt(s[j].change.oid, oid@),
        decreases v.len() - i,
    {
        if !text_less(v[i].change.oid.as_str(), oid.as_str()) {
            proof {
                assert(!text_lt(s[i as int].change.oid, oid@));
                let w = insert_pos(s, oid@);
                if w < i {
                    assert(text_lt(s[w].change.oid, oid@));
                } else if w > i {
                }
            }
            return i;
        }
        i = i + 1;
    }
    proof {
        if exists|k: int| 0 <= k < s.len() && !text_lt((#[trigger] s[k]).change.oid, oid@) {
            let w = choose|k: int| 0 <= k < s.len() && !text_lt((#[trigger] s[k]).change.oid, oid@);
            assert(text_lt(s[w].change.oid, oid@));
        }
    }
    i
}

proof fn lemma_views_insert(v: Seq<Outgoing>, i: int, x: Outgoing)
    requires
        0 <= i <= v.len(),
    ensures
        outgoing_views(v.insert(i, x)) == outgoing_views(v).insert(i, x@),
{
    assert(outgoing_views(v.insert(i, x)) =~= outgoing_views(v).insert(i, x@));
}

proof fn lemma_views_remove(v: Seq<Outgoing>, i: int)
    requires
        0 <= i < v.len(),
    ensures
        outgoing_views(v.remove(i)) == outgoing_views(v).remove(i),
{
    assert(outgoing_views(v.remove(i)) =~= outgoing_views(v).remove(i));
}

proof fn lemma_remove_insert<A>(s: Seq<A>, i: int, x: A)
    requires
        0 <= i < s.len(),
    ensures
        s.remove(i).insert(i, x) == s.update(i, x),
{
    assert(s.remove(i).insert(i, x) =~= s.update(i, x));
}

fn owe_change_exec(v: &mut Vec<Outgoing>, c: Change, id: &CommitId)
    ensures
        outgoing_views(final(v)@) == owe_change(outgoing_views(old(v)@), c@, id@),
{
    let ghost s = outgoing_views(v@);
    let ghost old_v = v@;
    match find_oid(v, &c.oid) {
        Some(i) => {
            let prev = v.remove(i);
            proof {
                lemma_views_remove(old_v, i as int);
            }
            assert(prev@ == s[i as int]);
            match coalesce(prev.change, c) {
                Some(n) => {
                    let entry = Outgoing { change: n, origin: Some(id.copy()) };
                    let ghost ev = entry@;
                    let ghost mid = v@;
                    v.insert(i, entry);
                    proof {
                        lemma_views_insert(mid, i as int, entry);
                        lemma_remove_insert(s, i as int, ev);
                    }
                },
                None => {},
            }
        },
        None => {
            let p = insert_position(v, &c.oid);
            let entry = Outgoing { change: c, origin: Some(id.copy()) };
            let ghost ev = entry@;
            v.insert(p, entry);
            proof {
                lemma_views_insert(old_v, p as int, entry);
            }
        },
    }
}

proof fn lemma_owe_retries_step(base: Seq<OutgoingView>, rs: Seq<Seq<char>>, k: int, d: StoreData)
    requires
        0 <= k < rs.len(),
    ensures
        owe_retries(base, rs.take(k + 1), d) == owe_retry(owe_retries(base, rs.take(k), d), rs[k], d),
{
    assert(rs.take(k + 1).drop_last() =~= rs.take(k));
}

fn owe_retry_exec<S: ObjectRepository>(store: &S, out: &mut Vec<Outgoing>, oid: &Oid) -> (r: Result<(), UseCaseError>)
    ensures
        r is Ok ==> outgoing_views(final(out)@) == owe_retry(outgoing_views(old(out)@), oid@, store.model().data),
        r matches Err(e) ==> e is Store,
{
    if find_oid(out, oid).is_some() {
        return Ok(());
    }
    let current = match store.committed(oid) {
        Ok(c) => c,
        Err(e) => return Err(UseCaseError::Store(e)),
    };
    match current {
        Some(cur) => {
            let p = insert_position(out, oid);
            let ghost old_v = out@;
            let entry = Outgoing {
                change: Change { oid: oid.copy(), op: Op::Update, before: None, after: Some(cur) },
                origin: None,
            };
            out.insert(p, entry);
            proof {
                lemma_views_insert(old_v, p as int, entry);
            }
        },
        None => {},
    }
    Ok(())
}

/// Every unpushed commit's changes, coalesced per oid and paired with the
/// commit the last of them came from, plus a synthetic update from the
/// committed view for each oid owed a retry that no unpushed commit already
/// covers; in oid order.
///
/// A coalesced commit change already ends at the committed state, so leaving
/// it in place resends exactly what the synthetic one would have, and keeps
/// the commit that names it. That name is what lets a resend after an
/// interrupted push carry the key the interrupted one carried.
pub fn changes_to_send<S: ObjectRepository + CommitRepository>(
    store: &S,
    remote: &RemoteConfig,
    unpushed: &Vec<CommitRecord>,
) -> (r: Result<Vec<Outgoing>, UseCaseError>)
    ensures
        r matches Ok(v) ==> outgoing_views(v@) == owed(store.model().data, remote.name@, record_views(unpushed@)),
        r matches Err(e) ==> e is Store,
{
    let ghost records = record_views(unpushed@);
    let mut out: Vec<Outgoing> = Vec::new();
    let mut i: usize = 0;
    while i < unpushed.len()
        invariant
            records == record_views(unpushed@),
            i <= unpushed.len(),
            outgoing_views(out@) == owed_by_commits(records.take(i as int)),
        decreases unpushed.len() - i,
    {
        let record = &unpushed[i];
        let ghost before = outgoing_views(out@);
        let mut j: usize = 0;
        while j < record.changes.len()
            invariant
                j <= record.changes.len(),
                outgoing_views(out@) == owe_changes(before, change_views(record.changes@).take(j as int), record.id@),
            decreases record.changes.len() - j,
        {
            proof {
                assert(change_views(record.changes@).take(j + 1).drop_last() =~= change_views(record.changes@).take(j as int));
            }
            owe_change_exec(&mut out, record.changes[j].copy(), &record.id);
            j = j + 1;
        }
        proof {
            assert(change_views(record.changes@).take(record.changes.len() as int) =~= change_views(record.changes@));
            assert(records.take(i + 1).drop_last() =~= records.take(i as int));
        }
        i = i + 1;
    }
    assert(records.take(unpushed.len() as int) =~= records);
    let retries = match store.push_retries(&remote.name) {
        Ok(r) => r,
        Err(e) => return Err(UseCaseError::Store(e)),
    };
    let ghost base = outgoing_views(out@);
    let ghost d = store.model().data;
    let ghost rs = d.retries_of(remote.name@);
    let mut k: usize = 0;
    while k < retries.len()
        invariant
            k <= retries.len(),
            d == store.model().data,
            crate::domain::oid_texts(retries@) == rs,
            outgoing_views(out@) == owe_retries(base, rs.take(k as int), d),
        decreases retries.len() - k,
    {
        proof {
            lemma_owe_retries_step(base, rs, k as int, d);
            assert(rs[k as int] == retries@[k as int]@);
        }
        match owe_retry_exec(store, &mut out, &retries[k]) {
            Ok(()) => {},
            Err(e) => return Err(e),
        }
        k = k + 1;
    }
    assert(rs.take(retries.len() as int) =~= rs);
    Ok(out)
}

} // verus!

verus! {

/// The verb a change becomes, with the fields it carries. Whether the remote
/// already holds the object decides the verb, not the change's own op: a
/// create the remote has already taken is an update, and an update of
/// something the remote has never seen is a create. An update that touches
/// no field the remote declared becomes nothing.
pub open spec fn verb_for(change: ChangeView, remote_id: Option<Seq<char>>, declared: Seq<Field>) -> Option<(MutationOp, Seq<Field>)> {
    if change.op == Op::Delete {
        Some((MutationOp::Delete, Seq::empty()))
    } else if change.op == Op::Update && change.after is None {
        None
    } else if remote_id is None {
        Some((MutationOp::Create, declared))
    } else if change.op == Op::Create {
        Some((MutationOp::Update, declared))
    } else {
        match (change.before, change.after) {
            (Some(b), Some(a)) => {
                let touched = changed_fields_spec(b, a).filter(|f: Field| declared.contains(f));
                if touched.len() == 0 {
                    None
                } else {
                    Some((MutationOp::Update, touched))
                }
            },
            _ => Some((MutationOp::Update, declared)),
        }
    }
}

/// The mutation one owed change becomes for a remote, or none: a change
/// with no object, of a kind the remote does not take, outside the remote's
/// path, that touches nothing it declared, or that deletes what it never
/// held, is sent nothing.
pub open spec fn mutation_spec(
    change: ChangeView,
    origin: Option<Seq<char>>,
    kinds: Seq<Kind>,
    declared: Seq<Field>,
    scope: Option<Seq<char>>,
    remote_id: Option<Seq<char>>,
) -> Option<RemoteMutationView> {
    let object = if change.after is Some {
        change.after
    } else {
        change.before
    };
    match object {
        None => None,
        Some(o) => if !kinds.contains(o.kind()) {
            None
        } else if scope matches Some(sc) && !within(o.base().path, sc) {
            None
        } else {
            match verb_for(change, remote_id, declared) {
                None => None,
                Some((op, fields)) => if op == MutationOp::Delete && remote_id is None {
                    None
                } else {
                    Some(
                        RemoteMutationView {
                            op,
                            oid: change.oid,
                            idempotency_key: key_spec(origin, change.oid),
                            remote_id,
                            object: if op == MutationOp::Delete {
                                None
                            } else {
                                change.after
                            },
                            fields,
                        },
                    )
                },
            }
        },
    }
}

/// The path a remote is scoped to, as text.
pub open spec fn scope_of(remote: RemoteConfig) -> Option<Seq<char>> {
    match remote.path {
        Some(p) => Some(p@),
        None => None,
    }
}

/// The object a change is about: what it leaves, or else what it removed.
pub open spec fn changed_object(change: ChangeView) -> Option<ObjectView> {
    if change.after is Some {
        change.after
    } else {
        change.before
    }
}

/// Nothing is ever sent for an object outside the remote's path: whatever
/// the change, its origin, the kinds and fields the remote takes, and
/// whether the remote already holds the object, a change whose object lies
/// outside `scope` has no mutation.
pub proof fn lemma_nothing_sent_outside_the_scope(
    change: ChangeView,
    origin: Option<Seq<char>>,
    kinds: Seq<Kind>,
    declared: Seq<Field>,
    scope: Seq<char>,
    remote_id: Option<Seq<char>>,
)
    requires
        changed_object(change) matches Some(o) && !within(o.base().path, scope),
    ensures
        mutation_spec(change, origin, kinds, declared, Some(scope), remote_id) is None,
{
}

/// What is sent for a change, and when nothing is. A change with no
/// object, of a kind the remote does not take, or deleting what the remote
/// never held is sent nothing. A mutation sent is about the change's oid,
/// under the key its origin and oid give, to the id the remote holds it
/// under; it deletes exactly when the change does, carrying no object
/// then; otherwise it carries what the change leaves, is a create exactly
/// when the remote does not hold the object yet, and names only fields the
/// remote declared.
pub proof fn lemma_what_a_mutation_carries(
    change: ChangeView,
    origin: Option<Seq<char>>,
    kinds: Seq<Kind>,
    declared: Seq<Field>,
    scope: Option<Seq<char>>,
    remote_id: Option<Seq<char>>,
)
    ensures
        changed_object(change) is None ==> mutation_spec(change, origin, kinds, declared, scope, remote_id) is None,
        changed_object(change) matches Some(o) ==> (!kinds.contains(o.kind()) ==> mutation_spec(
            change,
            origin,
            kinds,
            declared,
            scope,
            remote_id,
        ) is None),
        change.op == Op::Delete && remote_id is None ==> mutation_spec(
            change,
            origin,
            kinds,
            declared,
            scope,
            remote_id,
        ) is None,
        mutation_spec(change, origin, kinds, declared, scope, remote_id) matches Some(m) ==> {
            &&& m.oid == change.oid
            &&& m.idempotency_key == key_spec(origin, change.oid)
            &&& m.remote_id == remote_id
            &&& (m.op == MutationOp::Delete) == (change.op == Op::Delete)
            &&& m.op == MutationOp::Delete ==> m.object is None && remote_id is Some && m.fields.len() == 0
            &&& m.op != MutationOp::Delete ==> m.object == change.after
            &&& m.op != MutationOp::Delete ==> ((m.op == MutationOp::Create) == (remote_id is None))
            &&& forall|i: int| 0 <= i < m.fields.len() ==> declared.contains(#[trigger] m.fields[i])
        },
{
    if let Some(m) = mutation_spec(change, origin, kinds, declared, scope, remote_id) {
        if change.op != Op::Delete && remote_id is Some && change.op != Op::Create {
            if let (Some(b), Some(a)) = (change.before, change.after) {
                let p = |f: Field| declared.contains(f);
                changed_fields_spec(b, a).filter_lemma(p);
            }
        }
    }
}

/// Inside the remote's path, the scope makes no difference: a change whose
/// object lies within `scope` is sent just what it would be with no scope.
pub proof fn lemma_scope_passes_what_lies_within(
    change: ChangeView,
    origin: Option<Seq<char>>,
    kinds: Seq<Kind>,
    declared: Seq<Field>,
    scope: Seq<char>,
    remote_id: Option<Seq<char>>,
)
    requires
        changed_object(change) matches Some(o) && within(o.base().path, scope),
    ensures
        mutation_spec(change, origin, kinds, declared, Some(scope), remote_id) == mutation_spec(
            change,
            origin,
            kinds,
            declared,
            None,
            remote_id,
        ),
{
}

pub open spec fn opt_mutation(m: Option<RemoteMutation>) -> Option<RemoteMutationView> {
    match m {
        Some(x) => Some(x@),
        None => None,
    }
}

fn kinds_contain(v: &Vec<Kind>, k: Kind) -> (r: bool)
    ensures
        r == v@.contains(k),
{
    let mut i: usize = 0;
    while i < v.len()
        invariant
            i <= v.len(),
            forall|j: int| 0 <= j < i ==> v@[j] != k,
        decreases v.len() - i,
    {
        if v[i] == k {
            return true;
        }
        i = i + 1;
    }
    false
}

fn copy_fields(v: &Vec<Field>) -> (r: Vec<Field>)
    ensures
        r@ == v@,
{
    let mut out: Vec<Field> = Vec::new();
    let mut i: usize = 0;
    while i < v.len()
        invariant
            i <= v.len(),
            out@ == v@.take(i as int),
        decreases v.len() - i,
    {
        out.push(v[i]);
        assert(v@.take(i + 1) =~= v@.take(i as int).push(v@[i as int]));
        i = i + 1;
    }
    assert(v@.take(v.len() as int) =~= v@);
    out
}

/// The fields of `touched` that `declared` names, in order.
fn declared_only(touched: &Vec<Field>, declared: &Vec<Field>) -> (r: Vec<Field>)
    ensures
        r@ == touched@.filter(|f: Field| declared@.contains(f)),
{
    let ghost p = |f: Field| declared@.contains(f);
    let mut out: Vec<Field> = Vec::new();
    let mut i: usize = 0;
    while i < touched.len()
        invariant
            i <= touched.len(),
            p == (|f: Field| declared@.contains(f)),
            out@ == touched@.take(i as int).filter(p),
        decreases touched.len() - i,
    {
        proof {
            lemma_filter_push(touched@.take(i as int), touched@[i as int], p);
            assert(touched@.take(i + 1) =~= touched@.take(i as int).push(touched@[i as int]));
        }
        if fields_contain(declared, touched[i]) {
            out.push(touched[i]);
        }
        i = i + 1;
    }
    assert(touched@.take(touched.len() as int) =~= touched@);
    out
}

/// The mutation one owed change becomes for `remote`; see `mutation_spec`.
pub fn mutation_for<S: RemoteTrackingRepository>(
    store: &S,
    caps: &RemoteCapabilities,
    remote: &RemoteConfig,
    change: &Change,
    origin: Option<&CommitId>,
) -> (r: Result<Option<RemoteMutation>, UseCaseError>)
    ensures
        r matches Ok(m) ==> opt_mutation(m) == mutation_spec(
            change@,
            match origin { Some(id) => Some(id@), None => None },
            caps.kinds@,
            caps.fields@,
            scope_of(*remote),
            store.model().data.remote_ids.get((remote.name@, change.oid@)),
        ),
        r matches Err(e) ==> e is Store,
        r matches Ok(m) ==> (remote.path matches Some(p) ==> (changed_object(change@) matches Some(o) ==> (
        within(o.base().path, p@) || m is None))),
{
    let object = if change.after.is_some() {
        &change.after
    } else {
        &change.before
    };
    let object = match object {
        Some(o) => o,
        None => return Ok(None),
    };
    if !kinds_contain(&caps.kinds, object.kind()) {
        return Ok(None);
    }
    match &remote.path {
        Some(scope) => {
            if !object.base().path.is_within(scope) {
                return Ok(None);
            }
        },
        None => {},
    }
    let remote_id = match store.remote_id(&remote.name, &change.oid) {
        Ok(r) => r,
        Err(e) => return Err(UseCaseError::Store(e)),
    };
    let ghost rid = opt_text(remote_id);
    let (op, fields) = if change.op == Op::Delete {
        let none: Vec<Field> = Vec::new();
        assert(none@ =~= Seq::<Field>::empty());
        (MutationOp::Delete, none)
    } else if change.op == Op::Update && change.after.is_none() {
        return Ok(None);
    } else if remote_id.is_none() {
        (MutationOp::Create, copy_fields(&caps.fields))
    } else if change.op == Op::Create {
        (MutationOp::Update, copy_fields(&caps.fields))
    } else {
        match (&change.before, &change.after) {
            (Some(b), Some(a)) => {
                let touched = changed_fields(b, a);
                let declared = declared_only(&touched, &caps.fields);
                if declared.len() == 0 {
                    return Ok(None);
                }
                (MutationOp::Update, declared)
            },
            _ => (MutationOp::Update, copy_fields(&caps.fields)),
        }
    };
    assert(verb_for(change@, rid, caps.fields@) == Some((op, fields@)));
    if op == MutationOp::Delete && remote_id.is_none() {
        return Ok(None);
    }
    let key = key(
        match origin {
            Some(id) => Origin::Commit(id),
            None => Origin::Retry,
        },
        &change.oid,
    );
    Ok(Some(RemoteMutation {
        op,
        oid: change.oid.copy(),
        idempotency_key: key,
        remote_id,
        object: if op == MutationOp::Delete {
            None
        } else {
            copy_opt(&change.after)
        },
        fields,
    }))
}

} // verus!
