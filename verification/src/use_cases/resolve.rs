//! Settling a conflict a pull raised, with our version or theirs.

use vstd::prelude::*;

use crate::domain::{Change, ChangeView, CommitRecord, CommitRecordView, Object, Oid, Op, Timestamp, short_text};
use crate::errors::{Refusal, UseCaseError};
use crate::ports::{
    Clock, CommitRepository, Conflict, ConflictRepository, ConflictView, ObjectRepository, Randomness,
    StoreData, conflict_views, lists_conflicts, new_commit_id,
};

verus! {

/// Which side of a conflict wins.
#[derive(Clone, Copy, Debug, PartialEq, Eq, Structural)]
pub enum Side {
    Ours,
    Theirs,
}

/// The word a resolution's commit message names its side by.
pub open spec fn side_word(side: Side) -> Seq<char> {
    match side {
        Side::Ours => seq!['o', 'u', 'r', 's'],
        Side::Theirs => seq!['t', 'h', 'e', 'i', 'r', 's'],
    }
}

/// The message of the commit that resolves `oid` with `side`.
pub open spec fn resolve_message(oid: Seq<char>, side: Side) -> Seq<char> {
    seq!['r', 'e', 's', 'o', 'l', 'v', 'e', ' '] + short_text(oid) + seq![' ', 'w', 'i', 't', 'h', ' '] + side_word(side)
}

/// `d` once the conflict `c` is resolved with `side` by a commit with
/// `id` at `at`: theirs is written when it wins, and either way one update
/// from the losing side to the winning one is committed, unpushed, so that
/// a push sends the winner.
pub open spec fn resolved_data(d: StoreData, c: ConflictView, side: Side, id: Seq<char>, at: Timestamp) -> StoreData {
    let (before, after) = match side {
        Side::Theirs => (c.ours, c.theirs),
        Side::Ours => (c.theirs, c.ours),
    };
    let written = match side {
        Side::Theirs => StoreData { working: d.working.insert(c.theirs.oid(), c.theirs), ..d },
        Side::Ours => d,
    };
    let record = CommitRecordView {
        id,
        message: resolve_message(c.oid, side),
        at,
        changes: seq![ChangeView { oid: c.oid, op: Op::Update, before: Some(before), after: Some(after) }],
    };
    let committed = written.committed_with(record);
    StoreData { conflicts: committed.conflicts.remove(c.oid), ..committed }
}

/// Resolving settles that conflict alone and keeps the winner: the
/// conflict on its oid is gone and every other stays; with theirs, theirs
/// is the working copy, and with ours the working layer is left as it was;
/// one commit is added, recording a single update from the losing side to
/// the winning one.
pub proof fn lemma_resolving_keeps_the_winner(
    d: StoreData,
    c: ConflictView,
    side: Side,
    id: Seq<char>,
    at: Timestamp,
)
    ensures
        resolved_data(d, c, side, id, at).conflicts == d.conflicts.remove(c.oid),
        side == Side::Theirs ==> resolved_data(d, c, side, id, at).working == d.working.insert(c.theirs.oid(), c.theirs),
        side == Side::Ours ==> resolved_data(d, c, side, id, at).working == d.working,
        resolved_data(d, c, side, id, at).commits.len() == d.commits.len() + 1,
        resolved_data(d, c, side, id, at).commits.drop_last() == d.commits,
        resolved_data(d, c, side, id, at).commits.last().id == id,
        resolved_data(d, c, side, id, at).commits.last().changes.len() == 1,
        resolved_data(d, c, side, id, at).commits.last().changes[0].oid == c.oid,
        resolved_data(d, c, side, id, at).commits.last().changes[0].op == Op::Update,
        side == Side::Theirs ==> resolved_data(d, c, side, id, at).commits.last().changes[0].after == Some(c.theirs)
            && resolved_data(d, c, side, id, at).commits.last().changes[0].before == Some(c.ours),
        side == Side::Ours ==> resolved_data(d, c, side, id, at).commits.last().changes[0].after == Some(c.ours)
            && resolved_data(d, c, side, id, at).commits.last().changes[0].before == Some(c.theirs),
        resolved_data(d, c, side, id, at).remote_ids == d.remote_ids,
        resolved_data(d, c, side, id, at).snapshots == d.snapshots,
{
    assert(resolved_data(d, c, side, id, at).commits.drop_last() =~= d.commits);
}

/// `d1` is `d` once the conflict on `oid` is resolved with `side`, under
/// some fresh commit id and time.
pub open spec fn resolved_as(d: StoreData, d1: StoreData, oid: Seq<char>, side: Side) -> bool {
    exists|id: Seq<char>, at: Timestamp| #[trigger] resolved_data(d, d.conflicts[oid], side, id, at) == d1
}

/// Where the conflict on `oid` stands in `conflicts`.
fn conflict_index(conflicts: &Vec<Conflict>, oid: &Oid) -> (r: Option<usize>)
    ensures
        r matches Some(k) ==> k < conflicts@.len() && conflicts@[k as int]@.oid == oid@,
        r is None ==> forall|j: int| 0 <= j < conflicts@.len() ==> (#[trigger] conflicts@[j])@.oid != oid@,
{
    let mut i: usize = 0;
    while i < conflicts.len()
        invariant
            i <= conflicts.len(),
            forall|j: int| 0 <= j < i ==> (#[trigger] conflicts@[j])@.oid != oid@,
        decreases conflicts.len() - i,
    {
        if conflicts[i].oid.same(oid) {
            return Some(i);
        }
        i = i + 1;
    }
    None
}

/// Settles the conflict on `oid` with `side`. Either side needs a commit,
/// and an unpushed one: push coalesces every unpushed change for an object
/// and sends where they end, so a resolution that wrote none would leave
/// the losing change as the last word and send that upstream instead.
pub fn resolve<S: ObjectRepository + CommitRepository + ConflictRepository, K: Clock, R: Randomness>(
    store: &mut S,
    clock: &K,
    random: &mut R,
    oid: &Oid,
    side: Side,
) -> (r: Result<(), UseCaseError>)
    ensures
        final(store).model().unit == old(store).model().unit,
        r is Ok ==> old(store).model().data.conflicts.contains_key(oid@) && final(store).model() == old(
            store,
        ).model().with(final(store).model().data) && resolved_as(
            old(store).model().data,
            final(store).model().data,
            oid@,
            side,
        ),
        !old(store).model().data.conflicts.contains_key(oid@) ==> r is Err,
        r matches Err(UseCaseError::Refused(Refusal::NoSuchObject(s))) ==> !old(
            store,
        ).model().data.conflicts.contains_key(oid@) && s@ == seq!['c', 'o', 'n', 'f', 'l', 'i', 'c', 't', ' ', 'o', 'n', ' ']
            + short_text(oid@),
        r matches Err(e) ==> e is Store || e matches UseCaseError::Refused(Refusal::NoSuchObject(_)),
{
    proof {
        store.lemma_model_wf();
    }
    let ghost m0 = store.model();
    let ghost d = m0.data;
    let conflicts = match store.conflicts() {
        Ok(c) => c,
        Err(e) => return Err(UseCaseError::Store(e)),
    };
    let ghost cv = conflict_views(conflicts@);
    let found = conflict_index(&conflicts, oid);
    let k = match found {
        Some(k) => k,
        None => {
            proof {
                if d.conflicts.contains_key(oid@) {
                    let j = choose|j: int| 0 <= j < cv.len() && #[trigger] cv[j].oid == oid@;
                    assert(cv[j] == conflicts@[j]@);
                }
            }
            let mut why = String::from_str("conflict on ");
            why.append(oid.short().as_str());
            proof {
                reveal_strlit("conflict on ");
                assert(why@ =~= seq!['c', 'o', 'n', 'f', 'l', 'i', 'c', 't', ' ', 'o', 'n', ' '] + short_text(oid@));
            }
            return Err(UseCaseError::Refused(Refusal::NoSuchObject(why)));
        },
    };
    let conflict = &conflicts[k];
    assert(cv[k as int] == conflict@);
    assert(d.conflicts[oid@] == conflict@);
    let (word, before, after) = match side {
        Side::Theirs => {
            match store.put(&conflict.theirs) {
                Ok(()) => {},
                Err(e) => return Err(UseCaseError::Store(e)),
            }
            ("theirs", conflict.ours.copy(), conflict.theirs.copy())
        },
        Side::Ours => ("ours", conflict.theirs.copy(), conflict.ours.copy()),
    };
    let mut message = String::from_str("resolve ");
    message.append(oid.short().as_str());
    message.append(" with ");
    message.append(word);
    proof {
        reveal_strlit("resolve ");
        reveal_strlit(" with ");
        reveal_strlit("theirs");
        reveal_strlit("ours");
        assert(message@ =~= resolve_message(oid@, side));
    }
    let id = new_commit_id(random);
    let at = clock.now();
    let mut changes: Vec<Change> = Vec::new();
    changes.push(Change { oid: oid.copy(), op: Op::Update, before: Some(before), after: Some(after) });
    let record = CommitRecord { id, message, at, changes };
    assert(record@.changes =~= seq![
        ChangeView { oid: conflict@.oid, op: Op::Update, before: Some(match side {
            Side::Theirs => conflict@.ours,
            Side::Ours => conflict@.theirs,
        }), after: Some(match side {
            Side::Theirs => conflict@.theirs,
            Side::Ours => conflict@.ours,
        }) },
    ]);
    match store.commit(&record) {
        Ok(()) => {},
        Err(e) => return Err(UseCaseError::Store(e)),
    }
    match store.clear_conflict(oid) {
        Ok(()) => {},
        Err(e) => return Err(UseCaseError::Store(e)),
    }
    assert(resolved_data(d, d.conflicts[oid@], side, record.id@, at) == store.model().data);
    Ok(())
}

} // verus!
