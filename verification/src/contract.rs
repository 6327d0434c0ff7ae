//! The behaviour every store owes, as suites that run against any store.
//! A suite talks to the store through a probe that records each answer and
//! promises nothing else of it; the suite holds each answer to its law and
//! passes exactly when every answer came back and kept it.

mod probe;

pub use probe::{Answer, Probe};

use vstd::prelude::*;

use crate::domain::{
    BaseView, Change, ChangeView, CommitId, CommitRecord, CommitRecordView, Object, ObjectView, Oid, Op, Path,
    Task, TaskView, Timestamp, change_views, hex_of, new_task_view, normalized, oid_texts, oids_eq, opt_text,
    opt_text_eq, path_ok, record_views, same_opt,
};
use crate::ports::{
    CommitRepository, ConflictRepository, Notice, NoticeRepository, NoticeView, ObjectRepository, RemoteName,
    RemoteTrackingRepository, StageRepository, StoreError, Transactional, conflict_views, notice_views,
    object_views,
};

verus! {

/// The twenty bytes `b` spells an oid with.
pub open spec fn uniform(b: u8) -> Seq<u8> {
    Seq::new(20, |i: int| b)
}

/// The oid spelled by twenty bytes of `b`.
pub fn sample_oid(b: u8) -> (o: Oid)
    ensures
        o@ == hex_of(uniform(b)),
{
    let mut bytes: Vec<u8> = Vec::new();
    let mut i: usize = 0;
    while i < 20
        invariant
            i <= 20,
            bytes@ == Seq::new(i as nat, |j: int| b),
        decreases 20 - i,
    {
        bytes.push(b);
        assert(bytes@ =~= Seq::new((i + 1) as nat, |j: int| b));
        i = i + 1;
    }
    Oid::from_bytes(&bytes)
}

/// A new task with `subject` under `oid`, moved to `path`, as a value.
pub open spec fn sample_task_view(oid: Seq<char>, subject: Seq<char>, path: Seq<char>) -> ObjectView {
    ObjectView::Task(
        TaskView { base: BaseView { path, ..new_task_view(oid, subject).base }, ..new_task_view(oid, subject) },
    )
}

/// A task with `subject` under `oid` at `path`.
fn sample_task(oid: Oid, subject: &str, path: Path) -> (o: Object)
    ensures
        o@ == sample_task_view(oid@, subject@, path@),
{
    let mut t = Task::new(oid, String::from_str(subject));
    t.base.path = path;
    Object::Task(t)
}

/// The path a literal that reads as one stands for.
fn sample_path(text: &str) -> (p: Path)
    requires
        path_ok(normalized(text@)),
    ensures
        p@ == normalized(text@),
{
    match Path::parse(text) {
        Ok(p) => p,
        Err(_) => Path::root(),
    }
}

/// Why a suite did not pass.
#[derive(Debug, PartialEq, Eq)]
pub enum SuiteError {
    /// A call the suite made failed; the store said why.
    Store(StoreError),
    /// An answer broke the law the text names.
    Broken(String),
}

/// A store call's result, its failure reported as the suite's.
fn call<T>(r: Result<T, StoreError>) -> (o: Result<T, SuiteError>)
    ensures
        r is Ok <==> o is Ok,
        r matches Ok(v) ==> o matches Ok(w) && w == v,
        r matches Err(e) ==> o matches Err(SuiteError::Store(f)) && f == e,
{
    match r {
        Ok(v) => Ok(v),
        Err(e) => Err(SuiteError::Store(e)),
    }
}

/// The failure of a suite whose store broke the law `law` names.
fn broken(law: &str) -> (e: SuiteError)
    ensures
        e matches SuiteError::Broken(m) && m@ == law@,
{
    SuiteError::Broken(String::from_str(law))
}

/// The first `k` answers of `h` each came back and kept the law `verdict`
/// holds it to: `verdict` reads the answers up to one, and names the law
/// the last of them broke, if it broke one.
pub open spec fn kept_upto(h: Seq<Answer>, k: int, verdict: spec_fn(Seq<Answer>) -> Option<Seq<char>>) -> bool {
    forall|j: int| 0 <= j < k ==> !(#[trigger] h[j] is Failed) && verdict(h.take(j + 1)) is None
}

/// How a suite of `steps` calls that holds each answer to `verdict` ended,
/// given the answers `h` it heard: it passes when every answer came back and
/// kept its law; it reports the law the last answer broke when every answer
/// before it kept its own; it reports the store's failure when the last
/// call failed, or the one before it failed and the last abandoned the unit
/// of work it was in, and every answer before the failure kept its law.
pub open spec fn suite_ran(
    h: Seq<Answer>,
    steps: int,
    verdict: spec_fn(Seq<Answer>) -> Option<Seq<char>>,
    r: Result<(), SuiteError>,
) -> bool {
    match r {
        Ok(_) => h.len() == steps && kept_upto(h, steps, verdict),
        Err(SuiteError::Broken(l)) => {
            &&& 0 < h.len() <= steps
            &&& kept_upto(h, h.len() - 1, verdict)
            &&& !(h.last() is Failed)
            &&& verdict(h) == Some(l@)
        },
        Err(SuiteError::Store(e)) => {
            ||| (0 < h.len() <= steps && kept_upto(h, h.len() - 1, verdict) && h.last() == Answer::Failed(e))
            ||| (1 < h.len() <= steps && kept_upto(h, h.len() - 2, verdict) && h[h.len() - 2] == Answer::Failed(e)
                && h.last() == Answer::Done)
        },
    }
}

/// No law broken when `kept`, else the law `name`.
pub open spec fn law(kept: bool, name: Seq<char>) -> Option<Seq<char>> {
    if kept {
        None
    } else {
        Some(name)
    }
}

/// Whatever the next answer, the answers before it still kept their laws.
proof fn lemma_heard_any(h: Seq<Answer>, verdict: spec_fn(Seq<Answer>) -> Option<Seq<char>>)
    requires
        kept_upto(h, h.len() as int, verdict),
    ensures
        forall|a: Answer| #[trigger] kept_upto(h.push(a), h.len() as int, verdict),
{
    assert forall|a: Answer| #[trigger] kept_upto(h.push(a), h.len() as int, verdict) by {
        assert forall|j: int| 0 <= j < h.len() implies !(#[trigger] h.push(a)[j] is Failed) && verdict(
            h.push(a).take(j + 1),
        ) is None by {
            assert(h.push(a).take(j + 1) =~= h.take(j + 1));
        }
    }
}

/// Whatever comes next, the first `k` answers still kept their laws.
proof fn lemma_heard_more(h: Seq<Answer>, k: int, verdict: spec_fn(Seq<Answer>) -> Option<Seq<char>>)
    requires
        0 <= k <= h.len(),
        kept_upto(h, k, verdict),
    ensures
        forall|a: Answer| #[trigger] kept_upto(h.push(a), k, verdict),
{
    assert forall|a: Answer| #[trigger] kept_upto(h.push(a), k, verdict) by {
        assert forall|j: int| 0 <= j < k implies !(#[trigger] h.push(a)[j] is Failed) && verdict(
            h.push(a).take(j + 1),
        ) is None by {
            assert(h.push(a).take(j + 1) =~= h.take(j + 1));
        }
    }
}

/// Once the last answer came back and kept its law, whatever the next
/// answer, every answer before it kept its law.
proof fn lemma_next(h: Seq<Answer>, verdict: spec_fn(Seq<Answer>) -> Option<Seq<char>>)
    requires
        h.len() > 0,
        kept_upto(h, h.len() - 1, verdict),
        !(h.last() is Failed),
        verdict(h) is None,
    ensures
        kept_upto(h, h.len() as int, verdict),
        forall|a: Answer| #[trigger] kept_upto(h.push(a), h.len() as int, verdict),
{
    lemma_heard_kept(h, verdict);
    lemma_heard_any(h, verdict);
}

/// An answer that came back and kept its law extends the answers that did.
proof fn lemma_heard_kept(h: Seq<Answer>, verdict: spec_fn(Seq<Answer>) -> Option<Seq<char>>)
    requires
        h.len() > 0,
        kept_upto(h, h.len() - 1, verdict),
        !(h.last() is Failed),
        verdict(h) is None,
    ensures
        kept_upto(h, h.len() as int, verdict),
{
    assert(h.take(h.len() as int) =~= h);
}

/// The oids of `v`, in order.
fn oids_of(v: &Vec<Object>) -> (r: Vec<Oid>)
    ensures
        oid_texts(r@) == object_views(v@).map_values(|o: ObjectView| o.oid()),
{
    let mut out: Vec<Oid> = Vec::new();
    let mut i: usize = 0;
    while i < v.len()
        invariant
            i <= v.len(),
            oid_texts(out@) == object_views(v@).map_values(|o: ObjectView| o.oid()).take(i as int),
        decreases v.len() - i,
    {
        let ghost before = oid_texts(out@);
        out.push(v[i].oid().copy());
        assert(oid_texts(out@) =~= before.push(v@[i as int]@.oid()));
        assert(object_views(v@).map_values(|o: ObjectView| o.oid()).take(i + 1) =~= object_views(v@).map_values(
            |o: ObjectView| o.oid(),
        ).take(i as int).push(v@[i as int]@.oid()));
        i = i + 1;
    }
    assert(object_views(v@).map_values(|o: ObjectView| o.oid()).take(v.len() as int) =~= object_views(
        v@,
    ).map_values(|o: ObjectView| o.oid()));
    out
}

/// Whether `v` is the one oid `o`.
fn just(v: &Vec<Oid>, o: &Oid) -> (r: bool)
    ensures
        r == (oid_texts(v@) == seq![o@]),
{
    if v.len() == 1 && v[0].same(o) {
        assert(oid_texts(v@) =~= seq![o@]);
        true
    } else {
        assert(oid_texts(v@).len() == v@.len());
        if v.len() == 1 {
            assert(oid_texts(v@)[0] == v@[0]@);
            assert(oid_texts(v@)[0] != seq![o@][0]);
        }
        false
    }
}

/// The law the working-layer suite holds the last of `p` to, and whether it
/// broke it.
pub open spec fn object_verdict(p: Seq<Answer>) -> Option<Seq<char>> {
    let j = p.len() - 1;
    let a = p.last();
    let o1 = hex_of(uniform(1));
    if j == 0 || j == 15 {
        if a matches Answer::Object(None) {
            None
        } else if j == 0 {
            Some("absent reads as none"@)
        } else {
            Some("putting into working never touches the committed view"@)
        }
    } else if j == 1 {
        if a matches Answer::Objects(v) && v.len() == 0 { None } else { Some("an empty store lists none"@) }
    } else if j == 3 {
        if a == Answer::Object(Some(sample_task_view(o1, "parent"@, normalized("work"@)))) {
            None
        } else {
            Some("a put reads back"@)
        }
    } else if j == 5 || j == 6 {
        if (j == 5 && a == Answer::Object(Some(sample_task_view(o1, "renamed"@, normalized("work"@))))) || (j == 6
            && (a matches Answer::Objects(v) && v.len() == 1)) {
            None
        } else {
            Some("a second put replaces rather than duplicates"@)
        }
    } else if j == 10 {
        if a matches Answer::Objects(v) && v.map_values(|o: ObjectView| o.oid()) == seq![hex_of(uniform(2))] {
            None
        } else {
            Some(
                "children_of answers with the immediate children alone: not the node itself, not a grandchild, and not a path that merely shares a prefix"@,
            )
        }
    } else if j == 11 {
        if a matches Answer::Objects(v) && v.map_values(|o: ObjectView| o.oid()) == seq![hex_of(uniform(4))] {
            None
        } else {
            Some("children_of answers with the immediate children alone"@)
        }
    } else if j == 13 || j == 14 {
        if (j == 13 && a == Answer::Oids(seq![hex_of(uniform(3))])) || (j == 14 && (a matches Answer::Oids(v)
            && v.len() == 0)) {
            None
        } else {
            Some("dependents_of answers with the oids that depend on it"@)
        }
    } else if j == 18 {
        if a matches Answer::Object(None) { None } else { Some("a deleted object reads as none"@) }
    } else if j == 20 {
        if a matches Answer::Objects(v) && p[16] matches Answer::Objects(b) && b.len() > 0 && v.len() == b.len() - 1 {
            None
        } else {
            Some("deleting what is already gone is not an error and removes nothing else"@)
        }
    } else {
        None
    }
}

/// Reads and writes of the working layer: replacement, deletion, the tree
/// query, the dependency query, and the committed view that `put` never
/// moves. Run on a store with nothing in it, it checks each answer against
/// the law it owes: it passes exactly when every answer came back and kept
/// its law, and otherwise reports the first answer that failed or broke its
/// law.
#[verifier::rlimit(100)]
pub fn object_repository_contract<S: ObjectRepository>(probe: &mut Probe<S>) -> (r: Result<(), SuiteError>)
    requires
        old(probe).heard().len() == 0,
    ensures
        suite_ran(final(probe).heard(), 21, |p: Seq<Answer>| object_verdict(p), r),
{
    let ghost v = |p: Seq<Answer>| object_verdict(p);
    proof {
        reveal_strlit("work");
        reveal_strlit("work/parent");
        reveal_strlit("work/parent/deep");
        reveal_strlit("workshop");
        lemma_heard_any(probe.heard(), v);
    }
    let o1 = sample_oid(1);
    let o2 = sample_oid(2);
    let o3 = sample_oid(3);
    let o4 = sample_oid(4);
    let o5 = sample_oid(5);
    let absent = call(probe.get(&o1))?;
    if absent.is_some() {
        return Err(broken("absent reads as none"));
    }
    proof { lemma_next(probe.heard(), v); }
    let none = call(probe.all())?;
    if none.len() != 0 {
        return Err(broken("an empty store lists none"));
    }
    proof { lemma_next(probe.heard(), v); }
    let work = sample_path("work");
    let parent = sample_task(o1.copy(), "parent", work.copy());
    call(probe.put(&parent))?;
    proof { lemma_next(probe.heard(), v); }
    let got = call(probe.get(&o1))?;
    if !same_opt(&got, &Some(parent.copy())) {
        return Err(broken("a put reads back"));
    }
    proof { lemma_next(probe.heard(), v); }
    let renamed = sample_task(o1.copy(), "renamed", work.copy());
    call(probe.put(&renamed))?;
    proof { lemma_next(probe.heard(), v); }
    let got = call(probe.get(&o1))?;
    if !same_opt(&got, &Some(renamed.copy())) {
        return Err(broken("a second put replaces rather than duplicates"));
    }
    proof { lemma_next(probe.heard(), v); }
    let one = call(probe.all())?;
    if one.len() != 1 {
        return Err(broken("a second put replaces rather than duplicates"));
    }
    proof { lemma_next(probe.heard(), v); }
    let under = sample_path("work/parent");
    call(probe.put(&sample_task(o2.copy(), "child", under.copy())))?;
    proof { lemma_next(probe.heard(), v); }
    let deep = sample_path("work/parent/deep");
    call(probe.put(&sample_task(o4.copy(), "grandchild", deep.copy())))?;
    proof { lemma_next(probe.heard(), v); }
    let shop = sample_path("workshop");
    call(probe.put(&sample_task(o5.copy(), "elsewhere", shop)))?;
    proof { lemma_next(probe.heard(), v); }
    let kids = call(probe.children_of(&work))?;
    if !just(&oids_of(&kids), &o2) {
        return Err(
            broken(
                "children_of answers with the immediate children alone: not the node itself, not a grandchild, and not a path that merely shares a prefix",
            ),
        );
    }
    proof { lemma_next(probe.heard(), v); }
    let grand = call(probe.children_of(&under))?;
    if !just(&oids_of(&grand), &o4) {
        return Err(broken("children_of answers with the immediate children alone"));
    }
    proof { lemma_next(probe.heard(), v); }
    let mut dependent = sample_task(o3.copy(), "dependent", work.copy());
    let b = dependent.base_mut();
    b.depends.push(o1.copy());
    call(probe.put(&dependent))?;
    proof { lemma_next(probe.heard(), v); }
    let deps = call(probe.dependents_of(&o1))?;
    if !just(&deps, &o3) {
        return Err(broken("dependents_of answers with the oids that depend on it"));
    }
    proof { lemma_next(probe.heard(), v); }
    let none_deps = call(probe.dependents_of(&o2))?;
    proof {
        assert(oid_texts(none_deps@).len() == none_deps@.len());
    }
    if none_deps.len() != 0 {
        return Err(broken("dependents_of answers with the oids that depend on it"));
    }
    proof { lemma_next(probe.heard(), v); }
    let committed = call(probe.committed(&o1))?;
    if committed.is_some() {
        return Err(broken("putting into working never touches the committed view"));
    }
    proof { lemma_next(probe.heard(), v); }
    let five = call(probe.all())?;
    let ghost h16 = probe.heard();
    proof { lemma_next(probe.heard(), v); }
    let before = five.len();
    call(probe.delete(&o3))?;
    proof { lemma_next(probe.heard(), v); }
    let gone = call(probe.get(&o3))?;
    if gone.is_some() {
        return Err(broken("a deleted object reads as none"));
    }
    proof { lemma_next(probe.heard(), v); }
    call(probe.delete(&o3))?;
    proof { lemma_next(probe.heard(), v); }
    let after = call(probe.all())?;
    proof {
        assert(probe.heard()[16] == h16[16]);
        assert(h16[16] == Answer::Objects(object_views(five@)));
    }
    if before == 0 || after.len() != before - 1 {
        return Err(broken("deleting what is already gone is not an error and removes nothing else"));
    }
    proof { lemma_next(probe.heard(), v); }
    Ok(())
}

/// The law the stage suite holds the last of `p` to, and whether it broke
/// it.
pub open spec fn stage_verdict(p: Seq<Answer>) -> Option<Seq<char>> {
    let j = p.len() - 1;
    let a = p.last();
    if j == 0 {
        if a matches Answer::Changes(v) && v.len() == 0 { None } else { Some("a store with nothing staged lists no change"@) }
    } else if j == 2 {
        if a matches Answer::Changes(v) && v.len() == 1 { None } else { Some("a staged change is listed"@) }
    } else if j == 4 {
        if !(a matches Answer::Changes(v) && v.len() == 1) {
            Some("one oid stages once"@)
        } else if a matches Answer::Changes(v) && v[0].op == Op::Create && v[0].after == Some(
            sample_task_view(hex_of(uniform(1)), "edited"@, Seq::empty()),
        ) {
            None
        } else {
            Some("a create absorbs a later update"@)
        }
    } else if j == 6 {
        if a matches Answer::Changes(v) && v.len() == 0 { None } else { Some("a create then a delete stages nothing"@) }
    } else if j == 9 {
        if a matches Answer::Changes(v) && v.len() == 1 {
            None
        } else {
            Some("unstaging an oid that is not staged leaves the others alone"@)
        }
    } else if j == 11 {
        if a matches Answer::Changes(v) && v.len() == 0 { None } else { Some("unstaging everything leaves nothing staged"@) }
    } else {
        None
    }
}

/// The stage holds at most one change per oid, coalescing a second one
/// onto the first, and a create followed by a delete leaves nothing staged.
/// Run on a store with nothing staged, it checks each answer against the
/// law it owes: it passes exactly when every answer came back and kept its
/// law, and otherwise reports the first answer that failed or broke its law.
pub fn stage_repository_contract<S: StageRepository>(probe: &mut Probe<S>) -> (r: Result<(), SuiteError>)
    requires
        old(probe).heard().len() == 0,
    ensures
        suite_ran(final(probe).heard(), 12, |p: Seq<Answer>| stage_verdict(p), r),
{
    let ghost v = |p: Seq<Answer>| stage_verdict(p);
    proof {
        lemma_heard_any(probe.heard(), v);
    }
    let o1 = sample_oid(1);
    let o2 = sample_oid(2);
    let empty = call(probe.staged())?;
    if empty.len() != 0 {
        return Err(broken("a store with nothing staged lists no change"));
    }
    proof { lemma_next(probe.heard(), v); }
    let root = Path::root();
    let created = sample_task(o1.copy(), "created", root.copy());
    call(probe.stage(Change { oid: o1.copy(), op: Op::Create, before: None, after: Some(created.copy()) }))?;
    proof { lemma_next(probe.heard(), v); }
    let one = call(probe.staged())?;
    if one.len() != 1 {
        return Err(broken("a staged change is listed"));
    }
    proof { lemma_next(probe.heard(), v); }
    let edited = sample_task(o1.copy(), "edited", root.copy());
    call(
        probe.stage(
            Change { oid: o1.copy(), op: Op::Update, before: Some(created.copy()), after: Some(edited.copy()) },
        ),
    )?;
    proof { lemma_next(probe.heard(), v); }
    let staged = call(probe.staged())?;
    if staged.len() != 1 {
        return Err(broken("one oid stages once"));
    }
    proof {
        assert(change_views(staged@)[0] == staged@[0]@);
    }
    if staged[0].op != Op::Create {
        return Err(broken("a create absorbs a later update"));
    }
    if !same_opt(&staged[0].after, &Some(edited.copy())) {
        return Err(broken("a create absorbs a later update"));
    }
    proof { lemma_next(probe.heard(), v); }
    call(probe.stage(Change { oid: o1.copy(), op: Op::Delete, before: Some(edited.copy()), after: None }))?;
    proof { lemma_next(probe.heard(), v); }
    let cleared = call(probe.staged())?;
    if cleared.len() != 0 {
        return Err(broken("a create then a delete stages nothing"));
    }
    proof { lemma_next(probe.heard(), v); }
    let other = sample_task(o2.copy(), "other", root.copy());
    call(probe.stage(Change { oid: o2.copy(), op: Op::Create, before: None, after: Some(other) }))?;
    proof { lemma_next(probe.heard(), v); }
    call(probe.unstage(&o1))?;
    proof { lemma_next(probe.heard(), v); }
    let left = call(probe.staged())?;
    if left.len() != 1 {
        return Err(broken("unstaging an oid that is not staged leaves the others alone"));
    }
    proof { lemma_next(probe.heard(), v); }
    call(probe.unstage_all())?;
    proof { lemma_next(probe.heard(), v); }
    let none = call(probe.staged())?;
    if none.len() != 0 {
        return Err(broken("unstaging everything leaves nothing staged"));
    }
    proof { lemma_next(probe.heard(), v); }
    Ok(())
}

/// The commit id spelled by twenty bytes of `b`.
fn sample_commit_id(b: u8) -> (id: CommitId)
    ensures
        id@ == hex_of(uniform(b)),
{
    let mut bytes: Vec<u8> = Vec::new();
    let mut i: usize = 0;
    while i < 20
        invariant
            i <= 20,
            bytes@ == Seq::new(i as nat, |j: int| b),
        decreases 20 - i,
    {
        bytes.push(b);
        assert(bytes@ =~= Seq::new((i + 1) as nat, |j: int| b));
        i = i + 1;
    }
    CommitId::from_bytes(&bytes)
}

/// A commit with id spelled by `b` and `message`, made at the epoch, of
/// one create: a task at the root under the oid spelled by `object`, whose
/// subject is the message.
pub open spec fn sample_record_view(b: u8, message: Seq<char>, object: u8) -> CommitRecordView {
    let o = hex_of(uniform(object));
    CommitRecordView {
        id: hex_of(uniform(b)),
        message,
        at: Timestamp { seconds: 0, nanos: 0 },
        changes: seq![
            ChangeView { oid: o, op: Op::Create, before: None, after: Some(sample_task_view(o, message, Seq::empty())) },
        ],
    }
}

/// A commit of one create.
fn sample_record(b: u8, message: &str, object: u8) -> (rec: CommitRecord)
    ensures
        rec@ == sample_record_view(b, message@, object),
{
    let o = sample_oid(object);
    let t = sample_task(o.copy(), message, Path::root());
    let mut changes: Vec<Change> = Vec::new();
    changes.push(Change { oid: o, op: Op::Create, before: None, after: Some(t) });
    let rec = CommitRecord {
        id: sample_commit_id(b),
        message: String::from_str(message),
        at: Timestamp { seconds: 0, nanos: 0 },
        changes,
    };
    assert(rec@.changes =~= sample_record_view(b, message@, object).changes);
    rec
}

/// Whether `a` and `b` list the same changes in the same order.
fn same_changes(a: &Vec<Change>, b: &Vec<Change>) -> (r: bool)
    ensures
        r == (change_views(a@) == change_views(b@)),
{
    if a.len() != b.len() {
        assert(change_views(a@).len() != change_views(b@).len());
        return false;
    }
    let mut i: usize = 0;
    while i < a.len()
        invariant
            a.len() == b.len(),
            i <= a.len(),
            forall|k: int| 0 <= k < i ==> a@[k]@ == b@[k]@,
        decreases a.len() - i,
    {
        if !a[i].same(&b[i]) {
            assert(change_views(a@)[i as int] != change_views(b@)[i as int]);
            return false;
        }
        i = i + 1;
    }
    assert(change_views(a@) =~= change_views(b@));
    true
}

/// The law the commit suite holds the last of `p` to, and whether it broke
/// it.
pub open spec fn commit_verdict(p: Seq<Answer>) -> Option<Seq<char>> {
    let j = p.len() - 1;
    let a = p.last();
    let id1 = hex_of(uniform(1));
    let id2 = hex_of(uniform(2));
    if j == 0 {
        if a matches Answer::Records(v) && v.len() == 0 { None } else { Some("a store with no history logs nothing"@) }
    } else if j == 1 {
        if a matches Answer::Records(v) && v.len() == 0 { None } else { Some("a store with no history owes nothing"@) }
    } else if j == 4 {
        if !(a matches Answer::Records(v) && v.len() == 2 && v[0].id == id2 && v[1].id == id1) {
            Some("the log reads newest first"@)
        } else if a matches Answer::Records(v) && v[0].changes == sample_record_view(2, "second"@, 2).changes {
            None
        } else {
            Some("a commit keeps its changes"@)
        }
    } else if j == 5 {
        if a matches Answer::Records(v) && v.len() == 2 { None } else { Some("a remote owes every commit it has not taken"@) }
    } else if j == 7 {
        if a matches Answer::Records(v) && v.len() == 1 && v[0].id == id2 {
            None
        } else {
            Some("a remote that took a commit owes it no more"@)
        }
    } else if j == 8 {
        if a matches Answer::Records(v) && v.len() == 2 {
            None
        } else {
            Some("one remote taking a commit says nothing about another"@)
        }
    } else if j == 10 {
        if a matches Answer::Records(v) && v.len() == 1 {
            None
        } else {
            Some("marking the same commit pushed twice is idempotent"@)
        }
    } else if j == 11 {
        if a matches Answer::Oids(v) && v.len() == 0 { None } else { Some("a store with no history owes no resend"@) }
    } else if j == 13 {
        if a == Answer::Oids(seq![hex_of(uniform(1)), hex_of(uniform(2))]) {
            None
        } else {
            Some("the retry set reads back as set"@)
        }
    } else if j == 15 {
        if a == Answer::Oids(seq![hex_of(uniform(3))]) { None } else { Some("the retry set is replaced, not added to"@) }
    } else if j == 16 {
        if a matches Answer::Oids(v) && v.len() == 0 {
            None
        } else {
            Some("one remote's retry set says nothing about another"@)
        }
    } else if j == 18 {
        if a matches Answer::Oids(v) && v.len() == 0 { None } else { Some("an empty retry set empties it"@) }
    } else {
        None
    }
}

/// Commits are ordered newest first, unpushed is per remote, and the retry
/// set is replaced rather than appended to. Run on a store with no history,
/// it checks each answer against the law it owes: it passes exactly when
/// every answer came back and kept its law, and otherwise reports the first
/// answer that failed or broke its law.
#[verifier::rlimit(100)]
pub fn commit_repository_contract<S: CommitRepository>(probe: &mut Probe<S>) -> (r: Result<(), SuiteError>)
    requires
        old(probe).heard().len() == 0,
    ensures
        suite_ran(final(probe).heard(), 19, |p: Seq<Answer>| commit_verdict(p), r),
{
    let ghost v = |p: Seq<Answer>| commit_verdict(p);
    proof {
        reveal_strlit("here");
        reveal_strlit("there");
        lemma_heard_any(probe.heard(), v);
    }
    let here = RemoteName(String::from_str("here"));
    let there = RemoteName(String::from_str("there"));
    let log = call(probe.log())?;
    if log.len() != 0 {
        return Err(broken("a store with no history logs nothing"));
    }
    proof { lemma_next(probe.heard(), v); }
    let owed = call(probe.unpushed(&here))?;
    if owed.len() != 0 {
        return Err(broken("a store with no history owes nothing"));
    }
    proof { lemma_next(probe.heard(), v); }
    let first = sample_record(1, "first", 1);
    let second = sample_record(2, "second", 2);
    call(probe.commit(&first))?;
    proof { lemma_next(probe.heard(), v); }
    call(probe.commit(&second))?;
    proof { lemma_next(probe.heard(), v); }
    let log = call(probe.log())?;
    proof {
        if log@.len() == 2 {
            assert(record_views(log@)[0] == log@[0]@);
            assert(record_views(log@)[1] == log@[1]@);
        }
    }
    if log.len() != 2 || !log[0].id.same(&second.id) || !log[1].id.same(&first.id) {
        return Err(broken("the log reads newest first"));
    }
    if !same_changes(&log[0].changes, &second.changes) {
        return Err(broken("a commit keeps its changes"));
    }
    proof { lemma_next(probe.heard(), v); }
    let owed = call(probe.unpushed(&here))?;
    if owed.len() != 2 {
        return Err(broken("a remote owes every commit it has not taken"));
    }
    proof { lemma_next(probe.heard(), v); }
    call(probe.mark_pushed(&here, &first.id))?;
    proof { lemma_next(probe.heard(), v); }
    let owed = call(probe.unpushed(&here))?;
    proof {
        if owed@.len() == 1 {
            assert(record_views(owed@)[0] == owed@[0]@);
        }
    }
    if owed.len() != 1 || !owed[0].id.same(&second.id) {
        return Err(broken("a remote that took a commit owes it no more"));
    }
    proof { lemma_next(probe.heard(), v); }
    let elsewhere = call(probe.unpushed(&there))?;
    if elsewhere.len() != 2 {
        return Err(broken("one remote taking a commit says nothing about another"));
    }
    proof { lemma_next(probe.heard(), v); }
    call(probe.mark_pushed(&here, &first.id))?;
    proof { lemma_next(probe.heard(), v); }
    let owed = call(probe.unpushed(&here))?;
    if owed.len() != 1 {
        return Err(broken("marking the same commit pushed twice is idempotent"));
    }
    proof { lemma_next(probe.heard(), v); }
    let retries = call(probe.push_retries(&here))?;
    proof {
        assert(oid_texts(retries@).len() == retries@.len());
    }
    if retries.len() != 0 {
        return Err(broken("a store with no history owes no resend"));
    }
    proof { lemma_next(probe.heard(), v); }
    let mut set: Vec<Oid> = Vec::new();
    set.push(sample_oid(1));
    set.push(sample_oid(2));
    call(probe.set_push_retries(&here, &set))?;
    proof { lemma_next(probe.heard(), v); }
    let retries = call(probe.push_retries(&here))?;
    proof {
        assert(oid_texts(set@) =~= seq![hex_of(uniform(1)), hex_of(uniform(2))]);
    }
    if !oids_eq(&retries, &set) {
        return Err(broken("the retry set reads back as set"));
    }
    proof { lemma_next(probe.heard(), v); }
    let mut replaced: Vec<Oid> = Vec::new();
    replaced.push(sample_oid(3));
    call(probe.set_push_retries(&here, &replaced))?;
    proof { lemma_next(probe.heard(), v); }
    let retries = call(probe.push_retries(&here))?;
    proof {
        assert(oid_texts(replaced@) =~= seq![hex_of(uniform(3))]);
    }
    if !oids_eq(&retries, &replaced) {
        return Err(broken("the retry set is replaced, not added to"));
    }
    proof { lemma_next(probe.heard(), v); }
    let theirs = call(probe.push_retries(&there))?;
    proof {
        assert(oid_texts(theirs@).len() == theirs@.len());
    }
    if theirs.len() != 0 {
        return Err(broken("one remote's retry set says nothing about another"));
    }
    proof { lemma_next(probe.heard(), v); }
    let nothing: Vec<Oid> = Vec::new();
    call(probe.set_push_retries(&here, &nothing))?;
    proof { lemma_next(probe.heard(), v); }
    let retries = call(probe.push_retries(&here))?;
    proof {
        assert(oid_texts(retries@).len() == retries@.len());
    }
    if retries.len() != 0 {
        return Err(broken("an empty retry set empties it"));
    }
    proof { lemma_next(probe.heard(), v); }
    Ok(())
}

/// Whether `o` is the text `t`.
fn is_text(o: &Option<String>, t: &str) -> (r: bool)
    ensures
        r == (opt_text(*o) == Some(t@)),
{
    opt_text_eq(o, &Some(String::from_str(t)))
}

/// The law the remote-tracking suite holds the last of `p` to, and whether
/// it broke it.
pub open spec fn remote_verdict(p: Seq<Answer>) -> Option<Seq<char>> {
    let j = p.len() - 1;
    let a = p.last();
    let none = Answer::Text(None);
    if j == 0 {
        law(a == none, "an oid no remote knows has no remote id"@)
    } else if j == 1 {
        law(a == none, "a remote id nothing maps to has no oid"@)
    } else if j == 3 {
        law(a == Answer::Text(Some("r1"@)), "a mapped oid reads back its remote id"@)
    } else if j == 4 {
        law(a == Answer::Text(Some(hex_of(uniform(1)))), "a mapped remote id reads back its oid"@)
    } else if j == 5 {
        law(a == none, "a mapping belongs to one remote"@)
    } else if j == 7 {
        law(a == Answer::Text(Some("r2"@)), "remapping an oid replaces its id"@)
    } else if j == 9 {
        law(
            a == Answer::Object(Some(sample_task_view(hex_of(uniform(1)), "as the remote has it"@, Seq::empty()))),
            "a snapshot reads back"@,
        )
    } else if j == 10 {
        law(a == Answer::Object(None), "a snapshot belongs to one remote"@)
    } else if j == 13 {
        law(a == none, "clearing a mapping drops its remote id"@)
    } else if j == 14 {
        law(a == Answer::Object(None), "clearing a mapping drops its snapshot"@)
    } else if j == 15 {
        law(a == Answer::Text(Some("t1"@)), "clearing one remote's mapping leaves the other's standing"@)
    } else if j == 16 {
        law(a == none, "a remote never synced has no token"@)
    } else if j == 18 {
        law(a == Answer::Text(Some("cursor"@)), "a sync token reads back"@)
    } else if j == 19 {
        law(a == none, "a sync token belongs to one remote"@)
    } else if j == 21 {
        law(a == none, "setting no token clears the one held"@)
    } else if j == 22 {
        law(a == Answer::Time(None), "a remote never pulled has no last pull"@)
    } else if j == 24 {
        law(a == Answer::Time(Some(Timestamp { seconds: 0, nanos: 0 })), "the time of a pull reads back"@)
    } else if j == 25 {
        law(a == Answer::Time(None), "the time of a pull belongs to one remote"@)
    } else if j == 26 {
        law(a == Answer::Time(None), "a remote never pushed to has no last push"@)
    } else if j == 28 {
        law(a == Answer::Time(Some(Timestamp { seconds: 60, nanos: 0 })), "the time of a push reads back"@)
    } else if j == 29 {
        law(a == Answer::Time(None), "the time of a push belongs to one remote"@)
    } else if j == 30 {
        law(a == Answer::Time(Some(Timestamp { seconds: 0, nanos: 0 })), "the two times are kept apart"@)
    } else {
        None
    }
}

/// Remote ids map both ways, snapshots and sync state are per remote, and
/// clearing one mapping leaves every other remote untouched. Run on a store
/// that tracks no remote yet, it checks each answer against the law it
/// owes: it passes exactly when every answer came back and kept its law,
/// and otherwise reports the first answer that failed or broke its law.
#[verifier::rlimit(100)]
pub fn remote_tracking_repository_contract<S: RemoteTrackingRepository>(probe: &mut Probe<S>) -> (r: Result<(), SuiteError>)
    requires
        old(probe).heard().len() == 0,
    ensures
        suite_ran(final(probe).heard(), 31, |p: Seq<Answer>| remote_verdict(p), r),
{
    let ghost v = |p: Seq<Answer>| remote_verdict(p);
    proof {
        reveal_strlit("here");
        reveal_strlit("there");
        lemma_heard_any(probe.heard(), v);
    }
    let here = RemoteName(String::from_str("here"));
    let there = RemoteName(String::from_str("there"));
    let o1 = sample_oid(1);
    let id = call(probe.remote_id(&here, &o1))?;
    if id.is_some() {
        return Err(broken("an oid no remote knows has no remote id"));
    }
    proof { lemma_next(probe.heard(), v); }
    let back = call(probe.oid_for_remote_id(&here, "r1"))?;
    if back.is_some() {
        return Err(broken("a remote id nothing maps to has no oid"));
    }
    proof { lemma_next(probe.heard(), v); }
    call(probe.map_remote_id(&here, &o1, "r1"))?;
    proof { lemma_next(probe.heard(), v); }
    let id = call(probe.remote_id(&here, &o1))?;
    if !is_text(&id, "r1") {
        return Err(broken("a mapped oid reads back its remote id"));
    }
    proof { lemma_next(probe.heard(), v); }
    let back = call(probe.oid_for_remote_id(&here, "r1"))?;
    let found = match &back {
        Some(o) => o.same(&o1),
        None => false,
    };
    if !found {
        return Err(broken("a mapped remote id reads back its oid"));
    }
    proof { lemma_next(probe.heard(), v); }
    let theirs = call(probe.remote_id(&there, &o1))?;
    if theirs.is_some() {
        return Err(broken("a mapping belongs to one remote"));
    }
    proof { lemma_next(probe.heard(), v); }
    call(probe.map_remote_id(&here, &o1, "r2"))?;
    proof { lemma_next(probe.heard(), v); }
    let id = call(probe.remote_id(&here, &o1))?;
    if !is_text(&id, "r2") {
        return Err(broken("remapping an oid replaces its id"));
    }
    proof { lemma_next(probe.heard(), v); }
    let snapshot = sample_task(o1.copy(), "as the remote has it", Path::root());
    call(probe.set_remote_snapshot(&here, &snapshot))?;
    proof { lemma_next(probe.heard(), v); }
    let got = call(probe.remote_snapshot(&here, &o1))?;
    if !same_opt(&got, &Some(snapshot.copy())) {
        return Err(broken("a snapshot reads back"));
    }
    proof { lemma_next(probe.heard(), v); }
    let none = call(probe.remote_snapshot(&there, &o1))?;
    if none.is_some() {
        return Err(broken("a snapshot belongs to one remote"));
    }
    proof { lemma_next(probe.heard(), v); }
    call(probe.map_remote_id(&there, &o1, "t1"))?;
    proof { lemma_next(probe.heard(), v); }
    call(probe.clear_remote_mapping(&here, &o1))?;
    proof { lemma_next(probe.heard(), v); }
    let id = call(probe.remote_id(&here, &o1))?;
    if id.is_some() {
        return Err(broken("clearing a mapping drops its remote id"));
    }
    proof { lemma_next(probe.heard(), v); }
    let got = call(probe.remote_snapshot(&here, &o1))?;
    if got.is_some() {
        return Err(broken("clearing a mapping drops its snapshot"));
    }
    proof { lemma_next(probe.heard(), v); }
    let kept = call(probe.remote_id(&there, &o1))?;
    if !is_text(&kept, "t1") {
        return Err(broken("clearing one remote's mapping leaves the other's standing"));
    }
    proof { lemma_next(probe.heard(), v); }
    let token = call(probe.sync_token(&here))?;
    if token.is_some() {
        return Err(broken("a remote never synced has no token"));
    }
    proof { lemma_next(probe.heard(), v); }
    call(probe.set_sync_token(&here, Some("cursor")))?;
    proof { lemma_next(probe.heard(), v); }
    let token = call(probe.sync_token(&here))?;
    if !is_text(&token, "cursor") {
        return Err(broken("a sync token reads back"));
    }
    proof { lemma_next(probe.heard(), v); }
    let other = call(probe.sync_token(&there))?;
    if other.is_some() {
        return Err(broken("a sync token belongs to one remote"));
    }
    proof { lemma_next(probe.heard(), v); }
    call(probe.set_sync_token(&here, None))?;
    proof { lemma_next(probe.heard(), v); }
    let token = call(probe.sync_token(&here))?;
    if token.is_some() {
        return Err(broken("setting no token clears the one held"));
    }
    proof { lemma_next(probe.heard(), v); }
    let last = call(probe.last_pull(&here))?;
    if last.is_some() {
        return Err(broken("a remote never pulled has no last pull"));
    }
    proof { lemma_next(probe.heard(), v); }
    let at = Timestamp { seconds: 0, nanos: 0 };
    call(probe.set_last_pull(&here, at))?;
    proof { lemma_next(probe.heard(), v); }
    let last = call(probe.last_pull(&here))?;
    if last != Some(at) {
        return Err(broken("the time of a pull reads back"));
    }
    proof { lemma_next(probe.heard(), v); }
    let other = call(probe.last_pull(&there))?;
    if other.is_some() {
        return Err(broken("the time of a pull belongs to one remote"));
    }
    proof { lemma_next(probe.heard(), v); }
    let pushed = call(probe.last_push(&here))?;
    if pushed.is_some() {
        return Err(broken("a remote never pushed to has no last push"));
    }
    proof { lemma_next(probe.heard(), v); }
    let pushed_at = Timestamp { seconds: 60, nanos: 0 };
    call(probe.set_last_push(&here, pushed_at))?;
    proof { lemma_next(probe.heard(), v); }
    let pushed = call(probe.last_push(&here))?;
    if pushed != Some(pushed_at) {
        return Err(broken("the time of a push reads back"));
    }
    proof { lemma_next(probe.heard(), v); }
    let other = call(probe.last_push(&there))?;
    if other.is_some() {
        return Err(broken("the time of a push belongs to one remote"));
    }
    proof { lemma_next(probe.heard(), v); }
    let last = call(probe.last_pull(&here))?;
    if last != Some(at) {
        return Err(broken("the two times are kept apart"));
    }
    proof { lemma_next(probe.heard(), v); }
    Ok(())
}

/// The law the conflict suite holds the last of `p` to, and whether it
/// broke it.
pub open spec fn conflict_verdict(p: Seq<Answer>) -> Option<Seq<char>> {
    let j = p.len() - 1;
    let a = p.last();
    let o1 = hex_of(uniform(1));
    if j == 0 || j == 7 {
        law(
            a matches Answer::Conflicts(v) && v.len() == 0,
            if j == 0 {
                "a store with no conflict lists none"@
            } else {
                "a cleared conflict is listed no more"@
            },
        )
    } else if j == 3 {
        if !(a matches Answer::Conflicts(v) && v.len() == 1) {
            Some("a marked conflict is listed once"@)
        } else if !(a matches Answer::Conflicts(v) && v[0].oid == o1 && v[0].remote == "here"@) {
            Some("a conflict names its oid and remote"@)
        } else {
            law(
                a matches Answer::Conflicts(v) && v[0].ours == sample_task_view(o1, "ours"@, Seq::empty())
                    && v[0].theirs == sample_task_view(o1, "theirs"@, Seq::empty()),
                "a conflict carries both sides"@,
            )
        }
    } else if j == 5 {
        if !(a matches Answer::Conflicts(v) && v.len() == 1) {
            Some("one oid conflicts once"@)
        } else {
            law(
                a matches Answer::Conflicts(v) && v[0].theirs == sample_task_view(o1, "theirs again"@, Seq::empty()),
                "a later conflict replaces the earlier one"@,
            )
        }
    } else {
        None
    }
}

/// A conflict carries both sides, replaces an earlier one for the same
/// oid, and clears on demand. Run on a store with no conflict, it checks
/// each answer against the law it owes: it passes exactly when every answer
/// came back and kept its law, and otherwise reports the first answer that
/// failed or broke its law.
pub fn conflict_repository_contract<S: ObjectRepository + ConflictRepository>(probe: &mut Probe<S>) -> (r: Result<(), SuiteError>)
    requires
        old(probe).heard().len() == 0,
    ensures
        suite_ran(final(probe).heard(), 9, |p: Seq<Answer>| conflict_verdict(p), r),
{
    let ghost v = |p: Seq<Answer>| conflict_verdict(p);
    proof {
        reveal_strlit("here");
        lemma_heard_any(probe.heard(), v);
    }
    let here = RemoteName(String::from_str("here"));
    let o1 = sample_oid(1);
    let none = call(probe.conflicts())?;
    if none.len() != 0 {
        return Err(broken("a store with no conflict lists none"));
    }
    proof { lemma_next(probe.heard(), v); }
    let ours = sample_task(o1.copy(), "ours", Path::root());
    call(probe.put(&ours))?;
    proof { lemma_next(probe.heard(), v); }
    let theirs = sample_task(o1.copy(), "theirs", Path::root());
    call(probe.mark_conflict(&here, &o1, &theirs))?;
    proof { lemma_next(probe.heard(), v); }
    let held = call(probe.conflicts())?;
    if held.len() != 1 {
        return Err(broken("a marked conflict is listed once"));
    }
    proof {
        assert(conflict_views(held@)[0] == held@[0]@);
    }
    if !held[0].oid.same(&o1) || held[0].remote != here {
        return Err(broken("a conflict names its oid and remote"));
    }
    if !held[0].ours.same(&ours) || !held[0].theirs.same(&theirs) {
        return Err(broken("a conflict carries both sides"));
    }
    proof { lemma_next(probe.heard(), v); }
    let later = sample_task(o1.copy(), "theirs again", Path::root());
    call(probe.mark_conflict(&here, &o1, &later))?;
    proof { lemma_next(probe.heard(), v); }
    let held = call(probe.conflicts())?;
    if held.len() != 1 {
        return Err(broken("one oid conflicts once"));
    }
    proof {
        assert(conflict_views(held@)[0] == held@[0]@);
    }
    if !held[0].theirs.same(&later) {
        return Err(broken("a later conflict replaces the earlier one"));
    }
    proof { lemma_next(probe.heard(), v); }
    call(probe.clear_conflict(&o1))?;
    proof { lemma_next(probe.heard(), v); }
    let none = call(probe.conflicts())?;
    if none.len() != 0 {
        return Err(broken("a cleared conflict is listed no more"));
    }
    proof { lemma_next(probe.heard(), v); }
    call(probe.clear_conflict(&o1))?;
    proof { lemma_next(probe.heard(), v); }
    Ok(())
}

/// The notices the notice suite records, the first twice.
pub open spec fn first_notice() -> NoticeView {
    NoticeView::PullFailed { remote: "here"@, why: "first"@ }
}

/// The second notice the notice suite records.
pub open spec fn second_notice() -> NoticeView {
    NoticeView::EventCancelled { oid: hex_of(uniform(2)), subject: "standup"@, attached: 3 }
}

/// The law the notice suite holds the last of `p` to, and whether it broke
/// it.
pub open spec fn notice_verdict(p: Seq<Answer>) -> Option<Seq<char>> {
    let j = p.len() - 1;
    let a = p.last();
    if j == 0 {
        if a matches Answer::Notices(v) && v.len() == 0 { None } else { Some("a store with no notice lists none"@) }
    } else if j == 4 {
        if a matches Answer::Notices(v) && v == seq![first_notice(), second_notice(), first_notice()] {
            None
        } else {
            Some("notices keep the order they were recorded in, repeats included"@)
        }
    } else if j == 6 {
        if a matches Answer::Notices(v) && v.len() == 0 { None } else { Some("clearing notices clears them all"@) }
    } else {
        None
    }
}

/// Notices are a log: they keep insertion order, repeat when repeated,
/// and clear all at once. Run on a store with no notice, it checks each
/// answer against the law it owes: it passes exactly when every answer
/// came back and kept its law, and otherwise reports the first answer that
/// failed or broke its law.
pub fn notice_repository_contract<S: NoticeRepository>(probe: &mut Probe<S>) -> (r: Result<(), SuiteError>)
    requires
        old(probe).heard().len() == 0,
    ensures
        suite_ran(final(probe).heard(), 8, |p: Seq<Answer>| notice_verdict(p), r),
{
    let ghost v = |p: Seq<Answer>| notice_verdict(p);
    proof {
        reveal_strlit("here");
        reveal_strlit("first");
        reveal_strlit("standup");
        lemma_heard_any(probe.heard(), v);
    }
    let none = call(probe.notices())?;
    if none.len() != 0 {
        return Err(broken("a store with no notice lists none"));
    }
    proof {
        lemma_heard_kept(probe.heard(), v);
        lemma_heard_any(probe.heard(), v);
    }
    let first = Notice::PullFailed { remote: RemoteName(String::from_str("here")), why: String::from_str("first") };
    let second = Notice::EventCancelled { oid: sample_oid(2), subject: String::from_str("standup"), attached: 3 };
    call(probe.add_notice(&first))?;
    proof {
        lemma_heard_kept(probe.heard(), v);
        lemma_heard_any(probe.heard(), v);
    }
    call(probe.add_notice(&second))?;
    proof {
        lemma_heard_kept(probe.heard(), v);
        lemma_heard_any(probe.heard(), v);
    }
    call(probe.add_notice(&first))?;
    proof {
        lemma_heard_kept(probe.heard(), v);
        lemma_heard_any(probe.heard(), v);
    }
    let all = call(probe.notices())?;
    proof {
        assert(notice_views(all@).len() == all@.len());
        if all@.len() == 3 {
            assert(notice_views(all@)[0] == all@[0]@);
            assert(notice_views(all@)[1] == all@[1]@);
            assert(notice_views(all@)[2] == all@[2]@);
        }
    }
    if all.len() != 3 || !all[0].same(&first) || !all[1].same(&second) || !all[2].same(&first) {
        proof {
            if notice_views(all@) == seq![first_notice(), second_notice(), first_notice()] {
                assert(notice_views(all@)[0] == all@[0]@);
                assert(notice_views(all@)[1] == all@[1]@);
                assert(notice_views(all@)[2] == all@[2]@);
            }
        }
        return Err(broken("notices keep the order they were recorded in, repeats included"));
    }
    proof {
        assert(notice_views(all@) =~= seq![first_notice(), second_notice(), first_notice()]);
        lemma_heard_kept(probe.heard(), v);
        lemma_heard_any(probe.heard(), v);
    }
    call(probe.clear_notices())?;
    proof {
        lemma_heard_kept(probe.heard(), v);
        lemma_heard_any(probe.heard(), v);
    }
    let none = call(probe.notices())?;
    if none.len() != 0 {
        return Err(broken("clearing notices clears them all"));
    }
    proof {
        lemma_heard_kept(probe.heard(), v);
        lemma_heard_any(probe.heard(), v);
    }
    call(probe.clear_notices())?;
    proof {
        lemma_heard_kept(probe.heard(), v);
    }
    Ok(())
}

/// The law the unit-of-work suite holds the last of `p` to, and whether it
/// broke it.
pub open spec fn transaction_verdict(p: Seq<Answer>) -> Option<Seq<char>> {
    let j = p.len() - 1;
    let a = p.last();
    if j == 4 {
        law(a matches Answer::Object(Some(_)), "work that succeeds lands"@)
    } else if j == 5 {
        law(a matches Answer::Changes(v) && v.len() == 1, "work that succeeds lands in every record family"@)
    } else if j == 10 {
        law(a == Answer::Object(None), "a write made before the failure is rolled back"@)
    } else if j == 11 {
        law(
            a matches Answer::Changes(v) && v.len() == 1,
            "and so is a write to another record family in the same unit"@,
        )
    } else {
        None
    }
}

/// A unit of work lands whole or not at all, across record families. Run
/// on a store with nothing in its working layer and nothing staged, it
/// checks each answer against the law it owes: it passes exactly when every
/// answer came back and kept its law, and otherwise reports the first
/// answer that failed or broke its law. It leaves open no unit it began.
pub fn transactional_contract<S: ObjectRepository + StageRepository + Transactional>(probe: &mut Probe<S>) -> (r: Result<(), SuiteError>)
    requires
        old(probe).heard().len() == 0,
    ensures
        suite_ran(final(probe).heard(), 12, |p: Seq<Answer>| transaction_verdict(p), r),
        !old(probe).unit_open() ==> !final(probe).unit_open(),
{
    let ghost v = |p: Seq<Answer>| transaction_verdict(p);
    proof {
        lemma_heard_any(probe.heard(), v);
    }
    let o1 = sample_oid(1);
    let o2 = sample_oid(2);
    let kept = sample_task(o1.copy(), "kept", Path::root());
    call(probe.begin())?;
    proof { lemma_next(probe.heard(), v); }
    match probe.put(&kept) {
        Ok(()) => {},
        Err(e) => {
            proof { lemma_heard_more(probe.heard(), probe.heard().len() - 1, v); }
            probe.abandon();
            return Err(SuiteError::Store(e));
        },
    }
    proof { lemma_next(probe.heard(), v); }
    match probe.stage(Change { oid: o1.copy(), op: Op::Create, before: None, after: Some(kept.copy()) }) {
        Ok(()) => {},
        Err(e) => {
            proof { lemma_heard_more(probe.heard(), probe.heard().len() - 1, v); }
            probe.abandon();
            return Err(SuiteError::Store(e));
        },
    }
    proof { lemma_next(probe.heard(), v); }
    call(probe.finish())?;
    proof { lemma_next(probe.heard(), v); }
    let got = call(probe.get(&o1))?;
    if got.is_none() {
        return Err(broken("work that succeeds lands"));
    }
    proof { lemma_next(probe.heard(), v); }
    let staged = call(probe.staged())?;
    if staged.len() != 1 {
        return Err(broken("work that succeeds lands in every record family"));
    }
    proof { lemma_next(probe.heard(), v); }
    call(probe.begin())?;
    proof { lemma_next(probe.heard(), v); }
    let discarded = sample_task(o2.copy(), "discarded", Path::root());
    match probe.put(&discarded) {
        Ok(()) => {},
        Err(e) => {
            proof { lemma_heard_more(probe.heard(), probe.heard().len() - 1, v); }
            probe.abandon();
            return Err(SuiteError::Store(e));
        },
    }
    proof { lemma_next(probe.heard(), v); }
    match probe.unstage_all() {
        Ok(()) => {},
        Err(e) => {
            proof { lemma_heard_more(probe.heard(), probe.heard().len() - 1, v); }
            probe.abandon();
            return Err(SuiteError::Store(e));
        },
    }
    proof { lemma_next(probe.heard(), v); }
    probe.abandon();
    proof { lemma_next(probe.heard(), v); }
    let gone = call(probe.get(&o2))?;
    if gone.is_some() {
        return Err(broken("a write made before the failure is rolled back"));
    }
    proof { lemma_next(probe.heard(), v); }
    let staged = call(probe.staged())?;
    if staged.len() != 1 {
        return Err(broken("and so is a write to another record family in the same unit"));
    }
    proof { lemma_next(probe.heard(), v); }
    Ok(())
}

} // verus!
