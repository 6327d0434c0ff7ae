//! The durable store, one port per record family, and the unit of work that
//! spans them. Every family reads and writes one shared model, `StoreModel`,
//! and each method states what it reads of it and how it changes it.

use vstd::prelude::*;

use crate::domain::{
    Change, ChangeView, CommitId, CommitRecord, CommitRecordView, Kind, Object, ObjectView, Oid,
    Path, Timestamp, coalesce_spec, oid_texts, opt_object, opt_text, parent_text,
};

verus! {

/// The name a remote is configured under.
#[derive(Debug)]
pub struct RemoteName(pub String);

impl View for RemoteName {
    type V = Seq<char>;

    open spec fn view(&self) -> Seq<char> {
        self.0@
    }
}

impl RemoteName {
    pub fn copy(&self) -> (r: RemoteName)
        ensures
            r@ == self@,
    {
        RemoteName(self.0.clone())
    }
}

impl Clone for RemoteName {
    fn clone(&self) -> (r: RemoteName)
        ensures
            r@ == self@,
    {
        self.copy()
    }
}

impl PartialEq for RemoteName {
    fn eq(&self, other: &RemoteName) -> (r: bool) {
        self.0 == other.0
    }
}

impl vstd::std_specs::cmp::PartialEqSpecImpl for RemoteName {
    open spec fn obeys_eq_spec() -> bool {
        true
    }

    open spec fn eq_spec(&self, other: &RemoteName) -> bool {
        self@ == other@
    }
}

impl Eq for RemoteName {
}

#[derive(Debug, PartialEq, Eq)]
pub enum StoreError {
    /// Another writer holds the store. The work did not happen and retrying
    /// it later is the right answer.
    Busy(String),
    /// Anything else the store refused: a corrupt row, a full disk, a value
    /// that does not decode. Retrying changes nothing.
    Failed(String),
}

impl StoreError {
    /// Why the store refused, whichever way it did.
    pub fn why(&self) -> (r: &str)
        ensures
            r@ == match self {
                StoreError::Busy(w) => w@,
                StoreError::Failed(w) => w@,
            },
    {
        match self {
            StoreError::Busy(why) => why.as_str(),
            StoreError::Failed(why) => why.as_str(),
        }
    }
}

/// An object a pull could not merge: both sides, held until settled.
#[derive(Debug, PartialEq, Eq)]
pub struct Conflict {
    pub remote: RemoteName,
    pub oid: Oid,
    pub ours: Object,
    pub theirs: Object,
}

pub struct ConflictView {
    pub remote: Seq<char>,
    pub oid: Seq<char>,
    pub ours: ObjectView,
    pub theirs: ObjectView,
}

impl View for Conflict {
    type V = ConflictView;

    open spec fn view(&self) -> ConflictView {
        ConflictView { remote: self.remote@, oid: self.oid@, ours: self.ours@, theirs: self.theirs@ }
    }
}

pub open spec fn conflict_views(v: Seq<Conflict>) -> Seq<ConflictView> {
    v.map_values(|c: Conflict| c@)
}

/// Something upstream did that dam reports and never acts on by itself.
#[derive(Debug, PartialEq, Eq)]
pub enum Notice {
    RemovedUpstream { remote: RemoteName, oid: Oid, subject: String },
    EventCancelled { oid: Oid, subject: String, attached: usize },
    PushFailed { remote: RemoteName, oid: Oid, why: String },
    PullFailed { remote: RemoteName, why: String },
    /// Upstream changed an object's kind; ours is kept as it is.
    KindChanged { oid: Oid, ours: Kind, theirs: Kind },
}

pub enum NoticeView {
    RemovedUpstream { remote: Seq<char>, oid: Seq<char>, subject: Seq<char> },
    EventCancelled { oid: Seq<char>, subject: Seq<char>, attached: usize },
    PushFailed { remote: Seq<char>, oid: Seq<char>, why: Seq<char> },
    PullFailed { remote: Seq<char>, why: Seq<char> },
    KindChanged { oid: Seq<char>, ours: Kind, theirs: Kind },
}

impl View for Notice {
    type V = NoticeView;

    open spec fn view(&self) -> NoticeView {
        match self {
            Notice::RemovedUpstream { remote, oid, subject } => NoticeView::RemovedUpstream {
                remote: remote@,
                oid: oid@,
                subject: subject@,
            },
            Notice::EventCancelled { oid, subject, attached } => NoticeView::EventCancelled {
                oid: oid@,
                subject: subject@,
                attached: *attached,
            },
            Notice::PushFailed { remote, oid, why } => NoticeView::PushFailed {
                remote: remote@,
                oid: oid@,
                why: why@,
            },
            Notice::PullFailed { remote, why } => NoticeView::PullFailed { remote: remote@, why: why@ },
            Notice::KindChanged { oid, ours, theirs } => NoticeView::KindChanged {
                oid: oid@,
                ours: *ours,
                theirs: *theirs,
            },
        }
    }
}

pub open spec fn notice_views(v: Seq<Notice>) -> Seq<NoticeView> {
    v.map_values(|n: Notice| n@)
}

impl Notice {
    pub fn same(&self, other: &Notice) -> (r: bool)
        ensures
            r == (self@ == other@),
    {
        match (self, other) {
            (
                Notice::RemovedUpstream { remote: a, oid: b, subject: c },
                Notice::RemovedUpstream { remote: x, oid: y, subject: z },
            ) => a.0 == x.0 && b.same(y) && *c == *z,
            (
                Notice::EventCancelled { oid: a, subject: b, attached: c },
                Notice::EventCancelled { oid: x, subject: y, attached: z },
            ) => a.same(x) && *b == *y && *c == *z,
            (
                Notice::PushFailed { remote: a, oid: b, why: c },
                Notice::PushFailed { remote: x, oid: y, why: z },
            ) => a.0 == x.0 && b.same(y) && *c == *z,
            (Notice::PullFailed { remote: a, why: b }, Notice::PullFailed { remote: x, why: y }) => a.0
                == x.0 && *b == *y,
            (
                Notice::KindChanged { oid: a, ours: b, theirs: c },
                Notice::KindChanged { oid: x, ours: y, theirs: z },
            ) => a.same(x) && *b == *y && *c == *z,
            _ => false,
        }
    }
}

/// Everything a store holds, as values.
pub struct StoreData {
    /// Every object as it stands right now, by oid.
    pub working: Map<Seq<char>, ObjectView>,
    /// The last commit's view of each object, by oid.
    pub committed: Map<Seq<char>, ObjectView>,
    /// At most one change per oid, waiting for a commit.
    pub staged: Map<Seq<char>, ChangeView>,
    /// Every commit, oldest first.
    pub commits: Seq<CommitRecordView>,
    /// The ids of the commits each remote has taken.
    pub pushed: Map<Seq<char>, Set<Seq<char>>>,
    /// The id each remote knows each oid by, keyed by (remote, oid).
    pub remote_ids: Map<(Seq<char>, Seq<char>), Seq<char>>,
    /// What each remote last sent of each oid, keyed by (remote, oid).
    pub snapshots: Map<(Seq<char>, Seq<char>), ObjectView>,
    /// Where each remote's incremental sync stands.
    pub sync: Map<Seq<char>, Seq<char>>,
    /// Objects a pull could not merge, by oid.
    pub conflicts: Map<Seq<char>, ConflictView>,
    /// Things upstream did, in the order they were recorded.
    pub notices: Seq<NoticeView>,
    /// The oids each remote is owed a resend of.
    pub retries: Map<Seq<char>, Seq<Seq<char>>>,
    pub last_pulls: Map<Seq<char>, Timestamp>,
    pub last_pushes: Map<Seq<char>, Timestamp>,
}

/// A store's contents, and the contents it had when the unit of work that
/// is open now began.
pub struct StoreModel {
    pub data: StoreData,
    pub unit: Option<StoreData>,
}

/// `v` lists exactly the objects of `m`, each once.
pub open spec fn lists_objects(v: Seq<ObjectView>, m: Map<Seq<char>, ObjectView>) -> bool {
    &&& forall|i: int| 0 <= i < v.len() ==> m.contains_key(#[trigger] v[i].oid()) && m[v[i].oid()] == v[i]
    &&& forall|i: int, j: int| 0 <= i < j < v.len() ==> v[i].oid() != v[j].oid()
    &&& forall|k: Seq<char>| m.contains_key(k) ==> exists|i: int| 0 <= i < v.len() && #[trigger] v[i].oid() == k
}

/// `v` lists exactly the oids of `s`, each once.
pub open spec fn lists_oids(v: Seq<Seq<char>>, s: Set<Seq<char>>) -> bool {
    &&& v.no_duplicates()
    &&& forall|k: Seq<char>| s.contains(k) <==> v.contains(k)
}

/// `v` lists exactly the changes of `m`, each once.
pub open spec fn lists_changes(v: Seq<ChangeView>, m: Map<Seq<char>, ChangeView>) -> bool {
    &&& forall|i: int| 0 <= i < v.len() ==> m.contains_key(#[trigger] v[i].oid) && m[v[i].oid] == v[i]
    &&& forall|i: int, j: int| 0 <= i < j < v.len() ==> v[i].oid != v[j].oid
    &&& forall|k: Seq<char>| m.contains_key(k) ==> exists|i: int| 0 <= i < v.len() && #[trigger] v[i].oid == k
}

/// `v` lists exactly the conflicts of `m`, each once.
pub open spec fn lists_conflicts(v: Seq<ConflictView>, m: Map<Seq<char>, ConflictView>) -> bool {
    &&& forall|i: int| 0 <= i < v.len() ==> m.contains_key(#[trigger] v[i].oid) && m[v[i].oid] == v[i]
    &&& forall|i: int, j: int| 0 <= i < j < v.len() ==> v[i].oid != v[j].oid
    &&& forall|k: Seq<char>| m.contains_key(k) ==> exists|i: int| 0 <= i < v.len() && #[trigger] v[i].oid == k
}

/// The objects as values.
pub open spec fn object_views(v: Seq<Object>) -> Seq<ObjectView> {
    v.map_values(|o: Object| o@)
}

/// What each change of a commit does to the committed view and the stage.
#[verifier::opaque]
pub open spec fn apply_changes(
    committed: Map<Seq<char>, ObjectView>,
    staged: Map<Seq<char>, ChangeView>,
    changes: Seq<ChangeView>,
) -> (Map<Seq<char>, ObjectView>, Map<Seq<char>, ChangeView>)
    decreases changes.len(),
{
    if changes.len() == 0 {
        (committed, staged)
    } else {
        let c = changes[0];
        let committed2 = match c.after {
            Some(a) => committed.insert(c.oid, a),
            None => committed.remove(c.oid),
        };
        apply_changes(committed2, staged.remove(c.oid), changes.drop_first())
    }
}

impl StoreData {
    /// Every record keyed by an oid is that oid's.
    pub open spec fn wf(self) -> bool {
        &&& self.working.dom().finite()
        &&& self.committed.dom().finite()
        &&& self.staged.dom().finite()
        &&& self.conflicts.dom().finite()
        &&& forall|k: Seq<char>| #[trigger] self.working.contains_key(k) ==> self.working[k].oid() == k
        &&& forall|k: Seq<char>| #[trigger] self.committed.contains_key(k) ==> self.committed[k].oid() == k
        &&& forall|k: Seq<char>| #[trigger] self.staged.contains_key(k) ==> self.staged[k].oid == k
        &&& forall|k: Seq<char>| #[trigger] self.conflicts.contains_key(k) ==> self.conflicts[k].oid == k
        &&& forall|k: (Seq<char>, Seq<char>)| #[trigger] self.snapshots.contains_key(k) ==> self.snapshots[k].oid() == k.1
    }

    /// The commit ids a remote has taken.
    pub open spec fn pushed_to(self, remote: Seq<char>) -> Set<Seq<char>> {
        match self.pushed.get(remote) {
            Some(s) => s,
            None => Set::empty(),
        }
    }

    /// The oids a remote is owed a resend of.
    pub open spec fn retries_of(self, remote: Seq<char>) -> Seq<Seq<char>> {
        match self.retries.get(remote) {
            Some(s) => s,
            None => Seq::empty(),
        }
    }

    /// Every commit a remote has not taken, oldest first.
    pub open spec fn unpushed(self, remote: Seq<char>) -> Seq<CommitRecordView> {
        self.commits.filter(|c: CommitRecordView| !self.pushed_to(remote).contains(c.id))
    }

    /// The working objects whose parent is `path`.
    pub open spec fn children_of(self, path: Seq<char>) -> Map<Seq<char>, ObjectView> {
        self.working.restrict(
            self.working.dom().filter(|k: Seq<char>| parent_text(self.working[k].base().path) == Some(path)),
        )
    }

    /// The working objects that depend on `oid`.
    pub open spec fn dependents_of(self, oid: Seq<char>) -> Set<Seq<char>> {
        self.working.dom().filter(|k: Seq<char>| self.working[k].base().depends.contains(oid))
    }

    /// The stage after `change` is staged on top of whatever it held.
    pub open spec fn staged_with(self, change: ChangeView) -> Map<Seq<char>, ChangeView> {
        match self.staged.get(change.oid) {
            Some(prev) => match coalesce_spec(prev, change) {
                Some(c) => self.staged.insert(change.oid, c),
                None => self.staged.remove(change.oid),
            },
            None => self.staged.insert(change.oid, change),
        }
    }

    /// The store after `record` is committed.
    pub open spec fn committed_with(self, record: CommitRecordView) -> StoreData {
        let (committed, staged) = apply_changes(self.committed, self.staged, record.changes);
        StoreData { committed, staged, commits: self.commits.push(record), ..self }
    }
}

impl StoreModel {
    /// The same unit of work, with new contents.
    pub open spec fn with(self, data: StoreData) -> StoreModel {
        StoreModel { data, unit: self.unit }
    }
}

/// A store whose contents are described by a `StoreModel`.
pub trait Modeled {
    spec fn model(&self) -> StoreModel;

    /// Whether every call this store answers succeeds. A store that can
    /// refuse (a full disk, another writer) is not reliable; one that keeps
    /// everything in memory is.
    spec fn reliable(&self) -> bool;

    /// The model is well formed: every record sits under its own oid.
    proof fn lemma_model_wf(&self)
        ensures
            self.model().data.wf(),
    ;
}

/// The working layer: every object as it stands right now, plus the last
/// commit's view of one object for diffing working against committed.
pub trait ObjectRepository: Modeled {
    fn get(&self, oid: &Oid) -> (r: Result<Option<Object>, StoreError>)
        ensures
            self.reliable() ==> r is Ok,
            r matches Ok(o) ==> opt_object(o) == self.model().data.working.get(oid@),
    ;

    fn all(&self) -> (r: Result<Vec<Object>, StoreError>)
        ensures
            self.reliable() ==> r is Ok,
            r matches Ok(v) ==> lists_objects(object_views(v@), self.model().data.working),
    ;

    fn children_of(&self, path: &Path) -> (r: Result<Vec<Object>, StoreError>)
        ensures
            self.reliable() ==> r is Ok,
            r matches Ok(v) ==> lists_objects(object_views(v@), self.model().data.children_of(path@)),
    ;

    fn dependents_of(&self, oid: &Oid) -> (r: Result<Vec<Oid>, StoreError>)
        ensures
            self.reliable() ==> r is Ok,
            r matches Ok(v) ==> lists_oids(oid_texts(v@), self.model().data.dependents_of(oid@)),
    ;

    fn put(&mut self, object: &Object) -> (r: Result<(), StoreError>)
        ensures
            old(self).reliable() ==> r is Ok,
            final(self).reliable() == old(self).reliable(),
            final(self).model().unit == old(self).model().unit,
            r is Ok ==> final(self).model() == old(self).model().with(
                StoreData { working: old(self).model().data.working.insert(object@.oid(), object@), ..old(self).model().data },
            ),
    ;

    fn delete(&mut self, oid: &Oid) -> (r: Result<(), StoreError>)
        ensures
            old(self).reliable() ==> r is Ok,
            final(self).reliable() == old(self).reliable(),
            final(self).model().unit == old(self).model().unit,
            r is Ok ==> final(self).model() == old(self).model().with(
                StoreData { working: old(self).model().data.working.remove(oid@), ..old(self).model().data },
            ),
    ;

    fn committed(&self, oid: &Oid) -> (r: Result<Option<Object>, StoreError>)
        ensures
            self.reliable() ==> r is Ok,
            r matches Ok(o) ==> opt_object(o) == self.model().data.committed.get(oid@),
    ;
}

/// The stage: at most one change per oid, waiting for a commit.
pub trait StageRepository: Modeled {
    fn stage(&mut self, change: Change) -> (r: Result<(), StoreError>)
        ensures
            old(self).reliable() ==> r is Ok,
            final(self).reliable() == old(self).reliable(),
            final(self).model().unit == old(self).model().unit,
            r is Ok ==> final(self).model() == old(self).model().with(
                StoreData { staged: old(self).model().data.staged_with(change@), ..old(self).model().data },
            ),
    ;

    fn unstage(&mut self, oid: &Oid) -> (r: Result<(), StoreError>)
        ensures
            old(self).reliable() ==> r is Ok,
            final(self).reliable() == old(self).reliable(),
            final(self).model().unit == old(self).model().unit,
            r is Ok ==> final(self).model() == old(self).model().with(
                StoreData { staged: old(self).model().data.staged.remove(oid@), ..old(self).model().data },
            ),
    ;

    fn unstage_all(&mut self) -> (r: Result<(), StoreError>)
        ensures
            old(self).reliable() ==> r is Ok,
            final(self).reliable() == old(self).reliable(),
            final(self).model().unit == old(self).model().unit,
            r is Ok ==> final(self).model() == old(self).model().with(
                StoreData { staged: Map::empty(), ..old(self).model().data },
            ),
    ;

    fn staged(&self) -> (r: Result<Vec<Change>, StoreError>)
        ensures
            self.reliable() ==> r is Ok,
            r matches Ok(v) ==> lists_changes(
                v@.map_values(|c: Change| c@),
                self.model().data.staged,
            ),
    ;
}

/// The commit history, and which of it each remote has taken.
pub trait CommitRepository: Modeled {
    fn commit(&mut self, record: &CommitRecord) -> (r: Result<(), StoreError>)
        ensures
            old(self).reliable() ==> r is Ok,
            final(self).reliable() == old(self).reliable(),
            final(self).model().unit == old(self).model().unit,
            r is Ok ==> final(self).model() == old(self).model().with(
                old(self).model().data.committed_with(record@),
            ),
    ;

    /// Every commit, newest first.
    fn log(&self) -> (r: Result<Vec<CommitRecord>, StoreError>)
        ensures
            self.reliable() ==> r is Ok,
            r matches Ok(v) ==> v@.map_values(|c: CommitRecord| c@) == self.model().data.commits.reverse(),
    ;

    /// The commits `remote` has not taken, oldest first.
    fn unpushed(&self, remote: &RemoteName) -> (r: Result<Vec<CommitRecord>, StoreError>)
        ensures
            self.reliable() ==> r is Ok,
            r matches Ok(v) ==> v@.map_values(|c: CommitRecord| c@) == self.model().data.unpushed(remote@),
    ;

    fn mark_pushed(&mut self, remote: &RemoteName, id: &CommitId) -> (r: Result<(), StoreError>)
        ensures
            old(self).reliable() ==> r is Ok,
            final(self).reliable() == old(self).reliable(),
            final(self).model().unit == old(self).model().unit,
            r is Ok ==> final(self).model() == old(self).model().with(
                StoreData {
                    pushed: old(self).model().data.pushed.insert(
                        remote@,
                        old(self).model().data.pushed_to(remote@).insert(id@),
                    ),
                    ..old(self).model().data
                },
            ),
    ;

    /// Oids a previous push failed on, resent as updates until they succeed.
    fn push_retries(&self, remote: &RemoteName) -> (r: Result<Vec<Oid>, StoreError>)
        ensures
            self.reliable() ==> r is Ok,
            r matches Ok(v) ==> oid_texts(v@) == self.model().data.retries_of(remote@),
    ;

    fn set_push_retries(&mut self, remote: &RemoteName, oids: &Vec<Oid>) -> (r: Result<(), StoreError>)
        ensures
            old(self).reliable() ==> r is Ok,
            final(self).reliable() == old(self).reliable(),
            final(self).model().unit == old(self).model().unit,
            r is Ok ==> final(self).model() == old(self).model().with(
                StoreData {
                    retries: old(self).model().data.retries.insert(remote@, oid_texts(oids@)),
                    ..old(self).model().data
                },
            ),
    ;
}

/// What each remote holds: the id it knows an object by, the snapshot of what
/// it last sent, and where its incremental sync stands.
pub trait RemoteTrackingRepository: Modeled {
    fn remote_id(&self, remote: &RemoteName, oid: &Oid) -> (r: Result<Option<String>, StoreError>)
        ensures
            self.reliable() ==> r is Ok,
            r matches Ok(o) ==> opt_text(o) == self.model().data.remote_ids.get((remote@, oid@)),
    ;

    fn oid_for_remote_id(&self, remote: &RemoteName, remote_id: &str) -> (r: Result<Option<Oid>, StoreError>)
        ensures
            self.reliable() ==> r is Ok,
            r matches Ok(Some(oid)) ==> self.model().data.remote_ids.get((remote@, oid@)) == Some(remote_id@),
            r matches Ok(None) ==> forall|o: Seq<char>|
                self.model().data.remote_ids.get((remote@, o)) != Some(remote_id@),
    ;

    fn map_remote_id(&mut self, remote: &RemoteName, oid: &Oid, remote_id: &str) -> (r: Result<(), StoreError>)
        ensures
            old(self).reliable() ==> r is Ok,
            final(self).reliable() == old(self).reliable(),
            final(self).model().unit == old(self).model().unit,
            r is Ok ==> final(self).model() == old(self).model().with(
                StoreData {
                    remote_ids: old(self).model().data.remote_ids.insert((remote@, oid@), remote_id@),
                    ..old(self).model().data
                },
            ),
    ;

    fn remote_snapshot(&self, remote: &RemoteName, oid: &Oid) -> (r: Result<Option<Object>, StoreError>)
        ensures
            self.reliable() ==> r is Ok,
            r matches Ok(o) ==> opt_object(o) == self.model().data.snapshots.get((remote@, oid@)),
    ;

    fn set_remote_snapshot(&mut self, remote: &RemoteName, object: &Object) -> (r: Result<(), StoreError>)
        ensures
            old(self).reliable() ==> r is Ok,
            final(self).reliable() == old(self).reliable(),
            final(self).model().unit == old(self).model().unit,
            r is Ok ==> final(self).model() == old(self).model().with(
                StoreData {
                    snapshots: old(self).model().data.snapshots.insert((remote@, object@.oid()), object@),
                    ..old(self).model().data
                },
            ),
    ;

    /// Drops the remote id and the remote snapshot for one oid on one remote,
    /// for an object the remote no longer has after a successful delete.
    fn clear_remote_mapping(&mut self, remote: &RemoteName, oid: &Oid) -> (r: Result<(), StoreError>)
        ensures
            old(self).reliable() ==> r is Ok,
            final(self).reliable() == old(self).reliable(),
            final(self).model().unit == old(self).model().unit,
            r is Ok ==> final(self).model() == old(self).model().with(
                StoreData {
                    remote_ids: old(self).model().data.remote_ids.remove((remote@, oid@)),
                    snapshots: old(self).model().data.snapshots.remove((remote@, oid@)),
                    ..old(self).model().data
                },
            ),
    ;

    fn sync_token(&self, remote: &RemoteName) -> (r: Result<Option<String>, StoreError>)
        ensures
            self.reliable() ==> r is Ok,
            r matches Ok(o) ==> opt_text(o) == self.model().data.sync.get(remote@),
    ;

    fn set_sync_token(&mut self, remote: &RemoteName, token: Option<&str>) -> (r: Result<(), StoreError>)
        ensures
            old(self).reliable() ==> r is Ok,
            final(self).reliable() == old(self).reliable(),
            final(self).model().unit == old(self).model().unit,
            r is Ok ==> final(self).model() == old(self).model().with(
                StoreData {
                    sync: match token {
                        Some(t) => old(self).model().data.sync.insert(remote@, t@),
                        None => old(self).model().data.sync.remove(remote@),
                    },
                    ..old(self).model().data
                },
            ),
    ;

    fn last_pull(&self, remote: &RemoteName) -> (r: Result<Option<Timestamp>, StoreError>)
        ensures
            self.reliable() ==> r is Ok,
            r matches Ok(o) ==> o == self.model().data.last_pulls.get(remote@),
    ;

    fn set_last_pull(&mut self, remote: &RemoteName, at: Timestamp) -> (r: Result<(), StoreError>)
        ensures
            old(self).reliable() ==> r is Ok,
            final(self).reliable() == old(self).reliable(),
            final(self).model().unit == old(self).model().unit,
            r is Ok ==> final(self).model() == old(self).model().with(
                StoreData { last_pulls: old(self).model().data.last_pulls.insert(remote@, at), ..old(self).model().data },
            ),
    ;

    fn last_push(&self, remote: &RemoteName) -> (r: Result<Option<Timestamp>, StoreError>)
        ensures
            self.reliable() ==> r is Ok,
            r matches Ok(o) ==> o == self.model().data.last_pushes.get(remote@),
    ;

    fn set_last_push(&mut self, remote: &RemoteName, at: Timestamp) -> (r: Result<(), StoreError>)
        ensures
            old(self).reliable() ==> r is Ok,
            final(self).reliable() == old(self).reliable(),
            final(self).model().unit == old(self).model().unit,
            r is Ok ==> final(self).model() == old(self).model().with(
                StoreData { last_pushes: old(self).model().data.last_pushes.insert(remote@, at), ..old(self).model().data },
            ),
    ;
}

/// Objects a pull could not merge, held until the operator settles them.
pub trait ConflictRepository: Modeled {
    /// Holds `theirs` against the working copy of `oid`, which must exist.
    fn mark_conflict(&mut self, remote: &RemoteName, oid: &Oid, theirs: &Object) -> (r: Result<(), StoreError>)
        ensures
            old(self).reliable() && old(self).model().data.working.contains_key(oid@) ==> r is Ok,
            final(self).reliable() == old(self).reliable(),
            final(self).model().unit == old(self).model().unit,
            r is Ok ==> old(self).model().data.working.contains_key(oid@),
            r is Ok ==> final(self).model() == old(self).model().with(
                StoreData {
                    conflicts: old(self).model().data.conflicts.insert(
                        oid@,
                        ConflictView {
                            remote: remote@,
                            oid: oid@,
                            ours: old(self).model().data.working[oid@],
                            theirs: theirs@,
                        },
                    ),
                    ..old(self).model().data
                },
            ),
    ;

    fn conflicts(&self) -> (r: Result<Vec<Conflict>, StoreError>)
        ensures
            self.reliable() ==> r is Ok,
            r matches Ok(v) ==> lists_conflicts(conflict_views(v@), self.model().data.conflicts),
    ;

    fn clear_conflict(&mut self, oid: &Oid) -> (r: Result<(), StoreError>)
        ensures
            old(self).reliable() ==> r is Ok,
            final(self).reliable() == old(self).reliable(),
            final(self).model().unit == old(self).model().unit,
            r is Ok ==> final(self).model() == old(self).model().with(
                StoreData { conflicts: old(self).model().data.conflicts.remove(oid@), ..old(self).model().data },
            ),
    ;
}

/// Things upstream did that dam only reports, in the order they were recorded.
pub trait NoticeRepository: Modeled {
    fn add_notice(&mut self, notice: &Notice) -> (r: Result<(), StoreError>)
        ensures
            old(self).reliable() ==> r is Ok,
            final(self).reliable() == old(self).reliable(),
            final(self).model().unit == old(self).model().unit,
            r is Ok ==> final(self).model() == old(self).model().with(
                StoreData { notices: old(self).model().data.notices.push(notice@), ..old(self).model().data },
            ),
    ;

    fn notices(&self) -> (r: Result<Vec<Notice>, StoreError>)
        ensures
            self.reliable() ==> r is Ok,
            r matches Ok(v) ==> notice_views(v@) == self.model().data.notices,
    ;

    fn clear_notices(&mut self) -> (r: Result<(), StoreError>)
        ensures
            old(self).reliable() ==> r is Ok,
            final(self).reliable() == old(self).reliable(),
            final(self).model().unit == old(self).model().unit,
            r is Ok ==> final(self).model() == old(self).model().with(
                StoreData { notices: Seq::empty(), ..old(self).model().data },
            ),
    ;
}

/// Runs one unit of work so that every write inside it lands together or
/// none of it does, however many record families it spans.
pub trait Transactional: Modeled {
    /// Opens a unit of work over what the store holds now. It fails, and
    /// changes nothing, when one is open already.
    fn begin(&mut self) -> (r: Result<(), StoreError>)
        ensures
            old(self).reliable() && old(self).model().unit is None ==> r is Ok,
            final(self).reliable() == old(self).reliable(),
            r is Ok ==> old(self).model().unit is None && final(self).model() == (StoreModel {
                data: old(self).model().data,
                unit: Some(old(self).model().data),
            }),
            r is Err ==> final(self).model() == old(self).model(),
    ;

    /// Lands every write made since `begin`; when it cannot, none of them
    /// lands.
    fn finish(&mut self) -> (r: Result<(), StoreError>)
        requires
            old(self).model().unit is Some,
        ensures
            old(self).reliable() ==> r is Ok,
            final(self).reliable() == old(self).reliable(),
            r is Ok ==> final(self).model() == (StoreModel { data: old(self).model().data, unit: None }),
            r is Err ==> final(self).model() == (StoreModel {
                data: old(self).model().unit.unwrap(),
                unit: None,
            }),
    ;

    /// Throws away every write made since `begin`.
    fn abandon(&mut self)
        requires
            old(self).model().unit is Some,
        ensures
            final(self).model() == (StoreModel { data: old(self).model().unit.unwrap(), unit: None }),
            final(self).reliable() == old(self).reliable(),
    ;
}

/// One durable store behind all six record families, which is what the
/// composition root holds and what a transaction spans.
pub trait Store:
    ObjectRepository + StageRepository + CommitRepository + RemoteTrackingRepository + ConflictRepository + NoticeRepository + Transactional {

}

impl<
    T: ObjectRepository + StageRepository + CommitRepository + RemoteTrackingRepository + ConflictRepository + NoticeRepository + Transactional,
> Store for T {

}

} // verus!

verus! {

/// A list that names each conflict of a map once is as long as the map.
pub proof fn lemma_listed_conflicts_len(v: Seq<ConflictView>, m: Map<Seq<char>, ConflictView>)
    requires
        lists_conflicts(v, m),
        m.dom().finite(),
    ensures
        v.len() == m.dom().len(),
{
    let ks = v.map_values(|c: ConflictView| c.oid);
    assert(ks.no_duplicates()) by {
        assert forall|i: int, j: int| 0 <= i < ks.len() && 0 <= j < ks.len() && i != j implies ks[i] != ks[j] by {
            if i < j {
                assert(v[i].oid != v[j].oid);
            } else {
                assert(v[j].oid != v[i].oid);
            }
        }
    }
    assert(ks.to_set() =~= m.dom()) by {
        assert forall|k: Seq<char>| m.dom().contains(k) implies ks.to_set().contains(k) by {
            let i = choose|i: int| 0 <= i < v.len() && #[trigger] v[i].oid == k;
            assert(ks[i] == k);
        }
        assert forall|k: Seq<char>| ks.to_set().contains(k) implies m.dom().contains(k) by {
            let i = choose|i: int| 0 <= i < ks.len() && ks[i] == k;
            assert(m.contains_key(v[i].oid));
        }
    }
    ks.unique_seq_to_set();
}

} // verus!
