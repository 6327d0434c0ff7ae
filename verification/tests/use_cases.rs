use std::cell::RefCell;
use std::collections::BTreeMap;
use std::rc::Rc;

use dam_application::config::{Config, CredentialSpec, RemoteConfig};
use dam_application::contract::{
    commit_repository_contract, conflict_repository_contract, notice_repository_contract,
    object_repository_contract, remote_tracking_repository_contract, stage_repository_contract,
    transactional_contract, Probe, SuiteError,
};
use dam_application::domain::{
    Blocker, Categories, Category, Change, ChildDisposition, CommitRecord, Date, DependencyDisposition,
    Dispositions, Event, EventStatus, Field, Force, Kind, Object, Op, Path, Task, Timestamp, When, PRIORITY_HIGHEST,
    PRIORITY_LOWEST,
};
use dam_application::errors::{Refusal, UseCaseError};
use dam_application::ports::{
    Answers, Batches, Calendar, Launches, Resolutions, Clock, CommitRepository, Conflict, ConflictRepository, CredentialError, CredentialSource,
    HelperError, HelperLauncher, Modeled, Notice, NoticeRepository, ObjectRepository, Randomness,
    RemoteHelper, RemoteName, RemoteTrackingRepository, StageRepository, StoreError, StoreModel, Text, Transactional,
};
use dam_application::remote::{
    IncomingObject, MutationOp, MutationOutcome, PullOutcome, RejectedObject, RemoteCapabilities,
    RemoteMutation,
};
use dam_application::use_cases::commit::{commit, log};
use dam_application::use_cases::complete::{complete, plan_complete, Completed};
use dam_application::use_cases::edit::{apply, edit, EditFields};
use dam_application::use_cases::freshness::require_fresh;
use dam_application::use_cases::new_object::{new_event, new_task, NewEvent, NewTask};
use dam_application::use_cases::pull::pull;
use dam_application::use_cases::push::idempotency::{key, Origin};
use dam_application::use_cases::push::push;
use dam_application::use_cases::relocate::relocate;
use dam_application::use_cases::remove::{plan_remove, remove};
use dam_application::use_cases::resolve::{resolve, Side};
use dam_application::use_cases::restore::restore;
use dam_application::use_cases::stage::{add, add_all, reset};
use dam_application::use_cases::status::{diff_working, status};
use dam_application::use_cases::subtree::move_subtree;
use dam_application::{CommitId, Oid, Secret};

// ---------------------------------------------------------------------------
// An in-memory store that keeps every port's contract.

struct Data {
    working: BTreeMap<String, Object>,
    committed: BTreeMap<String, Object>,
    staged: BTreeMap<String, Change>,
    commits: Vec<CommitRecord>,
    pushed: BTreeMap<String, Vec<String>>,
    remote_ids: BTreeMap<(String, String), String>,
    snapshots: BTreeMap<(String, String), Object>,
    sync: BTreeMap<String, String>,
    conflicts: BTreeMap<String, Conflict>,
    notices: Vec<Notice>,
    retries: BTreeMap<String, Vec<Oid>>,
    last_pulls: BTreeMap<String, Timestamp>,
    last_pushes: BTreeMap<String, Timestamp>,
}

fn copy_notice(n: &Notice) -> Notice {
    match n {
        Notice::RemovedUpstream { remote, oid, subject } => Notice::RemovedUpstream {
            remote: remote.clone(),
            oid: oid.clone(),
            subject: subject.clone(),
        },
        Notice::EventCancelled { oid, subject, attached } => Notice::EventCancelled {
            oid: oid.clone(),
            subject: subject.clone(),
            attached: *attached,
        },
        Notice::PushFailed { remote, oid, why } => Notice::PushFailed {
            remote: remote.clone(),
            oid: oid.clone(),
            why: why.clone(),
        },
        Notice::PullFailed { remote, why } => {
            Notice::PullFailed { remote: remote.clone(), why: why.clone() }
        }
        Notice::KindChanged { oid, ours, theirs } => {
            Notice::KindChanged { oid: oid.clone(), ours: *ours, theirs: *theirs }
        }
    }
}

fn copy_conflict(c: &Conflict) -> Conflict {
    Conflict {
        remote: c.remote.clone(),
        oid: c.oid.clone(),
        ours: c.ours.clone(),
        theirs: c.theirs.clone(),
    }
}

impl Data {
    fn new() -> Data {
        Data {
            working: BTreeMap::new(),
            committed: BTreeMap::new(),
            staged: BTreeMap::new(),
            commits: Vec::new(),
            pushed: BTreeMap::new(),
            remote_ids: BTreeMap::new(),
            snapshots: BTreeMap::new(),
            sync: BTreeMap::new(),
            conflicts: BTreeMap::new(),
            notices: Vec::new(),
            retries: BTreeMap::new(),
            last_pulls: BTreeMap::new(),
            last_pushes: BTreeMap::new(),
        }
    }

    fn copy(&self) -> Data {
        Data {
            working: self.working.clone(),
            committed: self.committed.clone(),
            staged: self.staged.iter().map(|(k, v)| (k.clone(), v.copy())).collect(),
            commits: self.commits.iter().map(|c| c.copy()).collect(),
            pushed: self.pushed.clone(),
            remote_ids: self.remote_ids.clone(),
            snapshots: self.snapshots.clone(),
            sync: self.sync.clone(),
            conflicts: self.conflicts.iter().map(|(k, v)| (k.clone(), copy_conflict(v))).collect(),
            notices: self.notices.iter().map(copy_notice).collect(),
            retries: self.retries.clone(),
            last_pulls: self.last_pulls.clone(),
            last_pushes: self.last_pushes.clone(),
        }
    }
}

struct MemoryStore {
    data: Data,
    unit: Option<Data>,
    /// When set, every read of this one object fails.
    failing_read: Option<Oid>,
}

impl MemoryStore {
    fn new() -> MemoryStore {
        MemoryStore { data: Data::new(), unit: None, failing_read: None }
    }
}

fn oid_key(oid: &Oid) -> String {
    oid.as_str().to_string()
}

fn pair(remote: &RemoteName, oid: &Oid) -> (String, String) {
    (remote.0.clone(), oid_key(oid))
}

impl Modeled for MemoryStore {
    fn model(&self) -> StoreModel {
        panic!("the model is read in proofs only")
    }
    fn lemma_model_wf(&self) {}
    fn reliable(&self) -> bool {
        panic!("reliability is read in proofs only")
    }
}

impl ObjectRepository for MemoryStore {
    fn get(&self, oid: &Oid) -> Result<Option<Object>, StoreError> {
        if self.failing_read.as_ref() == Some(oid) {
            return Err(StoreError::Failed("boom".to_string()));
        }
        Ok(self.data.working.get(&oid_key(oid)).cloned())
    }
    fn all(&self) -> Result<Vec<Object>, StoreError> {
        Ok(self.data.working.values().cloned().collect())
    }
    fn children_of(&self, path: &Path) -> Result<Vec<Object>, StoreError> {
        Ok(self
            .data
            .working
            .values()
            .filter(|o| o.base().path.parent().as_ref() == Some(path))
            .cloned()
            .collect())
    }
    fn dependents_of(&self, oid: &Oid) -> Result<Vec<Oid>, StoreError> {
        Ok(self
            .data
            .working
            .values()
            .filter(|o| o.base().depends.contains(oid))
            .map(|o| o.oid().clone())
            .collect())
    }
    fn put(&mut self, object: &Object) -> Result<(), StoreError> {
        self.data.working.insert(oid_key(object.oid()), object.clone());
        Ok(())
    }
    fn delete(&mut self, oid: &Oid) -> Result<(), StoreError> {
        self.data.working.remove(&oid_key(oid));
        Ok(())
    }
    fn committed(&self, oid: &Oid) -> Result<Option<Object>, StoreError> {
        Ok(self.data.committed.get(&oid_key(oid)).cloned())
    }
}

impl StageRepository for MemoryStore {
    fn stage(&mut self, change: Change) -> Result<(), StoreError> {
        let k = oid_key(&change.oid);
        let merged = match self.data.staged.remove(&k) {
            Some(existing) => dam_application::domain::coalesce(existing, change),
            None => Some(change),
        };
        if let Some(c) = merged {
            self.data.staged.insert(k, c);
        }
        Ok(())
    }
    fn unstage(&mut self, oid: &Oid) -> Result<(), StoreError> {
        self.data.staged.remove(&oid_key(oid));
        Ok(())
    }
    fn unstage_all(&mut self) -> Result<(), StoreError> {
        self.data.staged.clear();
        Ok(())
    }
    fn staged(&self) -> Result<Vec<Change>, StoreError> {
        Ok(self.data.staged.values().map(|c| c.copy()).collect())
    }
}

impl CommitRepository for MemoryStore {
    fn commit(&mut self, record: &CommitRecord) -> Result<(), StoreError> {
        for change in &record.changes {
            match &change.after {
                Some(after) => {
                    self.data.committed.insert(oid_key(&change.oid), after.clone());
                }
                None => {
                    self.data.committed.remove(&oid_key(&change.oid));
                }
            }
            self.data.staged.remove(&oid_key(&change.oid));
        }
        self.data.commits.push(record.copy());
        Ok(())
    }
    fn log(&self) -> Result<Vec<CommitRecord>, StoreError> {
        Ok(self.data.commits.iter().rev().map(|c| c.copy()).collect())
    }
    fn unpushed(&self, remote: &RemoteName) -> Result<Vec<CommitRecord>, StoreError> {
        let pushed = self.data.pushed.get(&remote.0).cloned().unwrap_or_default();
        Ok(self
            .data
            .commits
            .iter()
            .filter(|c| !pushed.contains(&c.id.as_str().to_string()))
            .map(|c| c.copy())
            .collect())
    }
    fn mark_pushed(&mut self, remote: &RemoteName, id: &CommitId) -> Result<(), StoreError> {
        self.data.pushed.entry(remote.0.clone()).or_default().push(id.as_str().to_string());
        Ok(())
    }
    fn push_retries(&self, remote: &RemoteName) -> Result<Vec<Oid>, StoreError> {
        Ok(self.data.retries.get(&remote.0).cloned().unwrap_or_default())
    }
    fn set_push_retries(&mut self, remote: &RemoteName, oids: &Vec<Oid>) -> Result<(), StoreError> {
        self.data.retries.insert(remote.0.clone(), oids.clone());
        Ok(())
    }
}

impl RemoteTrackingRepository for MemoryStore {
    fn remote_id(&self, remote: &RemoteName, oid: &Oid) -> Result<Option<String>, StoreError> {
        Ok(self.data.remote_ids.get(&pair(remote, oid)).cloned())
    }
    fn oid_for_remote_id(&self, remote: &RemoteName, remote_id: &str) -> Result<Option<Oid>, StoreError> {
        Ok(self
            .data
            .remote_ids
            .iter()
            .find(|((r, _), id)| *r == remote.0 && id.as_str() == remote_id)
            .map(|((_, o), _)| Oid::parse(o).unwrap()))
    }
    fn map_remote_id(&mut self, remote: &RemoteName, oid: &Oid, remote_id: &str) -> Result<(), StoreError> {
        self.data.remote_ids.insert(pair(remote, oid), remote_id.to_string());
        Ok(())
    }
    fn remote_snapshot(&self, remote: &RemoteName, oid: &Oid) -> Result<Option<Object>, StoreError> {
        Ok(self.data.snapshots.get(&pair(remote, oid)).cloned())
    }
    fn set_remote_snapshot(&mut self, remote: &RemoteName, object: &Object) -> Result<(), StoreError> {
        self.data.snapshots.insert(pair(remote, object.oid()), object.clone());
        Ok(())
    }
    fn clear_remote_mapping(&mut self, remote: &RemoteName, oid: &Oid) -> Result<(), StoreError> {
        self.data.remote_ids.remove(&pair(remote, oid));
        self.data.snapshots.remove(&pair(remote, oid));
        Ok(())
    }
    fn sync_token(&self, remote: &RemoteName) -> Result<Option<String>, StoreError> {
        Ok(self.data.sync.get(&remote.0).cloned())
    }
    fn set_sync_token(&mut self, remote: &RemoteName, token: Option<&str>) -> Result<(), StoreError> {
        match token {
            Some(t) => {
                self.data.sync.insert(remote.0.clone(), t.to_string());
            }
            None => {
                self.data.sync.remove(&remote.0);
            }
        }
        Ok(())
    }
    fn last_pull(&self, remote: &RemoteName) -> Result<Option<Timestamp>, StoreError> {
        Ok(self.data.last_pulls.get(&remote.0).copied())
    }
    fn set_last_pull(&mut self, remote: &RemoteName, at: Timestamp) -> Result<(), StoreError> {
        self.data.last_pulls.insert(remote.0.clone(), at);
        Ok(())
    }
    fn last_push(&self, remote: &RemoteName) -> Result<Option<Timestamp>, StoreError> {
        Ok(self.data.last_pushes.get(&remote.0).copied())
    }
    fn set_last_push(&mut self, remote: &RemoteName, at: Timestamp) -> Result<(), StoreError> {
        self.data.last_pushes.insert(remote.0.clone(), at);
        Ok(())
    }
}

impl ConflictRepository for MemoryStore {
    fn mark_conflict(&mut self, remote: &RemoteName, oid: &Oid, theirs: &Object) -> Result<(), StoreError> {
        let ours = match self.data.working.get(&oid_key(oid)) {
            Some(o) => o.clone(),
            None => return Err(StoreError::Failed("conflict on a missing object".to_string())),
        };
        self.data.conflicts.insert(
            oid_key(oid),
            Conflict { remote: remote.clone(), oid: oid.clone(), ours, theirs: theirs.clone() },
        );
        Ok(())
    }
    fn conflicts(&self) -> Result<Vec<Conflict>, StoreError> {
        Ok(self.data.conflicts.values().map(copy_conflict).collect())
    }
    fn clear_conflict(&mut self, oid: &Oid) -> Result<(), StoreError> {
        self.data.conflicts.remove(&oid_key(oid));
        Ok(())
    }
}

impl NoticeRepository for MemoryStore {
    fn add_notice(&mut self, notice: &Notice) -> Result<(), StoreError> {
        self.data.notices.push(copy_notice(notice));
        Ok(())
    }
    fn notices(&self) -> Result<Vec<Notice>, StoreError> {
        Ok(self.data.notices.iter().map(copy_notice).collect())
    }
    fn clear_notices(&mut self) -> Result<(), StoreError> {
        self.data.notices.clear();
        Ok(())
    }
}

impl Transactional for MemoryStore {
    fn begin(&mut self) -> Result<(), StoreError> {
        if self.unit.is_some() {
            return Err(StoreError::Busy("a unit of work is open".to_string()));
        }
        self.unit = Some(self.data.copy());
        Ok(())
    }
    fn finish(&mut self) -> Result<(), StoreError> {
        self.unit = None;
        Ok(())
    }
    fn abandon(&mut self) {
        if let Some(before) = self.unit.take() {
            self.data = before;
        }
    }
}

// ---------------------------------------------------------------------------
// The world outside the store.

fn oid(byte: u8) -> Oid {
    Oid::from_bytes(&vec![byte; 20])
}

fn date(year: i16, month: u8, day: u8) -> Date {
    Date { year, month, day }
}

/// Days from 1970-01-01 to a civil date.
fn days_from_civil(y: i64, m: i64, d: i64) -> i64 {
    let y = if m <= 2 { y - 1 } else { y };
    let era = if y >= 0 { y } else { y - 399 } / 400;
    let yoe = y - era * 400;
    let mp = (m + 9) % 12;
    let doy = (153 * mp + 2) / 5 + d - 1;
    let doe = yoe * 365 + yoe / 4 - yoe / 100 + doy;
    era * 146097 + doe - 719468
}

struct FixedClock(Date);

impl Clock for FixedClock {
    fn today(&self) -> Date {
        self.0
    }
    fn now(&self) -> Timestamp {
        let d = self.0;
        Timestamp { seconds: days_from_civil(d.year as i64, d.month as i64, d.day as i64) * 86_400, nanos: 0 }
    }
}

struct FixedRandom(u8);

impl Randomness for FixedRandom {
    fn fill(&mut self, buf: &mut Vec<u8>) {
        for b in buf.iter_mut() {
            *b = self.0;
        }
        self.0 = self.0.wrapping_add(1);
    }
}

struct EchoCredentials;

/// Hands back a literal's own value, and a made-up one for any other spec.
impl CredentialSource for EchoCredentials {
    fn resolved(&self) -> Resolutions {
        unreachable!("what a source was asked is stated in proofs only")
    }

    fn resolve(&mut self, spec: &CredentialSpec) -> Result<Secret, CredentialError> {
        match spec {
            CredentialSpec::Literal { value, .. } => Ok(value.duplicate()),
            _ => Ok(Secret::new(format!("value-of-{}", spec.name()))),
        }
    }
}

fn task_caps() -> RemoteCapabilities {
    RemoteCapabilities {
        kinds: vec![Kind::Task],
        fields: vec![
            Field::Subject,
            Field::Body,
            Field::Path,
            Field::Labels,
            Field::Priority,
            Field::Due,
            Field::Deadline,
            Field::Done,
            Field::Recurrence,
        ],
        credentials: vec!["api_token".to_string()],
        incremental: true,
    }
}

fn copy_caps(c: &RemoteCapabilities) -> RemoteCapabilities {
    RemoteCapabilities {
        kinds: c.kinds.clone(),
        fields: c.fields.clone(),
        credentials: c.credentials.clone(),
        incremental: c.incremental,
    }
}

fn empty_pull() -> PullOutcome {
    PullOutcome { objects: vec![], rejected: vec![], removed: vec![], cancelled: vec![], sync: None }
}

fn copy_pull(p: &PullOutcome) -> PullOutcome {
    PullOutcome {
        objects: p.objects.iter().map(|o| o.copy()).collect(),
        rejected: p
            .rejected
            .iter()
            .map(|r| RejectedObject { remote_id: r.remote_id.clone(), why: r.why.clone() })
            .collect(),
        removed: p.removed.clone(),
        cancelled: p.cancelled.clone(),
        sync: p.sync.clone(),
    }
}

type PushAnswer = Rc<dyn Fn(&[RemoteMutation]) -> Vec<MutationOutcome>>;

/// A scripted helper: records what it was asked, answers what it was told.
struct ScriptedHelper {
    caps: RemoteCapabilities,
    pull_answer: PullOutcome,
    push_answer: PushAnswer,
    pushed: Rc<RefCell<Vec<RemoteMutation>>>,
    pulled_since: Rc<RefCell<Vec<Option<String>>>>,
}

impl RemoteHelper for ScriptedHelper {
    fn handed(&self) -> Batches {
        unreachable!("what a helper was handed is stated in proofs only")
    }
    fn answered(&self) -> Answers {
        unreachable!("what a helper answered is stated in proofs only")
    }
    fn capabilities(&mut self) -> Result<RemoteCapabilities, HelperError> {
        Ok(copy_caps(&self.caps))
    }
    fn pull(&mut self, since: Option<&str>) -> Result<PullOutcome, HelperError> {
        self.pulled_since.borrow_mut().push(since.map(|s| s.to_string()));
        Ok(copy_pull(&self.pull_answer))
    }
    fn push(&mut self, mutations: Vec<RemoteMutation>) -> Result<Vec<MutationOutcome>, HelperError> {
        let results = (self.push_answer)(&mutations);
        self.pushed.borrow_mut().extend(mutations);
        Ok(results)
    }
}

struct ScriptedLauncher {
    caps: RemoteCapabilities,
    pull_answer: PullOutcome,
    push_answer: PushAnswer,
    pushed: Rc<RefCell<Vec<RemoteMutation>>>,
    pulled_since: Rc<RefCell<Vec<Option<String>>>>,
    launched_with: Rc<RefCell<Vec<Vec<(String, String)>>>>,
}

impl HelperLauncher for &ScriptedLauncher {
    type Helper = ScriptedHelper;

    fn launched(&self) -> Launches {
        unreachable!("what a launcher was asked is stated in proofs only")
    }

    fn launch(&mut self, _remote: &RemoteConfig, credentials: &Vec<(String, Secret)>) -> Result<ScriptedHelper, HelperError> {
        self.launched_with
            .borrow_mut()
            .push(credentials.iter().map(|(n, v)| (n.clone(), v.expose().to_string())).collect());
        Ok(ScriptedHelper {
            caps: copy_caps(&self.caps),
            pull_answer: copy_pull(&self.pull_answer),
            push_answer: self.push_answer.clone(),
            pushed: self.pushed.clone(),
            pulled_since: self.pulled_since.clone(),
        })
    }
}

/// Takes every mutation, answering `r<n>` as the remote id of the n-th.
fn accept_all() -> PushAnswer {
    Rc::new(|ms: &[RemoteMutation]| {
        ms.iter()
            .map(|m| MutationOutcome {
                oid: m.oid.clone(),
                ok: true,
                remote_id: Some("r1".to_string()),
                why: None,
            })
            .collect()
    })
}

fn launcher_with(caps: RemoteCapabilities, pull_answer: PullOutcome, push_answer: PushAnswer) -> ScriptedLauncher {
    ScriptedLauncher {
        caps,
        pull_answer,
        push_answer,
        pushed: Rc::new(RefCell::new(vec![])),
        pulled_since: Rc::new(RefCell::new(vec![])),
        launched_with: Rc::new(RefCell::new(vec![])),
    }
}

fn launcher(objects: Vec<IncomingObject>) -> ScriptedLauncher {
    let mut answer = empty_pull();
    answer.objects = objects;
    launcher_with(task_caps(), answer, accept_all())
}

fn todoist() -> RemoteName {
    RemoteName("todoist".to_string())
}

fn remote_config(name: &str) -> RemoteConfig {
    RemoteConfig {
        name: RemoteName(name.to_string()),
        helper: name.to_string(),
        url: format!("{name}::"),
        credentials: vec![CredentialSpec::Literal {
            name: "api_token".to_string(),
            value: Secret::new("t".to_string()),
        }],
        stale: None,
        deadline: None,
        path: None,
    }
}

fn config() -> Config {
    let mut c = Config::empty();
    c.remotes.push(remote_config("todoist"));
    c
}

fn task(byte: u8, subject: &str) -> Object {
    Object::Task(Task::new(oid(byte), subject.to_string()))
}

fn task_at(byte: u8, subject: &str, path: &str) -> Object {
    let mut t = Task::new(oid(byte), subject.to_string());
    t.base.path = Path::parse(path).unwrap();
    Object::Task(t)
}

fn seed(store: &mut MemoryStore, byte: u8) -> Oid {
    store.put(&task(byte, &format!("t{byte}"))).unwrap();
    oid(byte)
}

fn put_at(store: &mut MemoryStore, byte: u8, path: &str) -> Oid {
    store.put(&task_at(byte, &format!("t{byte}"), path)).unwrap();
    oid(byte)
}

fn subject_of(store: &MemoryStore, id: &Oid) -> String {
    store.get(id).unwrap().unwrap().base().subject.clone()
}

fn path_of(store: &MemoryStore, id: &Oid) -> String {
    store.get(id).unwrap().unwrap().base().path.as_str().to_string()
}

fn retitle(store: &mut MemoryStore, id: &Oid, subject: &str) {
    let mut object = store.get(id).unwrap().unwrap();
    object.base_mut().subject = subject.to_string();
    store.put(&object).unwrap();
}

fn commit_all(store: &mut MemoryStore, byte: u8, message: &str) -> CommitRecord {
    add_all(store).unwrap();
    commit(store, &FixedClock(date(2026, 9, 18)), &mut FixedRandom(byte), message).unwrap()
}

/// A task put, staged and committed, so it has a commit behind it.
fn committed_task(store: &mut MemoryStore, byte: u8) -> Oid {
    let id = seed(store, byte);
    add(store, &vec![id.clone()]).unwrap();
    commit(store, &FixedClock(date(2026, 9, 18)), &mut FixedRandom(byte), "m").unwrap();
    id
}

// ---------------------------------------------------------------------------
// The store keeps every contract.

#[test]
fn it_keeps_the_object_repository_contract() {
    assert_eq!(object_repository_contract(&mut Probe::new(MemoryStore::new())), Ok(()));
}

#[test]
fn it_keeps_the_stage_repository_contract() {
    assert_eq!(stage_repository_contract(&mut Probe::new(MemoryStore::new())), Ok(()));
}

#[test]
fn it_keeps_the_commit_repository_contract() {
    assert_eq!(commit_repository_contract(&mut Probe::new(MemoryStore::new())), Ok(()));
}

#[test]
fn it_keeps_the_remote_tracking_repository_contract() {
    assert_eq!(remote_tracking_repository_contract(&mut Probe::new(MemoryStore::new())), Ok(()));
}

#[test]
fn it_keeps_the_conflict_repository_contract() {
    assert_eq!(conflict_repository_contract(&mut Probe::new(MemoryStore::new())), Ok(()));
}

#[test]
fn it_keeps_the_notice_repository_contract() {
    assert_eq!(notice_repository_contract(&mut Probe::new(MemoryStore::new())), Ok(()));
}

/// A store that answers every read but keeps no put: a wrong store the
/// working-layer suite must catch.
struct Forgetful(MemoryStore);

impl Modeled for Forgetful {
    fn model(&self) -> StoreModel {
        panic!("the model is read in proofs only")
    }
    fn lemma_model_wf(&self) {}
    fn reliable(&self) -> bool {
        panic!("reliability is read in proofs only")
    }
}

impl ObjectRepository for Forgetful {
    fn get(&self, oid: &Oid) -> Result<Option<Object>, StoreError> {
        self.0.get(oid)
    }
    fn all(&self) -> Result<Vec<Object>, StoreError> {
        self.0.all()
    }
    fn children_of(&self, path: &Path) -> Result<Vec<Object>, StoreError> {
        self.0.children_of(path)
    }
    fn dependents_of(&self, oid: &Oid) -> Result<Vec<Oid>, StoreError> {
        self.0.dependents_of(oid)
    }
    fn put(&mut self, _object: &Object) -> Result<(), StoreError> {
        Ok(())
    }
    fn delete(&mut self, oid: &Oid) -> Result<(), StoreError> {
        self.0.delete(oid)
    }
    fn committed(&self, oid: &Oid) -> Result<Option<Object>, StoreError> {
        self.0.committed(oid)
    }
}

#[test]
fn the_object_suite_catches_a_store_that_forgets_puts() {
    assert_eq!(
        object_repository_contract(&mut Probe::new(Forgetful(MemoryStore::new()))),
        Err(SuiteError::Broken("a put reads back".to_string()))
    );
}

#[test]
fn a_suite_reports_a_failing_call_as_the_store_said_it() {
    let mut store = MemoryStore::new();
    store.failing_read = Some(oid(1));
    assert_eq!(
        object_repository_contract(&mut Probe::new(store)),
        Err(SuiteError::Store(StoreError::Failed("boom".to_string())))
    );
}

#[test]
fn it_keeps_the_transactional_contract() {
    assert_eq!(transactional_contract(&mut Probe::new(MemoryStore::new())), Ok(()));
}

// ---------------------------------------------------------------------------
// Staging, committing, status.

#[test]
fn add_stages_a_create_for_a_new_working_object() {
    let mut store = MemoryStore::new();
    let id = seed(&mut store, 1);
    let staged = add(&mut store, &vec![id]).unwrap();
    assert_eq!(staged.len(), 1);
    assert_eq!(staged[0].op, Op::Create);
    assert_eq!(store.staged().unwrap().len(), 1);
}

#[test]
fn add_skips_an_unchanged_object() {
    let mut store = MemoryStore::new();
    let id = seed(&mut store, 1);
    let changes = add(&mut store, &vec![id.clone()]).unwrap();
    let record = CommitRecord {
        id: CommitId::from_bytes(&vec![9; 20]),
        message: "m".to_string(),
        at: Timestamp { seconds: 0, nanos: 0 },
        changes,
    };
    store.commit(&record).unwrap();
    assert!(add(&mut store, &vec![id]).unwrap().is_empty());
}

#[test]
fn add_all_includes_deletes_of_committed_objects_gone_from_working() {
    let mut store = MemoryStore::new();
    let id = seed(&mut store, 1);
    let changes = add(&mut store, &vec![id.clone()]).unwrap();
    let record = CommitRecord {
        id: CommitId::from_bytes(&vec![9; 20]),
        message: "m".to_string(),
        at: Timestamp { seconds: 0, nanos: 0 },
        changes,
    };
    store.commit(&record).unwrap();
    store.delete(&id).unwrap();
    let staged = add_all(&mut store).unwrap();
    assert_eq!(staged[0].op, Op::Delete);
}

#[test]
fn reset_unstages_one_or_all() {
    let mut store = MemoryStore::new();
    let a = seed(&mut store, 1);
    let _b = seed(&mut store, 2);
    add_all(&mut store).unwrap();
    reset(&mut store, &vec![a]).unwrap();
    assert_eq!(store.staged().unwrap().len(), 1);
    reset(&mut store, &vec![]).unwrap();
    assert!(store.staged().unwrap().is_empty());
}

#[test]
fn add_of_an_unknown_oid_is_refused() {
    let mut store = MemoryStore::new();
    let err = add(&mut store, &vec![oid(7)]).unwrap_err();
    assert!(matches!(err, UseCaseError::Refused(Refusal::NoSuchObject(_))));
}

#[test]
fn add_all_stages_every_change_once_in_oid_order() {
    let mut store = MemoryStore::new();
    seed(&mut store, 3);
    seed(&mut store, 1);
    seed(&mut store, 2);
    let staged = add_all(&mut store).unwrap();
    let oids: Vec<Oid> = staged.iter().map(|c| c.oid.clone()).collect();
    assert_eq!(oids, vec![oid(1), oid(2), oid(3)]);
    assert_eq!(store.staged().unwrap().len(), 3);
}

#[test]
fn commit_records_the_stage_and_empties_it() {
    let mut store = MemoryStore::new();
    store.put(&task(1, "a")).unwrap();
    add_all(&mut store).unwrap();
    let rec = commit(&mut store, &FixedClock(date(2026, 9, 18)), &mut FixedRandom(5), "first").unwrap();
    assert_eq!(rec.message, "first");
    assert_eq!(rec.changes.len(), 1);
    assert!(store.staged().unwrap().is_empty());
    assert_eq!(store.committed(&oid(1)).unwrap().unwrap().base().subject, "a");
    assert_eq!(log(&store).unwrap()[0].id, rec.id);
}

#[test]
fn an_empty_stage_cannot_be_committed() {
    let mut store = MemoryStore::new();
    let err = commit(&mut store, &FixedClock(date(2026, 9, 18)), &mut FixedRandom(5), "x").unwrap_err();
    assert_eq!(err, UseCaseError::Parse("nothing to commit".to_string()));
}

#[test]
fn a_commit_is_stamped_with_the_clock_and_a_fresh_id() {
    let mut store = MemoryStore::new();
    store.put(&task(1, "a")).unwrap();
    add_all(&mut store).unwrap();
    let rec = commit(&mut store, &FixedClock(date(1970, 1, 2)), &mut FixedRandom(5), "m").unwrap();
    assert_eq!(rec.at, Timestamp { seconds: 86_400, nanos: 0 });
    assert_eq!(rec.id, CommitId::from_bytes(&vec![5; 20]));
}

#[test]
fn the_log_is_newest_first() {
    let mut store = MemoryStore::new();
    seed(&mut store, 1);
    let first = commit_all(&mut store, 5, "first");
    seed(&mut store, 2);
    let second = commit_all(&mut store, 6, "second");
    let ids: Vec<CommitId> = log(&store).unwrap().iter().map(|c| c.id.clone()).collect();
    assert_eq!(ids, vec![second.id, first.id]);
}

#[test]
fn a_fully_staged_change_is_not_also_unstaged() {
    let mut store = MemoryStore::new();
    store.put(&task(1, "a")).unwrap();
    add(&mut store, &vec![oid(1)]).unwrap();
    let s = status(&store, &vec![]).unwrap();
    assert_eq!(s.staged.len(), 1);
    assert!(s.unstaged.is_empty());
}

#[test]
fn an_edit_after_staging_shows_as_unstaged_on_top_of_the_stage() {
    let mut store = MemoryStore::new();
    store.put(&task(1, "a")).unwrap();
    add(&mut store, &vec![oid(1)]).unwrap();
    retitle(&mut store, &oid(1), "b");
    let s = status(&store, &vec![]).unwrap();
    assert_eq!(s.staged[0].after.as_ref().unwrap().base().subject, "a");
    assert_eq!(s.unstaged[0].op, Op::Update);
    assert_eq!(s.unstaged[0].after.as_ref().unwrap().base().subject, "b");
}

#[test]
fn unpushed_counts_per_remote() {
    let mut store = MemoryStore::new();
    store.put(&task(1, "a")).unwrap();
    add(&mut store, &vec![oid(1)]).unwrap();
    commit(&mut store, &FixedClock(date(2026, 9, 18)), &mut FixedRandom(5), "m").unwrap();
    let remote = todoist();
    let s = status(&store, &vec![remote.clone()]).unwrap();
    assert_eq!(s.unpushed.len(), 1);
    assert_eq!(s.unpushed[0].0, remote);
    assert_eq!(s.unpushed[0].1, 1);
}

#[test]
fn a_working_delete_not_yet_staged_shows_as_an_unstaged_delete() {
    let mut store = MemoryStore::new();
    store.put(&task(1, "a")).unwrap();
    add(&mut store, &vec![oid(1)]).unwrap();
    commit(&mut store, &FixedClock(date(2026, 9, 18)), &mut FixedRandom(5), "m").unwrap();
    store.delete(&oid(1)).unwrap();
    let s = diff_working(&store).unwrap();
    assert_eq!(s.len(), 1);
    assert_eq!(s[0].op, Op::Delete);
    let staged = add_all(&mut store).unwrap();
    assert_eq!(staged.len(), 1);
    assert_eq!(staged[0].op, Op::Delete);
}

// ---------------------------------------------------------------------------
// Restoring.

#[test]
fn a_working_edit_goes_back_to_the_last_commit() {
    let mut store = MemoryStore::new();
    let id = committed_task(&mut store, 1);
    retitle(&mut store, &id, "edited");
    let out = restore(&mut store, &vec![id.clone()]).unwrap();
    assert_eq!(out.len(), 1);
    assert!(out[0].changed);
    assert_eq!(subject_of(&store, &id), "t1");
}

#[test]
fn a_working_delete_comes_back() {
    let mut store = MemoryStore::new();
    let id = committed_task(&mut store, 1);
    store.delete(&id).unwrap();
    restore(&mut store, &vec![id.clone()]).unwrap();
    assert_eq!(subject_of(&store, &id), "t1");
}

#[test]
fn a_staged_change_is_unstaged_and_discarded_together() {
    let mut store = MemoryStore::new();
    let id = committed_task(&mut store, 1);
    retitle(&mut store, &id, "edited");
    add(&mut store, &vec![id.clone()]).unwrap();
    assert_eq!(store.staged().unwrap().len(), 1);
    restore(&mut store, &vec![id.clone()]).unwrap();
    assert!(store.staged().unwrap().is_empty());
    assert_eq!(subject_of(&store, &id), "t1");
}

#[test]
fn an_object_with_no_commit_behind_it_is_refused_naming_it() {
    let mut store = MemoryStore::new();
    let id = oid(7);
    store.put(&task(7, "fresh")).unwrap();
    let err = restore(&mut store, &vec![id.clone()]).unwrap_err();
    assert_eq!(err, UseCaseError::Refused(Refusal::NotCommitted(id.clone())));
    assert!(err.message().contains(&id.short()), "{}", err.message());
}

#[test]
fn an_unchanged_object_is_a_no_op_that_says_so() {
    let mut store = MemoryStore::new();
    let id = committed_task(&mut store, 1);
    let out = restore(&mut store, &vec![id.clone()]).unwrap();
    assert!(!out[0].changed);
    assert_eq!(subject_of(&store, &id), "t1");
}

#[test]
fn a_refusal_leaves_every_other_named_object_alone() {
    let mut store = MemoryStore::new();
    let good = committed_task(&mut store, 1);
    let fresh = oid(7);
    store.put(&task(7, "fresh")).unwrap();
    retitle(&mut store, &good, "edited");
    restore(&mut store, &vec![good.clone(), fresh]).unwrap_err();
    assert_eq!(subject_of(&store, &good), "edited", "the whole command refuses before any object is written");
}

#[test]
fn a_stale_stage_is_cleared_even_when_the_working_copy_already_matches() {
    let mut store = MemoryStore::new();
    let id = committed_task(&mut store, 1);
    retitle(&mut store, &id, "edited");
    add(&mut store, &vec![id.clone()]).unwrap();
    retitle(&mut store, &id, "t1");
    let out = restore(&mut store, &vec![id.clone()]).unwrap();
    assert!(out[0].changed);
    assert!(store.staged().unwrap().is_empty());
}

#[test]
fn a_repeated_oid_is_restored_once() {
    let mut store = MemoryStore::new();
    let id = committed_task(&mut store, 1);
    retitle(&mut store, &id, "edited");
    let out = restore(&mut store, &vec![id.clone(), id.clone()]).unwrap();
    assert_eq!(out.len(), 1);
    assert!(out[0].changed);
}

// ---------------------------------------------------------------------------
// Moving and removing.

#[test]
fn moving_a_parent_carries_its_descendants() {
    let mut store = MemoryStore::new();
    let p = put_at(&mut store, 1, "a/p");
    let c = put_at(&mut store, 2, "a/p/c");
    let g = put_at(&mut store, 3, "a/p/c/g");
    relocate(&mut store, &p, &Path::parse("b").unwrap()).unwrap();
    assert_eq!(path_of(&store, &p), "b/p/");
    assert_eq!(path_of(&store, &c), "b/p/c/");
    assert_eq!(path_of(&store, &g), "b/p/c/g/");
}

#[test]
fn moving_into_yourself_is_refused() {
    let mut store = MemoryStore::new();
    let p = put_at(&mut store, 1, "a/p");
    let err = relocate(&mut store, &p, &Path::parse("a/p/c").unwrap()).unwrap_err();
    assert_eq!(err, UseCaseError::Refused(Refusal::MoveInsideItself(p)));
}

#[test]
fn a_top_level_object_lands_exactly_at_the_destination() {
    let mut store = MemoryStore::new();
    let x = put_at(&mut store, 1, "");
    relocate(&mut store, &x, &Path::parse("work").unwrap()).unwrap();
    assert_eq!(path_of(&store, &x), "work/");
}

#[test]
fn relocating_a_missing_object_is_refused() {
    let mut store = MemoryStore::new();
    let err = relocate(&mut store, &oid(9), &Path::parse("work").unwrap()).unwrap_err();
    assert!(matches!(err, UseCaseError::Refused(Refusal::NoSuchObject(_))));
}

#[test]
fn moving_an_object_carries_its_descendants() {
    let mut store = MemoryStore::new();
    let c = put_at(&mut store, 2, "p/c");
    let g = put_at(&mut store, 3, "p/c/g");
    move_subtree(&mut store, &c, &Path::parse("c").unwrap()).unwrap();
    assert_eq!(path_of(&store, &c), "c/");
    assert_eq!(path_of(&store, &g), "c/g/");
}

#[test]
fn moving_a_leaf_touches_only_itself() {
    let mut store = MemoryStore::new();
    let c = put_at(&mut store, 2, "p/c");
    let other = put_at(&mut store, 4, "p/d");
    move_subtree(&mut store, &c, &Path::parse("elsewhere").unwrap()).unwrap();
    assert_eq!(path_of(&store, &c), "elsewhere/");
    assert_eq!(path_of(&store, &other), "p/d/");
}

#[test]
fn plan_lists_descendants_dependents_and_attached() {
    let mut store = MemoryStore::new();
    let p = put_at(&mut store, 1, "p");
    let c = put_at(&mut store, 2, "p/c");
    let d = put_at(&mut store, 3, "");
    let mut dep = store.get(&d).unwrap().unwrap();
    dep.base_mut().depends.push(p.clone());
    store.put(&dep).unwrap();
    let plan = plan_remove(&store, &p).unwrap();
    assert_eq!(plan.descendants, vec![c]);
    assert_eq!(plan.dependents, vec![d]);
    assert!(plan.attached.is_empty());
}

#[test]
fn remove_moves_children_up_and_drops_dependency_edges() {
    let mut store = MemoryStore::new();
    let p = put_at(&mut store, 1, "top/p");
    let c = put_at(&mut store, 2, "top/p/c");
    let d = put_at(&mut store, 3, "");
    let mut dep = store.get(&d).unwrap().unwrap();
    dep.base_mut().depends.push(p.clone());
    store.put(&dep).unwrap();
    remove(&mut store, &p).unwrap();
    assert!(store.get(&p).unwrap().is_none());
    assert_eq!(path_of(&store, &c), "top/c/");
    assert!(store.get(&d).unwrap().unwrap().base().depends.is_empty());
}

#[test]
fn removing_a_missing_object_is_refused() {
    let mut store = MemoryStore::new();
    let err = remove(&mut store, &oid(5)).unwrap_err();
    assert!(matches!(err, UseCaseError::Refused(Refusal::NoSuchObject(_))));
}

// ---------------------------------------------------------------------------
// Resolving a conflict.

fn conflicted() -> MemoryStore {
    let mut store = MemoryStore::new();
    store.put(&task(1, "mine")).unwrap();
    store.mark_conflict(&todoist(), &oid(1), &task(1, "theirs")).unwrap();
    store
}

#[test]
fn theirs_takes_the_upstream_version() {
    let mut store = conflicted();
    resolve(&mut store, &FixedClock(date(2026, 9, 18)), &mut FixedRandom(3), &oid(1), Side::Theirs).unwrap();
    assert_eq!(subject_of(&store, &oid(1)), "theirs");
    assert_eq!(store.committed(&oid(1)).unwrap().unwrap().base().subject, "theirs");
    assert!(store.conflicts().unwrap().is_empty());
    let owed = store.unpushed(&todoist()).unwrap();
    assert_eq!(
        owed[0].changes[0].after.as_ref().unwrap().base().subject,
        "theirs",
        "what is owed upstream ends at theirs, so a push cannot send ours back"
    );
}

#[test]
fn resolving_with_ours_leaves_an_existing_unpushed_commit_untouched() {
    let mut store = MemoryStore::new();
    store.put(&task(1, "mine")).unwrap();
    let created = commit_all(&mut store, 1, "m");
    store.mark_conflict(&todoist(), &oid(1), &task(1, "theirs")).unwrap();
    resolve(&mut store, &FixedClock(date(2026, 9, 18)), &mut FixedRandom(3), &oid(1), Side::Ours).unwrap();
    let unpushed: Vec<CommitId> = store.unpushed(&todoist()).unwrap().into_iter().map(|c| c.id).collect();
    assert!(unpushed.contains(&created.id), "the commit that already carried ours is still owed to the remote");
}

#[test]
fn ours_keeps_the_local_version() {
    let mut store = conflicted();
    resolve(&mut store, &FixedClock(date(2026, 9, 18)), &mut FixedRandom(3), &oid(1), Side::Ours).unwrap();
    assert_eq!(subject_of(&store, &oid(1)), "mine");
    assert!(store.conflicts().unwrap().is_empty());
}

#[test]
fn resolving_a_non_conflict_is_refused() {
    let mut store = MemoryStore::new();
    let err = resolve(&mut store, &FixedClock(date(2026, 9, 18)), &mut FixedRandom(3), &oid(1), Side::Ours)
        .unwrap_err();
    assert!(matches!(err, UseCaseError::Refused(Refusal::NoSuchObject(_))));
}

fn upstream(subject: &str) -> IncomingObject {
    IncomingObject { remote_id: "r1".to_string(), object: task(0, subject) }
}

/// A real conflict: an object both sides moved away from the same base.
fn pulled_into_conflict() -> MemoryStore {
    let mut store = MemoryStore::new();
    store.put(&task(1, "base")).unwrap();
    commit_all(&mut store, 9, "base");
    store.map_remote_id(&todoist(), &oid(1), "r1").unwrap();
    store.set_remote_snapshot(&todoist(), &task(1, "base")).unwrap();
    retitle(&mut store, &oid(1), "mine");
    commit_all(&mut store, 10, "mine");
    let reports = pull(
        &mut store,
        &mut &launcher(vec![upstream("theirs")]),
        &mut EchoCredentials,
        &FixedClock(date(2026, 9, 18)),
        &mut FixedRandom(42),
        &config(),
        None,
    )
    .unwrap();
    assert_eq!(reports[0].conflicts, 1);
    store
}

#[test]
fn ours_is_committed_and_the_conflict_is_not_raised_again() {
    let mut store = pulled_into_conflict();
    resolve(&mut store, &FixedClock(date(2026, 9, 19)), &mut FixedRandom(3), &oid(1), Side::Ours).unwrap();
    let owed = store.unpushed(&todoist()).unwrap();
    let resolution = owed
        .iter()
        .find(|c| c.message.contains("with ours"))
        .expect("the resolution is a commit of its own");
    assert_eq!(resolution.changes[0].after.as_ref().unwrap().base().subject, "mine");

    let again = pull(
        &mut store,
        &mut &launcher(vec![upstream("theirs")]),
        &mut EchoCredentials,
        &FixedClock(date(2026, 9, 20)),
        &mut FixedRandom(43),
        &config(),
        None,
    )
    .unwrap();
    assert_eq!(again[0].conflicts, 0, "the conflict was raised again");
    assert_eq!(subject_of(&store, &oid(1)), "mine");

    let reports = push(&mut store, &mut &launcher(vec![]), &mut EchoCredentials, &today(), &config(), None).unwrap();
    assert_eq!(reports[0].sent, 1, "ours was sent upstream");
    assert_eq!(
        store.remote_snapshot(&todoist(), &oid(1)).unwrap().unwrap().base().subject,
        "mine",
        "the tracking snapshot moved off theirs"
    );
}

#[test]
fn theirs_leaves_only_theirs_owed_and_settles_the_conflict() {
    let mut store = pulled_into_conflict();
    resolve(&mut store, &FixedClock(date(2026, 9, 19)), &mut FixedRandom(3), &oid(1), Side::Theirs).unwrap();
    let l = launcher(vec![]);
    push(&mut store, &mut &l, &mut EchoCredentials, &today(), &config(), None).unwrap();
    for m in l.pushed.borrow().iter() {
        assert_eq!(
            m.object.as_ref().unwrap().base().subject,
            "theirs",
            "a push after resolving with theirs must not carry ours"
        );
    }
    let again = pull(
        &mut store,
        &mut &launcher(vec![upstream("theirs")]),
        &mut EchoCredentials,
        &FixedClock(date(2026, 9, 20)),
        &mut FixedRandom(43),
        &config(),
        None,
    )
    .unwrap();
    assert_eq!(again[0].conflicts, 0);
    assert_eq!(subject_of(&store, &oid(1)), "theirs");
}

// ---------------------------------------------------------------------------
// Creating objects.

fn new_task_input(subject: &str, labels: &[&str]) -> NewTask {
    NewTask {
        subject: subject.to_string(),
        path: Path::root(),
        priority: PRIORITY_LOWEST,
        due: None,
        deadline: None,
        labels: labels.iter().map(|s| s.to_string()).collect(),
        body: String::new(),
    }
}

fn effort() -> Categories {
    Categories::new(vec![Category {
        name: "effort".to_string(),
        values: vec!["light".to_string(), "deep".to_string()],
        exclusive: true,
    }])
    .unwrap()
}

#[test]
fn a_new_task_lands_in_working_with_a_generated_oid_and_nothing_staged() {
    let mut store = MemoryStore::new();
    let id = new_task(&mut store, &mut FixedRandom(7), &Categories::none(), new_task_input("milk", &[])).unwrap();
    assert_eq!(id, oid(7));
    assert_eq!(subject_of(&store, &id), "milk");
    assert!(store.staged().unwrap().is_empty());
    assert!(store.committed(&id).unwrap().is_none());
}

#[test]
fn labels_are_checked_against_categories() {
    let mut store = MemoryStore::new();
    let err = new_task(&mut store, &mut FixedRandom(1), &effort(), new_task_input("x", &["light", "deep"]))
        .unwrap_err();
    assert!(matches!(err, UseCaseError::Refused(Refusal::Labels(_))));
    assert!(store.all().unwrap().is_empty());
}

#[test]
fn a_new_task_keeps_each_label_once() {
    let mut store = MemoryStore::new();
    let id = new_task(&mut store, &mut FixedRandom(1), &effort(), new_task_input("x", &["deep", "errand", "deep"]))
        .unwrap();
    let labels = store.get(&id).unwrap().unwrap().base().labels.clone();
    assert_eq!(labels, vec!["deep".to_string(), "errand".to_string()]);
}

#[test]
fn a_new_event_lands_in_working() {
    let mut store = MemoryStore::new();
    let id = new_event(
        &mut store,
        &mut FixedRandom(2),
        &Categories::none(),
        NewEvent {
            subject: "dentist".to_string(),
            path: Path::root(),
            start: When::Day(date(2026, 9, 25)),
            end: When::Day(date(2026, 9, 26)),
            labels: vec![],
            body: String::new(),
        },
    )
    .unwrap();
    assert!(matches!(store.get(&id).unwrap(), Some(Object::Event(_))));
}

// ---------------------------------------------------------------------------
// Freshness.

const HOUR: u64 = 3600;

fn gcal_config() -> Config {
    let mut c = Config::empty();
    let mut r = remote_config("gcal");
    r.credentials = vec![];
    c.remotes.push(r);
    c
}

fn pulled_ago(seconds: i64) -> MemoryStore {
    let mut store = MemoryStore::new();
    let now = FixedClock(date(2026, 9, 18)).now();
    store
        .set_last_pull(&RemoteName("gcal".to_string()), Timestamp { seconds: now.seconds - seconds, nanos: now.nanos })
        .unwrap();
    store
}

fn check(store: &MemoryStore, remote: &str) -> Result<(), UseCaseError> {
    require_fresh(store, &FixedClock(date(2026, 9, 18)), &gcal_config(), &vec![(remote.to_string(), HOUR)])
}

#[test]
fn a_pull_inside_the_bound_answers() {
    assert_eq!(check(&pulled_ago(59 * 60), "gcal"), Ok(()));
}

#[test]
fn a_pull_older_than_the_bound_is_refused_with_its_age() {
    let refused = check(&pulled_ago(7200), "gcal").unwrap_err();
    assert_eq!(
        refused,
        UseCaseError::Refused(Refusal::StaleRemote { remote: "gcal".to_string(), age: Some(7200), limit: 3600 })
    );
    assert_eq!(
        refused.message(),
        "remote \"gcal\" last pulled 7200s ago, longer than --max-age allows (3600s); run dam pull gcal"
    );
}

#[test]
fn a_pull_exactly_as_old_as_the_bound_answers() {
    assert_eq!(check(&pulled_ago(3600), "gcal"), Ok(()));
}

#[test]
fn a_fraction_of_a_second_past_the_bound_still_answers() {
    let mut store = MemoryStore::new();
    let now = FixedClock(date(2026, 9, 18)).now();
    let at = Timestamp { seconds: now.seconds - 3601, nanos: 500_000_000 };
    store.set_last_pull(&RemoteName("gcal".to_string()), at).unwrap();
    assert_eq!(check(&store, "gcal"), Ok(()));
    let at = Timestamp { seconds: now.seconds - 3602, nanos: 500_000_000 };
    store.set_last_pull(&RemoteName("gcal".to_string()), at).unwrap();
    assert_eq!(
        check(&store, "gcal"),
        Err(UseCaseError::Refused(Refusal::StaleRemote { remote: "gcal".to_string(), age: Some(3601), limit: 3600 }))
    );
}

#[test]
fn a_pull_half_a_second_ahead_of_the_clock_reads_as_age_zero() {
    let mut store = MemoryStore::new();
    let now = FixedClock(date(2026, 9, 18)).now();
    let at = Timestamp { seconds: now.seconds, nanos: 500_000_000 };
    store.set_last_pull(&RemoteName("gcal".to_string()), at).unwrap();
    let bounds = vec![("gcal".to_string(), 0)];
    assert_eq!(require_fresh(&store, &FixedClock(date(2026, 9, 18)), &gcal_config(), &bounds), Ok(()));
}

#[test]
fn a_pull_from_the_future_reads_as_age_zero() {
    assert_eq!(check(&pulled_ago(-3600), "gcal"), Ok(()));
}

#[test]
fn every_bound_is_held_not_only_the_first() {
    let store = pulled_ago(7200);
    let bounds = vec![("gcal".to_string(), 3 * HOUR), ("gcal".to_string(), HOUR)];
    let refused = require_fresh(&store, &FixedClock(date(2026, 9, 18)), &gcal_config(), &bounds).unwrap_err();
    assert_eq!(
        refused,
        UseCaseError::Refused(Refusal::StaleRemote { remote: "gcal".to_string(), age: Some(7200), limit: 3600 })
    );
}

#[test]
fn a_remote_never_pulled_is_refused() {
    let refused = check(&MemoryStore::new(), "gcal").unwrap_err();
    assert_eq!(refused.message(), "remote \"gcal\" has never been pulled; run dam pull gcal");
}

#[test]
fn a_bound_on_a_remote_the_config_does_not_name_is_no_such_remote() {
    let refused = check(&MemoryStore::new(), "nope").unwrap_err();
    assert_eq!(refused, UseCaseError::Refused(Refusal::NoSuchRemote("nope".to_string())));
}

// ---------------------------------------------------------------------------
// Editing.

/// Reads any rule that starts with `every`; rolls by a day or by a week.
struct StepCalendar;

fn civil_from_days(z: i64) -> Date {
    let z = z + 719468;
    let era = if z >= 0 { z } else { z - 146096 } / 146097;
    let doe = z - era * 146097;
    let yoe = (doe - doe / 1460 + doe / 36524 - doe / 146096) / 365;
    let y = yoe + era * 400;
    let doy = doe - (365 * yoe + yoe / 4 - yoe / 100);
    let mp = (5 * doy + 2) / 153;
    let d = doy - (153 * mp + 2) / 5 + 1;
    let m = if mp < 10 { mp + 3 } else { mp - 9 };
    let y = if m <= 2 { y + 1 } else { y };
    Date { year: y as i16, month: m as u8, day: d as u8 }
}

fn day_number(d: Date) -> i64 {
    days_from_civil(d.year as i64, d.month as i64, d.day as i64)
}

impl Calendar for StepCalendar {
    fn rule_reads(&self, _rule: Text) -> bool {
        unreachable!("whether a rule reads is stated in proofs only")
    }
    fn rule_error(&self, _rule: Text) -> Text {
        unreachable!("why a rule does not read is stated in proofs only")
    }
    fn next_after(&self, _rule: Text, _from: When, _today: Date) -> Option<Date> {
        unreachable!("the next due date is stated in proofs only")
    }
    fn check_rule(&self, rule: &str) -> Result<(), String> {
        if rule.starts_with("every") {
            Ok(())
        } else {
            Err(format!("{rule:?} is not a recurrence rule"))
        }
    }
    fn next_due(&self, rule: &str, from: When, today: Date) -> Option<Date> {
        let step = if rule.contains("week") {
            7
        } else if rule.contains("day") {
            1
        } else {
            return None;
        };
        let start = match from {
            When::Day(d) => day_number(d),
            When::At(t) => t.seconds.div_euclid(86_400),
        };
        let mut next = start + step;
        while next <= day_number(today) {
            next += step;
        }
        Some(civil_from_days(next))
    }
}

fn edit_fields() -> EditFields {
    EditFields::none()
}

#[test]
fn subject_priority_and_due_are_set() {
    let mut store = MemoryStore::new();
    let id = seed(&mut store, 1);
    let mut f = edit_fields();
    f.subject = Some("new".to_string());
    f.priority = Some(PRIORITY_HIGHEST);
    f.due = Some(Some(When::Day(date(2026, 9, 25))));
    let out = edit(&mut store, &Categories::none(), &StepCalendar, &id, &f).unwrap();
    let t = out.as_task().unwrap();
    assert_eq!(t.base.subject, "new");
    assert_eq!(t.priority, PRIORITY_HIGHEST);
    assert_eq!(t.due, Some(When::Day(date(2026, 9, 25))));
    assert_eq!(store.get(&id).unwrap(), Some(out));
}

#[test]
fn some_none_clears_a_date() {
    let mut store = MemoryStore::new();
    let id = seed(&mut store, 1);
    let mut f = edit_fields();
    f.due = Some(Some(When::Day(date(2026, 9, 25))));
    edit(&mut store, &Categories::none(), &StepCalendar, &id, &f).unwrap();
    let mut f = edit_fields();
    f.due = Some(None);
    let out = edit(&mut store, &Categories::none(), &StepCalendar, &id, &f).unwrap();
    assert_eq!(out.as_task().unwrap().due, None);
}

#[test]
fn labels_are_added_removed_and_checked() {
    let cats = effort();
    let mut store = MemoryStore::new();
    let id = seed(&mut store, 1);
    let mut f = edit_fields();
    f.add_labels = vec!["deep".to_string(), "errand".to_string()];
    edit(&mut store, &cats, &StepCalendar, &id, &f).unwrap();
    let mut f = edit_fields();
    f.add_labels = vec!["light".to_string()];
    let err = edit(&mut store, &cats, &StepCalendar, &id, &f).unwrap_err();
    assert!(matches!(err, UseCaseError::Refused(Refusal::Labels(_))));
    let mut f = edit_fields();
    f.remove_labels = vec!["deep".to_string()];
    f.add_labels = vec!["light".to_string()];
    let out = edit(&mut store, &cats, &StepCalendar, &id, &f).unwrap();
    let labels = &out.base().labels;
    assert!(labels.contains(&"light".to_string()) && !labels.contains(&"deep".to_string()));
}

#[test]
fn a_dependency_cycle_is_refused() {
    let mut store = MemoryStore::new();
    let a = seed(&mut store, 1);
    let b = seed(&mut store, 2);
    let mut f = edit_fields();
    f.add_depends = vec![a.clone()];
    edit(&mut store, &Categories::none(), &StepCalendar, &b, &f).unwrap();
    let mut f = edit_fields();
    f.add_depends = vec![b.clone()];
    let err = edit(&mut store, &Categories::none(), &StepCalendar, &a, &f).unwrap_err();
    assert_eq!(err, UseCaseError::Refused(Refusal::Cycle { oid: a, path: vec![b, oid(1)] }));
}

#[test]
fn a_bad_recurrence_is_a_parse_error_and_a_good_one_is_kept() {
    let mut store = MemoryStore::new();
    let id = seed(&mut store, 1);
    let mut f = edit_fields();
    f.recurrence = Some(Some("weekly".to_string()));
    let err = edit(&mut store, &Categories::none(), &StepCalendar, &id, &f).unwrap_err();
    assert!(matches!(err, UseCaseError::Parse(_)));
    let mut f = edit_fields();
    f.recurrence = Some(Some("every! week".to_string()));
    let out = edit(&mut store, &Categories::none(), &StepCalendar, &id, &f).unwrap();
    assert_eq!(out.base().recurrence.as_deref(), Some("every! week"));
}

fn event(byte: u8, subject: &str) -> Object {
    Object::Event(Event::new(
        oid(byte),
        subject.to_string(),
        When::Day(date(2026, 1, 1)),
        When::Day(date(2026, 1, 2)),
    ))
}

#[test]
fn attach_needs_an_existing_event() {
    let mut store = MemoryStore::new();
    let id = seed(&mut store, 1);
    let mut f = edit_fields();
    f.attach = Some(Some(oid(9)));
    let err = edit(&mut store, &Categories::none(), &StepCalendar, &id, &f).unwrap_err();
    assert!(matches!(err, UseCaseError::Refused(Refusal::NoSuchObject(_))));
    store.put(&event(9, "e")).unwrap();
    let out = edit(&mut store, &Categories::none(), &StepCalendar, &id, &f).unwrap();
    assert_eq!(out.as_task().unwrap().event, Some(oid(9)));
}

#[test]
fn task_fields_on_an_event_are_refused() {
    let mut store = MemoryStore::new();
    store.put(&event(9, "e")).unwrap();
    let mut f = edit_fields();
    f.priority = Some(PRIORITY_HIGHEST);
    let err = edit(&mut store, &Categories::none(), &StepCalendar, &oid(9), &f).unwrap_err();
    assert_eq!(err, UseCaseError::Refused(Refusal::NotATask(oid(9))));
}

#[test]
fn event_fields_on_a_task_are_refused() {
    let mut store = MemoryStore::new();
    let id = seed(&mut store, 1);
    let mut f = edit_fields();
    f.location = Some(Some("Room 4".to_string()));
    let err = edit(&mut store, &Categories::none(), &StepCalendar, &id, &f).unwrap_err();
    assert_eq!(err, UseCaseError::Parse("start applies to events".to_string()));
}

#[test]
fn reopening_an_open_task_is_refused() {
    let mut store = MemoryStore::new();
    let id = seed(&mut store, 1);
    let mut f = edit_fields();
    f.undone = true;
    let err = edit(&mut store, &Categories::none(), &StepCalendar, &id, &f).unwrap_err();
    assert_eq!(err, UseCaseError::Refused(Refusal::NotCompleted(id)));
}

#[test]
fn an_edit_that_changes_nothing_gives_the_object_back() {
    let mut store = MemoryStore::new();
    let id = seed(&mut store, 1);
    let before = store.get(&id).unwrap().unwrap();
    let out = edit(&mut store, &Categories::none(), &StepCalendar, &id, &edit_fields()).unwrap();
    assert_eq!(out, before);
    assert_eq!(apply(&before, &edit_fields(), &StepCalendar).unwrap(), before);
}

// ---------------------------------------------------------------------------
// Completing.

fn put_task(store: &mut MemoryStore, byte: u8, path: &str, done: bool) -> Oid {
    let mut t = Task::new(oid(byte), format!("t{byte}"));
    t.base.path = Path::parse(path).unwrap();
    t.done = done;
    store.put(&Object::Task(t)).unwrap();
    oid(byte)
}

fn today() -> FixedClock {
    FixedClock(date(2026, 9, 18))
}

fn is_done(store: &MemoryStore, id: &Oid) -> bool {
    store.get(id).unwrap().unwrap().as_task().unwrap().done
}

fn complete_with(store: &mut MemoryStore, id: &Oid, force: Force, d: Option<Dispositions>) -> Result<Completed, UseCaseError> {
    complete(store, &today(), &StepCalendar, &mut FixedRandom(9), id, force, d)
}

#[test]
fn an_unblocked_task_is_done() {
    let mut store = MemoryStore::new();
    let id = put_task(&mut store, 1, "", false);
    assert!(plan_complete(&store, &id).unwrap().blockers.is_empty());
    assert_eq!(complete_with(&mut store, &id, Force::No, None).unwrap(), Completed::Done);
    assert!(is_done(&store, &id));
}

#[test]
fn open_children_and_dependencies_block_and_force_no_refuses() {
    let mut store = MemoryStore::new();
    let parent = put_task(&mut store, 1, "p", false);
    let child = put_task(&mut store, 2, "p/c", false);
    let dep = put_task(&mut store, 3, "", false);
    let mut p = store.get(&parent).unwrap().unwrap();
    p.base_mut().depends.push(dep.clone());
    store.put(&p).unwrap();
    let plan = plan_complete(&store, &parent).unwrap();
    assert_eq!(plan.blockers, vec![Blocker::OpenDependency(dep.clone()), Blocker::OpenChild(child.clone())]);
    let err = complete_with(&mut store, &parent, Force::No, None).unwrap_err();
    assert!(matches!(err, UseCaseError::Refused(Refusal::Blocked { .. })));
    assert!(!is_done(&store, &parent));
}

#[test]
fn done_children_do_not_block() {
    let mut store = MemoryStore::new();
    let parent = put_task(&mut store, 1, "p", false);
    put_task(&mut store, 2, "p/c", true);
    assert!(plan_complete(&store, &parent).unwrap().blockers.is_empty());
}

#[test]
fn force_yes_completes_and_leaves_children_where_they_are() {
    let mut store = MemoryStore::new();
    let parent = put_task(&mut store, 1, "p", false);
    let child = put_task(&mut store, 2, "p/c", false);
    complete_with(&mut store, &parent, Force::Yes, None).unwrap();
    assert!(is_done(&store, &parent));
    assert_eq!(path_of(&store, &child), "p/c/");
}

fn answer(children: ChildDisposition, dependencies: DependencyDisposition) -> Option<Dispositions> {
    Some(Dispositions { children, dependencies })
}

#[test]
fn interactive_up_moves_children_beside_the_parent() {
    let mut store = MemoryStore::new();
    let parent = put_task(&mut store, 1, "top/p", false);
    let child = put_task(&mut store, 2, "top/p/c", false);
    complete_with(&mut store, &parent, Force::Interactive, answer(ChildDisposition::Up, DependencyDisposition::Keep))
        .unwrap();
    assert_eq!(path_of(&store, &child), "top/c/");
}

#[test]
fn interactive_into_groups_children_under_a_new_task() {
    let mut store = MemoryStore::new();
    let parent = put_task(&mut store, 1, "p", false);
    let child = put_task(&mut store, 2, "p/c", false);
    complete_with(
        &mut store,
        &parent,
        Force::Interactive,
        answer(ChildDisposition::Into("leftovers".to_string()), DependencyDisposition::Keep),
    )
    .unwrap();
    let group = store.get(&oid(9)).unwrap().unwrap();
    assert_eq!(group.base().subject, "leftovers");
    assert_eq!(group.base().path.as_str(), "leftovers/");
    assert_eq!(path_of(&store, &child), "leftovers/c/");
}

#[test]
fn interactive_up_carries_a_grandchild_along() {
    let mut store = MemoryStore::new();
    let parent = put_task(&mut store, 1, "p", false);
    let child = put_task(&mut store, 2, "p/c", false);
    let grandchild = put_task(&mut store, 4, "p/c/g", false);
    complete_with(&mut store, &parent, Force::Interactive, answer(ChildDisposition::Up, DependencyDisposition::Keep))
        .unwrap();
    assert_eq!(path_of(&store, &child), "c/");
    assert_eq!(path_of(&store, &grandchild), "c/g/");
}

#[test]
fn interactive_into_carries_a_grandchild_along() {
    let mut store = MemoryStore::new();
    let parent = put_task(&mut store, 1, "p", false);
    let child = put_task(&mut store, 2, "p/c", false);
    let grandchild = put_task(&mut store, 4, "p/c/g", false);
    complete_with(
        &mut store,
        &parent,
        Force::Interactive,
        answer(ChildDisposition::Into("later".to_string()), DependencyDisposition::Keep),
    )
    .unwrap();
    assert_eq!(path_of(&store, &child), "later/c/");
    assert_eq!(path_of(&store, &grandchild), "later/c/g/");
}

#[test]
fn interactive_into_with_no_open_children_creates_no_group() {
    let mut store = MemoryStore::new();
    let id = put_task(&mut store, 1, "", false);
    let dep = put_task(&mut store, 3, "", false);
    let mut t = store.get(&id).unwrap().unwrap();
    t.base_mut().depends.push(dep);
    store.put(&t).unwrap();
    complete_with(
        &mut store,
        &id,
        Force::Interactive,
        answer(ChildDisposition::Into("later".to_string()), DependencyDisposition::Keep),
    )
    .unwrap();
    assert!(store.get(&oid(9)).unwrap().is_none());
}

#[test]
fn interactive_drop_removes_open_dependencies() {
    let mut store = MemoryStore::new();
    let id = put_task(&mut store, 1, "", false);
    let dep = put_task(&mut store, 3, "", false);
    let mut t = store.get(&id).unwrap().unwrap();
    t.base_mut().depends.push(dep);
    store.put(&t).unwrap();
    complete_with(&mut store, &id, Force::Interactive, answer(ChildDisposition::Keep, DependencyDisposition::Drop))
        .unwrap();
    let t = store.get(&id).unwrap().unwrap();
    assert!(t.base().depends.is_empty() && t.as_task().unwrap().done);
}

#[test]
fn a_recurring_task_rolls_forward_instead_of_closing() {
    let mut store = MemoryStore::new();
    let id = put_task(&mut store, 1, "", false);
    let mut t = store.get(&id).unwrap().unwrap();
    t.base_mut().recurrence = Some("every week".to_string());
    if let Object::Task(task) = &mut t {
        task.due = Some(When::Day(date(2026, 9, 18)));
    }
    store.put(&t).unwrap();
    let out = complete_with(&mut store, &id, Force::No, None).unwrap();
    assert_eq!(out, Completed::RolledForward { next_due: date(2026, 9, 25) });
    let t = store.get(&id).unwrap().unwrap();
    assert!(!t.as_task().unwrap().done);
    assert_eq!(t.as_task().unwrap().due, Some(When::Day(date(2026, 9, 25))));
}

#[test]
fn an_event_is_not_a_task() {
    let mut store = MemoryStore::new();
    store.put(&event(5, "e")).unwrap();
    let err = complete_with(&mut store, &oid(5), Force::No, None).unwrap_err();
    assert_eq!(err, UseCaseError::Refused(Refusal::NotATask(oid(5))));
}

#[test]
fn a_store_error_while_checking_a_dependency_propagates() {
    let mut store = MemoryStore::new();
    let id = put_task(&mut store, 1, "", false);
    let dep = put_task(&mut store, 3, "", false);
    let mut t = store.get(&id).unwrap().unwrap();
    t.base_mut().depends.push(dep.clone());
    store.put(&t).unwrap();
    store.failing_read = Some(dep);
    assert!(matches!(plan_complete(&store, &id), Err(UseCaseError::Store(_))));
}

#[test]
fn completing_an_already_completed_task_changes_nothing() {
    let mut store = MemoryStore::new();
    let id = put_task(&mut store, 1, "", false);
    complete_with(&mut store, &id, Force::No, None).unwrap();
    let after_first = store.get(&id).unwrap().unwrap();
    complete(&mut store, &FixedClock(date(2026, 9, 19)), &StepCalendar, &mut FixedRandom(1), &id, Force::No, None)
        .unwrap();
    assert_eq!(store.get(&id).unwrap().unwrap(), after_first);
}

#[test]
fn completing_a_missing_object_is_refused() {
    let mut store = MemoryStore::new();
    let err = complete_with(&mut store, &oid(4), Force::No, None).unwrap_err();
    assert!(matches!(err, UseCaseError::Refused(Refusal::NoSuchObject(_))));
}

// ---------------------------------------------------------------------------
// Pulling.

fn pull_launcher(answer: PullOutcome) -> ScriptedLauncher {
    launcher_with(task_caps(), answer, Rc::new(|_: &[RemoteMutation]| vec![]))
}

fn incoming(subject: &str, remote_id: &str) -> IncomingObject {
    IncomingObject { remote_id: remote_id.to_string(), object: task(0, subject) }
}

fn answer_with(objects: Vec<IncomingObject>, removed: Vec<&str>, sync: Option<&str>) -> PullOutcome {
    PullOutcome {
        objects,
        rejected: vec![],
        removed: removed.iter().map(|s| s.to_string()).collect(),
        cancelled: vec![],
        sync: sync.map(|s| s.to_string()),
    }
}

fn pull_from(store: &mut MemoryStore, l: &ScriptedLauncher, byte: u8) -> Result<Vec<dam_application::use_cases::pull::PullReport>, UseCaseError> {
    pull(store, &mut &*l, &mut EchoCredentials, &FixedClock(date(2026, 9, 18)), &mut FixedRandom(byte), &config(), None)
}

/// `object` as pulled and committed: working, committed and the remote's
/// snapshot agree, and `remote_id` maps to it.
fn pulled_object(store: &mut MemoryStore, object: &Object, remote_id: &str, byte: u8) {
    store.put(object).unwrap();
    commit_all(store, byte, "pulled");
    store.map_remote_id(&todoist(), object.oid(), remote_id).unwrap();
    store.set_remote_snapshot(&todoist(), object).unwrap();
}

#[test]
fn a_new_upstream_object_is_created_locally_with_a_fresh_oid_and_mapped() {
    let mut store = MemoryStore::new();
    let l = pull_launcher(answer_with(vec![incoming("from todoist", "r1")], vec![], Some("s1")));
    let reports = pull_from(&mut store, &l, 42).unwrap();
    assert_eq!(reports[0].created, 1);
    let local = store.get(&oid(42)).unwrap().unwrap();
    assert_eq!(local.base().subject, "from todoist");
    assert_eq!(store.committed(&oid(42)).unwrap(), Some(local));
    assert_eq!(store.oid_for_remote_id(&todoist(), "r1").unwrap(), Some(oid(42)));
    assert_eq!(store.sync_token(&todoist()).unwrap().as_deref(), Some("s1"));
}

#[test]
fn a_fast_forward_updates_a_clean_local_object() {
    let mut store = MemoryStore::new();
    pulled_object(&mut store, &task(1, "old"), "r1", 9);
    let l = pull_launcher(answer_with(vec![incoming("new", "r1")], vec![], None));
    let reports = pull_from(&mut store, &l, 42).unwrap();
    assert_eq!(reports[0].updated, 1);
    assert_eq!(subject_of(&store, &oid(1)), "new");
    assert_eq!(store.committed(&oid(1)).unwrap().unwrap().base().subject, "new");
}

#[test]
fn dam_only_fields_survive_a_pull() {
    let mut store = MemoryStore::new();
    let mut t = Task::new(oid(1), "old".to_string());
    t.base.depends.push(oid(7));
    pulled_object(&mut store, &Object::Task(t), "r1", 9);
    let l = pull_launcher(answer_with(vec![incoming("new", "r1")], vec![], None));
    pull_from(&mut store, &l, 42).unwrap();
    assert_eq!(store.get(&oid(1)).unwrap().unwrap().base().depends, vec![oid(7)]);
}

#[test]
fn both_sides_changed_is_a_conflict_and_nothing_is_overwritten() {
    let mut store = MemoryStore::new();
    pulled_object(&mut store, &task(1, "base"), "r1", 9);
    retitle(&mut store, &oid(1), "mine");
    commit_all(&mut store, 10, "m2");
    let l = pull_launcher(answer_with(vec![incoming("theirs", "r1")], vec![], None));
    let reports = pull_from(&mut store, &l, 42).unwrap();
    assert_eq!(reports[0].conflicts, 1);
    assert_eq!(subject_of(&store, &oid(1)), "mine");
    let c = &store.conflicts().unwrap()[0];
    assert_eq!(c.theirs.base().subject, "theirs");
}

#[test]
fn uncommitted_local_work_stops_the_pull_before_anything_is_written() {
    let mut store = MemoryStore::new();
    pulled_object(&mut store, &task(1, "base"), "r1", 9);
    retitle(&mut store, &oid(1), "unsaved");
    let l = pull_launcher(answer_with(vec![incoming("theirs", "r1"), incoming("brand new", "r2")], vec![], Some("s9")));
    let err = pull_from(&mut store, &l, 42).unwrap_err();
    assert_eq!(err, UseCaseError::Refused(Refusal::DirtyOnPull { oid: oid(1) }));
    assert!(store.oid_for_remote_id(&todoist(), "r2").unwrap().is_none());
    assert!(store.sync_token(&todoist()).unwrap().is_none());
}

#[test]
fn a_pull_asks_from_where_the_last_one_stopped() {
    let mut store = MemoryStore::new();
    let l = pull_launcher(answer_with(vec![], vec![], Some("s1")));
    pull_from(&mut store, &l, 1).unwrap();
    pull_from(&mut store, &l, 2).unwrap();
    assert_eq!(*l.pulled_since.borrow(), vec![None, Some("s1".to_string())]);
}

#[test]
fn a_pull_from_an_unknown_remote_is_refused() {
    let mut store = MemoryStore::new();
    let l = pull_launcher(empty_pull());
    let err = pull(
        &mut store,
        &mut &l,
        &mut EchoCredentials,
        &FixedClock(date(2026, 9, 18)),
        &mut FixedRandom(1),
        &config(),
        Some("gcal"),
    )
    .unwrap_err();
    assert_eq!(err, UseCaseError::Refused(Refusal::NoSuchRemote("gcal".to_string())));
}

fn meeting() -> Event {
    Event::new(oid(5), "meeting".to_string(), When::Day(date(2026, 9, 25)), When::Day(date(2026, 9, 26)))
}

fn event_caps(fields: Vec<Field>) -> RemoteCapabilities {
    let mut caps = task_caps();
    caps.kinds = vec![Kind::Event];
    caps.fields = fields;
    caps
}

fn cancelling_with(ids: &[&str], fields: Vec<Field>) -> ScriptedLauncher {
    let mut answer = empty_pull();
    answer.cancelled = ids.iter().map(|s| s.to_string()).collect();
    launcher_with(event_caps(fields), answer, Rc::new(|_: &[RemoteMutation]| vec![]))
}

fn cancelling(ids: &[&str]) -> ScriptedLauncher {
    cancelling_with(ids, vec![Field::Subject, Field::Start, Field::End, Field::Status])
}

fn event_of(store: &MemoryStore, id: &Oid) -> Event {
    match store.get(id).unwrap() {
        Some(Object::Event(e)) => e,
        other => panic!("not an event: {other:?}"),
    }
}

#[test]
fn a_cancelled_id_moves_the_event_it_maps_to_cancelled() {
    let mut store = MemoryStore::new();
    pulled_object(&mut store, &Object::Event(meeting()), "e1", 9);
    let reports = pull_from(&mut store, &cancelling(&["e1"]), 42).unwrap();
    assert_eq!(reports[0].updated, 1);
    let now = event_of(&store, &oid(5));
    assert_eq!(now.status, EventStatus::Cancelled);
    assert_eq!(now.base.subject, "meeting", "only the status moved");
    assert_eq!(store.oid_for_remote_id(&todoist(), "e1").unwrap(), Some(oid(5)), "still tracked");
}

#[test]
fn a_helper_that_does_not_declare_status_cancels_nothing() {
    let mut store = MemoryStore::new();
    pulled_object(&mut store, &Object::Event(meeting()), "e1", 9);
    let silent = cancelling_with(&["e1"], vec![Field::Subject, Field::Start, Field::End]);
    let reports = pull_from(&mut store, &silent, 42).unwrap();
    assert_eq!((reports[0].updated, reports[0].unchanged), (0, 1));
    assert_eq!(event_of(&store, &oid(5)).status, EventStatus::Confirmed);
}

#[test]
fn a_cancelled_event_with_an_attached_task_is_reported_and_the_task_kept() {
    let mut store = MemoryStore::new();
    pulled_object(&mut store, &Object::Event(meeting()), "e1", 9);
    let mut prep = Task::new(oid(6), "prep".to_string());
    prep.event = Some(oid(5));
    store.put(&Object::Task(prep)).unwrap();
    pull_from(&mut store, &cancelling(&["e1"]), 42).unwrap();
    assert!(matches!(store.notices().unwrap().last(), Some(Notice::EventCancelled { attached: 1, .. })));
    assert!(store.get(&oid(6)).unwrap().is_some());
}

#[test]
fn an_id_dam_never_mapped_and_one_mapped_to_a_task_change_nothing() {
    let mut store = MemoryStore::new();
    store.put(&task(7, "a task")).unwrap();
    store.map_remote_id(&todoist(), &oid(7), "t1").unwrap();
    let reports = pull_from(&mut store, &cancelling(&["never-seen", "t1"]), 42).unwrap();
    let r = &reports[0];
    assert_eq!((r.created, r.updated, r.unchanged, r.conflicts), (0, 0, 0, 0), "{r:?}");
    assert!(matches!(store.get(&oid(7)).unwrap(), Some(Object::Task(_))));
}

#[test]
fn an_event_already_cancelled_is_unchanged() {
    let mut store = MemoryStore::new();
    let mut gone = meeting();
    gone.status = EventStatus::Cancelled;
    pulled_object(&mut store, &Object::Event(gone), "e1", 9);
    assert_eq!(pull_from(&mut store, &cancelling(&["e1"]), 42).unwrap()[0].unchanged, 1);
}

#[test]
fn an_uncommitted_local_edit_stops_the_pull_as_any_upstream_change_would() {
    let mut store = MemoryStore::new();
    pulled_object(&mut store, &Object::Event(meeting()), "e1", 9);
    let mut edited = meeting();
    edited.base.subject = "renamed here".to_string();
    store.put(&Object::Event(edited)).unwrap();
    assert!(matches!(
        pull_from(&mut store, &cancelling(&["e1"]), 42).unwrap_err(),
        UseCaseError::Refused(Refusal::DirtyOnPull { .. })
    ));
}

#[test]
fn a_committed_local_edit_and_a_cancellation_conflict_over_what_the_remote_held() {
    let mut store = MemoryStore::new();
    pulled_object(&mut store, &Object::Event(meeting()), "e1", 9);
    let mut edited = meeting();
    edited.base.subject = "renamed here".to_string();
    store.put(&Object::Event(edited)).unwrap();
    commit_all(&mut store, 10, "renamed");
    assert_eq!(pull_from(&mut store, &cancelling(&["e1"]), 42).unwrap()[0].conflicts, 1);
    let theirs = match &store.conflicts().unwrap()[0].theirs {
        Object::Event(e) => (e.base.subject.clone(), e.status),
        other => panic!("not an event: {other:?}"),
    };
    assert_eq!(theirs, ("meeting".to_string(), EventStatus::Cancelled));
}

#[test]
fn a_cancellation_for_an_event_with_no_snapshot_is_still_raised() {
    let mut store = MemoryStore::new();
    store.put(&Object::Event(meeting())).unwrap();
    commit_all(&mut store, 9, "pulled");
    store.map_remote_id(&todoist(), &oid(5), "e1").unwrap();
    assert_eq!(pull_from(&mut store, &cancelling(&["e1"]), 42).unwrap()[0].conflicts, 1);
}

fn an_event_upstream(subject: &str) -> IncomingObject {
    IncomingObject {
        remote_id: "r1".to_string(),
        object: Object::Event(Event::new(
            oid(1),
            subject.to_string(),
            When::Day(date(2026, 1, 1)),
            When::Day(date(2026, 1, 2)),
        )),
    }
}

#[test]
fn a_kind_change_upstream_keeps_ours_and_raises_a_notice() {
    let mut store = MemoryStore::new();
    store.put(&task(1, "mine")).unwrap();
    store.map_remote_id(&todoist(), &oid(1), "r1").unwrap();
    let l = pull_launcher(answer_with(vec![an_event_upstream("theirs")], vec![], None));
    let reports = pull_from(&mut store, &l, 42).unwrap();
    assert_eq!(reports[0].unchanged, 1);
    assert_eq!(store.get(&oid(1)).unwrap(), Some(task(1, "mine")));
    assert_eq!(
        store.notices().unwrap(),
        vec![Notice::KindChanged { oid: oid(1), ours: Kind::Task, theirs: Kind::Event }]
    );
}

#[test]
fn a_kind_change_is_noticed_once_however_often_it_is_pulled() {
    let mut store = MemoryStore::new();
    store.put(&task(1, "mine")).unwrap();
    store.map_remote_id(&todoist(), &oid(1), "r1").unwrap();
    let l = pull_launcher(answer_with(vec![an_event_upstream("theirs")], vec![], None));
    for _ in 0..2 {
        pull_from(&mut store, &l, 42).unwrap();
    }
    assert_eq!(store.notices().unwrap().len(), 1);
}

#[test]
fn a_removal_upstream_is_a_notice_not_a_deletion() {
    let mut store = MemoryStore::new();
    store.put(&task(1, "keep me")).unwrap();
    store.map_remote_id(&todoist(), &oid(1), "r1").unwrap();
    store.set_remote_snapshot(&todoist(), &task(1, "keep me")).unwrap();
    let l = pull_launcher(answer_with(vec![], vec!["r1"], None));
    let reports = pull_from(&mut store, &l, 42).unwrap();
    assert_eq!(reports[0].removed_upstream, 1);
    assert!(store.get(&oid(1)).unwrap().is_some());
    assert!(matches!(store.notices().unwrap()[0], Notice::RemovedUpstream { .. }));
    assert!(store.oid_for_remote_id(&todoist(), "r1").unwrap().is_none());
    assert!(store.remote_snapshot(&todoist(), &oid(1)).unwrap().is_none());
}

fn cancelled_meeting_upstream(event: &Event) -> ScriptedLauncher {
    let mut cancelled = event.copy();
    cancelled.status = EventStatus::Cancelled;
    let answer = answer_with(
        vec![IncomingObject { remote_id: "e1".to_string(), object: Object::Event(cancelled) }],
        vec![],
        None,
    );
    launcher_with(
        event_caps(vec![Field::Subject, Field::Status, Field::Start, Field::End]),
        answer,
        Rc::new(|_: &[RemoteMutation]| vec![]),
    )
}

fn meeting_on_new_year() -> Event {
    Event::new(oid(5), "meeting".to_string(), When::Day(date(2026, 1, 1)), When::Day(date(2026, 1, 2)))
}

#[test]
fn a_cancelled_event_with_attached_tasks_is_reported() {
    let mut store = MemoryStore::new();
    let event = meeting_on_new_year();
    store.put(&Object::Event(event.copy())).unwrap();
    store.map_remote_id(&todoist(), &oid(5), "e1").unwrap();
    store.set_remote_snapshot(&todoist(), &Object::Event(event.copy())).unwrap();
    let mut attached = Task::new(oid(6), "prep".to_string());
    attached.event = Some(oid(5));
    store.put(&Object::Task(attached)).unwrap();
    pull_from(&mut store, &cancelled_meeting_upstream(&event), 42).unwrap();
    assert!(matches!(store.notices().unwrap().last(), Some(Notice::EventCancelled { attached: 1, .. })));
    assert!(store.get(&oid(6)).unwrap().is_some());
}

#[test]
fn an_unrelated_staged_object_stays_staged_after_a_pull() {
    let mut store = MemoryStore::new();
    pulled_object(&mut store, &task(1, "base"), "r1", 9);
    store.put(&task(2, "unrelated")).unwrap();
    add_all(&mut store).unwrap();
    let l = pull_launcher(answer_with(vec![incoming("new", "r1")], vec![], None));
    pull_from(&mut store, &l, 42).unwrap();
    let staged: Vec<Oid> = store.staged().unwrap().iter().map(|c| c.oid.clone()).collect();
    assert_eq!(staged, vec![oid(2)]);
}

#[test]
fn a_cancelled_event_that_conflicts_still_raises_the_notice() {
    let mut store = MemoryStore::new();
    let event = meeting_on_new_year();
    pulled_object(&mut store, &Object::Event(event.copy()), "e1", 20);
    let mut edited = event.copy();
    edited.base.subject = "moved".to_string();
    store.put(&Object::Event(edited)).unwrap();
    commit_all(&mut store, 21, "m2");
    let mut attached = Task::new(oid(6), "prep".to_string());
    attached.event = Some(oid(5));
    store.put(&Object::Task(attached)).unwrap();
    let reports = pull_from(&mut store, &cancelled_meeting_upstream(&event), 42).unwrap();
    assert_eq!(reports[0].conflicts, 1);
    assert_eq!(store.conflicts().unwrap().len(), 1);
    assert!(matches!(store.notices().unwrap().last(), Some(Notice::EventCancelled { attached: 1, .. })));
}

#[test]
fn one_unconvertible_object_is_skipped_with_a_notice_and_the_rest_still_pull() {
    let mut store = MemoryStore::new();
    let mut answer = answer_with(vec![incoming("from todoist", "r-good")], vec![], Some("s1"));
    answer.rejected =
        vec![RejectedObject { remote_id: "r-bad".to_string(), why: "path: cannot read \"a//b/\"".to_string() }];
    let reports = pull_from(&mut store, &pull_launcher(answer), 1).unwrap();
    assert_eq!(reports[0].created, 1);
    let notices = store.notices().unwrap();
    assert!(notices.iter().any(|n| matches!(n, Notice::PullFailed { why, .. } if why.contains("r-bad"))));
    assert!(store.oid_for_remote_id(&todoist(), "r-bad").unwrap().is_none());
}

#[test]
fn a_pull_records_when_it_happened() {
    let mut store = MemoryStore::new();
    let clock = FixedClock(date(2026, 9, 18));
    pull(&mut store, &mut &pull_launcher(empty_pull()), &mut EchoCredentials, &clock, &mut FixedRandom(1), &config(), None)
        .unwrap();
    assert_eq!(store.last_pull(&todoist()).unwrap(), Some(clock.now()));
}

// ---------------------------------------------------------------------------
// Pushing.

fn push_launcher(answer: PushAnswer) -> ScriptedLauncher {
    launcher_with(task_caps(), empty_pull(), answer)
}

fn answering(ok: bool, remote_id: Option<&str>, why: Option<&str>) -> PushAnswer {
    let remote_id = remote_id.map(|s| s.to_string());
    let why = why.map(|s| s.to_string());
    Rc::new(move |ms: &[RemoteMutation]| {
        ms.iter()
            .map(|m| MutationOutcome { oid: m.oid.clone(), ok, remote_id: remote_id.clone(), why: why.clone() })
            .collect()
    })
}

fn silent() -> PushAnswer {
    Rc::new(|_: &[RemoteMutation]| vec![])
}

fn push_to(store: &mut MemoryStore, l: &ScriptedLauncher) -> Result<Vec<dam_application::use_cases::push::PushReport>, UseCaseError> {
    push(store, &mut &*l, &mut EchoCredentials, &today(), &config(), None)
}

#[test]
fn a_committed_create_is_sent_and_its_remote_id_is_mapped() {
    let mut store = MemoryStore::new();
    committed_task(&mut store, 1);
    let l = push_launcher(answering(true, Some("r1"), None));
    let reports = push_to(&mut store, &l).unwrap();
    assert_eq!(reports[0].succeeded, 1);
    assert_eq!(l.pushed.borrow()[0].op, MutationOp::Create);
    assert_eq!(store.remote_id(&todoist(), &oid(1)).unwrap().as_deref(), Some("r1"));
    assert!(store.unpushed(&todoist()).unwrap().is_empty());
    assert_eq!(
        *l.launched_with.borrow(),
        vec![vec![("api_token".to_string(), "t".to_string())]],
        "one helper process, launched with the token the remote's config declares"
    );
}

#[test]
fn a_retry_is_sent_as_an_update_of_the_committed_state() {
    let mut store = MemoryStore::new();
    committed_task(&mut store, 1);
    store.map_remote_id(&todoist(), &oid(1), "r1").unwrap();
    store.set_push_retries(&todoist(), &vec![oid(1)]).unwrap();
    let l = push_launcher(answering(true, None, None));
    push_to(&mut store, &l).unwrap();
    let sent = l.pushed.borrow();
    assert!(sent.iter().any(|m| m.op == MutationOp::Update && m.remote_id.as_deref() == Some("r1")));
    assert!(store.push_retries(&todoist()).unwrap().is_empty());
}

#[test]
fn a_successful_delete_clears_the_remote_mapping() {
    let mut store = MemoryStore::new();
    store.put(&task(1, "t1")).unwrap();
    let created = commit_all(&mut store, 1, "m");
    store.map_remote_id(&todoist(), &oid(1), "r1").unwrap();
    store.set_remote_snapshot(&todoist(), &task(1, "t1")).unwrap();
    store.mark_pushed(&todoist(), &created.id).unwrap();
    store.delete(&oid(1)).unwrap();
    commit_all(&mut store, 2, "rm");
    let l = push_launcher(answering(true, None, None));
    push_to(&mut store, &l).unwrap();
    assert_eq!(l.pushed.borrow()[0].op, MutationOp::Delete);
    assert!(store.remote_id(&todoist(), &oid(1)).unwrap().is_none());
    assert!(store.remote_snapshot(&todoist(), &oid(1)).unwrap().is_none());
}

#[test]
fn a_delete_with_no_remote_mapping_is_skipped() {
    let mut store = MemoryStore::new();
    store.put(&task(1, "t1")).unwrap();
    let created = commit_all(&mut store, 1, "m");
    store.mark_pushed(&todoist(), &created.id).unwrap();
    store.delete(&oid(1)).unwrap();
    commit_all(&mut store, 2, "rm");
    let l = push_launcher(silent());
    let reports = push_to(&mut store, &l).unwrap();
    assert_eq!(reports[0].skipped, 1);
    assert_eq!(reports[0].sent, 0);
    assert!(l.pushed.borrow().is_empty());
}

#[test]
fn an_event_is_skipped_by_a_task_only_helper() {
    let mut store = MemoryStore::new();
    store.put(&event(2, "e")).unwrap();
    commit_all(&mut store, 3, "m");
    let l = push_launcher(silent());
    let reports = push_to(&mut store, &l).unwrap();
    assert_eq!(reports[0].skipped, 1);
    assert!(l.pushed.borrow().is_empty());
}

#[test]
fn a_resend_after_an_unanswered_push_carries_the_first_attempt_s_key() {
    let mut store = MemoryStore::new();
    committed_task(&mut store, 1);
    let l = push_launcher(silent());
    push_to(&mut store, &l).unwrap();
    push_to(&mut store, &l).unwrap();
    let sent = l.pushed.borrow();
    assert_eq!(sent.len(), 2, "the mutation was sent twice: {sent:?}");
    assert_eq!(sent[0].idempotency_key, sent[1].idempotency_key, "the resend minted a fresh key");
    assert_eq!(sent[0].op, sent[1].op, "a resend of a create is still a create");
    assert!(!sent[0].idempotency_key.is_empty());
}

#[test]
fn two_successive_changes_to_one_object_carry_different_keys() {
    let mut store = MemoryStore::new();
    committed_task(&mut store, 1);
    let l = push_launcher(answering(true, Some("r1"), None));
    push_to(&mut store, &l).unwrap();
    store.put(&task(1, "second")).unwrap();
    add_all(&mut store).unwrap();
    commit(&mut store, &FixedClock(date(2026, 9, 19)), &mut FixedRandom(9), "m2").unwrap();
    push_to(&mut store, &l).unwrap();
    let sent = l.pushed.borrow();
    assert_eq!(sent.len(), 2);
    assert_ne!(sent[0].idempotency_key, sent[1].idempotency_key);
}

#[test]
fn a_push_that_reached_the_remote_records_when_it_did() {
    let mut store = MemoryStore::new();
    assert_eq!(store.last_push(&todoist()).unwrap(), None);
    committed_task(&mut store, 1);
    let l = push_launcher(answering(true, Some("r1"), None));
    push_to(&mut store, &l).unwrap();
    assert_eq!(store.last_push(&todoist()).unwrap(), Some(today().now()));
}

#[test]
fn a_push_with_nothing_to_send_records_the_time_too() {
    let mut store = MemoryStore::new();
    let l = push_launcher(silent());
    push_to(&mut store, &l).unwrap();
    assert!(l.pushed.borrow().is_empty());
    assert_eq!(store.last_push(&todoist()).unwrap(), Some(today().now()));
}

#[test]
fn a_failed_mutation_becomes_a_notice_and_a_retry() {
    let mut store = MemoryStore::new();
    committed_task(&mut store, 1);
    let l = push_launcher(answering(false, None, Some("rate limited")));
    let reports = push_to(&mut store, &l).unwrap();
    assert_eq!(reports[0].failed, vec![(oid(1), "rate limited".to_string())]);
    assert_eq!(store.push_retries(&todoist()).unwrap(), vec![oid(1)]);
    assert!(matches!(store.notices().unwrap()[0], Notice::PushFailed { .. }));
    assert!(store.unpushed(&todoist()).unwrap().is_empty());
}

#[test]
fn a_mutation_the_helper_never_answered_is_a_failure() {
    let mut store = MemoryStore::new();
    committed_task(&mut store, 1);
    committed_task(&mut store, 2);
    let answer: PushAnswer = Rc::new(|ms: &[RemoteMutation]| {
        ms.iter()
            .filter(|m| m.oid == oid(1))
            .map(|m| MutationOutcome { oid: m.oid.clone(), ok: true, remote_id: Some("r1".to_string()), why: None })
            .collect()
    });
    let l = push_launcher(answer);
    let reports = push_to(&mut store, &l).unwrap();
    assert_eq!(reports[0].succeeded, 1);
    assert_eq!(reports[0].failed, vec![(oid(2), "no answer from helper".to_string())]);
    assert_eq!(store.push_retries(&todoist()).unwrap(), vec![oid(2)]);
    assert!(matches!(store.notices().unwrap()[0], Notice::PushFailed { .. }));
    let still_unpushed = store.unpushed(&todoist()).unwrap();
    assert_eq!(still_unpushed.len(), 1);
    assert!(still_unpushed[0].changes.iter().any(|c| c.oid == oid(2)));
}

#[test]
fn duplicate_and_unsent_results_are_ignored() {
    let mut store = MemoryStore::new();
    committed_task(&mut store, 1);
    let answer: PushAnswer = Rc::new(|_: &[RemoteMutation]| {
        vec![
            MutationOutcome { oid: oid(1), ok: false, remote_id: None, why: Some("first".to_string()) },
            MutationOutcome { oid: oid(1), ok: false, remote_id: None, why: Some("second".to_string()) },
            MutationOutcome { oid: oid(9), ok: false, remote_id: None, why: Some("unsent".to_string()) },
        ]
    });
    let l = push_launcher(answer);
    let reports = push_to(&mut store, &l).unwrap();
    assert_eq!(reports[0].succeeded, 0);
    assert_eq!(reports[0].failed.len(), 1);
    let retries = store.push_retries(&todoist()).unwrap();
    assert_eq!(retries, vec![oid(1)]);
    assert!(!retries.contains(&oid(9)));
}

#[test]
fn a_remote_that_declares_no_kinds_is_sent_nothing_and_owed_nothing() {
    let mut store = MemoryStore::new();
    committed_task(&mut store, 1);
    let mut caps = task_caps();
    caps.kinds = vec![];
    let answer: PushAnswer = Rc::new(|_: &[RemoteMutation]| -> Vec<MutationOutcome> {
        panic!("a remote that declares no kinds was sent a push")
    });
    let l = launcher_with(caps, empty_pull(), answer);
    let reports = push_to(&mut store, &l).unwrap();
    assert_eq!((reports[0].sent, reports[0].skipped), (0, 1));
    assert!(l.pushed.borrow().is_empty());
    assert!(store.unpushed(&todoist()).unwrap().is_empty(), "nothing stays owed to it");
    assert!(store.notices().unwrap().is_empty(), "nothing was refused, so nothing is reported");
}

#[test]
fn unresolved_conflicts_block_push() {
    let mut store = MemoryStore::new();
    committed_task(&mut store, 1);
    store.mark_conflict(&todoist(), &oid(1), &task(1, "theirs")).unwrap();
    let l = push_launcher(silent());
    let err = push_to(&mut store, &l).unwrap_err();
    assert_eq!(err, UseCaseError::Refused(Refusal::UnresolvedConflicts(1)));
    assert!(l.launched_with.borrow().is_empty());
}

#[test]
fn an_unknown_remote_is_refused() {
    let mut store = MemoryStore::new();
    let l = push_launcher(silent());
    let err = push(&mut store, &mut &l, &mut EchoCredentials, &today(), &config(), Some("nope")).unwrap_err();
    assert_eq!(err, UseCaseError::Refused(Refusal::NoSuchRemote("nope".to_string())));
}

#[test]
fn a_credential_the_config_does_not_supply_is_refused_by_name() {
    let mut store = MemoryStore::new();
    let mut config = config();
    config.remotes[0].credentials.clear();
    let l = push_launcher(silent());
    let err = push(&mut store, &mut &l, &mut EchoCredentials, &today(), &config, None).unwrap_err();
    assert_eq!(
        err,
        UseCaseError::Refused(Refusal::MissingCredential {
            remote: "todoist".to_string(),
            name: "api_token".to_string(),
        })
    );
    assert_eq!(l.launched_with.borrow().len(), 1, "one process, even when the capabilities it reported cannot be met");
}

// ---------------------------------------------------------------------------
// Idempotency keys.

const OBJECT: &str = "abcdef01234567890123456789abcdef01234567";
const COMMIT: &str = "fedcba98765432100123456789abcdef01234567";

fn parsed(text: &str) -> Oid {
    Oid::parse(text).unwrap()
}

fn commit_id(text: &str) -> CommitId {
    CommitId::parse(text).unwrap()
}

#[test]
fn a_key_is_uuid_shaped_with_the_last_character_reserved() {
    let k = key(Origin::Commit(&commit_id(COMMIT)), &parsed(OBJECT));
    assert_eq!(k.len(), 36);
    let groups: Vec<&str> = k.split('-').collect();
    assert_eq!(groups.iter().map(|g| g.len()).collect::<Vec<_>>(), vec![8, 4, 4, 4, 12]);
    assert!(k.chars().all(|c| c == '-' || c.is_ascii_hexdigit()), "{k}");
    assert!(k.ends_with('0'), "the ordinal character is free: {k}");
}

#[test]
fn a_key_is_spelled_from_the_commit_and_the_object() {
    assert_eq!(key(Origin::Commit(&commit_id(COMMIT)), &parsed(OBJECT)), "fedcba98-7654-4321-8abc-def012345670");
    assert_eq!(key(Origin::Retry, &parsed(OBJECT)), "9abcdef0-1234-5567-8abc-def012345670");
}

#[test]
fn the_same_change_yields_the_same_key_every_time() {
    let a = key(Origin::Commit(&commit_id(COMMIT)), &parsed(OBJECT));
    let b = key(Origin::Commit(&commit_id(COMMIT)), &parsed(OBJECT));
    assert_eq!(a, b);
}

#[test]
fn a_different_commit_object_or_origin_yields_a_different_key() {
    let base = key(Origin::Commit(&commit_id(COMMIT)), &parsed(OBJECT));
    let other_commit = key(Origin::Commit(&commit_id("0000000000000000000000000000000000000000")), &parsed(OBJECT));
    let other_object = key(Origin::Commit(&commit_id(COMMIT)), &parsed("1111111111111111111111111111111111111111"));
    let retry = key(Origin::Retry, &parsed(OBJECT));
    assert_ne!(base, other_commit);
    assert_ne!(base, other_object);
    assert_ne!(base, retry);
    assert_ne!(retry, key(Origin::Retry, &parsed("1111111111111111111111111111111111111111")));
    assert_eq!(retry, key(Origin::Retry, &parsed(OBJECT)));
}

#[test]
fn completing_a_task_records_when_it_happened() {
    let mut store = MemoryStore::new();
    let id = put_task(&mut store, 1, "", false);
    let clock = FixedClock(date(2026, 9, 18));
    assert_eq!(store.get(&id).unwrap().unwrap().as_task().unwrap().completed_at, None);
    complete(&mut store, &clock, &StepCalendar, &mut FixedRandom(1), &id, Force::No, None).unwrap();
    let task = store.get(&id).unwrap().unwrap();
    let task = task.as_task().unwrap();
    assert!(task.done);
    assert_eq!(task.completed_at, Some(clock.now()));
}

#[test]
fn a_task_that_rolls_forward_records_no_completion_time() {
    let mut store = MemoryStore::new();
    let mut t = Task::new(oid(1), "water the plants".to_string());
    t.base.recurrence = Some("every day".to_string());
    t.due = Some(When::Day(date(2026, 9, 18)));
    store.put(&Object::Task(t)).unwrap();
    let out = complete(&mut store, &FixedClock(date(2026, 9, 18)), &StepCalendar, &mut FixedRandom(1), &oid(1), Force::No, None)
        .unwrap();
    assert_eq!(out, Completed::RolledForward { next_due: date(2026, 9, 19) });
    let task = store.get(&oid(1)).unwrap().unwrap();
    let task = task.as_task().unwrap();
    assert!(!task.done);
    assert_eq!(task.completed_at, None);
}

#[test]
fn a_pull_never_moves_the_completion_time() {
    let mut store = MemoryStore::new();
    let mut t = Task::new(oid(1), "old".to_string());
    t.done = true;
    t.completed_at = Some(Timestamp { seconds: 100, nanos: 0 });
    pulled_object(&mut store, &Object::Task(t), "r1", 9);
    let l = pull_launcher(answer_with(vec![incoming("new", "r1")], vec![], None));
    pull_from(&mut store, &l, 42).unwrap();
    let now = store.get(&oid(1)).unwrap().unwrap();
    assert_eq!(now.base().subject, "new");
    assert_eq!(now.as_task().unwrap().completed_at, Some(Timestamp { seconds: 100, nanos: 0 }));
}
