//! A store seen only through its answers. A suite talks to the store
//! through a probe, which records every answer the store gives and promises
//! nothing else of it, so what a suite concludes rests on the answers it
//! observed and not on what the store is meant to do.

use vstd::prelude::*;

use crate::domain::{
    Change, ChangeView, CommitId, CommitRecord, CommitRecordView, Object, ObjectView, Oid, Path, Timestamp,
    change_views, oid_texts, opt_object, opt_oid_text, opt_text, record_views,
};
use crate::ports::{
    CommitRepository, Conflict, ConflictRepository, ConflictView, Modeled, Notice, NoticeRepository,
    NoticeView, ObjectRepository, RemoteName, RemoteTrackingRepository, StageRepository, StoreError,
    Transactional, conflict_views, notice_views, object_views,
};

verus! {

/// One answer a store gave, as a value.
pub enum Answer {
    /// A write went through.
    Done,
    /// A call failed, for the reason given.
    Failed(StoreError),
    /// An object, or none.
    Object(Option<ObjectView>),
    /// A list of objects, in the order given.
    Objects(Seq<ObjectView>),
    /// A list of oids, in the order given.
    Oids(Seq<Seq<char>>),
    /// A list of changes, in the order given.
    Changes(Seq<ChangeView>),
    /// A list of commits, in the order given.
    Records(Seq<CommitRecordView>),
    /// A text, or none.
    Text(Option<Seq<char>>),
    /// An instant, or none.
    Time(Option<Timestamp>),
    /// A list of conflicts, in the order given.
    Conflicts(Seq<ConflictView>),
    /// A list of notices, in the order given.
    Notices(Seq<NoticeView>),
}

/// A store, and every answer it has given through this probe.
pub struct Probe<S> {
    store: S,
    heard: Ghost<Seq<Answer>>,
}

impl<S> Probe<S> {
    /// Every answer the store has given through this probe, oldest first.
    pub closed spec fn heard(&self) -> Seq<Answer> {
        self.heard@
    }

    /// A probe on `store` that has heard nothing yet.
    pub fn new(store: S) -> (p: Probe<S>)
        ensures
            p.heard() == Seq::<Answer>::empty(),
    {
        Probe { store, heard: Ghost(Seq::empty()) }
    }

    /// The store the probe talks to.
    pub fn store(&self) -> &S {
        &self.store
    }
}

impl<S: Modeled> Probe<S> {
    /// Whether a unit of work the probe began is open.
    pub closed spec fn unit_open(&self) -> bool {
        self.store.model().unit is Some
    }
}

impl<S: ObjectRepository> Probe<S> {
    /// `get`, its answer recorded.
    pub fn get(&mut self, oid: &Oid) -> (r: Result<Option<Object>, StoreError>)
        ensures
            final(self).heard() == old(self).heard().push(
                match r {
                    Ok(v) => Answer::Object(opt_object(v)),
                    Err(e) => Answer::Failed(e),
                },
            ),
            final(self).unit_open() == old(self).unit_open(),
    {
        let r = self.store.get(oid);
        let ghost a = match &r {
            Ok(v) => Answer::Object(opt_object(*v)),
            Err(e) => Answer::Failed(*e),
        };
        self.heard = Ghost(self.heard@.push(a));
        r
    }

    /// `all`, its answer recorded.
    pub fn all(&mut self) -> (r: Result<Vec<Object>, StoreError>)
        ensures
            final(self).heard() == old(self).heard().push(
                match r {
                    Ok(v) => Answer::Objects(object_views(v@)),
                    Err(e) => Answer::Failed(e),
                },
            ),
            final(self).unit_open() == old(self).unit_open(),
    {
        let r = self.store.all();
        let ghost a = match &r {
            Ok(v) => Answer::Objects(object_views(v@)),
            Err(e) => Answer::Failed(*e),
        };
        self.heard = Ghost(self.heard@.push(a));
        r
    }

    /// `children_of`, its answer recorded.
    pub fn children_of(&mut self, path: &Path) -> (r: Result<Vec<Object>, StoreError>)
        ensures
            final(self).heard() == old(self).heard().push(
                match r {
                    Ok(v) => Answer::Objects(object_views(v@)),
                    Err(e) => Answer::Failed(e),
                },
            ),
            final(self).unit_open() == old(self).unit_open(),
    {
        let r = self.store.children_of(path);
        let ghost a = match &r {
            Ok(v) => Answer::Objects(object_views(v@)),
            Err(e) => Answer::Failed(*e),
        };
        self.heard = Ghost(self.heard@.push(a));
        r
    }

    /// `dependents_of`, its answer recorded.
    pub fn dependents_of(&mut self, oid: &Oid) -> (r: Result<Vec<Oid>, StoreError>)
        ensures
            final(self).heard() == old(self).heard().push(
                match r {
                    Ok(v) => Answer::Oids(oid_texts(v@)),
                    Err(e) => Answer::Failed(e),
                },
            ),
            final(self).unit_open() == old(self).unit_open(),
    {
        let r = self.store.dependents_of(oid);
        let ghost a = match &r {
            Ok(v) => Answer::Oids(oid_texts(v@)),
            Err(e) => Answer::Failed(*e),
        };
        self.heard = Ghost(self.heard@.push(a));
        r
    }

    /// `put`, its answer recorded.
    pub fn put(&mut self, object: &Object) -> (r: Result<(), StoreError>)
        ensures
            final(self).heard() == old(self).heard().push(
                match r {
                    Ok(v) => Answer::Done,
                    Err(e) => Answer::Failed(e),
                },
            ),
            final(self).unit_open() == old(self).unit_open(),
    {
        let r = self.store.put(object);
        let ghost a = match &r {
            Ok(v) => Answer::Done,
            Err(e) => Answer::Failed(*e),
        };
        self.heard = Ghost(self.heard@.push(a));
        r
    }

    /// `delete`, its answer recorded.
    pub fn delete(&mut self, oid: &Oid) -> (r: Result<(), StoreError>)
        ensures
            final(self).heard() == old(self).heard().push(
                match r {
                    Ok(v) => Answer::Done,
                    Err(e) => Answer::Failed(e),
                },
            ),
            final(self).unit_open() == old(self).unit_open(),
    {
        let r = self.store.delete(oid);
        let ghost a = match &r {
            Ok(v) => Answer::Done,
            Err(e) => Answer::Failed(*e),
        };
        self.heard = Ghost(self.heard@.push(a));
        r
    }

    /// `committed`, its answer recorded.
    pub fn committed(&mut self, oid: &Oid) -> (r: Result<Option<Object>, StoreError>)
        ensures
            final(self).heard() == old(self).heard().push(
                match r {
                    Ok(v) => Answer::Object(opt_object(v)),
                    Err(e) => Answer::Failed(e),
                },
            ),
            final(self).unit_open() == old(self).unit_open(),
    {
        let r = self.store.committed(oid);
        let ghost a = match &r {
            Ok(v) => Answer::Object(opt_object(*v)),
            Err(e) => Answer::Failed(*e),
        };
        self.heard = Ghost(self.heard@.push(a));
        r
    }

}

impl<S: StageRepository> Probe<S> {
    /// `stage`, its answer recorded.
    pub fn stage(&mut self, change: Change) -> (r: Result<(), StoreError>)
        ensures
            final(self).heard() == old(self).heard().push(
                match r {
                    Ok(v) => Answer::Done,
                    Err(e) => Answer::Failed(e),
                },
            ),
            final(self).unit_open() == old(self).unit_open(),
    {
        let r = self.store.stage(change);
        let ghost a = match &r {
            Ok(v) => Answer::Done,
            Err(e) => Answer::Failed(*e),
        };
        self.heard = Ghost(self.heard@.push(a));
        r
    }

    /// `unstage`, its answer recorded.
    pub fn unstage(&mut self, oid: &Oid) -> (r: Result<(), StoreError>)
        ensures
            final(self).heard() == old(self).heard().push(
                match r {
                    Ok(v) => Answer::Done,
                    Err(e) => Answer::Failed(e),
                },
            ),
            final(self).unit_open() == old(self).unit_open(),
    {
        let r = self.store.unstage(oid);
        let ghost a = match &r {
            Ok(v) => Answer::Done,
            Err(e) => Answer::Failed(*e),
        };
        self.heard = Ghost(self.heard@.push(a));
        r
    }

    /// `unstage_all`, its answer recorded.
    pub fn unstage_all(&mut self) -> (r: Result<(), StoreError>)
        ensures
            final(self).heard() == old(self).heard().push(
                match r {
                    Ok(v) => Answer::Done,
                    Err(e) => Answer::Failed(e),
                },
            ),
            final(self).unit_open() == old(self).unit_open(),
    {
        let r = self.store.unstage_all();
        let ghost a = match &r {
            Ok(v) => Answer::Done,
            Err(e) => Answer::Failed(*e),
        };
        self.heard = Ghost(self.heard@.push(a));
        r
    }

    /// `staged`, its answer recorded.
    pub fn staged(&mut self) -> (r: Result<Vec<Change>, StoreError>)
        ensures
            final(self).heard() == old(self).heard().push(
                match r {
                    Ok(v) => Answer::Changes(change_views(v@)),
                    Err(e) => Answer::Failed(e),
                },
            ),
            final(self).unit_open() == old(self).unit_open(),
    {
        let r = self.store.staged();
        let ghost a = match &r {
            Ok(v) => Answer::Changes(change_views(v@)),
            Err(e) => Answer::Failed(*e),
        };
        self.heard = Ghost(self.heard@.push(a));
        r
    }

}

impl<S: CommitRepository> Probe<S> {
    /// `commit`, its answer recorded.
    pub fn commit(&mut self, record: &CommitRecord) -> (r: Result<(), StoreError>)
        ensures
            final(self).heard() == old(self).heard().push(
                match r {
                    Ok(v) => Answer::Done,
                    Err(e) => Answer::Failed(e),
                },
            ),
            final(self).unit_open() == old(self).unit_open(),
    {
        let r = self.store.commit(record);
        let ghost a = match &r {
            Ok(v) => Answer::Done,
            Err(e) => Answer::Failed(*e),
        };
        self.heard = Ghost(self.heard@.push(a));
        r
    }

    /// `log`, its answer recorded.
    pub fn log(&mut self) -> (r: Result<Vec<CommitRecord>, StoreError>)
        ensures
            final(self).heard() == old(self).heard().push(
                match r {
                    Ok(v) => Answer::Records(record_views(v@)),
                    Err(e) => Answer::Failed(e),
                },
            ),
            final(self).unit_open() == old(self).unit_open(),
    {
        let r = self.store.log();
        let ghost a = match &r {
            Ok(v) => Answer::Records(record_views(v@)),
            Err(e) => Answer::Failed(*e),
        };
        self.heard = Ghost(self.heard@.push(a));
        r
    }

    /// `unpushed`, its answer recorded.
    pub fn unpushed(&mut self, remote: &RemoteName) -> (r: Result<Vec<CommitRecord>, StoreError>)
        ensures
            final(self).heard() == old(self).heard().push(
                match r {
                    Ok(v) => Answer::Records(record_views(v@)),
                    Err(e) => Answer::Failed(e),
                },
            ),
            final(self).unit_open() == old(self).unit_open(),
    {
        let r = self.store.unpushed(remote);
        let ghost a = match &r {
            Ok(v) => Answer::Records(record_views(v@)),
            Err(e) => Answer::Failed(*e),
        };
        self.heard = Ghost(self.heard@.push(a));
        r
    }

    /// `mark_pushed`, its answer recorded.
    pub fn mark_pushed(&mut self, remote: &RemoteName, id: &CommitId) -> (r: Result<(), StoreError>)
        ensures
            final(self).heard() == old(self).heard().push(
                match r {
                    Ok(v) => Answer::Done,
                    Err(e) => Answer::Failed(e),
                },
            ),
            final(self).unit_open() == old(self).unit_open(),
    {
        let r = self.store.mark_pushed(remote, id);
        let ghost a = match &r {
            Ok(v) => Answer::Done,
            Err(e) => Answer::Failed(*e),
        };
        self.heard = Ghost(self.heard@.push(a));
        r
    }

    /// `push_retries`, its answer recorded.
    pub fn push_retries(&mut self, remote: &RemoteName) -> (r: Result<Vec<Oid>, StoreError>)
        ensures
            final(self).heard() == old(self).heard().push(
                match r {
                    Ok(v) => Answer::Oids(oid_texts(v@)),
                    Err(e) => Answer::Failed(e),
                },
            ),
            final(self).unit_open() == old(self).unit_open(),
    {
        let r = self.store.push_retries(remote);
        let ghost a = match &r {
            Ok(v) => Answer::Oids(oid_texts(v@)),
            Err(e) => Answer::Failed(*e),
        };
        self.heard = Ghost(self.heard@.push(a));
        r
    }

    /// `set_push_retries`, its answer recorded.
    pub fn set_push_retries(&mut self, remote: &RemoteName, oids: &Vec<Oid>) -> (r: Result<(), StoreError>)
        ensures
            final(self).heard() == old(self).heard().push(
                match r {
                    Ok(v) => Answer::Done,
                    Err(e) => Answer::Failed(e),
                },
            ),
            final(self).unit_open() == old(self).unit_open(),
    {
        let r = self.store.set_push_retries(remote, oids);
        let ghost a = match &r {
            Ok(v) => Answer::Done,
            Err(e) => Answer::Failed(*e),
        };
        self.heard = Ghost(self.heard@.push(a));
        r
    }

}

impl<S: RemoteTrackingRepository> Probe<S> {
    /// `remote_id`, its answer recorded.
    pub fn remote_id(&mut self, remote: &RemoteName, oid: &Oid) -> (r: Result<Option<String>, StoreError>)
        ensures
            final(self).heard() == old(self).heard().push(
                match r {
                    Ok(v) => Answer::Text(opt_text(v)),
                    Err(e) => Answer::Failed(e),
                },
            ),
            final(self).unit_open() == old(self).unit_open(),
    {
        let r = self.store.remote_id(remote, oid);
        let ghost a = match &r {
            Ok(v) => Answer::Text(opt_text(*v)),
            Err(e) => Answer::Failed(*e),
        };
        self.heard = Ghost(self.heard@.push(a));
        r
    }

    /// `oid_for_remote_id`, its answer recorded.
    pub fn oid_for_remote_id(&mut self, remote: &RemoteName, remote_id: &str) -> (r: Result<Option<Oid>, StoreError>)
        ensures
            final(self).heard() == old(self).heard().push(
                match r {
                    Ok(v) => Answer::Text(opt_oid_text(v)),
                    Err(e) => Answer::Failed(e),
                },
            ),
            final(self).unit_open() == old(self).unit_open(),
    {
        let r = self.store.oid_for_remote_id(remote, remote_id);
        let ghost a = match &r {
            Ok(v) => Answer::Text(opt_oid_text(*v)),
            Err(e) => Answer::Failed(*e),
        };
        self.heard = Ghost(self.heard@.push(a));
        r
    }

    /// `map_remote_id`, its answer recorded.
    pub fn map_remote_id(&mut self, remote: &RemoteName, oid: &Oid, remote_id: &str) -> (r: Result<(), StoreError>)
        ensures
            final(self).heard() == old(self).heard().push(
                match r {
                    Ok(v) => Answer::Done,
                    Err(e) => Answer::Failed(e),
                },
            ),
            final(self).unit_open() == old(self).unit_open(),
    {
        let r = self.store.map_remote_id(remote, oid, remote_id);
        let ghost a = match &r {
            Ok(v) => Answer::Done,
            Err(e) => Answer::Failed(*e),
        };
        self.heard = Ghost(self.heard@.push(a));
        r
    }

    /// `remote_snapshot`, its answer recorded.
    pub fn remote_snapshot(&mut self, remote: &RemoteName, oid: &Oid) -> (r: Result<Option<Object>, StoreError>)
        ensures
            final(self).heard() == old(self).heard().push(
                match r {
                    Ok(v) => Answer::Object(opt_object(v)),
                    Err(e) => Answer::Failed(e),
                },
            ),
            final(self).unit_open() == old(self).unit_open(),
    {
        let r = self.store.remote_snapshot(remote, oid);
        let ghost a = match &r {
            Ok(v) => Answer::Object(opt_object(*v)),
            Err(e) => Answer::Failed(*e),
        };
        self.heard = Ghost(self.heard@.push(a));
        r
    }

    /// `set_remote_snapshot`, its answer recorded.
    pub fn set_remote_snapshot(&mut self, remote: &RemoteName, object: &Object) -> (r: Result<(), StoreError>)
        ensures
            final(self).heard() == old(self).heard().push(
                match r {
                    Ok(v) => Answer::Done,
                    Err(e) => Answer::Failed(e),
                },
            ),
            final(self).unit_open() == old(self).unit_open(),
    {
        let r = self.store.set_remote_snapshot(remote, object);
        let ghost a = match &r {
            Ok(v) => Answer::Done,
            Err(e) => Answer::Failed(*e),
        };
        self.heard = Ghost(self.heard@.push(a));
        r
    }

    /// `clear_remote_mapping`, its answer recorded.
    pub fn clear_remote_mapping(&mut self, remote: &RemoteName, oid: &Oid) -> (r: Result<(), StoreError>)
        ensures
            final(self).heard() == old(self).heard().push(
                match r {
                    Ok(v) => Answer::Done,
                    Err(e) => Answer::Failed(e),
                },
            ),
            final(self).unit_open() == old(self).unit_open(),
    {
        let r = self.store.clear_remote_mapping(remote, oid);
        let ghost a = match &r {
            Ok(v) => Answer::Done,
            Err(e) => Answer::Failed(*e),
        };
        self.heard = Ghost(self.heard@.push(a));
        r
    }

    /// `sync_token`, its answer recorded.
    pub fn sync_token(&mut self, remote: &RemoteName) -> (r: Result<Option<String>, StoreError>)
        ensures
            final(self).heard() == old(self).heard().push(
                match r {
                    Ok(v) => Answer::Text(opt_text(v)),
                    Err(e) => Answer::Failed(e),
                },
            ),
            final(self).unit_open() == old(self).unit_open(),
    {
        let r = self.store.sync_token(remote);
        let ghost a = match &r {
            Ok(v) => Answer::Text(opt_text(*v)),
            Err(e) => Answer::Failed(*e),
        };
        self.heard = Ghost(self.heard@.push(a));
        r
    }

    /// `set_sync_token`, its answer recorded.
    pub fn set_sync_token(&mut self, remote: &RemoteName, token: Option<&str>) -> (r: Result<(), StoreError>)
        ensures
            final(self).heard() == old(self).heard().push(
                match r {
                    Ok(v) => Answer::Done,
                    Err(e) => Answer::Failed(e),
                },
            ),
            final(self).unit_open() == old(self).unit_open(),
    {
        let r = self.store.set_sync_token(remote, token);
        let ghost a = match &r {
            Ok(v) => Answer::Done,
            Err(e) => Answer::Failed(*e),
        };
        self.heard = Ghost(self.heard@.push(a));
        r
    }

    /// `last_pull`, its answer recorded.
    pub fn last_pull(&mut self, remote: &RemoteName) -> (r: Result<Option<Timestamp>, StoreError>)
        ensures
            final(self).heard() == old(self).heard().push(
                match r {
                    Ok(v) => Answer::Time(v),
                    Err(e) => Answer::Failed(e),
                },
            ),
            final(self).unit_open() == old(self).unit_open(),
    {
        let r = self.store.last_pull(remote);
        let ghost a = match &r {
            Ok(v) => Answer::Time(*v),
            Err(e) => Answer::Failed(*e),
        };
        self.heard = Ghost(self.heard@.push(a));
        r
    }

    /// `set_last_pull`, its answer recorded.
    pub fn set_last_pull(&mut self, remote: &RemoteName, at: Timestamp) -> (r: Result<(), StoreError>)
        ensures
            final(self).heard() == old(self).heard().push(
                match r {
                    Ok(v) => Answer::Done,
                    Err(e) => Answer::Failed(e),
                },
            ),
            final(self).unit_open() == old(self).unit_open(),
    {
        let r = self.store.set_last_pull(remote, at);
        let ghost a = match &r {
            Ok(v) => Answer::Done,
            Err(e) => Answer::Failed(*e),
        };
        self.heard = Ghost(self.heard@.push(a));
        r
    }

    /// `last_push`, its answer recorded.
    pub fn last_push(&mut self, remote: &RemoteName) -> (r: Result<Option<Timestamp>, StoreError>)
        ensures
            final(self).heard() == old(self).heard().push(
                match r {
                    Ok(v) => Answer::Time(v),
                    Err(e) => Answer::Failed(e),
                },
            ),
            final(self).unit_open() == old(self).unit_open(),
    {
        let r = self.store.last_push(remote);
        let ghost a = match &r {
            Ok(v) => Answer::Time(*v),
            Err(e) => Answer::Failed(*e),
        };
        self.heard = Ghost(self.heard@.push(a));
        r
    }

    /// `set_last_push`, its answer recorded.
    pub fn set_last_push(&mut self, remote: &RemoteName, at: Timestamp) -> (r: Result<(), StoreError>)
        ensures
            final(self).heard() == old(self).heard().push(
                match r {
                    Ok(v) => Answer::Done,
                    Err(e) => Answer::Failed(e),
                },
            ),
            final(self).unit_open() == old(self).unit_open(),
    {
        let r = self.store.set_last_push(remote, at);
        let ghost a = match &r {
            Ok(v) => Answer::Done,
            Err(e) => Answer::Failed(*e),
        };
        self.heard = Ghost(self.heard@.push(a));
        r
    }

}

impl<S: ConflictRepository> Probe<S> {
    /// `mark_conflict`, its answer recorded.
    pub fn mark_conflict(&mut self, remote: &RemoteName, oid: &Oid, theirs: &Object) -> (r: Result<(), StoreError>)
        ensures
            final(self).heard() == old(self).heard().push(
                match r {
                    Ok(v) => Answer::Done,
                    Err(e) => Answer::Failed(e),
                },
            ),
            final(self).unit_open() == old(self).unit_open(),
    {
        let r = self.store.mark_conflict(remote, oid, theirs);
        let ghost a = match &r {
            Ok(v) => Answer::Done,
            Err(e) => Answer::Failed(*e),
        };
        self.heard = Ghost(self.heard@.push(a));
        r
    }

    /// `conflicts`, its answer recorded.
    pub fn conflicts(&mut self) -> (r: Result<Vec<Conflict>, StoreError>)
        ensures
            final(self).heard() == old(self).heard().push(
                match r {
                    Ok(v) => Answer::Conflicts(conflict_views(v@)),
                    Err(e) => Answer::Failed(e),
                },
            ),
            final(self).unit_open() == old(self).unit_open(),
    {
        let r = self.store.conflicts();
        let ghost a = match &r {
            Ok(v) => Answer::Conflicts(conflict_views(v@)),
            Err(e) => Answer::Failed(*e),
        };
        self.heard = Ghost(self.heard@.push(a));
        r
    }

    /// `clear_conflict`, its answer recorded.
    pub fn clear_conflict(&mut self, oid: &Oid) -> (r: Result<(), StoreError>)
        ensures
            final(self).heard() == old(self).heard().push(
                match r {
                    Ok(v) => Answer::Done,
                    Err(e) => Answer::Failed(e),
                },
            ),
            final(self).unit_open() == old(self).unit_open(),
    {
        let r = self.store.clear_conflict(oid);
        let ghost a = match &r {
            Ok(v) => Answer::Done,
            Err(e) => Answer::Failed(*e),
        };
        self.heard = Ghost(self.heard@.push(a));
        r
    }

}

impl<S: NoticeRepository> Probe<S> {
    /// `add_notice`, its answer recorded.
    pub fn add_notice(&mut self, notice: &Notice) -> (r: Result<(), StoreError>)
        ensures
            final(self).heard() == old(self).heard().push(
                match r {
                    Ok(v) => Answer::Done,
                    Err(e) => Answer::Failed(e),
                },
            ),
            final(self).unit_open() == old(self).unit_open(),
    {
        let r = self.store.add_notice(notice);
        let ghost a = match &r {
            Ok(v) => Answer::Done,
            Err(e) => Answer::Failed(*e),
        };
        self.heard = Ghost(self.heard@.push(a));
        r
    }

    /// `notices`, its answer recorded.
    pub fn notices(&mut self) -> (r: Result<Vec<Notice>, StoreError>)
        ensures
            final(self).heard() == old(self).heard().push(
                match r {
                    Ok(v) => Answer::Notices(notice_views(v@)),
                    Err(e) => Answer::Failed(e),
                },
            ),
            final(self).unit_open() == old(self).unit_open(),
    {
        let r = self.store.notices();
        let ghost a = match &r {
            Ok(v) => Answer::Notices(notice_views(v@)),
            Err(e) => Answer::Failed(*e),
        };
        self.heard = Ghost(self.heard@.push(a));
        r
    }

    /// `clear_notices`, its answer recorded.
    pub fn clear_notices(&mut self) -> (r: Result<(), StoreError>)
        ensures
            final(self).heard() == old(self).heard().push(
                match r {
                    Ok(v) => Answer::Done,
                    Err(e) => Answer::Failed(e),
                },
            ),
            final(self).unit_open() == old(self).unit_open(),
    {
        let r = self.store.clear_notices();
        let ghost a = match &r {
            Ok(v) => Answer::Done,
            Err(e) => Answer::Failed(*e),
        };
        self.heard = Ghost(self.heard@.push(a));
        r
    }

}

impl<S: Transactional> Probe<S> {
    /// `begin`, its answer recorded; a unit is open once it succeeds.
    pub fn begin(&mut self) -> (r: Result<(), StoreError>)
        ensures
            final(self).heard() == old(self).heard().push(
                match r {
                    Ok(v) => Answer::Done,
                    Err(e) => Answer::Failed(e),
                },
            ),
            r is Ok ==> final(self).unit_open(),
            r is Err ==> final(self).unit_open() == old(self).unit_open(),
    {
        let r = self.store.begin();
        let ghost a = match &r {
            Ok(v) => Answer::Done,
            Err(e) => Answer::Failed(*e),
        };
        self.heard = Ghost(self.heard@.push(a));
        r
    }

    /// `finish`, its answer recorded; no unit is open after it.
    pub fn finish(&mut self) -> (r: Result<(), StoreError>)
        requires
            old(self).unit_open(),
        ensures
            final(self).heard() == old(self).heard().push(
                match r {
                    Ok(v) => Answer::Done,
                    Err(e) => Answer::Failed(e),
                },
            ),
            !final(self).unit_open(),
    {
        let r = self.store.finish();
        let ghost a = match &r {
            Ok(v) => Answer::Done,
            Err(e) => Answer::Failed(*e),
        };
        self.heard = Ghost(self.heard@.push(a));
        r
    }

    /// `abandon`, recorded as done; no unit is open after it.
    pub fn abandon(&mut self)
        requires
            old(self).unit_open(),
        ensures
            final(self).heard() == old(self).heard().push(Answer::Done),
            !final(self).unit_open(),
    {
        self.store.abandon();
        self.heard = Ghost(self.heard@.push(Answer::Done));
    }
}

} // verus!
