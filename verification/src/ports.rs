//! The ports a use case borrows. Each one is a capability the application
//! names and an adapter supplies.

mod calendar;
mod environment;
mod helper;
mod query;
mod store;

pub use calendar::Calendar;
pub use environment::{Clock, EditorError, EditorSession, Randomness, new_commit_id, new_oid};
pub use helper::{Answers, Batches, Launches, Resolutions, CredentialError, CredentialSource, HelperError, HelperLauncher, RemoteHelper};
pub use query::{QueryLanguage, Text, Texts};
pub use store::{
    CommitRepository, Conflict, ConflictRepository, ConflictView, Modeled, Notice,
    NoticeRepository, NoticeView, ObjectRepository, RemoteName, RemoteTrackingRepository,
    StageRepository, Store, StoreData, StoreError, StoreModel, Transactional, apply_changes,
    conflict_views, lemma_listed_conflicts_len, lists_changes, lists_conflicts, lists_objects,
    object_views,
    lists_oids, notice_views,
};
