//! Why a use case did not do what it was asked: a rule dam keeps, or a port
//! that failed.

use vstd::prelude::*;

use crate::domain::{Blocker, LabelViolation, Oid};
use crate::ports::{CredentialError, EditorError, HelperError, StoreError};

mod messages;

pub use messages::{error_text, refusal_text};

verus! {

/// A rule dam enforces, refused with the reason.
#[derive(Debug, PartialEq, Eq)]
pub enum Refusal {
    Blocked { oid: Oid, blockers: Vec<Blocker> },
    Cycle { oid: Oid, path: Vec<Oid> },
    Labels(LabelViolation),
    UnknownCategory(String),
    NoSuchObject(String),
    /// A prefix that matched nothing in the working layer, which is the
    /// layer a prefix is resolved against.
    NoWorkingObject(String),
    NoSuchRemote(String),
    NotATask(Oid),
    /// An event field asked of a task, the mirror of `NotATask`.
    NotAnEvent(Oid),
    NotCompleted(Oid),
    NotCommitted(Oid),
    DirtyOnPull { oid: Oid },
    /// A path that would put an object under itself, which no tree allows.
    MoveInsideItself(Oid),
    NothingToCommit,
    /// A verb needed the operator's answer and the format cannot carry one.
    NeedsAnAnswer,
    /// `-e` needed an editor and the format cannot open one.
    NeedsAnEditor,
    UnresolvedConflicts(usize),
    MissingCredential { remote: String, name: String },
    /// A remote last pulled longer ago than a reader allows, or never.
    StaleRemote { remote: String, age: Option<u64>, limit: u64 },
}

#[derive(Debug, PartialEq, Eq)]
pub enum UseCaseError {
    Refused(Refusal),
    Store(StoreError),
    Helper(HelperError),
    Credential(CredentialError),
    Editor(EditorError),
    Parse(String),
}

/// Which rule a refusal is, one number per variant.
pub open spec fn rule_index(r: Refusal) -> int {
    match r {
        Refusal::Blocked { .. } => 0,
        Refusal::Cycle { .. } => 1,
        Refusal::Labels(_) => 2,
        Refusal::UnknownCategory(_) => 3,
        Refusal::NoSuchObject(_) => 4,
        Refusal::NoWorkingObject(_) => 5,
        Refusal::NoSuchRemote(_) => 6,
        Refusal::NotATask(_) => 7,
        Refusal::NotAnEvent(_) => 8,
        Refusal::NotCompleted(_) => 9,
        Refusal::NotCommitted(_) => 10,
        Refusal::DirtyOnPull { .. } => 11,
        Refusal::MoveInsideItself(_) => 12,
        Refusal::NothingToCommit => 13,
        Refusal::NeedsAnAnswer => 14,
        Refusal::NeedsAnEditor => 15,
        Refusal::UnresolvedConflicts(_) => 16,
        Refusal::MissingCredential { .. } => 17,
        Refusal::StaleRemote { .. } => 18,
    }
}

/// The name of the rule a refusal broke.
pub open spec fn rule_name(r: Refusal) -> Seq<char> {
    match r {
        Refusal::Blocked { .. } => "blocked"@,
        Refusal::Cycle { .. } => "cycle"@,
        Refusal::Labels(_) => "exclusive_label"@,
        Refusal::UnknownCategory(_) => "unknown_category"@,
        Refusal::NoSuchObject(_) => "no_such_object"@,
        Refusal::NoWorkingObject(_) => "no_working_object"@,
        Refusal::NoSuchRemote(_) => "no_such_remote"@,
        Refusal::NotATask(_) => "not_a_task"@,
        Refusal::NotAnEvent(_) => "not_an_event"@,
        Refusal::NotCompleted(_) => "not_completed"@,
        Refusal::NotCommitted(_) => "not_committed"@,
        Refusal::DirtyOnPull { .. } => "dirty_on_pull"@,
        Refusal::MoveInsideItself(_) => "move_inside_itself"@,
        Refusal::NothingToCommit => "nothing_to_commit"@,
        Refusal::NeedsAnAnswer => "needs_an_answer"@,
        Refusal::NeedsAnEditor => "needs_an_editor"@,
        Refusal::UnresolvedConflicts(_) => "unresolved_conflicts"@,
        Refusal::MissingCredential { .. } => "missing_credential"@,
        Refusal::StaleRemote { .. } => "stale_remote"@,
    }
}

/// A name a client can branch on: not empty, lower case letters and `_`.
pub open spec fn snake_word(s: Seq<char>) -> bool {
    s.len() > 0 && forall|i: int| 0 <= i < s.len() ==> ('a' <= #[trigger] s[i] <= 'z' || s[i] == '_')
}

impl Refusal {
    /// The rule this refusal broke, one stable snake_case word per variant,
    /// which is what a client branches on when `refused` is too coarse.
    pub fn name(&self) -> (r: &'static str)
        ensures
            r@ == rule_name(*self),
    {
        match self {
            Refusal::Blocked { .. } => "blocked",
            Refusal::Cycle { .. } => "cycle",
            Refusal::Labels(_) => "exclusive_label",
            Refusal::UnknownCategory(_) => "unknown_category",
            Refusal::NoSuchObject(_) => "no_such_object",
            Refusal::NoWorkingObject(_) => "no_working_object",
            Refusal::NoSuchRemote(_) => "no_such_remote",
            Refusal::NotATask(_) => "not_a_task",
            Refusal::NotAnEvent(_) => "not_an_event",
            Refusal::NotCompleted(_) => "not_completed",
            Refusal::NotCommitted(_) => "not_committed",
            Refusal::DirtyOnPull { .. } => "dirty_on_pull",
            Refusal::MoveInsideItself(_) => "move_inside_itself",
            Refusal::NothingToCommit => "nothing_to_commit",
            Refusal::NeedsAnAnswer => "needs_an_answer",
            Refusal::NeedsAnEditor => "needs_an_editor",
            Refusal::UnresolvedConflicts(_) => "unresolved_conflicts",
            Refusal::MissingCredential { .. } => "missing_credential",
            Refusal::StaleRemote { .. } => "stale_remote",
        }
    }
}

proof fn reveal_rule_names() {
    reveal_strlit("blocked");
    reveal_strlit("cycle");
    reveal_strlit("exclusive_label");
    reveal_strlit("unknown_category");
    reveal_strlit("no_such_object");
    reveal_strlit("no_working_object");
    reveal_strlit("no_such_remote");
    reveal_strlit("not_a_task");
    reveal_strlit("not_an_event");
    reveal_strlit("not_completed");
    reveal_strlit("not_committed");
    reveal_strlit("dirty_on_pull");
    reveal_strlit("move_inside_itself");
    reveal_strlit("nothing_to_commit");
    reveal_strlit("needs_an_answer");
    reveal_strlit("needs_an_editor");
    reveal_strlit("unresolved_conflicts");
    reveal_strlit("missing_credential");
    reveal_strlit("stale_remote");
}

/// Two refusals of different rules have different names, so a client can
/// tell every rule apart by its name alone.
pub proof fn lemma_rule_names_distinct(a: Refusal, b: Refusal)
    requires
        rule_index(a) != rule_index(b),
    ensures
        rule_name(a) != rule_name(b),
{
    reveal_rule_names();
    reveal_strlit("blocked");
    reveal_strlit("cycle");
    reveal_strlit("exclusive_label");
    reveal_strlit("unknown_category");
    reveal_strlit("no_such_object");
    reveal_strlit("no_working_object");
    reveal_strlit("no_such_remote");
    reveal_strlit("not_a_task");
    reveal_strlit("not_an_event");
    reveal_strlit("not_completed");
    reveal_strlit("not_committed");
    reveal_strlit("dirty_on_pull");
    reveal_strlit("move_inside_itself");
    reveal_strlit("nothing_to_commit");
    reveal_strlit("needs_an_answer");
    reveal_strlit("needs_an_editor");
    reveal_strlit("unresolved_conflicts");
    reveal_strlit("missing_credential");
    reveal_strlit("stale_remote");
    let (x, y) = (rule_name(a), rule_name(b));
    if x.len() == y.len() {
        assert(x[0] != y[0] || x[1] != y[1] || x[2] != y[2] || x[3] != y[3] || x[4] != y[4] || x[5] != y[5]
            || x[x.len() - 1] != y[y.len() - 1] || x[x.len() - 2] != y[y.len() - 2] || x[x.len() - 3] != y[y.len() - 3]
            || x[x.len() - 4] != y[y.len() - 4] || x[x.len() - 5] != y[y.len() - 5] || x[x.len() - 6] != y[y.len() - 6]
            || x[x.len() - 7] != y[y.len() - 7] || x[x.len() - 8] != y[y.len() - 8] || x[x.len() - 9] != y[y.len() - 9]);
    }
}

/// Every rule's name is one lower snake_case word that says something.
pub proof fn lemma_rule_names_snake(r: Refusal)
    ensures
        snake_word(rule_name(r)),
{
    reveal_strlit("blocked");
    reveal_strlit("cycle");
    reveal_strlit("exclusive_label");
    reveal_strlit("unknown_category");
    reveal_strlit("no_such_object");
    reveal_strlit("no_working_object");
    reveal_strlit("no_such_remote");
    reveal_strlit("not_a_task");
    reveal_strlit("not_an_event");
    reveal_strlit("not_completed");
    reveal_strlit("not_committed");
    reveal_strlit("dirty_on_pull");
    reveal_strlit("move_inside_itself");
    reveal_strlit("nothing_to_commit");
    reveal_strlit("needs_an_answer");
    reveal_strlit("needs_an_editor");
    reveal_strlit("unresolved_conflicts");
    reveal_strlit("missing_credential");
    reveal_strlit("stale_remote");
}

impl From<Refusal> for UseCaseError {
    fn from(r: Refusal) -> (e: UseCaseError) {
        UseCaseError::Refused(r)
    }
}

impl vstd::std_specs::convert::FromSpecImpl<Refusal> for UseCaseError {
    open spec fn obeys_from_spec() -> bool {
        true
    }

    open spec fn from_spec(v: Refusal) -> UseCaseError {
        UseCaseError::Refused(v)
    }
}

impl From<StoreError> for UseCaseError {
    fn from(e: StoreError) -> (r: UseCaseError) {
        UseCaseError::Store(e)
    }
}

impl vstd::std_specs::convert::FromSpecImpl<StoreError> for UseCaseError {
    open spec fn obeys_from_spec() -> bool {
        true
    }

    open spec fn from_spec(v: StoreError) -> UseCaseError {
        UseCaseError::Store(v)
    }
}

impl From<HelperError> for UseCaseError {
    fn from(e: HelperError) -> (r: UseCaseError) {
        UseCaseError::Helper(e)
    }
}

impl vstd::std_specs::convert::FromSpecImpl<HelperError> for UseCaseError {
    open spec fn obeys_from_spec() -> bool {
        true
    }

    open spec fn from_spec(v: HelperError) -> UseCaseError {
        UseCaseError::Helper(v)
    }
}

impl From<CredentialError> for UseCaseError {
    fn from(e: CredentialError) -> (r: UseCaseError) {
        UseCaseError::Credential(e)
    }
}

impl vstd::std_specs::convert::FromSpecImpl<CredentialError> for UseCaseError {
    open spec fn obeys_from_spec() -> bool {
        true
    }

    open spec fn from_spec(v: CredentialError) -> UseCaseError {
        UseCaseError::Credential(v)
    }
}

impl From<EditorError> for UseCaseError {
    fn from(e: EditorError) -> (r: UseCaseError) {
        UseCaseError::Editor(e)
    }
}

impl vstd::std_specs::convert::FromSpecImpl<EditorError> for UseCaseError {
    open spec fn obeys_from_spec() -> bool {
        true
    }

    open spec fn from_spec(v: EditorError) -> UseCaseError {
        UseCaseError::Editor(v)
    }
}

} // verus!
