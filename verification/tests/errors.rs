use dam_application::domain::{Blocker, LabelViolation};
use dam_application::errors::{Refusal, UseCaseError};
use dam_application::ports::{CredentialError, EditorError, HelperError, StoreError};
use dam_application::Oid;

fn oid(byte: u8) -> Oid {
    Oid::from_bytes(&vec![byte; 20])
}

fn every_refusal() -> Vec<Refusal> {
    vec![
        Refusal::Blocked { oid: oid(1), blockers: vec![Blocker::OpenChild(oid(2))] },
        Refusal::Cycle { oid: oid(1), path: vec![oid(2), oid(1)] },
        Refusal::Labels(LabelViolation::Exclusive {
            category: "effort".to_string(),
            held: vec!["deep".to_string(), "shallow".to_string()],
        }),
        Refusal::UnknownCategory("mood".to_string()),
        Refusal::NoSuchObject("abc".to_string()),
        Refusal::NoWorkingObject("abc".to_string()),
        Refusal::NoSuchRemote("gcal".to_string()),
        Refusal::NotATask(oid(1)),
        Refusal::NotAnEvent(oid(1)),
        Refusal::NotCompleted(oid(1)),
        Refusal::NotCommitted(oid(1)),
        Refusal::DirtyOnPull { oid: oid(1) },
        Refusal::MoveInsideItself(oid(1)),
        Refusal::NothingToCommit,
        Refusal::NeedsAnAnswer,
        Refusal::NeedsAnEditor,
        Refusal::UnresolvedConflicts(2),
        Refusal::MissingCredential { remote: "todoist".to_string(), name: "api_token".to_string() },
        Refusal::StaleRemote { remote: "gcal".to_string(), age: Some(90), limit: 60 },
    ]
}

const RULE_COUNT: usize = 19;

/// Where each variant sits; a new variant fails to compile here until it
/// has a slot of its own.
fn slot(refusal: &Refusal) -> usize {
    match refusal {
        Refusal::Blocked { .. } => 0,
        Refusal::Cycle { .. } => 1,
        Refusal::Labels(_) => 2,
        Refusal::UnknownCategory(_) => 3,
        Refusal::NoSuchObject(_) => 4,
        Refusal::NoWorkingObject(_) => 5,
        Refusal::NoSuchRemote(_) => 6,
        Refusal::NotATask(_) => 7,
        Refusal::NotAnEvent(_) => 8,
        Refusal::NotCompleted(_) => 9,
        Refusal::NotCommitted(_) => 10,
        Refusal::DirtyOnPull { .. } => 11,
        Refusal::MoveInsideItself(_) => 12,
        Refusal::NothingToCommit => 13,
        Refusal::NeedsAnAnswer => 14,
        Refusal::NeedsAnEditor => 15,
        Refusal::UnresolvedConflicts(_) => 16,
        Refusal::MissingCredential { .. } => 17,
        Refusal::StaleRemote { .. } => 18,
    }
}

#[test]
fn every_variant_has_a_sample() {
    let mut slots: Vec<usize> = every_refusal().iter().map(slot).collect();
    slots.sort_unstable();
    slots.dedup();
    assert_eq!(
        slots,
        (0..RULE_COUNT).collect::<Vec<usize>>(),
        "a rule has no sample in every_refusal, so the checks below never see it"
    );
}

#[test]
fn every_rule_has_its_own_name() {
    let refusals = every_refusal();
    let mut names: Vec<&str> = refusals.iter().map(Refusal::name).collect();
    let count = names.len();
    names.sort_unstable();
    names.dedup();
    assert_eq!(names.len(), count, "two rules share a name: {names:?}");
}

#[test]
fn every_name_is_lower_snake_case_and_says_something() {
    for refusal in every_refusal() {
        let name = refusal.name();
        assert!(!name.is_empty(), "{refusal:?}");
        assert!(
            name.chars().all(|c| c.is_ascii_lowercase() || c == '_'),
            "{name} is not snake_case"
        );
    }
}

#[test]
fn every_refusal_says_something_of_its_own() {
    let mut texts: Vec<String> = every_refusal().iter().map(|r| r.message()).collect();
    let count = texts.len();
    assert!(texts.iter().all(|t| !t.is_empty()));
    texts.sort();
    texts.dedup();
    assert_eq!(texts.len(), count);
}

#[test]
fn a_refusal_names_objects_by_their_short_oid() {
    assert_eq!(Refusal::NotATask(oid(1)).message(), "0101010 is an event; events are not completed");
    assert_eq!(
        Refusal::Cycle { oid: oid(1), path: vec![oid(2), oid(3), oid(1)] }.message(),
        "0101010 cannot depend on that: it would form a cycle through 0202020 -> 0303030 -> 0101010"
    );
    assert_eq!(
        Refusal::Blocked {
            oid: oid(1),
            blockers: vec![Blocker::OpenDependency(oid(2)), Blocker::OpenChild(oid(3))],
        }
        .message(),
        "0101010 cannot be completed:\n  depends on 0202020 which is open\n  child 0303030 is open\nuse --force to complete it anyway, or --force --interactive to decide what happens to them"
    );
}

#[test]
fn a_quoted_name_is_escaped() {
    assert_eq!(
        Refusal::NoSuchObject("a\"b".to_string()).message(),
        "no object matches \"a\\\"b\""
    );
    assert_eq!(Refusal::NoSuchRemote("gcal".to_string()).message(), "no remote named \"gcal\"");
    assert_eq!(
        Refusal::UnknownCategory("mood".to_string()).message(),
        "\"mood\" is not a declared category"
    );
}

#[test]
fn counts_and_credentials_are_spelled_out() {
    assert_eq!(
        Refusal::UnresolvedConflicts(12).message(),
        "12 conflicts are unresolved; run dam resolve"
    );
    assert_eq!(
        Refusal::MissingCredential { remote: "todoist".to_string(), name: "api_token".to_string() }
            .message(),
        "remote \"todoist\" needs api_token; set api_token, api_token_command or api_token_env in its config"
    );
}

#[test]
fn a_stale_remote_says_how_old_and_how_to_fix_it() {
    assert_eq!(
        Refusal::StaleRemote { remote: "gcal".to_string(), age: Some(7200), limit: 3600 }.message(),
        "remote \"gcal\" last pulled 7200s ago, longer than --max-age allows (3600s); run dam pull gcal"
    );
    assert_eq!(
        Refusal::StaleRemote { remote: "gcal".to_string(), age: None, limit: 3600 }.message(),
        "remote \"gcal\" has never been pulled; run dam pull gcal"
    );
}

#[test]
fn each_failure_says_where_it_came_from() {
    assert_eq!(
        UseCaseError::Store(StoreError::Busy("locked".to_string())).message(),
        "the store is busy, another dam is writing it: locked"
    );
    assert_eq!(
        UseCaseError::Store(StoreError::Failed("disk full".to_string())).message(),
        "storage: disk full"
    );
    assert_eq!(
        UseCaseError::Helper(HelperError::NotFound { helper: "dam-remote-x".to_string() }).message(),
        "dam-remote-x was not found on PATH"
    );
    assert_eq!(
        UseCaseError::Helper(HelperError::UnsupportedProtocol {
            helper: "dam-remote-x".to_string(),
            found: 3,
            supported: 1,
        })
        .message(),
        "helper dam-remote-x speaks protocol version 3; dam speaks 1, so upgrade dam or use an older helper"
    );
    assert_eq!(
        UseCaseError::Helper(HelperError::Timeout {
            helper: "dam-remote-x".to_string(),
            deadline: "30s".to_string(),
            said: Some("stuck".to_string()),
        })
        .message(),
        "helper dam-remote-x gave no answer within 30s; it said: stuck"
    );
    assert_eq!(
        UseCaseError::Helper(HelperError::Timeout {
            helper: "dam-remote-x".to_string(),
            deadline: "30s".to_string(),
            said: None,
        })
        .message(),
        "helper dam-remote-x gave no answer within 30s"
    );
    assert_eq!(UseCaseError::Helper(HelperError::Cancelled).message(), "cancelled");
    assert_eq!(
        UseCaseError::Credential(CredentialError::EnvUnset {
            name: "api_token".to_string(),
            var: "DAM_TOKEN".to_string(),
        })
        .message(),
        "api_token: the variable DAM_TOKEN is not set"
    );
    assert_eq!(
        UseCaseError::Editor(EditorError("no editor".to_string())).message(),
        "editor: no editor"
    );
    assert_eq!(UseCaseError::Parse("bad query".to_string()).message(), "bad query");
    assert_eq!(
        UseCaseError::Refused(Refusal::NothingToCommit).message(),
        Refusal::NothingToCommit.message()
    );
}

#[test]
fn a_store_error_says_why_whichever_way_it_refused() {
    assert_eq!(StoreError::Busy("locked".to_string()).why(), "locked");
    assert_eq!(StoreError::Failed("corrupt".to_string()).why(), "corrupt");
}

#[test]
fn a_control_character_in_a_name_is_written_as_debug_writes_it() {
    let name = "a\u{1b}b\u{7f}c\td".to_string();
    assert_eq!(
        Refusal::NoSuchRemote(name.clone()).message(),
        format!("no remote named {name:?}")
    );
    assert_eq!(
        Refusal::NoSuchRemote(name).message(),
        "no remote named \"a\\u{1b}b\\u{7f}c\\td\""
    );
}

#[test]
fn a_name_beyond_ascii_is_written_as_debug_writes_it() {
    let name = "caf\u{e9} \u{ad}x\u{85}y\u{301}'\"".to_string();
    assert_eq!(
        Refusal::NoSuchRemote(name.clone()).message(),
        format!("no remote named {name:?}")
    );
    assert_eq!(
        Refusal::UnknownCategory(name.clone()).message(),
        format!("{name:?} is not a declared category")
    );
    assert_eq!(
        Refusal::NoSuchObject("caf\u{e9}\u{ad}".to_string()).message(),
        "no object matches \"caf\u{e9}\\u{ad}\""
    );
}
