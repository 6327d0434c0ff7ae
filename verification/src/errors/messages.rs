//! What each refusal and failure says to the operator, in words.

use vstd::prelude::*;

use crate::domain::{
    Blocker, BlockerView, Oid, blocker_views, decimal, decimal_text, join_texts, joined_with, oid_texts,
    quote, quoted, short_text, violation_text,
};
use crate::ports::{CredentialError, HelperError, StoreError};

use super::{Refusal, UseCaseError};

verus! {

/// The line a blocker gets under a refused completion.
pub open spec fn blocker_line(b: BlockerView) -> Seq<char> {
    match b {
        BlockerView::OpenDependency(d) => "  depends on "@ + short_text(d) + " which is open\n"@,
        BlockerView::OpenChild(c) => "  child "@ + short_text(c) + " is open\n"@,
    }
}

/// The lines of each blocker, in order.
pub open spec fn blocker_lines(bs: Seq<BlockerView>) -> Seq<char>
    decreases bs.len(),
{
    if bs.len() == 0 {
        Seq::empty()
    } else {
        blocker_lines(bs.drop_last()) + blocker_line(bs.last())
    }
}

/// The short forms of `oids`, in order.
pub open spec fn shorts(oids: Seq<Seq<char>>) -> Seq<Seq<char>> {
    oids.map_values(|o: Seq<char>| short_text(o))
}

/// What a refusal says.
pub open spec fn refusal_text(r: Refusal) -> Seq<char> {
    match r {
        Refusal::Blocked { oid, blockers } => short_text(oid@) + " cannot be completed:\n"@ + blocker_lines(
            blocker_views(blockers@),
        ) + "use --force to complete it anyway, or --force --interactive to decide what happens to them"@,
        Refusal::Cycle { oid, path } => short_text(oid@) + " cannot depend on that: it would form a cycle through "@
            + joined_with(shorts(oid_texts(path@)), " -> "@),
        Refusal::Labels(v) => violation_text(v@),
        Refusal::UnknownCategory(n) => quoted(n@) + " is not a declared category"@,
        Refusal::NoSuchObject(s) => "no object matches "@ + quoted(s@),
        Refusal::NoWorkingObject(s) => "no object in the working layer matches "@ + quoted(s@)
            + "; one removed from it is named by its full oid"@,
        Refusal::NoSuchRemote(s) => "no remote named "@ + quoted(s@),
        Refusal::NotATask(o) => short_text(o@) + " is an event; events are not completed"@,
        Refusal::NotAnEvent(o) => short_text(o@) + " is a task; start, end and location are event fields"@,
        Refusal::NotCompleted(o) => short_text(o@) + " is not completed, so there is nothing to reopen"@,
        Refusal::NotCommitted(o) => short_text(o@) + " has no commit behind it; dam rm removes it instead"@,
        Refusal::DirtyOnPull { oid } => short_text(oid@)
            + " changed upstream and has uncommitted local changes; commit or reset it, then pull again"@,
        Refusal::MoveInsideItself(o) => short_text(o@) + " cannot move inside itself"@,
        Refusal::NothingToCommit => "nothing to commit"@,
        Refusal::NeedsAnAnswer => "a question needs an answer; drop --json/--toon to answer interactively"@,
        Refusal::NeedsAnEditor => "-e opens an editor; drop --json/--toon to use it"@,
        Refusal::UnresolvedConflicts(n) => decimal(n as nat) + " conflicts are unresolved; run dam resolve"@,
        Refusal::MissingCredential { remote, name } => "remote "@ + quoted(remote@) + " needs "@ + name@ + "; set "@
            + name@ + ", "@ + name@ + "_command or "@ + name@ + "_env in its config"@,
        Refusal::StaleRemote { remote, age, limit } => match age {
            Some(a) => "remote "@ + quoted(remote@) + " last pulled "@ + decimal(a as nat)
                + "s ago, longer than --max-age allows ("@ + decimal(limit as nat) + "s); run dam pull "@ + remote@,
            None => "remote "@ + quoted(remote@) + " has never been pulled; run dam pull "@ + remote@,
        },
    }
}

/// What a failure says.
pub open spec fn error_text(e: UseCaseError) -> Seq<char> {
    match e {
        UseCaseError::Refused(r) => refusal_text(r),
        UseCaseError::Store(StoreError::Busy(why)) => "the store is busy, another dam is writing it: "@ + why@,
        UseCaseError::Store(StoreError::Failed(why)) => "storage: "@ + why@,
        UseCaseError::Helper(HelperError::NotFound { helper }) => helper@ + " was not found on PATH"@,
        UseCaseError::Helper(HelperError::Protocol(s)) => "the helper answered something dam cannot read: "@ + s@,
        UseCaseError::Helper(HelperError::UnsupportedProtocol { helper, found, supported }) => "helper "@ + helper@
            + " speaks protocol version "@ + decimal(found as nat) + "; dam speaks "@ + decimal(supported as nat)
            + ", so upgrade dam or use an older helper"@,
        UseCaseError::Helper(HelperError::CollidingCredentials { first, second, variable }) => "credentials "@
            + first@ + " and "@ + second@ + " both become "@ + variable@ + "; rename one of them"@,
        UseCaseError::Helper(HelperError::Io(s)) => "talking to the helper: "@ + s@,
        UseCaseError::Helper(HelperError::Remote(s)) => "the remote refused: "@ + s@,
        UseCaseError::Helper(HelperError::Timeout { helper, deadline, said }) => "helper "@ + helper@
            + " gave no answer within "@ + deadline@ + match said {
            Some(text) => "; it said: "@ + text@,
            None => Seq::empty(),
        },
        UseCaseError::Helper(HelperError::Cancelled) => "cancelled"@,
        UseCaseError::Credential(CredentialError::Missing(n)) => "credential "@ + n@ + " has no source"@,
        UseCaseError::Credential(CredentialError::CommandFailed { name, why }) => "the command for "@ + name@
            + " failed: "@ + why@,
        UseCaseError::Credential(CredentialError::EnvUnset { name, var }) => name@ + ": the variable "@ + var@
            + " is not set"@,
        UseCaseError::Editor(e) => "editor: "@ + e.0@,
        UseCaseError::Parse(s) => s@,
    }
}

/// The lines of `blockers`.
fn blocker_text(blockers: &Vec<Blocker>) -> (r: String)
    ensures
        r@ == blocker_lines(blocker_views(blockers@)),
{
    let ghost bv = blocker_views(blockers@);
    let mut out = String::new();
    let mut i: usize = 0;
    while i < blockers.len()
        invariant
            bv == blocker_views(blockers@),
            i <= blockers.len(),
            out@ == blocker_lines(bv.take(i as int)),
        decreases blockers.len() - i,
    {
        proof {
            assert(bv.take(i + 1).drop_last() =~= bv.take(i as int));
            assert(bv.take(i + 1).last() == blockers@[i as int]@);
        }
        match &blockers[i] {
            Blocker::OpenDependency(d) => {
                out.append("  depends on ");
                out.append(d.short().as_str());
                out.append(" which is open\n");
            },
            Blocker::OpenChild(c) => {
                out.append("  child ");
                out.append(c.short().as_str());
                out.append(" is open\n");
            },
        }
        i = i + 1;
    }
    assert(bv.take(blockers.len() as int) =~= bv);
    out
}

/// The short forms of `path`, joined by arrows.
fn chain_text(path: &Vec<Oid>) -> (r: String)
    ensures
        r@ == joined_with(shorts(oid_texts(path@)), " -> "@),
{
    let mut parts: Vec<String> = Vec::new();
    let mut i: usize = 0;
    while i < path.len()
        invariant
            i <= path.len(),
            parts@.len() == i,
            forall|j: int| 0 <= j < i ==> (#[trigger] parts@[j])@ == short_text(path@[j]@),
        decreases path.len() - i,
    {
        parts.push(path[i].short());
        i = i + 1;
    }
    assert(crate::domain::texts(parts@) =~= shorts(oid_texts(path@)));
    join_texts(&parts, " -> ")
}

impl Refusal {
    /// What this refusal says to the operator.
    pub fn message(&self) -> (r: String)
        ensures
            r@ == refusal_text(*self),
    {
        let mut out = String::new();
        match self {
            Refusal::Blocked { oid, blockers } => {
                out.append(oid.short().as_str());
                out.append(" cannot be completed:\n");
                out.append(blocker_text(blockers).as_str());
                out.append("use --force to complete it anyway, or --force --interactive to decide what happens to them");
            },
            Refusal::Cycle { oid, path } => {
                out.append(oid.short().as_str());
                out.append(" cannot depend on that: it would form a cycle through ");
                out.append(chain_text(path).as_str());
            },
            Refusal::Labels(v) => {
                out.append(v.message().as_str());
            },
            Refusal::UnknownCategory(n) => {
                out.append(quote(n.as_str()).as_str());
                out.append(" is not a declared category");
            },
            Refusal::NoSuchObject(s) => {
                out.append("no object matches ");
                out.append(quote(s.as_str()).as_str());
            },
            Refusal::NoWorkingObject(s) => {
                out.append("no object in the working layer matches ");
                out.append(quote(s.as_str()).as_str());
                out.append("; one removed from it is named by its full oid");
            },
            Refusal::NoSuchRemote(s) => {
                out.append("no remote named ");
                out.append(quote(s.as_str()).as_str());
            },
            Refusal::NotATask(o) => {
                out.append(o.short().as_str());
                out.append(" is an event; events are not completed");
            },
            Refusal::NotAnEvent(o) => {
                out.append(o.short().as_str());
                out.append(" is a task; start, end and location are event fields");
            },
            Refusal::NotCompleted(o) => {
                out.append(o.short().as_str());
                out.append(" is not completed, so there is nothing to reopen");
            },
            Refusal::NotCommitted(o) => {
                out.append(o.short().as_str());
                out.append(" has no commit behind it; dam rm removes it instead");
            },
            Refusal::DirtyOnPull { oid } => {
                out.append(oid.short().as_str());
                out.append(
                    " changed upstream and has uncommitted local changes; commit or reset it, then pull again",
                );
            },
            Refusal::MoveInsideItself(o) => {
                out.append(o.short().as_str());
                out.append(" cannot move inside itself");
            },
            Refusal::NothingToCommit => {
                out.append("nothing to commit");
            },
            Refusal::NeedsAnAnswer => {
                out.append("a question needs an answer; drop --json/--toon to answer interactively");
            },
            Refusal::NeedsAnEditor => {
                out.append("-e opens an editor; drop --json/--toon to use it");
            },
            Refusal::UnresolvedConflicts(n) => {
                out.append(decimal_text(*n as u64).as_str());
                out.append(" conflicts are unresolved; run dam resolve");
            },
            Refusal::MissingCredential { remote, name } => {
                out.append("remote ");
                out.append(quote(remote.as_str()).as_str());
                out.append(" needs ");
                out.append(name.as_str());
                out.append("; set ");
                out.append(name.as_str());
                out.append(", ");
                out.append(name.as_str());
                out.append("_command or ");
                out.append(name.as_str());
                out.append("_env in its config");
            },
            Refusal::StaleRemote { remote, age, limit } => {
                out.append("remote ");
                out.append(quote(remote.as_str()).as_str());
                match age {
                    Some(a) => {
                        out.append(" last pulled ");
                        out.append(decimal_text(*a).as_str());
                        out.append("s ago, longer than --max-age allows (");
                        out.append(decimal_text(*limit).as_str());
                        out.append("s); run dam pull ");
                    },
                    None => {
                        out.append(" has never been pulled; run dam pull ");
                    },
                }
                out.append(remote.as_str());
            },
        }
        out
    }
}

impl UseCaseError {
    /// What this failure says to the operator.
    pub fn message(&self) -> (r: String)
        ensures
            r@ == error_text(*self),
    {
        let mut out = String::new();
        match self {
            UseCaseError::Refused(r) => {
                out.append(r.message().as_str());
            },
            UseCaseError::Store(StoreError::Busy(why)) => {
                out.append("the store is busy, another dam is writing it: ");
                out.append(why.as_str());
            },
            UseCaseError::Store(StoreError::Failed(why)) => {
                out.append("storage: ");
                out.append(why.as_str());
            },
            UseCaseError::Helper(HelperError::NotFound { helper }) => {
                out.append(helper.as_str());
                out.append(" was not found on PATH");
            },
            UseCaseError::Helper(HelperError::Protocol(s)) => {
                out.append("the helper answered something dam cannot read: ");
                out.append(s.as_str());
            },
            UseCaseError::Helper(HelperError::UnsupportedProtocol { helper, found, supported }) => {
                out.append("helper ");
                out.append(helper.as_str());
                out.append(" speaks protocol version ");
                out.append(decimal_text(*found as u64).as_str());
                out.append("; dam speaks ");
                out.append(decimal_text(*supported as u64).as_str());
                out.append(", so upgrade dam or use an older helper");
            },
            UseCaseError::Helper(HelperError::CollidingCredentials { first, second, variable }) => {
                out.append("credentials ");
                out.append(first.as_str());
                out.append(" and ");
                out.append(second.as_str());
                out.append(" both become ");
                out.append(variable.as_str());
                out.append("; rename one of them");
            },
            UseCaseError::Helper(HelperError::Io(s)) => {
                out.append("talking to the helper: ");
                out.append(s.as_str());
            },
            UseCaseError::Helper(HelperError::Remote(s)) => {
                out.append("the remote refused: ");
                out.append(s.as_str());
            },
            UseCaseError::Helper(HelperError::Timeout { helper, deadline, said }) => {
                out.append("helper ");
                out.append(helper.as_str());
                out.append(" gave no answer within ");
                out.append(deadline.as_str());
                match said {
                    Some(text) => {
                        out.append("; it said: ");
                        out.append(text.as_str());
                    },
                    None => {},
                }
            },
            UseCaseError::Helper(HelperError::Cancelled) => {
                out.append("cancelled");
            },
            UseCaseError::Credential(CredentialError::Missing(n)) => {
                out.append("credential ");
                out.append(n.as_str());
                out.append(" has no source");
            },
            UseCaseError::Credential(CredentialError::CommandFailed { name, why }) => {
                out.append("the command for ");
                out.append(name.as_str());
                out.append(" failed: ");
                out.append(why.as_str());
            },
            UseCaseError::Credential(CredentialError::EnvUnset { name, var }) => {
                out.append(name.as_str());
                out.append(": the variable ");
                out.append(var.as_str());
                out.append(" is not set");
            },
            UseCaseError::Editor(e) => {
                out.append("editor: ");
                out.append(e.0.as_str());
            },
            UseCaseError::Parse(s) => {
                out.append(s.as_str());
            },
        }
        out
    }
}

} // verus!
