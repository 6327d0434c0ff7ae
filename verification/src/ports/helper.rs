//! The remote helper dam drives, and the credentials it is handed.

use vstd::prelude::*;

use crate::config::{CredentialSpec, RemoteConfig};
use crate::remote::{
    MutationOutcome, MutationOutcomeView, PullOutcome, RemoteCapabilities, RemoteMutation, RemoteMutationView,
};
use crate::secret::Secret;

verus! {

#[derive(Debug, PartialEq, Eq)]
pub enum HelperError {
    NotFound { helper: String },
    Protocol(String),
    UnsupportedProtocol { helper: String, found: u32, supported: u32 },
    /// Two credential names that become the same environment variable.
    CollidingCredentials { first: String, second: String, variable: String },
    Io(String),
    Remote(String),
    Timeout {
        helper: String,
        deadline: String,
        /// The tail of what the helper wrote to its standard error, when it
        /// wrote anything.
        said: Option<String>,
    },
    Cancelled,
}

/// Batches of mutations, in the order they were handed over.
pub type Batches = Seq<Seq<RemoteMutationView>>;

/// The answers to batches, in the order they came back.
pub type Answers = Seq<Seq<MutationOutcomeView>>;

/// One helper process, speaking for one remote.
pub trait RemoteHelper {
    /// Every batch this helper has been handed to push, oldest first.
    spec fn handed(&self) -> Batches;

    /// Every answer this helper has given to a push, oldest first.
    spec fn answered(&self) -> Answers;

    fn capabilities(&mut self) -> (r: Result<RemoteCapabilities, HelperError>)
        ensures
            final(self).handed() == old(self).handed(),
            final(self).answered() == old(self).answered(),
    ;

    fn pull(&mut self, since: Option<&str>) -> (r: Result<PullOutcome, HelperError>)
        ensures
            final(self).handed() == old(self).handed(),
            final(self).answered() == old(self).answered(),
    ;

    /// Hands `mutations` over as one batch, whatever the remote answers.
    fn push(&mut self, mutations: Vec<RemoteMutation>) -> (r: Result<Vec<MutationOutcome>, HelperError>)
        ensures
            final(self).handed() == old(self).handed().push(mutations@.map_values(|m: RemoteMutation| m@)),
            r matches Ok(o) ==> final(self).answered() == old(self).answered().push(
                o@.map_values(|m: MutationOutcome| m@),
            ),
            r is Err ==> final(self).answered() == old(self).answered(),
    ;
}

/// Launches asked for, each with the credentials handed over by name and
/// value, oldest first.
pub type Launches = Seq<(RemoteConfig, Seq<(Seq<char>, Seq<char>)>)>;

/// Starts a helper for a remote, handing it the credentials it needs.
pub trait HelperLauncher {
    type Helper: RemoteHelper;

    /// Every launch this launcher has been asked for, oldest first.
    spec fn launched(&self) -> Launches;

    fn launch(&mut self, remote: &RemoteConfig, credentials: &Vec<(String, Secret)>) -> (r: Result<
        Self::Helper,
        HelperError,
    >)
        ensures
            final(self).launched() == old(self).launched().push(
                (*remote, credentials@.map_values(|c: (String, Secret)| (c.0@, c.1@))),
            ),
    ;
}

#[derive(Debug, PartialEq, Eq)]
pub enum CredentialError {
    Missing(String),
    CommandFailed { name: String, why: String },
    EnvUnset { name: String, var: String },
}

/// Specs a source was asked to resolve, each with the value it gave, none
/// when it failed; oldest first.
pub type Resolutions = Seq<(CredentialSpec, Option<Seq<char>>)>;

/// Turns a credential spec into its value.
pub trait CredentialSource {
    /// Every spec this source has been asked to resolve, and what it gave.
    spec fn resolved(&self) -> Resolutions;

    fn resolve(&mut self, spec: &CredentialSpec) -> (r: Result<Secret, CredentialError>)
        ensures
            final(self).resolved() == old(self).resolved().push(
                (
                    *spec,
                    match r {
                        Ok(s) => Some(s@),
                        Err(_) => None,
                    },
                ),
            ),
    ;
}

} // verus!
