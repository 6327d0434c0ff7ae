//! What dam asks a remote for and what it gets back, in dam's own terms.
//! The bytes a helper reads and writes are the adapter's business.

use vstd::prelude::*;

use crate::domain::{Field, Kind, Object, ObjectView, Oid, opt_object, opt_text, texts};

verus! {

/// What a remote accepts. A remote never receives a field it did not declare,
/// and a pulled object never overwrites a field it did not declare.
#[derive(Debug, PartialEq, Eq)]
pub struct RemoteCapabilities {
    pub kinds: Vec<Kind>,
    pub fields: Vec<Field>,
    pub credentials: Vec<String>,
    pub incremental: bool,
}

/// What one mutation asks the remote to do.
#[derive(Clone, Copy, Debug, PartialEq, Eq, Structural)]
pub enum MutationOp {
    Create,
    Update,
    Delete,
}

/// One change dam asks a remote to make.
#[derive(Debug, PartialEq, Eq)]
pub struct RemoteMutation {
    pub op: MutationOp,
    pub oid: Oid,
    /// Stable across every resend of this same mutation, so a remote that
    /// deduplicates by key does the work once however often an interrupted
    /// push repeats it.
    pub idempotency_key: String,
    pub remote_id: Option<String>,
    /// Absent for a delete, which names the object by its remote id alone.
    pub object: Option<Object>,
    pub fields: Vec<Field>,
}

pub struct RemoteMutationView {
    pub op: MutationOp,
    pub oid: Seq<char>,
    pub idempotency_key: Seq<char>,
    pub remote_id: Option<Seq<char>>,
    pub object: Option<ObjectView>,
    pub fields: Seq<Field>,
}

impl View for RemoteMutation {
    type V = RemoteMutationView;

    open spec fn view(&self) -> RemoteMutationView {
        RemoteMutationView {
            op: self.op,
            oid: self.oid@,
            idempotency_key: self.idempotency_key@,
            remote_id: opt_text(self.remote_id),
            object: opt_object(self.object),
            fields: self.fields@,
        }
    }
}

/// What the remote did with one mutation.
#[derive(Debug, PartialEq, Eq)]
pub struct MutationOutcome {
    pub oid: Oid,
    pub ok: bool,
    pub remote_id: Option<String>,
    pub why: Option<String>,
}

pub struct MutationOutcomeView {
    pub oid: Seq<char>,
    pub ok: bool,
    pub remote_id: Option<Seq<char>>,
    pub why: Option<Seq<char>>,
}

impl View for MutationOutcome {
    type V = MutationOutcomeView;

    open spec fn view(&self) -> MutationOutcomeView {
        MutationOutcomeView {
            oid: self.oid@,
            ok: self.ok,
            remote_id: opt_text(self.remote_id),
            why: opt_text(self.why),
        }
    }
}

/// One object as a remote holds it. The remote does not know the oid dam
/// tracks it by, so `object` carries a placeholder identity and the caller
/// sets the oid it resolved from `remote_id`.
#[derive(Debug, PartialEq, Eq)]
pub struct IncomingObject {
    pub remote_id: String,
    pub object: Object,
}

impl IncomingObject {
    pub fn copy(&self) -> (r: IncomingObject)
        ensures
            r.remote_id@ == self.remote_id@,
            r.object@ == self.object@,
    {
        IncomingObject { remote_id: self.remote_id.clone(), object: self.object.copy() }
    }
}

/// An object the remote sent that dam could not read. It is reported and
/// skipped; the rest of the pull lands.
#[derive(Debug, PartialEq, Eq)]
pub struct RejectedObject {
    pub remote_id: String,
    pub why: String,
}

/// Everything one pull brought back.
#[derive(Debug, PartialEq, Eq)]
pub struct PullOutcome {
    pub objects: Vec<IncomingObject>,
    pub rejected: Vec<RejectedObject>,
    /// Remote ids the remote no longer has.
    pub removed: Vec<String>,
    /// Remote ids the remote cancelled: each moves the event it maps to
    /// cancelled, through the same rules as any pulled change.
    pub cancelled: Vec<String>,
    /// Where the remote's incremental sync now stands.
    pub sync: Option<String>,
}

pub struct PullOutcomeView {
    pub objects: Seq<(Seq<char>, ObjectView)>,
    pub rejected: Seq<(Seq<char>, Seq<char>)>,
    pub removed: Seq<Seq<char>>,
    pub cancelled: Seq<Seq<char>>,
    pub sync: Option<Seq<char>>,
}

impl View for PullOutcome {
    type V = PullOutcomeView;

    open spec fn view(&self) -> PullOutcomeView {
        PullOutcomeView {
            objects: incoming_views(self.objects@),
            rejected: self.rejected@.map_values(|r: RejectedObject| (r.remote_id@, r.why@)),
            removed: texts(self.removed@),
            cancelled: texts(self.cancelled@),
            sync: opt_text(self.sync),
        }
    }
}

/// The incoming objects of a list, as remote id and object values.
pub open spec fn incoming_views(v: Seq<IncomingObject>) -> Seq<(Seq<char>, ObjectView)> {
    v.map_values(|i: IncomingObject| (i.remote_id@, i.object@))
}

} // verus!
