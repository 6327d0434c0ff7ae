//! Moving an object, and everything under it, to sit under another path.

use vstd::prelude::*;

use crate::domain::{Oid, Path, joined, last_segment, last_segment_text, short_text, within};
use crate::errors::{Refusal, UseCaseError};
use crate::ports::{ObjectRepository, StoreData};
use crate::use_cases::subtree::{move_subtree, moved_tree};

verus! {

/// Whether moving an object at `from` under `to` would put it under itself.
/// The root is shared by every top-level object, so it never contains
/// anything in this sense: only a real, owned prefix can.
pub open spec fn inside_itself(from: Seq<char>, to: Seq<char>) -> bool {
    from.len() > 0 && within(to, from)
}

/// Where an object at `from` lands when moved under `to`: at `to` itself
/// for a top-level object, else under `to` by its own last segment.
pub open spec fn relocated(from: Seq<char>, to: Seq<char>) -> Seq<char> {
    if from.len() == 0 {
        to
    } else {
        joined(to, last_segment_text(from))
    }
}

/// Moves an object to sit under `to`, carrying every descendant with it.
pub fn relocate<S: ObjectRepository>(store: &mut S, oid: &Oid, to: &Path) -> (r: Result<(), UseCaseError>)
    ensures
        final(store).model().unit == old(store).model().unit,
        ({
            let w = old(store).model().data.working;
            &&& r is Ok ==> w.contains_key(oid@) && !inside_itself(w[oid@].base().path, to@)
                && final(store).model() == old(store).model().with(
                StoreData { working: moved_tree(w, oid@, relocated(w[oid@].base().path, to@)), ..old(store).model().data },
            )
            &&& !w.contains_key(oid@) ==> r is Err
            &&& w.contains_key(oid@) && inside_itself(w[oid@].base().path, to@) ==> r is Err
            &&& r matches Err(UseCaseError::Refused(Refusal::NoSuchObject(s))) ==> !w.contains_key(oid@) && s@
                == short_text(oid@)
            &&& r matches Err(UseCaseError::Refused(Refusal::MoveInsideItself(o))) ==> o@ == oid@ && w.contains_key(
                oid@,
            ) && inside_itself(w[oid@].base().path, to@)
            &&& r matches Err(e) ==> e is Store || e matches UseCaseError::Refused(Refusal::NoSuchObject(_))
                || e matches UseCaseError::Refused(Refusal::MoveInsideItself(_))
        }),
{
    let object = match store.get(oid) {
        Ok(Some(o)) => o,
        Ok(None) => return Err(UseCaseError::Refused(Refusal::NoSuchObject(oid.short()))),
        Err(e) => return Err(UseCaseError::Store(e)),
    };
    let from = object.base().path.copy();
    let empty = from.as_str().unicode_len() == 0;
    if !empty && to.is_within(&from) {
        return Err(UseCaseError::Refused(Refusal::MoveInsideItself(oid.copy())));
    }
    let new = if empty {
        to.copy()
    } else {
        let seg = last_segment(&from);
        match to.join(seg.as_str()) {
            Ok(p) => p,
            Err(e) => return Err(UseCaseError::Parse(e.message())),
        }
    };
    match move_subtree(store, oid, &new) {
        Ok(()) => Ok(()),
        Err(UseCaseError::Refused(Refusal::NoSuchObject(s))) => Err(UseCaseError::Refused(Refusal::NoSuchObject(s))),
        Err(e) => Err(e),
    }
}

} // verus!
