//! What dam asks the world outside the process for: today's date, the time,
//! fresh randomness, and the operator's editor.

use vstd::prelude::*;

use crate::domain::{CommitId, Date, Oid, Timestamp, hex_of};

verus! {

pub trait Clock {
    fn today(&self) -> Date;

    fn now(&self) -> Timestamp;
}

/// A source of entropy for a new identifier.
pub trait Randomness {
    /// Overwrites every byte of `buf`; its length stays what it was.
    fn fill(&mut self, buf: &mut Vec<u8>)
        ensures
            final(buf)@.len() == old(buf)@.len(),
    ;
}

/// A fresh oid spelled from twenty random bytes: whatever `random` writes
/// over them, spelled as `Oid::from_bytes` spells it.
pub fn new_oid<R: Randomness>(random: &mut R) -> (o: Oid)
    ensures
        exists|bytes: Seq<u8>| bytes.len() == 20 && o@ == #[trigger] hex_of(bytes),
{
    let mut buf: Vec<u8> = Vec::new();
    let mut i: usize = 0;
    while i < 20
        invariant
            i <= 20,
            buf@.len() == i,
        decreases 20 - i,
    {
        buf.push(0u8);
        i = i + 1;
    }
    random.fill(&mut buf);
    let o = Oid::from_bytes(&buf);
    assert(buf@.len() == 20 && o@ == hex_of(buf@));
    o
}

/// A fresh commit id spelled from twenty random bytes: whatever `random`
/// writes over them, spelled as `CommitId::from_bytes` spells it.
pub fn new_commit_id<R: Randomness>(random: &mut R) -> (id: CommitId)
    ensures
        exists|bytes: Seq<u8>| bytes.len() == 20 && id@ == #[trigger] hex_of(bytes),
{
    let mut buf: Vec<u8> = Vec::new();
    let mut i: usize = 0;
    while i < 20
        invariant
            i <= 20,
            buf@.len() == i,
        decreases 20 - i,
    {
        buf.push(0u8);
        i = i + 1;
    }
    random.fill(&mut buf);
    let id = CommitId::from_bytes(&buf);
    assert(buf@.len() == 20 && id@ == hex_of(buf@));
    id
}

#[derive(Debug, PartialEq, Eq)]
pub struct EditorError(pub String);

pub trait EditorSession {
    fn edit(&self, text: &str) -> Result<String, EditorError>;
}

} // verus!
