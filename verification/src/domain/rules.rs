//! What stands in the way of completing a task, and what the operator can
//! choose to do about it.

use vstd::prelude::*;

use super::ids::Oid;

verus! {

/// Something open that a task's completion waits for.
#[derive(Debug, PartialEq, Eq)]
pub enum Blocker {
    OpenDependency(Oid),
    OpenChild(Oid),
}

pub enum BlockerView {
    OpenDependency(Seq<char>),
    OpenChild(Seq<char>),
}

impl View for Blocker {
    type V = BlockerView;

    open spec fn view(&self) -> BlockerView {
        match self {
            Blocker::OpenDependency(o) => BlockerView::OpenDependency(o@),
            Blocker::OpenChild(o) => BlockerView::OpenChild(o@),
        }
    }
}

/// The blockers of a list, as values.
pub open spec fn blocker_views(v: Seq<Blocker>) -> Seq<BlockerView> {
    v.map_values(|b: Blocker| b@)
}

/// Open dependencies first, then open children, each in the order given.
pub open spec fn blockers_spec(deps: Seq<Seq<char>>, children: Seq<Seq<char>>) -> Seq<BlockerView> {
    deps.map_values(|d: Seq<char>| BlockerView::OpenDependency(d)) + children.map_values(
        |c: Seq<char>| BlockerView::OpenChild(c),
    )
}

/// Open dependencies first, then open children.
pub fn blockers(deps: &Vec<Oid>, children: &Vec<Oid>) -> (r: Vec<Blocker>)
    ensures
        blocker_views(r@) == blockers_spec(
            super::values::oid_texts(deps@),
            super::values::oid_texts(children@),
        ),
{
    let mut out: Vec<Blocker> = Vec::new();
    let mut i: usize = 0;
    while i < deps.len()
        invariant
            i <= deps.len(),
            out@.len() == i,
            forall|k: int| 0 <= k < i ==> #[trigger] out@[k]@ == BlockerView::OpenDependency(deps@[k]@),
        decreases deps.len() - i,
    {
        out.push(Blocker::OpenDependency(deps[i].copy()));
        i = i + 1;
    }
    let mut j: usize = 0;
    while j < children.len()
        invariant
            i == deps.len(),
            j <= children.len(),
            out@.len() == i + j,
            forall|k: int| 0 <= k < i ==> #[trigger] out@[k]@ == BlockerView::OpenDependency(deps@[k]@),
            forall|k: int| 0 <= k < j ==> #[trigger] out@[i + k]@ == BlockerView::OpenChild(children@[k]@),
        decreases children.len() - j,
    {
        out.push(Blocker::OpenChild(children[j].copy()));
        j = j + 1;
    }
    proof {
        let want = blockers_spec(super::values::oid_texts(deps@), super::values::oid_texts(children@));
        assert forall|k: int| 0 <= k < out@.len() implies #[trigger] blocker_views(out@)[k] == want[k] by {
            if k >= i {
                assert(out@[i + (k - i)]@ == BlockerView::OpenChild(children@[k - i]@));
            }
        }
        assert(blocker_views(out@) =~= want);
    }
    out
}

/// Where the open children of a task go when it is completed anyway.
#[derive(Debug, PartialEq, Eq)]
pub enum ChildDisposition {
    /// They stay where they are.
    Keep,
    /// They move up beside the completed task.
    Up,
    /// They move under a new task with this subject, beside the completed one.
    Into(String),
}

/// What happens to the open dependencies of a task completed anyway.
#[derive(Clone, Copy, Debug, PartialEq, Eq, Structural)]
pub enum DependencyDisposition {
    Keep,
    Drop,
}

/// How hard to push past blockers.
#[derive(Clone, Copy, Debug, PartialEq, Eq, Structural)]
pub enum Force {
    /// Refuse a blocked task.
    No,
    /// Complete it anyway and leave its blockers alone.
    Yes,
    /// Ask the operator what to do with the blockers.
    Interactive,
}

/// The operator's answer when `Force::Interactive` meets blockers.
#[derive(Debug, PartialEq, Eq)]
pub struct Dispositions {
    pub children: ChildDisposition,
    pub dependencies: DependencyDisposition,
}

} // verus!
