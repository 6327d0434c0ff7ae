//! Completing a task: refused while open children or dependencies block
//! it, unless forced; a recurring task rolls forward instead of closing.

use vstd::prelude::*;

use crate::domain::{
    BaseView, Blocker, BlockerView, ChildDisposition, Date, DependencyDisposition, Force, Object,
    ObjectView, Oid, Path, Task, TaskView, Timestamp, When, blocker_views, blockers, blockers_spec, joined,
    last_segment, last_segment_text, new_task_view, oid_texts, oids_contain, parent_text, short_text,
};
use crate::errors::{Refusal, UseCaseError};
use crate::ports::{
    Calendar, Clock, ObjectRepository, Randomness, StoreData, lists_objects, lists_oids, new_oid,
    object_views,
};
use crate::use_cases::remove::{pick_oids, up_of};
use crate::use_cases::subtree::{move_subtree, moved_tree};

pub use crate::domain::Dispositions;

verus! {

/// What completing a task would run into.
#[derive(Debug)]
pub struct CompletePlan {
    pub oid: Oid,
    pub blockers: Vec<Blocker>,
}

/// How a completion ended.
#[derive(Clone, Copy, Debug, PartialEq, Eq, Structural)]
pub enum Completed {
    Done,
    /// The task recurs: it stays open, due next on this day.
    RolledForward { next_due: Date },
}

/// Whether `oid` is a task of `d` that is not done. A missing object counts
/// as closed.
pub open spec fn is_open_in(d: StoreData, oid: Seq<char>) -> bool {
    d.working.get(oid) matches Some(ObjectView::Task(t)) && !t.done
}

/// The dependencies of `deps` that are open in `d`, in order.
pub open spec fn open_deps(d: StoreData, deps: Seq<Seq<char>>) -> Seq<Seq<char>> {
    deps.filter(|x: Seq<char>| is_open_in(d, x))
}

/// The open tasks one level under `path`.
pub open spec fn open_children(d: StoreData, path: Seq<char>) -> Set<Seq<char>> {
    d.children_of(path).dom().filter(|k: Seq<char>| d.children_of(path)[k].is_open_task())
}

/// Whether the task `t` of `d` has anything open in its way.
pub open spec fn blocked_by(d: StoreData, t: TaskView) -> bool {
    open_deps(d, t.base.depends).len() > 0 || exists|k: Seq<char>| #[trigger] open_children(d, t.base.path).contains(k)
}

/// A task is blocked exactly when one of its dependencies is an open task,
/// or an open task lies one level under its path; nothing else stands in
/// its way.
pub proof fn lemma_blocked_exactly_by_open_work(d: StoreData, t: TaskView)
    ensures
        blocked_by(d, t) <==> ((exists|i: int|
            0 <= i < t.base.depends.len() && (#[trigger] d.working.get(t.base.depends[i]) matches Some(
                ObjectView::Task(u),
            ) && !u.done)) || (exists|k: Seq<char>| #[trigger]
            d.working.get(k) matches Some(ObjectView::Task(u)) && !u.done && parent_text(u.base.path) == Some(
                t.base.path,
            ))),
{
    let deps = t.base.depends;
    let p = |x: Seq<char>| is_open_in(d, x);
    deps.filter_lemma(p);
    if open_deps(d, deps).len() > 0 {
        let x = open_deps(d, deps)[0];
        assert(p(x));
        assert(open_deps(d, deps).contains(x));
        deps.lemma_filter_contains_rev(p, x);
        let i = choose|i: int| 0 <= i < deps.len() && deps[i] == x;
        assert(d.working.get(deps[i]) matches Some(ObjectView::Task(u)) && !u.done);
    }
    if exists|i: int|
        0 <= i < deps.len() && (#[trigger] d.working.get(deps[i]) matches Some(ObjectView::Task(u)) && !u.done) {
        let i = choose|i: int|
            0 <= i < deps.len() && (#[trigger] d.working.get(deps[i]) matches Some(ObjectView::Task(u)) && !u.done);
        deps.lemma_filter_contains(p, i);
        assert(open_deps(d, deps).len() > 0);
    }
    let path = t.base.path;
    if exists|k: Seq<char>| #[trigger] open_children(d, path).contains(k) {
        let k = choose|k: Seq<char>| #[trigger] open_children(d, path).contains(k);
        assert(d.working.get(k) matches Some(ObjectView::Task(u)) && !u.done && parent_text(u.base.path) == Some(path));
    }
    if exists|k: Seq<char>| #[trigger]
        d.working.get(k) matches Some(ObjectView::Task(u)) && !u.done && parent_text(u.base.path) == Some(path) {
        let k = choose|k: Seq<char>| #[trigger]
            d.working.get(k) matches Some(ObjectView::Task(u)) && !u.done && parent_text(u.base.path) == Some(path);
        assert(open_children(d, path).contains(k));
    }
}

/// `blockers` are the open dependencies of the task `t` of `d`, then its
/// open children listed as `kids`.
pub open spec fn blockers_as(d: StoreData, t: TaskView, kids: Seq<Seq<char>>, blockers: Seq<BlockerView>) -> bool {
    &&& lists_oids(kids, open_children(d, t.base.path))
    &&& blockers == blockers_spec(open_deps(d, t.base.depends), kids)
}

/// `blockers` are what stands in the way of the task `t` of `d`, its open
/// children listed in some order.
pub open spec fn blockers_of(d: StoreData, t: TaskView, blockers: Seq<BlockerView>) -> bool {
    exists|kids: Seq<Seq<char>>| #[trigger] blockers_as(d, t, kids, blockers)
}

/// The task under `oid`.
fn load_task<S: ObjectRepository>(store: &S, oid: &Oid) -> (r: Result<Task, UseCaseError>)
    ensures
        r matches Ok(t) ==> store.model().data.working.get(oid@) == Some(ObjectView::Task(t@)),
        r matches Err(UseCaseError::Refused(Refusal::NotATask(o))) ==> o@ == oid@
            && store.model().data.working.get(oid@) matches Some(ObjectView::Event(_)),
        r matches Err(UseCaseError::Refused(Refusal::NoSuchObject(s))) ==> s@ == short_text(oid@)
            && store.model().data.working.get(oid@) is None,
        r matches Err(e) ==> e is Store || e matches UseCaseError::Refused(Refusal::NotATask(_))
            || e matches UseCaseError::Refused(Refusal::NoSuchObject(_)),
        store.reliable() ==> !(r matches Err(UseCaseError::Store(_))),
{
    match store.get(oid) {
        Ok(Some(Object::Task(t))) => Ok(t),
        Ok(Some(Object::Event(_))) => Err(UseCaseError::Refused(Refusal::NotATask(oid.copy()))),
        Ok(None) => Err(UseCaseError::Refused(Refusal::NoSuchObject(oid.short()))),
        Err(e) => Err(UseCaseError::Store(e)),
    }
}

/// Whether `oid` is an open task. A missing dependency is treated as
/// closed; a failed read propagates, since silently treating it as closed
/// could let a blocked task complete.
fn is_open<S: ObjectRepository>(store: &S, oid: &Oid) -> (r: Result<bool, UseCaseError>)
    ensures
        r matches Ok(b) ==> b == is_open_in(store.model().data, oid@),
        r matches Err(e) ==> e is Store,
        store.reliable() ==> r is Ok,
{
    match store.get(oid) {
        Ok(Some(Object::Task(t))) => Ok(!t.done),
        Ok(_) => Ok(false),
        Err(e) => Err(UseCaseError::Store(e)),
    }
}

/// Step one: find out whether `oid` is blocked. The caller decides whether
/// to ask.
pub fn plan_complete<S: ObjectRepository>(store: &S, oid: &Oid) -> (r: Result<CompletePlan, UseCaseError>)
    ensures
        r matches Ok(plan) ==> plan.oid@ == oid@ && (store.model().data.working.get(oid@) matches Some(
            ObjectView::Task(t),
        ) && blockers_of(store.model().data, t, blocker_views(plan.blockers@))),
        store.model().data.working.get(oid@) matches Some(ObjectView::Task(_)) ==> r is Ok || r matches Err(
            UseCaseError::Store(_),
        ),
        r matches Err(UseCaseError::Refused(Refusal::NotATask(o))) ==> o@ == oid@
            && store.model().data.working.get(oid@) matches Some(ObjectView::Event(_)),
        r matches Err(UseCaseError::Refused(Refusal::NoSuchObject(s))) ==> s@ == short_text(oid@)
            && store.model().data.working.get(oid@) is None,
        r matches Err(e) ==> e is Store || e matches UseCaseError::Refused(Refusal::NotATask(_))
            || e matches UseCaseError::Refused(Refusal::NoSuchObject(_)),
        store.reliable() ==> (store.model().data.working.get(oid@) matches Some(ObjectView::Task(_)) ==> r is Ok),
{
    proof {
        store.lemma_model_wf();
    }
    let ghost d = store.model().data;
    let task = match load_task(store, oid) {
        Ok(t) => t,
        Err(e) => return Err(e),
    };
    let ghost deps = oid_texts(task.base.depends@);
    let ghost p = |x: Seq<char>| is_open_in(d, x);
    let mut open: Vec<Oid> = Vec::new();
    let mut i: usize = 0;
    while i < task.base.depends.len()
        invariant
            d == store.model().data,
            deps == oid_texts(task.base.depends@),
            p == (|x: Seq<char>| is_open_in(d, x)),
            i <= task.base.depends.len(),
            oid_texts(open@) == deps.take(i as int).filter(p),
        decreases task.base.depends.len() - i,
    {
        let dep = &task.base.depends[i];
        let ghost before = oid_texts(open@);
        proof {
            assert(deps.take(i + 1) =~= deps.take(i as int).push(deps[i as int]));
            crate::domain::lemma_filter_push(deps.take(i as int), deps[i as int], p);
        }
        let o = match is_open(store, dep) {
            Ok(b) => b,
            Err(e) => return Err(e),
        };
        if o {
            open.push(dep.copy());
            assert(oid_texts(open@) =~= before.push(dep@));
        }
        i = i + 1;
    }
    assert(deps.take(task.base.depends.len() as int) =~= deps);
    let children = match store.children_of(&task.base.path) {
        Ok(c) => c,
        Err(e) => return Err(UseCaseError::Store(e)),
    };
    let ghost m = d.children_of(task.base.path@);
    let ghost q = |k: Seq<char>| m[k].is_open_task();
    let mut keep: Vec<bool> = Vec::new();
    let mut j: usize = 0;
    while j < children.len()
        invariant
            m == d.children_of(task.base.path@),
            q == (|k: Seq<char>| m[k].is_open_task()),
            lists_objects(object_views(children@), m),
            j <= children.len(),
            keep@.len() == j,
            forall|k: int| 0 <= k < j ==> keep@[k] == q(#[trigger] children@[k]@.oid()),
        decreases children.len() - j,
    {
        assert(object_views(children@)[j as int] == children@[j as int]@);
        let c = &children[j];
        let open_task = match c.as_task() {
            Some(t) => !t.done,
            None => false,
        };
        keep.push(open_task);
        j = j + 1;
    }
    let kids = pick_oids(&children, &keep, Ghost(m), Ghost(q));
    assert(open_children(d, task.base.path@) =~= m.dom().filter(q));
    let found = blockers(&open, &kids);
    assert(blockers_as(d, task@, oid_texts(kids@), blocker_views(found@)));
    Ok(CompletePlan { oid: oid.copy(), blockers: found })
}

/// The open children a list of blockers names, in order.
pub open spec fn child_oids(found: Seq<BlockerView>) -> Seq<Seq<char>>
    decreases found.len(),
{
    if found.len() == 0 {
        Seq::empty()
    } else {
        let r = child_oids(found.drop_last());
        match found.last() {
            BlockerView::OpenChild(c) => r.push(c),
            BlockerView::OpenDependency(_) => r,
        }
    }
}

/// The open dependencies a list of blockers names, in order.
pub open spec fn dep_oids(found: Seq<BlockerView>) -> Seq<Seq<char>>
    decreases found.len(),
{
    if found.len() == 0 {
        Seq::empty()
    } else {
        let r = dep_oids(found.drop_last());
        match found.last() {
            BlockerView::OpenDependency(x) => r.push(x),
            BlockerView::OpenChild(_) => r,
        }
    }
}

/// The working layer once each of `kids` still there moves under
/// `target`, by its own last segment, in order.
pub open spec fn kids_moved_into(w: Map<Seq<char>, ObjectView>, target: Seq<char>, kids: Seq<Seq<char>>) -> Map<
    Seq<char>,
    ObjectView,
>
    decreases kids.len(),
{
    if kids.len() == 0 {
        w
    } else {
        let w1 = kids_moved_into(w, target, kids.drop_last());
        let k = kids.last();
        if w1.contains_key(k) {
            moved_tree(w1, k, joined(target, last_segment_text(w1[k].base().path)))
        } else {
            w1
        }
    }
}

/// Moving children keeps a task a task.
proof fn lemma_moves_keep_task(w: Map<Seq<char>, ObjectView>, target: Seq<char>, kids: Seq<Seq<char>>, oid: Seq<char>)
    requires
        w.get(oid) matches Some(ObjectView::Task(_)),
    ensures
        kids_moved_into(w, target, kids).get(oid) matches Some(ObjectView::Task(_)),
    decreases kids.len(),
{
    if kids.len() > 0 {
        lemma_moves_keep_task(w, target, kids.drop_last(), oid);
    }
}

/// The task a group of moved children gathers under.
pub open spec fn group_view(g: Seq<char>, name: Seq<char>, path: Seq<char>) -> ObjectView {
    let t = new_task_view(g, name);
    ObjectView::Task(TaskView { base: BaseView { path, ..t.base }, ..t })
}

/// `d1` is `d` once the operator's answer `disp` to the blockers `found` of
/// the task `oid` is carried out, with `g` the oid of a group made for the
/// children: they stay, move up beside the task, or move into a new task
/// beside it; the open dependencies are kept or dropped.
pub open spec fn disposed_with(
    d: StoreData,
    d1: StoreData,
    oid: Seq<char>,
    found: Seq<BlockerView>,
    disp: Dispositions,
    g: Seq<char>,
) -> bool {
    match d.working.get(oid) {
        Some(ObjectView::Task(t)) => {
            let parent = up_of(t.base.path);
            let kids = child_oids(found);
            let deps = dep_oids(found);
            let grouped = match disp.children {
                ChildDisposition::Keep => (d.working, None::<Seq<char>>),
                ChildDisposition::Up => (d.working, Some(parent)),
                ChildDisposition::Into(name) => if kids.len() == 0 {
                    (d.working, None::<Seq<char>>)
                } else {
                    let p = joined(parent, name@);
                    (d.working.insert(g, group_view(g, name@, p)), Some(p))
                },
            };
            let moved = match grouped.1 {
                Some(tp) => kids_moved_into(grouped.0, tp, kids),
                None => grouped.0,
            };
            let settled = if disp.dependencies == DependencyDisposition::Drop {
                moved.insert(
                    oid,
                    ObjectView::Task(
                        TaskView {
                            base: BaseView {
                                depends: t.base.depends.filter(|x: Seq<char>| !deps.contains(x)),
                                ..t.base
                            },
                            ..t
                        },
                    ),
                )
            } else {
                moved
            };
            d1 == StoreData { working: settled, ..d }
        },
        _ => false,
    }
}

/// `d1` is `d` once `disp` is carried out for `found`, under some fresh oid
/// for a group.
pub open spec fn disposed(d: StoreData, d1: StoreData, oid: Seq<char>, found: Seq<BlockerView>, disp: Dispositions) -> bool {
    exists|g: Seq<char>| #[trigger] disposed_with(d, d1, oid, found, disp, g)
}

/// `v` without the oids `drop` names.
fn retain_not_in(v: &Vec<Oid>, drop: &Vec<Oid>) -> (r: Vec<Oid>)
    ensures
        oid_texts(r@) == oid_texts(v@).filter(|x: Seq<char>| !oid_texts(drop@).contains(x)),
{
    let ghost p = |x: Seq<char>| !oid_texts(drop@).contains(x);
    let mut out: Vec<Oid> = Vec::new();
    let mut i: usize = 0;
    while i < v.len()
        invariant
            i <= v.len(),
            p == (|x: Seq<char>| !oid_texts(drop@).contains(x)),
            oid_texts(out@) == oid_texts(v@).take(i as int).filter(p),
        decreases v.len() - i,
    {
        let ghost before = oid_texts(out@);
        proof {
            assert(oid_texts(v@).take(i + 1) =~= oid_texts(v@).take(i as int).push(oid_texts(v@)[i as int]));
            crate::domain::lemma_filter_push(oid_texts(v@).take(i as int), oid_texts(v@)[i as int], p);
        }
        if !oids_contain(drop, &v[i]) {
            out.push(v[i].copy());
            assert(oid_texts(out@) =~= before.push(v@[i as int]@));
        }
        i = i + 1;
    }
    assert(oid_texts(v@).take(v.len() as int) =~= oid_texts(v@));
    out
}

/// Carries out the operator's answer to what blocks the task `oid`.
fn apply_dispositions<S: ObjectRepository, R: Randomness>(
    store: &mut S,
    random: &mut R,
    oid: &Oid,
    found: &Vec<Blocker>,
    disp: &Dispositions,
) -> (r: Result<(), UseCaseError>)
    requires
        old(store).model().data.working.get(oid@) matches Some(ObjectView::Task(_)),
    ensures
        final(store).model().unit == old(store).model().unit,
        r is Ok ==> final(store).model() == old(store).model().with(final(store).model().data) && disposed(
            old(store).model().data,
            final(store).model().data,
            oid@,
            blocker_views(found@),
            *disp,
        ),
        r matches Err(e) ==> e is Store || e is Parse,
{
    proof {
        store.lemma_model_wf();
    }
    let ghost m0 = store.model();
    let ghost d = m0.data;
    let ghost fv = blocker_views(found@);
    let mut task = match load_task(store, oid) {
        Ok(t) => t,
        Err(e) => return Err(e),
    };
    let ghost t0 = task@;
    let parent = match task.base.path.parent() {
        Some(p) => p,
        None => Path::root(),
    };
    let mut children: Vec<Oid> = Vec::new();
    let mut deps: Vec<Oid> = Vec::new();
    let mut i: usize = 0;
    while i < found.len()
        invariant
            fv == blocker_views(found@),
            i <= found.len(),
            oid_texts(children@) == child_oids(fv.take(i as int)),
            oid_texts(deps@) == dep_oids(fv.take(i as int)),
        decreases found.len() - i,
    {
        proof {
            assert(fv.take(i + 1).drop_last() =~= fv.take(i as int));
            assert(fv.take(i + 1).last() == found@[i as int]@);
        }
        let ghost bc = oid_texts(children@);
        let ghost bd = oid_texts(deps@);
        match &found[i] {
            Blocker::OpenChild(c) => {
                children.push(c.copy());
                assert(oid_texts(children@) =~= bc.push(c@));
            },
            Blocker::OpenDependency(x) => {
                deps.push(x.copy());
                assert(oid_texts(deps@) =~= bd.push(x@));
            },
        }
        i = i + 1;
    }
    assert(fv.take(found.len() as int) =~= fv);
    let ghost mut g: Seq<char> = Seq::empty();
    let target: Option<Path> = match &disp.children {
        ChildDisposition::Keep => None,
        ChildDisposition::Up => Some(parent.copy()),
        ChildDisposition::Into(name) => {
            if children.len() == 0 {
                None
            } else {
                let group_oid = new_oid(random);
                proof {
                    g = group_oid@;
                }
                let mut group = Task::new(group_oid, name.clone());
                group.base.path = match parent.join(name.as_str()) {
                    Ok(p) => p,
                    Err(e) => return Err(UseCaseError::Parse(e.message())),
                };
                let path = group.base.path.copy();
                assert(Object::Task(group)@ == group_view(g, name@, path@));
                match store.put(&Object::Task(group)) {
                    Ok(()) => {},
                    Err(e) => return Err(UseCaseError::Store(e)),
                }
                Some(path)
            }
        },
    };
    let ghost wa = store.model().data.working;
    assert(store.model() == m0.with((StoreData { working: wa, ..d })));
    match &target {
        Some(tp) => {
            let mut j: usize = 0;
            while j < children.len()
                invariant
                    m0 == old(store).model(),
                    d == m0.data,
                    j <= children.len(),
                    store.model() == m0.with(
                        (StoreData { working: kids_moved_into(wa, tp@, oid_texts(children@).take(j as int)), ..d }),
                    ),
                decreases children.len() - j,
            {
                let ghost w = store.model().data.working;
                proof {
                    assert(oid_texts(children@).take(j + 1).drop_last() =~= oid_texts(children@).take(j as int));
                    assert(oid_texts(children@).take(j + 1).last() == children@[j as int]@);
                }
                let child = &children[j];
                match store.get(child) {
                    Ok(Some(c)) => {
                        let seg = last_segment(&c.base().path);
                        let to = match tp.join(seg.as_str()) {
                            Ok(p) => p,
                            Err(e) => return Err(UseCaseError::Parse(e.message())),
                        };
                        match move_subtree(store, child, &to) {
                            Ok(()) => {},
                            Err(e) => return Err(e),
                        }
                    },
                    Ok(None) => {},
                    Err(e) => return Err(UseCaseError::Store(e)),
                }
                j = j + 1;
            }
            assert(oid_texts(children@).take(children.len() as int) =~= oid_texts(children@));
        },
        None => {},
    }
    if disp.dependencies == DependencyDisposition::Drop {
        let kept = retain_not_in(&task.base.depends, &deps);
        task.base.depends = kept;
        match store.put(&Object::Task(task)) {
            Ok(()) => {},
            Err(e) => return Err(UseCaseError::Store(e)),
        }
    }
    proof {
        let t = t0;
        assert(d.working.get(oid@) == Some(ObjectView::Task(t)));
        assert(parent@ == up_of(t.base.path));
        assert(child_oids(fv) == oid_texts(children@));
        assert(dep_oids(fv) == oid_texts(deps@));
        let kids = child_oids(fv);
        let grouped = match &disp.children {
            ChildDisposition::Keep => (d.working, None::<Seq<char>>),
            ChildDisposition::Up => (d.working, Some(parent@)),
            ChildDisposition::Into(name) => if kids.len() == 0 {
                (d.working, None::<Seq<char>>)
            } else {
                let p = joined(parent@, name@);
                (d.working.insert(g, group_view(g, name@, p)), Some(p))
            },
        };
        assert(grouped.0 == wa);
        assert(grouped.1 == match target {
            Some(tp) => Some(tp@),
            None => None::<Seq<char>>,
        });
    }
    assert(disposed_with(d, store.model().data, oid@, fv, *disp, g));
    Ok(())
}

/// What completing the task `t` at `at` ends as. A task already done keeps
/// the time it was first completed at.
pub open spec fn finished(t: TaskView, c: Completed, at: Timestamp) -> ObjectView {
    match c {
        Completed::Done => if t.done {
            ObjectView::Task(t)
        } else {
            ObjectView::Task(TaskView { done: true, completed_at: Some(at), ..t })
        },
        Completed::RolledForward { next_due } => ObjectView::Task(TaskView { due: Some(When::Day(next_due)), ..t }),
    }
}

/// How the task `t` completes on `today`: a recurring task rolls forward to
/// the next due date the calendar gives for its rule, counted from its due
/// date or else from today; any other task, or one whose rule gives none,
/// is done.
pub open spec fn rolled<C: Calendar>(calendar: C, t: TaskView, today: Date) -> Completed {
    match t.base.recurrence {
        Some(rule) => {
            let from = match t.due {
                Some(w) => w,
                None => When::Day(today),
            };
            match calendar.next_after(rule, from, today) {
                Some(n) => Completed::RolledForward { next_due: n },
                None => Completed::Done,
            }
        },
        None => Completed::Done,
    }
}

/// Completing a task that rolls nothing marks it done at the time it is
/// completed, unless it was done already, which keeps the time it was first
/// completed; rolling forward leaves it as open as it was, due next on the
/// day it rolled to. Nothing else of the task changes either way.
pub proof fn lemma_what_completing_leaves(t: TaskView, at: Timestamp, next: Date)
    ensures
        finished(t, Completed::Done, at) is Task,
        finished(t, Completed::Done, at)->Task_0.done,
        !t.done ==> finished(t, Completed::Done, at)->Task_0.completed_at == Some(at),
        t.done ==> finished(t, Completed::Done, at)->Task_0.completed_at == t.completed_at,
        finished(t, Completed::Done, at)->Task_0.base == t.base,
        finished(t, Completed::Done, at)->Task_0.due == t.due,
        finished(t, Completed::Done, at)->Task_0.priority == t.priority,
        finished(t, Completed::Done, at)->Task_0.deadline == t.deadline,
        finished(t, (Completed::RolledForward { next_due: next }), at) == ObjectView::Task(
            TaskView { due: Some(When::Day(next)), ..t },
        ),
{
}

/// A recurring series stays anchored on the task's own due date: completing
/// a task with rule `rule` due at `due`, on whatever day, rolls it to the
/// calendar's next date for the rule after `due`, and when the calendar
/// gives none it is done. The day it is completed on only bounds how far
/// the calendar steps.
pub proof fn lemma_series_rolls_from_its_due_date<C: Calendar>(
    calendar: C,
    t: TaskView,
    rule: Seq<char>,
    due: When,
    today: Date,
)
    requires
        t.base.recurrence == Some(rule),
        t.due == Some(due),
    ensures
        calendar.next_after(rule, due, today) matches Some(n) ==> rolled(calendar, t, today) == (
        Completed::RolledForward { next_due: n }),
        calendar.next_after(rule, due, today) is None ==> rolled(calendar, t, today) == Completed::Done,
{
}

/// Only a recurring task with no due date counts from the day it is
/// completed.
pub proof fn lemma_undated_series_rolls_from_today<C: Calendar>(
    calendar: C,
    t: TaskView,
    rule: Seq<char>,
    today: Date,
)
    requires
        t.base.recurrence == Some(rule),
        t.due is None,
    ensures
        calendar.next_after(rule, When::Day(today), today) matches Some(n) ==> rolled(calendar, t, today) == (
        Completed::RolledForward { next_due: n }),
        calendar.next_after(rule, When::Day(today), today) is None ==> rolled(calendar, t, today) == Completed::Done,
{
}

/// A task with no rule is simply done when completed, whatever the calendar.
pub proof fn lemma_one_off_task_is_done<C: Calendar>(calendar: C, t: TaskView, today: Date)
    requires
        t.base.recurrence is None,
    ensures
        rolled(calendar, t, today) == Completed::Done,
{
}

/// `d1` is `d` once the task `oid` is completed as `c` at `at` on `today`,
/// `c` being what the calendar makes of it.
pub open spec fn completed_in<C: Calendar>(
    calendar: C,
    d: StoreData,
    d1: StoreData,
    oid: Seq<char>,
    c: Completed,
    at: Timestamp,
    today: Date,
) -> bool {
    d.working.get(oid) matches Some(ObjectView::Task(t)) && c == rolled(calendar, t, today)
        && d1 == StoreData { working: d.working.insert(oid, finished(t, c, at)), ..d }
}

/// The operator's answer carried out for what blocked the task, then the
/// task completed.
pub open spec fn disposed_then_completed<C: Calendar>(
    calendar: C,
    d: StoreData,
    mid: StoreData,
    d1: StoreData,
    oid: Seq<char>,
    found: Seq<BlockerView>,
    disp: Dispositions,
    c: Completed,
    at: Timestamp,
    today: Date,
) -> bool {
    &&& d.working.get(oid) matches Some(ObjectView::Task(t)) && blockers_of(d, t, found)
    &&& disposed(d, mid, oid, found, disp)
    &&& completed_in(calendar, mid, d1, oid, c, at, today)
}

/// The task `oid` of `d` is blocked, by `blockers`.
pub open spec fn blocked_as(d: StoreData, oid: Seq<char>, blockers: Seq<BlockerView>) -> bool {
    d.working.get(oid) matches Some(ObjectView::Task(t)) && blocked_by(d, t) && blockers_of(d, t, blockers)
}

/// `d1` is `d` once the task `oid` is completed as `c` at `at` under
/// `force`, the operator's answer `dispositions` carried out first when it
/// was asked for.
pub open spec fn completion_as<C: Calendar>(
    calendar: C,
    d: StoreData,
    d1: StoreData,
    oid: Seq<char>,
    force: Force,
    dispositions: Option<Dispositions>,
    c: Completed,
    at: Timestamp,
    today: Date,
) -> bool {
    match d.working.get(oid) {
        Some(ObjectView::Task(t)) => {
            &&& force == Force::No ==> !blocked_by(d, t)
            &&& if blocked_by(d, t) && force == Force::Interactive && dispositions is Some {
                exists|mid: StoreData, found: Seq<BlockerView>|
                    #[trigger] disposed_then_completed(calendar, d, mid, d1, oid, found, dispositions.unwrap(), c, at, today)
            } else {
                completed_in(calendar, d, d1, oid, c, at, today)
            }
        },
        _ => false,
    }
}

/// Completing a task that is already done writes it back as it was: the
/// store does not change, and the time it was first completed stays.
pub proof fn lemma_completing_done_changes_nothing<C: Calendar>(
    calendar: C,
    d: StoreData,
    d1: StoreData,
    oid: Seq<char>,
    at: Timestamp,
    today: Date,
)
    requires
        d.working.get(oid) matches Some(ObjectView::Task(t)) && t.done,
        completed_in(calendar, d, d1, oid, Completed::Done, at, today),
    ensures
        d1 == d,
{
    assert(d.working.insert(oid, d.working[oid]) =~= d.working);
}

/// Step two: do it. `dispositions` is `None` unless the operator was asked.
pub fn complete<S: ObjectRepository, K: Clock, C: Calendar, R: Randomness>(
    store: &mut S,
    clock: &K,
    calendar: &C,
    random: &mut R,
    oid: &Oid,
    force: Force,
    dispositions: Option<Dispositions>,
) -> (r: Result<Completed, UseCaseError>)
    ensures
        final(store).model().unit == old(store).model().unit,
        r matches Ok(c) ==> exists|at: Timestamp, today: Date|
            #[trigger] completion_as(
                *calendar,
                old(store).model().data,
                final(store).model().data,
                oid@,
                force,
                dispositions,
                c,
                at,
                today,
            ),
        r matches Err(UseCaseError::Refused(_)) ==> final(store).model() == old(store).model(),
        old(store).reliable() ==> (old(store).model().data.working.get(oid@) matches Some(ObjectView::Task(t)) ==> (
        force == Force::Yes || (force == Force::Interactive && dispositions is None) || !blocked_by(
            old(store).model().data,
            t,
        ) ==> r is Ok)),
        match old(store).model().data.working.get(oid@) {
            Some(ObjectView::Task(t)) => force == Force::No && blocked_by(old(store).model().data, t) ==> (r matches Err(
                UseCaseError::Refused(Refusal::Blocked { .. }),
            ) || r matches Err(UseCaseError::Store(_))),
            Some(ObjectView::Event(_)) => r is Err,
            None => r is Err,
        },
        r matches Err(UseCaseError::Refused(Refusal::Blocked { oid: o, blockers: b })) ==> o@ == oid@
            && force == Force::No && blocked_as(old(store).model().data, oid@, blocker_views(b@)),
        r matches Err(UseCaseError::Refused(Refusal::NoSuchObject(s))) ==> s@ == short_text(oid@)
            && old(store).model().data.working.get(oid@) is None,
        r matches Err(UseCaseError::Refused(Refusal::NotATask(o))) ==> o@ == oid@ && old(
            store,
        ).model().data.working.get(oid@) matches Some(ObjectView::Event(_)),
        r matches Err(UseCaseError::Parse(_)) ==> force == Force::Interactive && dispositions is Some,
        r matches Err(e) ==> e is Store || e is Parse || e matches UseCaseError::Refused(Refusal::Blocked { .. })
            || e matches UseCaseError::Refused(Refusal::NotATask(_)) || e matches UseCaseError::Refused(
            Refusal::NoSuchObject(_),
        ),
{
    let ghost m0 = store.model();
    let ghost d = m0.data;
    let plan = match plan_complete(store, oid) {
        Ok(p) => p,
        Err(e) => return Err(e),
    };
    let ghost t0 = match d.working.get(oid@) {
        Some(ObjectView::Task(t)) => t,
        _ => arbitrary(),
    };
    proof {
        let kids = choose|kids: Seq<Seq<char>>| #[trigger] blockers_as(d, t0, kids, blocker_views(plan.blockers@));
        assert(blocker_views(plan.blockers@).len() == open_deps(d, t0.base.depends).len() + kids.len());
        if exists|k: Seq<char>| #[trigger] open_children(d, t0.base.path).contains(k) {
            let k = choose|k: Seq<char>| #[trigger] open_children(d, t0.base.path).contains(k);
            assert(kids.contains(k));
        }
        if kids.len() > 0 {
            assert(open_children(d, t0.base.path).contains(kids[0]));
        }
    }
    let mut disposed_now = false;
    if plan.blockers.len() > 0 {
        match force {
            Force::No => {
                return Err(UseCaseError::Refused(Refusal::Blocked { oid: oid.copy(), blockers: plan.blockers }));
            },
            Force::Yes => {},
            Force::Interactive => {
                match &dispositions {
                    None => {},
                    Some(disp) => {
                        match apply_dispositions(store, random, oid, &plan.blockers, disp) {
                            Ok(()) => {},
                            Err(e) => return Err(e),
                        }
                        disposed_now = true;
                    },
                }
            },
        }
    }
    let ghost mid = store.model().data;
    proof {
        store.lemma_model_wf();
        if disposed_now {
            let found = blocker_views(plan.blockers@);
            let disp = dispositions.unwrap();
            let g = choose|g: Seq<char>| #[trigger] disposed_with(d, mid, oid@, found, disp, g);
            let parent = up_of(t0.base.path);
            let kids = child_oids(found);
            let w0 = match disp.children {
                ChildDisposition::Into(name) => if kids.len() == 0 {
                    d.working
                } else {
                    d.working.insert(g, group_view(g, name@, joined(parent, name@)))
                },
                _ => d.working,
            };
            assert(w0.get(oid@) matches Some(ObjectView::Task(_)));
            match disp.children {
                ChildDisposition::Keep => {},
                ChildDisposition::Up => {
                    lemma_moves_keep_task(w0, parent, kids, oid@);
                },
                ChildDisposition::Into(name) => {
                    if kids.len() > 0 {
                        lemma_moves_keep_task(w0, joined(parent, name@), kids, oid@);
                    }
                },
            }
        }
        assert(mid.working.get(oid@) matches Some(ObjectView::Task(_)));
    }
    let mut task = match load_task(store, oid) {
        Ok(t) => t,
        Err(e) => return Err(e),
    };
    let ghost t_loaded = task@;
    let today = clock.today();
    let next = match &task.base.recurrence {
        Some(rule) => {
            let from = match task.due {
                Some(w) => w,
                None => When::Day(today),
            };
            calendar.next_due(rule.as_str(), from, today)
        },
        None => None,
    };
    let now = clock.now();
    let outcome = match next {
        Some(day) => {
            task.due = Some(When::Day(day));
            Completed::RolledForward { next_due: day }
        },
        None => {
            if !task.done {
                task.done = true;
                task.completed_at = Some(now);
            }
            Completed::Done
        },
    };
    match store.put(&Object::Task(task)) {
        Ok(()) => {},
        Err(e) => return Err(UseCaseError::Store(e)),
    }
    proof {
        assert(mid.working.get(oid@) == Some(ObjectView::Task(t_loaded)));
        assert(outcome == rolled(*calendar, t_loaded, today));
        assert(Object::Task(task)@ == finished(t_loaded, outcome, now));
        assert(completed_in(*calendar, mid, store.model().data, oid@, outcome, now, today));
        if disposed_now {
            assert(disposed_then_completed(
                *calendar,
                d,
                mid,
                store.model().data,
                oid@,
                blocker_views(plan.blockers@),
                dispositions.unwrap(),
                outcome,
                now,
                today,
            ));
        }
        assert(completion_as(*calendar, d, store.model().data, oid@, force, dispositions, outcome, now, today));
    }
    Ok(outcome)
}

} // verus!
