//! Removing one object without cascading: its children move up a level,
//! dependents lose the edge, and attached tasks keep the oid.

use vstd::prelude::*;

use crate::domain::{
    BaseView, Object, ObjectView, Oid, Path, joined, last_segment, last_segment_text, oid_texts,
    parent_text, short_text, within,
};
use crate::errors::{Refusal, UseCaseError};
use crate::ports::{ObjectRepository, StoreData, lists_objects, lists_oids, object_views};
use crate::use_cases::pull::notices::attached_to;
use crate::use_cases::subtree::{move_subtree, moved_tree};

verus! {

/// What removing an object touches.
#[derive(Debug)]
pub struct RemovePlan {
    pub oid: Oid,
    /// Every other object at or under its path.
    pub descendants: Vec<Oid>,
    /// The objects that depend on it.
    pub dependents: Vec<Oid>,
    /// The tasks attached to it.
    pub attached: Vec<Oid>,
}

/// The other objects at or under the path of `oid`.
pub open spec fn descendants_of(d: StoreData, oid: Seq<char>) -> Set<Seq<char>> {
    d.working.dom().filter(|k: Seq<char>| k != oid && within(d.working[k].base().path, d.working[oid].base().path))
}

/// The tasks attached to `oid`.
pub open spec fn attached_of(d: StoreData, oid: Seq<char>) -> Set<Seq<char>> {
    d.working.dom().filter(|k: Seq<char>| attached_to(d.working[k], oid))
}

/// `plan` is what removing `oid` from `d` touches.
pub open spec fn plan_of(d: StoreData, oid: Seq<char>, plan: RemovePlan) -> bool {
    &&& plan.oid@ == oid
    &&& lists_oids(oid_texts(plan.descendants@), descendants_of(d, oid))
    &&& lists_oids(oid_texts(plan.dependents@), d.dependents_of(oid))
    &&& lists_oids(oid_texts(plan.attached@), attached_of(d, oid))
}

/// The oids of the objects of `all` that `keep` marks, once each.
pub(crate) fn pick_oids(
    all: &Vec<Object>,
    keep: &Vec<bool>,
    Ghost(m): Ghost<Map<Seq<char>, ObjectView>>,
    Ghost(p): Ghost<spec_fn(Seq<char>) -> bool>,
) -> (r: Vec<Oid>)
    requires
        lists_objects(object_views(all@), m),
        keep@.len() == all@.len(),
        forall|i: int| 0 <= i < all@.len() ==> keep@[i] == p(#[trigger] all@[i]@.oid()),
    ensures
        lists_oids(oid_texts(r@), m.dom().filter(p)),
{
    let ghost vs = object_views(all@);
    let ghost mut src: Seq<int> = Seq::empty();
    let mut out: Vec<Oid> = Vec::new();
    let mut i: usize = 0;
    while i < all.len()
        invariant
            vs == object_views(all@),
            lists_objects(vs, m),
            keep@.len() == all@.len(),
            forall|j: int| 0 <= j < all@.len() ==> keep@[j] == p(#[trigger] all@[j]@.oid()),
            i <= all.len(),
            oid_texts(out@).no_duplicates(),
            src.len() == out@.len(),
            forall|k: int|
                0 <= k < src.len() ==> 0 <= #[trigger] src[k] < i && vs[src[k]].oid() == oid_texts(out@)[k] && p(
                    vs[src[k]].oid(),
                ),
            forall|j: int| 0 <= j < i && p(#[trigger] vs[j].oid()) ==> oid_texts(out@).contains(vs[j].oid()),
        decreases all.len() - i,
    {
        assert(vs[i as int] == all@[i as int]@);
        if keep[i] {
            let ghost before = oid_texts(out@);
            let o = all[i].oid().copy();
            proof {
                assert(!before.contains(vs[i as int].oid())) by {
                    if before.contains(vs[i as int].oid()) {
                        let k = choose|k: int| 0 <= k < before.len() && before[k] == vs[i as int].oid();
                        assert(vs[src[k]].oid() != vs[i as int].oid());
                    }
                }
            }
            out.push(o);
            assert(oid_texts(out@) =~= before.push(vs[i as int].oid()));
            proof {
                src = src.push(i as int);
            }
            assert forall|j: int| 0 <= j < i + 1 && p(#[trigger] vs[j].oid()) implies oid_texts(out@).contains(
                vs[j].oid(),
            ) by {
                if j < i {
                    let k = choose|k: int| 0 <= k < before.len() && before[k] == vs[j].oid();
                    assert(oid_texts(out@)[k] == before[k]);
                } else {
                    assert(oid_texts(out@)[before.len() as int] == vs[j].oid());
                }
            }
        }
        i = i + 1;
    }
    proof {
        let s = m.dom().filter(p);
        let o = oid_texts(out@);
        assert forall|k: Seq<char>| s.contains(k) <==> o.contains(k) by {
            if s.contains(k) {
                let j = choose|j: int| 0 <= j < vs.len() && #[trigger] vs[j].oid() == k;
                assert(p(vs[j].oid()));
            }
            if o.contains(k) {
                let n = choose|n: int| 0 <= n < o.len() && o[n] == k;
                assert(m.contains_key(vs[src[n]].oid()));
            }
        }
    }
    out
}

/// Lists what removing `oid` would touch, without touching it.
pub fn plan_remove<S: ObjectRepository>(store: &S, oid: &Oid) -> (r: Result<RemovePlan, UseCaseError>)
    ensures
        r matches Ok(plan) ==> store.model().data.working.contains_key(oid@) && plan_of(store.model().data, oid@, plan),
        !store.model().data.working.contains_key(oid@) ==> r is Err,
        r matches Err(UseCaseError::Refused(Refusal::NoSuchObject(s))) ==> !store.model().data.working.contains_key(
            oid@,
        ) && s@ == short_text(oid@),
        r matches Err(e) ==> e is Store || e matches UseCaseError::Refused(Refusal::NoSuchObject(_)),
{
    proof {
        store.lemma_model_wf();
    }
    let ghost d = store.model().data;
    let object = match store.get(oid) {
        Ok(Some(o)) => o,
        Ok(None) => return Err(UseCaseError::Refused(Refusal::NoSuchObject(oid.short()))),
        Err(e) => return Err(UseCaseError::Store(e)),
    };
    let path = object.base().path.copy();
    let all = match store.all() {
        Ok(a) => a,
        Err(e) => return Err(UseCaseError::Store(e)),
    };
    let ghost w = d.working;
    let mut under: Vec<bool> = Vec::new();
    let mut tied: Vec<bool> = Vec::new();
    let mut i: usize = 0;
    while i < all.len()
        invariant
            w == d.working,
            d.wf(),
            lists_objects(object_views(all@), w),
            path@ == w[oid@].base().path,
            i <= all.len(),
            under@.len() == i,
            tied@.len() == i,
            forall|j: int|
                0 <= j < i ==> under@[j] == (|k: Seq<char>| k != oid@ && within(w[k].base().path, path@))(
                    #[trigger] all@[j]@.oid(),
                ),
            forall|j: int|
                0 <= j < i ==> tied@[j] == (|k: Seq<char>| attached_to(w[k], oid@))(#[trigger] all@[j]@.oid()),
        decreases all.len() - i,
    {
        assert(object_views(all@)[i as int] == all@[i as int]@);
        let o = &all[i];
        assert(w[o@.oid()] == o@);
        under.push(!o.oid().same(oid) && o.base().path.is_within(&path));
        let attached = match o.as_task() {
            Some(t) => match &t.event {
                Some(e) => e.same(oid),
                None => false,
            },
            None => false,
        };
        tied.push(attached);
        i = i + 1;
    }
    let descendants = pick_oids(
        &all,
        &under,
        Ghost(w),
        Ghost(|k: Seq<char>| k != oid@ && within(w[k].base().path, path@)),
    );
    let attached = pick_oids(&all, &tied, Ghost(w), Ghost(|k: Seq<char>| attached_to(w[k], oid@)));
    let dependents = match store.dependents_of(oid) {
        Ok(v) => v,
        Err(e) => return Err(UseCaseError::Store(e)),
    };
    proof {
        assert(descendants_of(d, oid@) =~= w.dom().filter(
            |k: Seq<char>| k != oid@ && within(w[k].base().path, path@),
        ));
        assert(attached_of(d, oid@) =~= w.dom().filter(|k: Seq<char>| attached_to(w[k], oid@)));
    }
    Ok(RemovePlan { oid: oid.copy(), descendants, dependents, attached })
}

/// `o` without its dependency on `oid`.
pub open spec fn without_dep(o: ObjectView, oid: Seq<char>) -> ObjectView {
    o.with_base(BaseView { depends: o.base().depends.filter(|x: Seq<char>| x != oid), ..o.base() })
}

/// The working layer once every object of `deps` drops its dependency on
/// `oid`.
pub open spec fn edges_dropped(w: Map<Seq<char>, ObjectView>, deps: Set<Seq<char>>, oid: Seq<char>) -> Map<
    Seq<char>,
    ObjectView,
> {
    Map::new(
        |k: Seq<char>| w.contains_key(k),
        |k: Seq<char>|
            if deps.contains(k) {
                without_dep(w[k], oid)
            } else {
                w[k]
            },
    )
}

/// The working layer once each of `kids` moves to `up`, by its own last
/// segment, in order.
pub open spec fn kids_moved_up(w: Map<Seq<char>, ObjectView>, up: Seq<char>, kids: Seq<ObjectView>) -> Map<
    Seq<char>,
    ObjectView,
>
    decreases kids.len(),
{
    if kids.len() == 0 {
        w
    } else {
        let k = kids.last();
        moved_tree(kids_moved_up(w, up, kids.drop_last()), k.oid(), joined(up, last_segment_text(k.base().path)))
    }
}

/// The path one level above `p`, the root for the root.
pub open spec fn up_of(p: Seq<char>) -> Seq<char> {
    match parent_text(p) {
        Some(q) => q,
        None => Seq::empty(),
    }
}

/// `d` once `oid` is removed, its children `kids` having moved up a level.
pub open spec fn removal(d: StoreData, oid: Seq<char>, kids: Seq<ObjectView>) -> StoreData {
    let w1 = kids_moved_up(d.working, up_of(d.working[oid].base().path), kids);
    StoreData { working: edges_dropped(w1, d.dependents_of(oid), oid).remove(oid), ..d }
}

/// Filtering keeps exactly the entries the predicate holds of.
proof fn lemma_filter_keeps(s: Seq<Seq<char>>)
    ensures
        forall|q: spec_fn(Seq<char>) -> bool, x: Seq<char>| #[trigger] s.filter(q).contains(x) <==> (s.contains(x) && q(
            x,
        )),
{
    assert forall|q: spec_fn(Seq<char>) -> bool, x: Seq<char>| #[trigger] s.filter(q).contains(x) <==> (s.contains(x)
        && q(x)) by {
        s.filter_lemma(q);
        if s.contains(x) && q(x) {
            let i = choose|i: int| 0 <= i < s.len() && s[i] == x;
            s.lemma_filter_contains(q, i);
        }
        if s.filter(q).contains(x) {
            s.lemma_filter_contains_rev(q, x);
            let i = choose|i: int| 0 <= i < s.filter(q).len() && s.filter(q)[i] == x;
            assert(q(s.filter(q)[i]));
        }
    }
}

/// Moving children up a level moves no object in or out, and leaves what
/// each depends on as it was.
proof fn lemma_moving_up_keeps_deps(w: Map<Seq<char>, ObjectView>, up: Seq<char>, kids: Seq<ObjectView>)
    ensures
        kids_moved_up(w, up, kids).dom() == w.dom(),
        forall|k: Seq<char>| #[trigger] w.contains_key(k) ==> kids_moved_up(w, up, kids)[k].base().depends
            == w[k].base().depends,
    decreases kids.len(),
{
    if kids.len() > 0 {
        lemma_moving_up_keeps_deps(w, up, kids.drop_last());
        let k = kids.last();
        let w0 = kids_moved_up(w, up, kids.drop_last());
        assert(moved_tree(w0, k.oid(), joined(up, last_segment_text(k.base().path))).dom() =~= w0.dom());
    }
}

/// Removing an object takes it, and it alone, out of the working layer,
/// and leaves nothing depending on it; what the other objects depend on is
/// otherwise as it was.
pub proof fn lemma_removal_leaves_nothing_depending(d: StoreData, oid: Seq<char>, kids: Seq<ObjectView>)
    ensures
        removal(d, oid, kids).working.dom() == d.working.dom().remove(oid),
        forall|k: Seq<char>| #[trigger] removal(d, oid, kids).working.contains_key(k) ==> !removal(
            d,
            oid,
            kids,
        ).working[k].base().depends.contains(oid),
        forall|k: Seq<char>, x: Seq<char>| #[trigger] removal(d, oid, kids).working.contains_key(k) && x != oid
            ==> (#[trigger] removal(d, oid, kids).working[k].base().depends.contains(x) <==> d.working[k].base().depends.contains(x)),
        removal(d, oid, kids).committed == d.committed,
        removal(d, oid, kids).staged == d.staged,
{
    let w1 = kids_moved_up(d.working, up_of(d.working[oid].base().path), kids);
    lemma_moving_up_keeps_deps(d.working, up_of(d.working[oid].base().path), kids);
    let deps = d.dependents_of(oid);
    let w2 = edges_dropped(w1, deps, oid);
    assert(w2.dom() =~= w1.dom());
    assert(removal(d, oid, kids).working.dom() =~= d.working.dom().remove(oid));
    assert forall|k: Seq<char>, x: Seq<char>| #[trigger] w2.contains_key(k) implies (!w2[k].base().depends.contains(
        oid,
    ) && (x != oid ==> (#[trigger] w2[k].base().depends.contains(x) <==> d.working[k].base().depends.contains(x)))) by {
        let ds = w1[k].base().depends;
        assert(d.working.contains_key(k));
        assert(ds == d.working[k].base().depends);
        if deps.contains(k) {
            assert(w2[k] == without_dep(w1[k], oid));
            lemma_filter_keeps(ds);
        } else {
            assert(w2[k] == w1[k]);
            assert(!d.working[k].base().depends.contains(oid));
        }
    }
}

/// `d1` is `d` once `oid` is removed, its children moved up in some order.
pub open spec fn removed_from(d: StoreData, d1: StoreData, oid: Seq<char>) -> bool {
    exists|kids: Seq<ObjectView>|
        #[trigger] lists_objects(kids, d.children_of(d.working[oid].base().path)) && d1 == removal(d, oid, kids)
}

/// `v` without any `oid`.
fn without(v: &Vec<Oid>, oid: &Oid) -> (r: Vec<Oid>)
    ensures
        oid_texts(r@) == oid_texts(v@).filter(|x: Seq<char>| x != oid@),
{
    let ghost p = |x: Seq<char>| x != oid@;
    let mut out: Vec<Oid> = Vec::new();
    let mut i: usize = 0;
    while i < v.len()
        invariant
            i <= v.len(),
            p == (|x: Seq<char>| x != oid@),
            oid_texts(out@) == oid_texts(v@).take(i as int).filter(p),
        decreases v.len() - i,
    {
        let ghost before = oid_texts(out@);
        proof {
            assert(oid_texts(v@).take(i + 1) =~= oid_texts(v@).take(i as int).push(oid_texts(v@)[i as int]));
            crate::domain::lemma_filter_push(oid_texts(v@).take(i as int), oid_texts(v@)[i as int], p);
        }
        if !v[i].same(oid) {
            out.push(v[i].copy());
            assert(oid_texts(out@) =~= before.push(v@[i as int]@));
        } else {
            assert(oid_texts(out@) =~= before);
        }
        i = i + 1;
    }
    assert(oid_texts(v@).take(v.len() as int) =~= oid_texts(v@));
    out
}

/// Removes one object. Children move up a level, dependents lose the edge,
/// attached tasks keep the oid so `status` can report it. Nothing cascades.
pub fn remove<S: ObjectRepository>(store: &mut S, oid: &Oid) -> (r: Result<RemovePlan, UseCaseError>)
    ensures
        final(store).model().unit == old(store).model().unit,
        r matches Ok(plan) ==> {
            let d = old(store).model().data;
            &&& d.working.contains_key(oid@)
            &&& plan_of(d, oid@, plan)
            &&& final(store).model() == old(store).model().with(final(store).model().data)
            &&& removed_from(d, final(store).model().data, oid@)
        },
        !old(store).model().data.working.contains_key(oid@) ==> r is Err,
        r matches Err(UseCaseError::Refused(Refusal::NoSuchObject(s))) ==> !old(
            store,
        ).model().data.working.contains_key(oid@) && s@ == short_text(oid@),
        r matches Err(e) ==> e is Store || e matches UseCaseError::Refused(Refusal::NoSuchObject(_)),
{
    proof {
        store.lemma_model_wf();
    }
    let ghost m0 = store.model();
    let ghost d = m0.data;
    let plan = match plan_remove(store, oid) {
        Ok(p) => p,
        Err(e) => return Err(e),
    };
    let object = match store.get(oid) {
        Ok(Some(o)) => o,
        Ok(None) => return Err(UseCaseError::Refused(Refusal::NoSuchObject(oid.short()))),
        Err(e) => return Err(UseCaseError::Store(e)),
    };
    let from = object.base().path.copy();
    let up = match from.parent() {
        Some(p) => p,
        None => Path::root(),
    };
    let children = match store.children_of(&from) {
        Ok(c) => c,
        Err(e) => return Err(UseCaseError::Store(e)),
    };
    let ghost kids = object_views(children@);
    let mut i: usize = 0;
    while i < children.len()
        invariant
            m0 == old(store).model(),
            d == m0.data,
            d.wf(),
            d.working.contains_key(oid@),
            from@ == d.working[oid@].base().path,
            up@ == up_of(from@),
            kids == object_views(children@),
            lists_objects(kids, d.children_of(from@)),
            i <= children.len(),
            store.model() == m0.with((StoreData { working: kids_moved_up(d.working, up@, kids.take(i as int)), ..d })),
            kids_moved_up(d.working, up@, kids.take(i as int)).dom() == d.working.dom(),
        decreases children.len() - i,
    {
        let ghost w = store.model().data.working;
        let child = &children[i];
        assert(kids[i as int] == child@);
        assert(d.children_of(from@).contains_key(child@.oid()));
        assert(parent_text(child@.base().path) == Some(from@));
        let seg = last_segment(&child.base().path);
        let to = match up.join(seg.as_str()) {
            Ok(p) => p,
            Err(e) => return Err(UseCaseError::Parse(e.message())),
        };
        match move_subtree(store, child.oid(), &to) {
            Ok(()) => {},
            Err(e) => return Err(e),
        }
        proof {
            assert(kids.take(i + 1).drop_last() =~= kids.take(i as int));
            assert(kids.take(i + 1).last() == kids[i as int]);
            assert(moved_tree(w, child@.oid(), to@).dom() =~= w.dom());
        }
        i = i + 1;
    }
    assert(kids.take(children.len() as int) =~= kids);
    let ghost w1 = store.model().data.working;
    let ghost deps = oid_texts(plan.dependents@);
    let ghost target = edges_dropped(w1, d.dependents_of(oid@), oid@);
    let mut j: usize = 0;
    while j < plan.dependents.len()
        invariant
            m0 == old(store).model(),
            d == m0.data,
            d.working.contains_key(oid@),
            w1.dom() == d.working.dom(),
            deps == oid_texts(plan.dependents@),
            lists_oids(deps, d.dependents_of(oid@)),
            target == edges_dropped(w1, d.dependents_of(oid@), oid@),
            j <= plan.dependents.len(),
            store.model() == m0.with((StoreData { working: store.model().data.working, ..d })),
            store.model().data.working.dom() == w1.dom(),
            forall|k: Seq<char>|
                #![trigger store.model().data.working[k]]
                w1.contains_key(k) && deps.take(j as int).contains(k) ==> store.model().data.working[k] == target[k],
            forall|k: Seq<char>|
                #![trigger store.model().data.working[k]]
                w1.contains_key(k) && !deps.take(j as int).contains(k) ==> store.model().data.working[k] == w1[k],
        decreases plan.dependents.len() - j,
    {
        proof {
            store.lemma_model_wf();
        }
        let ghost wb = store.model().data.working;
        let dep = &plan.dependents[j];
        let ghost k = dep@;
        assert(deps[j as int] == k);
        assert(!deps.take(j as int).contains(k)) by {
            if deps.take(j as int).contains(k) {
                let n = choose|n: int| 0 <= n < j && deps.take(j as int)[n] == k;
                assert(deps[n] == deps[j as int]);
            }
        }
        assert(d.dependents_of(oid@).contains(k));
        match store.get(dep) {
            Ok(Some(mut x)) => {
                let kept = without(&x.base().depends, oid);
                let b = x.base_mut();
                b.depends = kept;
                assert(x@ == target[k]);
                match store.put(&x) {
                    Ok(()) => {},
                    Err(e) => return Err(UseCaseError::Store(e)),
                }
            },
            Ok(None) => {},
            Err(e) => return Err(UseCaseError::Store(e)),
        }
        proof {
            assert forall|kk: Seq<char>|
                #![trigger store.model().data.working[kk]]
                w1.contains_key(kk) implies (deps.take(j + 1).contains(kk) ==> store.model().data.working[kk]
                    == target[kk]) && (!deps.take(j + 1).contains(kk) ==> store.model().data.working[kk]
                    == w1[kk]) by {
                assert(deps.take(j + 1) =~= deps.take(j as int).push(k));
                assert(deps.take(j + 1)[j as int] == k);
                if kk != k {
                    assert(store.model().data.working[kk] == wb[kk]);
                    if !deps.take(j + 1).contains(kk) {
                        assert(!deps.take(j as int).contains(kk)) by {
                            if deps.take(j as int).contains(kk) {
                                let n = choose|n: int| 0 <= n < j && deps.take(j as int)[n] == kk;
                                assert(deps.take(j + 1)[n] == kk);
                            }
                        }
                    }
                }
            }
        }
        j = j + 1;
    }
    match store.delete(oid) {
        Ok(()) => {},
        Err(e) => return Err(UseCaseError::Store(e)),
    }
    proof {
        assert(deps.take(plan.dependents.len() as int) =~= deps);
        let w2 = store.model().data.working;
        let expect = removal(d, oid@, kids).working;
        assert forall|kk: Seq<char>| #[trigger] w2.contains_key(kk) implies w2[kk] == expect[kk] by {
            if d.dependents_of(oid@).contains(kk) {
                assert(deps.contains(kk));
            }
        }
        assert(w2 =~= expect);
        assert(lists_objects(kids, d.children_of(d.working[oid@].base().path)));
    }
    Ok(plan)
}

} // verus!
