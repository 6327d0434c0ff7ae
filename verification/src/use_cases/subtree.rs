//! Moving one object together with everything nested under it.

use vstd::prelude::*;

use crate::domain::{BaseView, ObjectView, Oid, Path, normalized, path_ok, within};
use crate::errors::{Refusal, UseCaseError};
use crate::ports::{ObjectRepository, StoreData, lists_objects, object_views};

verus! {

/// `o` moved to `p`.
pub open spec fn with_path(o: ObjectView, p: Seq<char>) -> ObjectView {
    o.with_base(BaseView { path: p, ..o.base() })
}

/// Where `p`, at or under `from`, lands once `from` moves to `to`.
pub open spec fn carried_path(p: Seq<char>, from: Seq<char>, to: Seq<char>) -> Seq<char> {
    to + p.subrange(from.len() as int, p.len() as int)
}

/// The working layer once `oid` moves to `to`, carrying every object under
/// its old path along.
pub open spec fn moved_tree(w: Map<Seq<char>, ObjectView>, oid: Seq<char>, to: Seq<char>) -> Map<
    Seq<char>,
    ObjectView,
> {
    let from = w[oid].base().path;
    Map::new(
        |k: Seq<char>| w.contains_key(k),
        |k: Seq<char>|
            if k == oid {
                with_path(w[k], to)
            } else if within(w[k].base().path, from) {
                with_path(w[k], carried_path(w[k].base().path, from, to))
            } else {
                w[k]
            },
    )
}

/// Moving an object carries its subtree and nothing else: no object comes
/// or goes; the object lands at `to`; each object under its old path keeps
/// its place below it, now below `to`; every other object stays put; and
/// each object keeps all but its path.
pub proof fn lemma_move_carries_the_subtree(w: Map<Seq<char>, ObjectView>, oid: Seq<char>, to: Seq<char>)
    requires
        w.contains_key(oid),
    ensures
        moved_tree(w, oid, to).dom() == w.dom(),
        moved_tree(w, oid, to)[oid].base().path == to,
        forall|k: Seq<char>| #[trigger] w.contains_key(k) && k != oid && within(w[k].base().path, w[oid].base().path)
            ==> within(moved_tree(w, oid, to)[k].base().path, to) && moved_tree(w, oid, to)[k].base().path.subrange(
            to.len() as int,
            moved_tree(w, oid, to)[k].base().path.len() as int,
        ) == w[k].base().path.subrange(w[oid].base().path.len() as int, w[k].base().path.len() as int),
        forall|k: Seq<char>| #[trigger] w.contains_key(k) && k != oid && !within(w[k].base().path, w[oid].base().path)
            ==> moved_tree(w, oid, to)[k] == w[k],
        forall|k: Seq<char>| #[trigger] w.contains_key(k) ==> moved_tree(w, oid, to)[k] == with_path(
            w[k],
            moved_tree(w, oid, to)[k].base().path,
        ),
{
    let from = w[oid].base().path;
    assert(moved_tree(w, oid, to).dom() =~= w.dom());
    assert forall|k: Seq<char>| #[trigger] w.contains_key(k) && k != oid && within(w[k].base().path, from) implies within(
        moved_tree(w, oid, to)[k].base().path,
        to,
    ) && moved_tree(w, oid, to)[k].base().path.subrange(
        to.len() as int,
        moved_tree(w, oid, to)[k].base().path.len() as int,
    ) == w[k].base().path.subrange(from.len() as int, w[k].base().path.len() as int) by {
        let p = w[k].base().path;
        let q = carried_path(p, from, to);
        assert(moved_tree(w, oid, to)[k].base().path == q);
        assert(q.subrange(0, to.len() as int) =~= to);
        assert(q.subrange(to.len() as int, q.len() as int) =~= p.subrange(from.len() as int, p.len() as int));
    }
    assert forall|k: Seq<char>| #[trigger] w.contains_key(k) implies moved_tree(w, oid, to)[k] == with_path(
        w[k],
        moved_tree(w, oid, to)[k].base().path,
    ) by {
        match w[k] {
            ObjectView::Task(t) => {},
            ObjectView::Event(e) => {},
        }
    }
}

/// Whether one of the first `n` objects of `vs` is `k`.
pub open spec fn listed_before(vs: Seq<ObjectView>, n: int, k: Seq<char>) -> bool {
    exists|j: int| 0 <= j < n && (#[trigger] vs[j]).oid() == k
}

/// A path carried from under one well-formed path to another is well formed.
pub proof fn lemma_carried_ok(p: Seq<char>, from: Seq<char>, to: Seq<char>)
    requires
        path_ok(p),
        path_ok(from),
        path_ok(to),
        within(p, from),
    ensures
        path_ok(carried_path(p, from, to)),
        normalized(carried_path(p, from, to)) == carried_path(p, from, to),
{
    let s = p.subrange(from.len() as int, p.len() as int);
    let x = to + s;
    assert(carried_path(p, from, to) == x);
    if s.len() == 0 {
        assert(x =~= to);
    } else {
        assert(s.last() == p.last());
        assert(s[0] != '/') by {
            if from.len() > 0 {
                assert(p[from.len() - 1] == from[from.len() - 1]);
            }
        }
        assert forall|i: int| 0 <= i < x.len() - 1 && #[trigger] x[i] == '/' implies x[i + 1] != '/' by {
            if i < to.len() - 1 {
                assert(x[i] == to[i] && x[i + 1] == to[i + 1]);
            } else if i == to.len() - 1 {
                assert(x[i + 1] == s[0]);
            } else {
                let j = i - to.len();
                assert(x[i] == s[j] && s[j] == p[from.len() + j]);
                assert(x[i + 1] == s[j + 1] && s[j + 1] == p[from.len() + j + 1]);
            }
        }
        assert(x[0] != '/') by {
            if to.len() > 0 {
                assert(x[0] == to[0]);
            } else {
                assert(x[0] == s[0]);
            }
        }
        assert(x.last() == s.last());
    }
}

/// Moves `oid` to `to`, carrying every object nested under its old path along
/// with it, so a moved task's children (and their own children) relocate
/// instead of being orphaned under a stale prefix.
pub fn move_subtree<S: ObjectRepository>(store: &mut S, oid: &Oid, to: &Path) -> (r: Result<(), UseCaseError>)
    ensures
        final(store).model().unit == old(store).model().unit,
        old(store).model().data.working.contains_key(oid@) && r is Ok ==> final(store).model() == old(
            store,
        ).model().with(
            StoreData { working: moved_tree(old(store).model().data.working, oid@, to@), ..old(store).model().data },
        ),
        !old(store).model().data.working.contains_key(oid@) ==> r is Err,
        r matches Err(UseCaseError::Refused(Refusal::NoSuchObject(s))) ==> !old(
            store,
        ).model().data.working.contains_key(oid@) && s@ == crate::domain::short_text(oid@),
        r matches Err(e) ==> e is Store || e matches UseCaseError::Refused(Refusal::NoSuchObject(_)),
{
    proof {
        store.lemma_model_wf();
    }
    let ghost m0 = store.model();
    let ghost w0 = m0.data.working;
    let mut object = match store.get(oid) {
        Ok(Some(o)) => o,
        Ok(None) => return Err(UseCaseError::Refused(Refusal::NoSuchObject(oid.short()))),
        Err(e) => return Err(UseCaseError::Store(e)),
    };
    let from = object.base().path.copy();
    let ghost target = moved_tree(w0, oid@, to@);
    let all = match store.all() {
        Ok(a) => a,
        Err(e) => return Err(UseCaseError::Store(e)),
    };
    let ghost vs = object_views(all@);
    let mut i: usize = 0;
    while i < all.len()
        invariant
            m0 == old(store).model(),
            w0 == m0.data.working,
            m0.data.wf(),
            w0.contains_key(oid@),
            from@ == w0[oid@].base().path,
            target == moved_tree(w0, oid@, to@),
            vs == object_views(all@),
            lists_objects(vs, w0),
            i <= all.len(),
            store.model() == m0.with((StoreData { working: store.model().data.working, ..m0.data })),
            forall|k: Seq<char>| #[trigger] store.model().data.working.contains_key(k) <==> w0.contains_key(k),
            forall|k: Seq<char>|
                #![trigger store.model().data.working[k]]
                w0.contains_key(k) && k != oid@ && listed_before(vs, i as int, k) ==> store.model().data.working[k]
                    == target[k],
            forall|k: Seq<char>|
                #![trigger store.model().data.working[k]]
                w0.contains_key(k) && k != oid@ && !listed_before(vs, i as int, k) ==> store.model().data.working[k]
                    == w0[k],
            store.model().data.working[oid@] == w0[oid@],
        decreases all.len() - i,
    {
        let ghost wb = store.model().data.working;
        let ghost k = vs[i as int].oid();
        assert(vs[i as int] == all@[i as int]@);
        if !all[i].oid().same(oid) && all[i].base().path.is_within(&from) {
            let mut other = all[i].copy();
            let p = other.base().path.copy();
            let n = p.as_str().unicode_len();
            let f = from.as_str().unicode_len();
            let mut text = String::from_str(to.as_str());
            text.append(p.as_str().substring_char(f, n));
            proof {
                lemma_carried_ok(p@, from@, to@);
                assert(text@ == carried_path(p@, from@, to@));
            }
            let moved = match Path::parse(text.as_str()) {
                Ok(q) => q,
                Err(e) => return Err(UseCaseError::Parse(e.message())),
            };
            {
                let b = other.base_mut();
                b.path = moved;
            }
            assert(other@ == target[k]);
            match store.put(&other) {
                Ok(()) => {},
                Err(e) => return Err(UseCaseError::Store(e)),
            }
        } else {
            assert(k != oid@ ==> target[k] == w0[k]);
        }
        proof {
            assert forall|kk: Seq<char>|
                #![trigger store.model().data.working[kk]]
                w0.contains_key(kk) && kk != oid@ implies (listed_before(vs, i + 1, kk) ==> store.model().data.working[kk]
                    == target[kk]) && (!listed_before(vs, i + 1, kk) ==> store.model().data.working[kk] == w0[kk]) by {
                if kk == k {
                    assert(vs[i as int].oid() == kk);
                } else {
                    assert(store.model().data.working[kk] == wb[kk]);
                    if listed_before(vs, i + 1, kk) {
                        let j = choose|j: int| 0 <= j < i + 1 && (#[trigger] vs[j]).oid() == kk;
                        assert(j < i);
                    }
                    if listed_before(vs, i as int, kk) {
                        let j = choose|j: int| 0 <= j < i && (#[trigger] vs[j]).oid() == kk;
                        assert(vs[j].oid() == kk);
                    }
                }
            }
        }
        i = i + 1;
    }
    let b = object.base_mut();
    b.path = to.copy();
    match store.put(&object) {
        Ok(()) => {},
        Err(e) => return Err(UseCaseError::Store(e)),
    }
    proof {
        let w = store.model().data.working;
        assert forall|k: Seq<char>| #[trigger] w.contains_key(k) implies w[k] == target[k] by {
            if k != oid@ {
                let j = choose|j: int| 0 <= j < vs.len() && #[trigger] vs[j].oid() == k;
                assert(vs[j].oid() == k);
            }
        }
        assert(w =~= target);
    }
    Ok(())
}

} // verus!
