//! Whether new dependencies would close a loop back to the object that
//! takes them.

use vstd::prelude::*;

use crate::domain::{Object, Oid, oid_texts, oids_contain};
use crate::ports::{ObjectRepository, StoreData};

verus! {

/// What `k` depends on in `d`; nothing when there is no such object.
pub open spec fn dep_succ(d: StoreData, k: Seq<char>) -> Seq<Seq<char>> {
    match d.working.get(k) {
        Some(o) => o.base().depends,
        None => Seq::empty(),
    }
}

/// `c` walks dependency edges of `d` from one of `from` to `target`,
/// leaving no object of `skipped` along the way.
pub open spec fn is_chain(
    d: StoreData,
    skipped: Set<Seq<char>>,
    from: Seq<Seq<char>>,
    c: Seq<Seq<char>>,
    target: Seq<char>,
) -> bool {
    &&& c.len() > 0
    &&& from.contains(c[0])
    &&& c.last() == target
    &&& forall|i: int|
        0 <= i < c.len() - 1 ==> !skipped.contains(#[trigger] c[i]) && dep_succ(d, c[i]).contains(c[i + 1])
}

/// Every object that the oids of `from` reach, in `d`, through dependency
/// edges out of objects that are not in `skipped`.
pub open spec fn no_chain(d: StoreData, skipped: Set<Seq<char>>, from: Seq<Seq<char>>, target: Seq<char>) -> bool {
    forall|c: Seq<Seq<char>>| !#[trigger] is_chain(d, skipped, from, c, target)
}

/// The objects each dependency read may reach, as a finite set.
pub open spec fn universe(d: StoreData, from: Seq<Seq<char>>) -> Set<Seq<char>> {
    from.to_set().union(
        Set::new(|x: Seq<char>| exists|k: Seq<char>| d.working.contains_key(k) && #[trigger] dep_succ(d, k).contains(x)),
    )
}

proof fn lemma_universe_finite(d: StoreData, from: Seq<Seq<char>>)
    requires
        d.working.dom().finite(),
    ensures
        universe(d, from).finite(),
{
    let s = Set::new(|x: Seq<char>| exists|k: Seq<char>| d.working.contains_key(k) && #[trigger] dep_succ(d, k).contains(x));
    let f = |k: Seq<char>| dep_succ(d, k).to_set();
    let big = d.working.dom().map(f);
    assert(big.finite()) by {
        d.working.dom().lemma_map_finite(f);
    }
    assert forall|t: Set<Seq<char>>| big.contains(t) implies t.finite() by {
        let k = choose|k: Seq<char>| d.working.dom().contains(k) && f(k) == t;
        vstd::seq_lib::seq_to_set_is_finite(dep_succ(d, k));
    }
    let u = big.flatten();
    big.lemma_flatten_finite();
    assert forall|x: Seq<char>| s.contains(x) implies u.contains(x) by {
        let k = choose|k: Seq<char>| d.working.contains_key(k) && #[trigger] dep_succ(d, k).contains(x);
        assert(big.contains(f(k)));
        assert(f(k).contains(x));
    }
    vstd::set_lib::lemma_len_subset(s, u);
    vstd::seq_lib::seq_to_set_is_finite(from);
}

/// A chain of dependencies from one of `from` back to `target`, if there is
/// one: a new dependency on any of `from` would then close a loop. A read
/// that fails counts as an object with no dependencies.
pub fn find_cycle<S: ObjectRepository>(store: &S, from: &Vec<Oid>, target: &Oid) -> (r: Option<Vec<Oid>>)
    ensures
        r matches Some(p) ==> is_chain(store.model().data, Set::empty(), oid_texts(from@), oid_texts(p@), target@),
        r is None ==> exists|skipped: Set<Seq<char>>| #[trigger] no_chain(store.model().data, skipped, oid_texts(from@), target@),
        r is None && store.reliable() ==> no_chain(store.model().data, Set::empty(), oid_texts(from@), target@),
{
    proof {
        store.lemma_model_wf();
    }
    let ghost d = store.model().data;
    let ghost fr = oid_texts(from@);
    let ghost uni = universe(d, fr);
    proof {
        lemma_universe_finite(d, fr);
    }
    let ghost mut skipped: Set<Seq<char>> = Set::empty();
    let mut seen: Vec<Oid> = Vec::new();
    let mut routes: Vec<Vec<Oid>> = Vec::new();
    let mut i: usize = 0;
    while i < from.len()
        invariant
            d == store.model().data,
            fr == oid_texts(from@),
            uni == universe(d, fr),
            i <= from.len(),
            routes@.len() == seen@.len(),
            oid_texts(seen@).no_duplicates(),
            forall|j: int| 0 <= j < seen@.len() ==> #[trigger] oid_texts(seen@)[j] != target@,
            forall|j: int| 0 <= j < seen@.len() ==> uni.contains(#[trigger] oid_texts(seen@)[j]),
            forall|j: int| 0 <= j < i ==> oid_texts(seen@).contains(#[trigger] fr[j]),
            forall|j: int|
                0 <= j < seen@.len() ==> is_chain(d, Set::empty(), fr, oid_texts(#[trigger] routes@[j]@), oid_texts(seen@)[j]),
        decreases from.len() - i,
    {
        let a = &from[i];
        if a.same(target) {
            let mut p: Vec<Oid> = Vec::new();
            p.push(a.copy());
            assert(oid_texts(p@) =~= seq![fr[i as int]]);
            return Some(p);
        }
        if !oids_contain(&seen, a) {
            let ghost before = oid_texts(seen@);
            let mut route: Vec<Oid> = Vec::new();
            route.push(a.copy());
            assert(oid_texts(route@) =~= seq![a@]);
            seen.push(a.copy());
            routes.push(route);
            assert(oid_texts(seen@) =~= before.push(a@));
            assert(uni.contains(a@)) by {
                assert(fr[i as int] == a@);
                assert(fr.contains(a@));
                assert(fr.to_set().contains(a@));
            }
            assert forall|j: int| 0 <= j < i implies oid_texts(seen@).contains(#[trigger] fr[j]) by {
                let n = choose|n: int| 0 <= n < before.len() && before[n] == fr[j];
                assert(oid_texts(seen@)[n] == fr[j]);
            }
            assert(oid_texts(seen@)[before.len() as int] == fr[i as int]);
        }
        assert(oid_texts(seen@).contains(fr[i as int]));
        i = i + 1;
    }
    let mut head: usize = 0;
    while head < seen.len()
        invariant
            d == store.model().data,
            fr == oid_texts(from@),
            uni == universe(d, fr),
            uni.finite(),
            store.reliable() ==> skipped == Set::<Seq<char>>::empty(),
            head <= seen@.len(),
            routes@.len() == seen@.len(),
            oid_texts(seen@).no_duplicates(),
            forall|j: int| 0 <= j < seen@.len() ==> #[trigger] oid_texts(seen@)[j] != target@,
            forall|j: int| 0 <= j < seen@.len() ==> uni.contains(#[trigger] oid_texts(seen@)[j]),
            forall|j: int| 0 <= j < fr.len() ==> oid_texts(seen@).contains(#[trigger] fr[j]),
            forall|j: int|
                0 <= j < seen@.len() ==> is_chain(d, Set::empty(), fr, oid_texts(#[trigger] routes@[j]@), oid_texts(seen@)[j]),
            forall|j: int, x: Seq<char>|
                0 <= j < head && !skipped.contains(#[trigger] oid_texts(seen@)[j]) && #[trigger] dep_succ(
                    d,
                    oid_texts(seen@)[j],
                ).contains(x) ==> oid_texts(seen@).contains(x),
        decreases uni.len() - head,
    {
        proof {
            oid_texts(seen@).unique_seq_to_set();
            assert(oid_texts(seen@).to_set().subset_of(uni)) by {
                assert forall|x: Seq<char>| oid_texts(seen@).to_set().contains(x) implies uni.contains(x) by {
                    let j = choose|j: int| 0 <= j < oid_texts(seen@).len() && oid_texts(seen@)[j] == x;
                    assert(uni.contains(oid_texts(seen@)[j]));
                }
            }
            vstd::set_lib::lemma_len_subset(oid_texts(seen@).to_set(), uni);
        }
        let ghost node = oid_texts(seen@)[head as int];
        let ghost mut read_ok = true;
        let deps: Vec<Oid> = match store.get(&seen[head]) {
            Ok(Some(o)) => crate::domain::copy_oids(&o.base().depends),
            Ok(None) => Vec::new(),
            Err(_) => {
                proof {
                    skipped = skipped.insert(node);
                    read_ok = false;
                }
                Vec::new()
            },
        };
        assert(read_ok ==> oid_texts(deps@) == dep_succ(d, node));
        assert(!read_ok ==> deps@.len() == 0);
        let mut k: usize = 0;
        while k < deps.len()
            invariant
                d == store.model().data,
                fr == oid_texts(from@),
                uni == universe(d, fr),
                store.reliable() ==> skipped == Set::<Seq<char>>::empty(),
                head < seen@.len(),
                node == oid_texts(seen@)[head as int],
                !read_ok ==> skipped.contains(node),
                read_ok ==> oid_texts(deps@) == dep_succ(d, node),
                !read_ok ==> deps@.len() == 0,
                k <= deps.len(),
                routes@.len() == seen@.len(),
                oid_texts(seen@).no_duplicates(),
                forall|j: int| 0 <= j < seen@.len() ==> #[trigger] oid_texts(seen@)[j] != target@,
                forall|j: int| 0 <= j < seen@.len() ==> uni.contains(#[trigger] oid_texts(seen@)[j]),
                forall|j: int| 0 <= j < fr.len() ==> oid_texts(seen@).contains(#[trigger] fr[j]),
                forall|j: int|
                    0 <= j < seen@.len() ==> is_chain(
                        d,
                        Set::empty(),
                        fr,
                        oid_texts(#[trigger] routes@[j]@),
                        oid_texts(seen@)[j],
                    ),
                forall|j: int, x: Seq<char>|
                    0 <= j < head && !skipped.contains(#[trigger] oid_texts(seen@)[j]) && #[trigger] dep_succ(
                        d,
                        oid_texts(seen@)[j],
                    ).contains(x) ==> oid_texts(seen@).contains(x),
                forall|m: int| 0 <= m < k ==> oid_texts(seen@).contains(#[trigger] oid_texts(deps@)[m]),
            decreases deps.len() - k,
        {
            let x = &deps[k];
            let ghost xs = oid_texts(deps@)[k as int];
            assert(xs == x@);
            if x.same(target) {
                let mut p = crate::domain::copy_oids(&routes[head]);
                let ghost r0 = oid_texts(p@);
                p.push(x.copy());
                proof {
                    assert(oid_texts(p@) =~= r0.push(x@));
                    assert(is_chain(d, Set::empty(), fr, r0, node));
                    assert(dep_succ(d, node).contains(x@)) by {
                        if read_ok {
                            assert(oid_texts(deps@)[k as int] == x@);
                        } else {
                            assert(deps@.len() == 0);
                        }
                    }
                    let c = oid_texts(p@);
                    assert forall|n: int| 0 <= n < c.len() - 1 implies !Set::<Seq<char>>::empty().contains(#[trigger] c[n])
                        && dep_succ(d, c[n]).contains(c[n + 1]) by {
                        if n < r0.len() - 1 {
                            assert(c[n] == r0[n] && c[n + 1] == r0[n + 1]);
                        } else {
                            assert(c[n] == node);
                        }
                    }
                    assert(c[0] == r0[0]);
                }
                return Some(p);
            }
            if !oids_contain(&seen, x) {
                let ghost before = oid_texts(seen@);
                let mut route = crate::domain::copy_oids(&routes[head]);
                let ghost r0 = oid_texts(route@);
                route.push(x.copy());
                proof {
                    assert(dep_succ(d, node).contains(x@)) by {
                        if read_ok {
                            assert(oid_texts(deps@)[k as int] == x@);
                        } else {
                            assert(deps@.len() == 0);
                        }
                    }
                    let c = oid_texts(route@);
                    assert(c =~= r0.push(x@));
                    assert(is_chain(d, Set::empty(), fr, r0, node));
                    assert forall|n: int| 0 <= n < c.len() - 1 implies !Set::<Seq<char>>::empty().contains(#[trigger] c[n])
                        && dep_succ(d, c[n]).contains(c[n + 1]) by {
                        if n < r0.len() - 1 {
                            assert(c[n] == r0[n] && c[n + 1] == r0[n + 1]);
                        } else {
                            assert(c[n] == node);
                        }
                    }
                    assert(c[0] == r0[0]);
                    assert(is_chain(d, Set::empty(), fr, c, x@));
                    assert(uni.contains(x@)) by {
                        assert(d.working.contains_key(node)) by {
                            if !d.working.contains_key(node) {
                                assert(dep_succ(d, node) =~= Seq::<Seq<char>>::empty());
                            }
                        }
                    }
                }
                seen.push(x.copy());
                routes.push(route);
                proof {
                    assert(oid_texts(seen@) =~= before.push(x@));
                    assert forall|j: int| 0 <= j < fr.len() implies oid_texts(seen@).contains(#[trigger] fr[j]) by {
                        let n = choose|n: int| 0 <= n < before.len() && before[n] == fr[j];
                        assert(oid_texts(seen@)[n] == fr[j]);
                    }
                    assert forall|j: int, y: Seq<char>|
                        0 <= j < head && !skipped.contains(#[trigger] oid_texts(seen@)[j]) && #[trigger] dep_succ(
                            d,
                            oid_texts(seen@)[j],
                        ).contains(y) implies oid_texts(seen@).contains(y) by {
                        assert(oid_texts(seen@)[j] == before[j]);
                        let n = choose|n: int| 0 <= n < before.len() && before[n] == y;
                        assert(oid_texts(seen@)[n] == y);
                    }
                    assert forall|m: int| 0 <= m < k + 1 implies oid_texts(seen@).contains(#[trigger] oid_texts(deps@)[m]) by {
                        if m < k {
                            let n = choose|n: int| 0 <= n < before.len() && before[n] == oid_texts(deps@)[m];
                            assert(oid_texts(seen@)[n] == oid_texts(deps@)[m]);
                        } else {
                            assert(oid_texts(seen@)[before.len() as int] == x@);
                        }
                    }
                }
            }
            k = k + 1;
        }
        proof {
            assert forall|j: int, y: Seq<char>|
                0 <= j < head + 1 && !skipped.contains(#[trigger] oid_texts(seen@)[j]) && #[trigger] dep_succ(
                    d,
                    oid_texts(seen@)[j],
                ).contains(y) implies oid_texts(seen@).contains(y) by {
                if j == head {
                    let m = choose|m: int| 0 <= m < dep_succ(d, node).len() && dep_succ(d, node)[m] == y;
                    assert(oid_texts(deps@)[m] == y);
                }
            }
        }
        head = head + 1;
    }
    proof {
        assert forall|c: Seq<Seq<char>>| !#[trigger] is_chain(d, skipped, fr, c, target@) by {
            if is_chain(d, skipped, fr, c, target@) {
                lemma_chain_seen(d, skipped, fr, c, target@, oid_texts(seen@));
                assert(false);
            }
        }
        assert(no_chain(d, skipped, fr, target@));
    }
    None
}

/// A set of oids that holds every start and every dependency out of its
/// members not skipped holds every object of a chain, whose target is then
/// a member.
proof fn lemma_chain_seen(
    d: StoreData,
    skipped: Set<Seq<char>>,
    from: Seq<Seq<char>>,
    c: Seq<Seq<char>>,
    target: Seq<char>,
    seen: Seq<Seq<char>>,
)
    requires
        is_chain(d, skipped, from, c, target),
        forall|j: int| 0 <= j < from.len() ==> seen.contains(#[trigger] from[j]),
        forall|j: int, x: Seq<char>|
            0 <= j < seen.len() && !skipped.contains(#[trigger] seen[j]) && #[trigger] dep_succ(d, seen[j]).contains(x)
                ==> seen.contains(x),
    ensures
        seen.contains(target),
{
    assert forall|n: int| 0 <= n < c.len() implies seen.contains(#[trigger] c[n]) by {
        lemma_chain_prefix_seen(d, skipped, from, c, target, seen, n);
    }
    assert(seen.contains(c[c.len() - 1]));
}

proof fn lemma_chain_prefix_seen(
    d: StoreData,
    skipped: Set<Seq<char>>,
    from: Seq<Seq<char>>,
    c: Seq<Seq<char>>,
    target: Seq<char>,
    seen: Seq<Seq<char>>,
    n: int,
)
    requires
        is_chain(d, skipped, from, c, target),
        0 <= n < c.len(),
        forall|j: int| 0 <= j < from.len() ==> seen.contains(#[trigger] from[j]),
        forall|j: int, x: Seq<char>|
            0 <= j < seen.len() && !skipped.contains(#[trigger] seen[j]) && #[trigger] dep_succ(d, seen[j]).contains(x)
                ==> seen.contains(x),
    ensures
        seen.contains(c[n]),
    decreases n,
{
    if n == 0 {
        let j = choose|j: int| 0 <= j < from.len() && from[j] == c[0];
        assert(seen.contains(from[j]));
    } else {
        lemma_chain_prefix_seen(d, skipped, from, c, target, seen, n - 1);
        let j = choose|j: int| 0 <= j < seen.len() && seen[j] == c[n - 1];
        assert(!skipped.contains(c[n - 1]) && dep_succ(d, c[n - 1]).contains(c[n]));
        assert(!skipped.contains(seen[j]) && dep_succ(d, seen[j]).contains(c[n]));
    }
}

} // verus!
