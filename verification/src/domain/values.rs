//! Exact copies and comparisons of the plain values objects are made of.

use vstd::prelude::*;

use super::ids::Oid;

verus! {

/// The texts of a list of strings.
pub open spec fn texts(v: Seq<String>) -> Seq<Seq<char>> {
    v.map_values(|s: String| s@)
}

/// The texts of a list of oids.
pub open spec fn oid_texts(v: Seq<Oid>) -> Seq<Seq<char>> {
    v.map_values(|o: Oid| o@)
}

/// The text of an optional string.
pub open spec fn opt_text(o: Option<String>) -> Option<Seq<char>> {
    match o {
        Some(s) => Some(s@),
        None => None,
    }
}

/// The text of an optional oid.
pub open spec fn opt_oid_text(o: Option<Oid>) -> Option<Seq<char>> {
    match o {
        Some(s) => Some(s@),
        None => None,
    }
}

pub fn copy_texts(v: &Vec<String>) -> (r: Vec<String>)
    ensures
        texts(r@) == texts(v@),
{
    let mut out: Vec<String> = Vec::new();
    let mut i: usize = 0;
    while i < v.len()
        invariant
            i <= v.len(),
            out@.len() == i,
            forall|k: int| 0 <= k < i ==> #[trigger] out@[k]@ == v@[k]@,
        decreases v.len() - i,
    {
        out.push(v[i].clone());
        i = i + 1;
    }
    assert(texts(out@) =~= texts(v@));
    out
}

pub fn copy_oids(v: &Vec<Oid>) -> (r: Vec<Oid>)
    ensures
        oid_texts(r@) == oid_texts(v@),
{
    let mut out: Vec<Oid> = Vec::new();
    let mut i: usize = 0;
    while i < v.len()
        invariant
            i <= v.len(),
            out@.len() == i,
            forall|k: int| 0 <= k < i ==> #[trigger] out@[k]@ == v@[k]@,
        decreases v.len() - i,
    {
        out.push(v[i].copy());
        i = i + 1;
    }
    assert(oid_texts(out@) =~= oid_texts(v@));
    out
}

pub fn copy_ints(v: &Vec<i64>) -> (r: Vec<i64>)
    ensures
        r@ == v@,
{
    let mut out: Vec<i64> = Vec::new();
    let mut i: usize = 0;
    while i < v.len()
        invariant
            i <= v.len(),
            out@ == v@.take(i as int),
        decreases v.len() - i,
    {
        out.push(v[i]);
        assert(v@.take(i + 1) =~= v@.take(i as int).push(v@[i as int]));
        i = i + 1;
    }
    assert(v@.take(v.len() as int) =~= v@);
    out
}

pub fn copy_opt_text(o: &Option<String>) -> (r: Option<String>)
    ensures
        opt_text(r) == opt_text(*o),
{
    match o {
        Some(s) => Some(s.clone()),
        None => None,
    }
}

pub fn copy_opt_oid(o: &Option<Oid>) -> (r: Option<Oid>)
    ensures
        opt_oid_text(r) == opt_oid_text(*o),
{
    match o {
        Some(s) => Some(s.copy()),
        None => None,
    }
}

pub fn texts_eq(a: &Vec<String>, b: &Vec<String>) -> (r: bool)
    ensures
        r == (texts(a@) == texts(b@)),
{
    if a.len() != b.len() {
        assert(texts(a@).len() != texts(b@).len());
        return false;
    }
    let mut i: usize = 0;
    while i < a.len()
        invariant
            a.len() == b.len(),
            i <= a.len(),
            forall|k: int| 0 <= k < i ==> #[trigger] a@[k]@ == b@[k]@,
        decreases a.len() - i,
    {
        if a[i] != b[i] {
            assert(texts(a@)[i as int] != texts(b@)[i as int]);
            return false;
        }
        i = i + 1;
    }
    assert(texts(a@) =~= texts(b@));
    true
}

pub fn oids_eq(a: &Vec<Oid>, b: &Vec<Oid>) -> (r: bool)
    ensures
        r == (oid_texts(a@) == oid_texts(b@)),
{
    if a.len() != b.len() {
        assert(oid_texts(a@).len() != oid_texts(b@).len());
        return false;
    }
    let mut i: usize = 0;
    while i < a.len()
        invariant
            a.len() == b.len(),
            i <= a.len(),
            forall|k: int| 0 <= k < i ==> #[trigger] a@[k]@ == b@[k]@,
        decreases a.len() - i,
    {
        if !a[i].same(&b[i]) {
            assert(oid_texts(a@)[i as int] != oid_texts(b@)[i as int]);
            return false;
        }
        i = i + 1;
    }
    assert(oid_texts(a@) =~= oid_texts(b@));
    true
}

pub fn ints_eq(a: &Vec<i64>, b: &Vec<i64>) -> (r: bool)
    ensures
        r == (a@ == b@),
{
    if a.len() != b.len() {
        return false;
    }
    let mut i: usize = 0;
    while i < a.len()
        invariant
            a.len() == b.len(),
            i <= a.len(),
            forall|k: int| 0 <= k < i ==> a@[k] == b@[k],
        decreases a.len() - i,
    {
        if a[i] != b[i] {
            return false;
        }
        i = i + 1;
    }
    assert(a@ =~= b@);
    true
}

pub fn opt_text_eq(a: &Option<String>, b: &Option<String>) -> (r: bool)
    ensures
        r == (opt_text(*a) == opt_text(*b)),
{
    match (a, b) {
        (Some(x), Some(y)) => *x == *y,
        (None, None) => true,
        _ => false,
    }
}

pub fn opt_oid_eq(a: &Option<Oid>, b: &Option<Oid>) -> (r: bool)
    ensures
        r == (opt_oid_text(*a) == opt_oid_text(*b)),
{
    match (a, b) {
        (Some(x), Some(y)) => x.same(y),
        (None, None) => true,
        _ => false,
    }
}

/// Whether `needle` is among the texts of `v`.
pub fn texts_contain(v: &Vec<String>, needle: &String) -> (r: bool)
    ensures
        r == texts(v@).contains(needle@),
{
    let mut i: usize = 0;
    while i < v.len()
        invariant
            i <= v.len(),
            forall|k: int| 0 <= k < i ==> #[trigger] v@[k]@ != needle@,
        decreases v.len() - i,
    {
        if v[i] == *needle {
            assert(texts(v@)[i as int] == needle@);
            return true;
        }
        i = i + 1;
    }
    proof {
        if texts(v@).contains(needle@) {
            let k = choose|k: int| 0 <= k < texts(v@).len() && texts(v@)[k] == needle@;
            assert(v@[k]@ == needle@);
        }
    }
    false
}

/// Whether `needle` is among the oids of `v`.
pub fn oids_contain(v: &Vec<Oid>, needle: &Oid) -> (r: bool)
    ensures
        r == oid_texts(v@).contains(needle@),
{
    let mut i: usize = 0;
    while i < v.len()
        invariant
            i <= v.len(),
            forall|k: int| 0 <= k < i ==> #[trigger] v@[k]@ != needle@,
        decreases v.len() - i,
    {
        if v[i].same(needle) {
            assert(oid_texts(v@)[i as int] == needle@);
            return true;
        }
        i = i + 1;
    }
    proof {
        if oid_texts(v@).contains(needle@) {
            let k = choose|k: int| 0 <= k < oid_texts(v@).len() && oid_texts(v@)[k] == needle@;
            assert(v@[k]@ == needle@);
        }
    }
    false
}

/// The members of a sequence extended by one are its members and the one.
pub proof fn lemma_to_set_push<A>(s: Seq<A>, x: A)
    ensures
        s.push(x).to_set() == s.to_set().insert(x),
{
    assert forall|a: A| s.push(x).to_set().contains(a) <==> s.to_set().insert(x).contains(a) by {
        if s.push(x).contains(a) {
            let i = choose|i: int| 0 <= i < s.push(x).len() && s.push(x)[i] == a;
            if i < s.len() {
                assert(s[i] == a);
            }
        }
        if s.contains(a) {
            let i = choose|i: int| 0 <= i < s.len() && s[i] == a;
            assert(s.push(x)[i] == a);
        }
        if a == x {
            assert(s.push(x)[s.len() as int] == x);
        }
    }
    assert(s.push(x).to_set() =~= s.to_set().insert(x));
}

} // verus!
