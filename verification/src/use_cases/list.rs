//! Listing objects: the ones a query admits, in the order a reader scans
//! them.

use vstd::prelude::*;

use crate::config::{Config, filter_index};
use crate::domain::{
    Categories, CategoryView, Date, EventView, Object, ObjectView, PRIORITY_LOWEST, TaskView, When,
    lemma_text_lt_irreflexive,
    lemma_text_lt_transitive, text_less, text_lt,
};
use crate::errors::{Refusal, UseCaseError};
use crate::ports::{Clock, ObjectRepository, QueryLanguage, Text, lists_objects, object_views};

verus! {

broadcast use vstd::seq_lib::group_to_multiset_ensures;

/// The days from 1970-01-01 to the civil date `d`, counted in whole
/// four-century cycles shifted past the start of `i16` years so that every
/// division is of a nonnegative number.
pub open spec fn day_number(d: Date) -> int {
    let y = d.year - (if d.month <= 2 { 1int } else { 0int }) + 32800;
    let era = y / 400;
    let yoe = y - era * 400;
    let mp = (d.month + 9) % 12;
    let doy = (153 * mp + 2) / 5 + d.day - 1;
    let doe = yoe * 365 + yoe / 4 - yoe / 100 + doy;
    era * 146097 + doe - 719468 - 82 * 146097
}

/// The day an instant or a whole day falls on, counted from 1970-01-01;
/// an instant's day is the one it falls on in UTC.
pub open spec fn day_of(w: When) -> int {
    match w {
        When::Day(d) => day_number(d),
        When::At(t) => t.seconds / 86400,
    }
}

/// The day an object is listed under: a task's due day, an event's start.
pub open spec fn listing_day(o: ObjectView) -> Option<int> {
    match o {
        ObjectView::Task(t) => match t.due {
            Some(w) => Some(day_of(w)),
            None => None,
        },
        ObjectView::Event(e) => Some(day_of(e.start)),
    }
}

/// A task's priority, and after every priority, an event.
pub open spec fn listing_rank(o: ObjectView) -> int {
    match o {
        ObjectView::Task(t) => t.priority as int,
        ObjectView::Event(_) => 255,
    }
}

/// Whether a day sorts before another; a day before no day at all.
pub open spec fn day_before(a: Option<int>, b: Option<int>) -> bool {
    match (a, b) {
        (Some(x), Some(y)) => x < y,
        (Some(_), None) => true,
        _ => false,
    }
}

/// Whether `a` is listed before `b`: by path, then day, then rank, then
/// subject.
pub open spec fn listed_before(a: ObjectView, b: ObjectView) -> bool {
    if a.base().path != b.base().path {
        text_lt(a.base().path, b.base().path)
    } else if listing_day(a) != listing_day(b) {
        day_before(listing_day(a), listing_day(b))
    } else if listing_rank(a) != listing_rank(b) {
        listing_rank(a) < listing_rank(b)
    } else {
        text_lt(a.base().subject, b.base().subject)
    }
}

/// On one path and one day, a task comes before an event: an event ranks
/// after every priority a task can carry.
pub proof fn lemma_task_before_event_on_its_day(t: TaskView, e: EventView, due: When)
    requires
        t.base.path == e.base.path,
        t.due == Some(due),
        day_of(due) == day_of(e.start),
        t.priority <= PRIORITY_LOWEST,
    ensures
        listed_before(ObjectView::Task(t), ObjectView::Event(e)),
        !listed_before(ObjectView::Event(e), ObjectView::Task(t)),
{
}

/// On one path and one day, tasks come by priority: the one with the
/// higher priority, the lower number, first.
pub proof fn lemma_tasks_by_priority_on_their_day(a: TaskView, b: TaskView, due_a: When, due_b: When)
    requires
        a.base.path == b.base.path,
        a.due == Some(due_a),
        b.due == Some(due_b),
        day_of(due_a) == day_of(due_b),
        a.priority < b.priority,
    ensures
        listed_before(ObjectView::Task(a), ObjectView::Task(b)),
        !listed_before(ObjectView::Task(b), ObjectView::Task(a)),
{
}

/// Paths come first: an object on a path that sorts before another's is
/// listed before it, whatever their days, ranks and subjects.
pub proof fn lemma_path_decides_first(a: ObjectView, b: ObjectView)
    requires
        text_lt(a.base().path, b.base().path),
    ensures
        listed_before(a, b),
        !listed_before(b, a),
{
    lemma_text_lt_irreflexive(a.base().path);
    if text_lt(b.base().path, a.base().path) {
        lemma_text_lt_transitive(a.base().path, b.base().path, a.base().path);
    }
}

/// On one path, an object with a day comes before one without, and of two
/// days the earlier first, whatever their ranks and subjects.
pub proof fn lemma_day_decides_next(a: ObjectView, b: ObjectView)
    requires
        a.base().path == b.base().path,
        listing_day(a) matches Some(x) && (listing_day(b) matches Some(y) ==> x < y),
    ensures
        listed_before(a, b),
        !listed_before(b, a),
{
}

/// On one path and one day, objects of the same rank, two events or two
/// tasks of one priority, come by subject.
pub proof fn lemma_subject_breaks_ties(a: ObjectView, b: ObjectView)
    requires
        a.base().path == b.base().path,
        listing_day(a) == listing_day(b),
        (a is Event && b is Event) || (a matches ObjectView::Task(x) && b matches ObjectView::Task(y) && x.priority
            == y.priority),
        text_lt(a.base().subject, b.base().subject),
    ensures
        listed_before(a, b),
        !listed_before(b, a),
{
    lemma_text_lt_irreflexive(a.base().subject);
    if text_lt(b.base().subject, a.base().subject) {
        lemma_text_lt_transitive(a.base().subject, b.base().subject, a.base().subject);
    }
}

/// No object of `v` is listed before one that precedes it.
pub open spec fn in_listing_order(v: Seq<ObjectView>) -> bool {
    forall|i: int, j: int| 0 <= i < j < v.len() ==> !listed_before(#[trigger] v[j], #[trigger] v[i])
}

/// No object is listed before itself.
pub proof fn lemma_listed_before_irreflexive(a: ObjectView)
    ensures
        !listed_before(a, a),
{
    lemma_text_lt_irreflexive(a.base().subject);
}

/// Being listed before is transitive.
pub proof fn lemma_listed_before_transitive(a: ObjectView, b: ObjectView, c: ObjectView)
    requires
        listed_before(a, b),
        listed_before(b, c),
    ensures
        listed_before(a, c),
{
    let (pa, pb, pc) = (a.base().path, b.base().path, c.base().path);
    if pa != pb && pb != pc {
        lemma_text_lt_transitive(pa, pb, pc);
        if pa == pc {
            lemma_text_lt_irreflexive(pa);
        }
    } else if pa == pb && pb == pc {
        if listing_day(a) == listing_day(b) && listing_day(b) == listing_day(c) && listing_rank(a) == listing_rank(b)
            && listing_rank(b) == listing_rank(c) {
            lemma_text_lt_transitive(a.base().subject, b.base().subject, c.base().subject);
        }
    }
}

/// The days from 1970-01-01 to `d`.
pub fn day_number_of(d: Date) -> (r: i64)
    ensures
        r == day_number(d),
{
    let shift: i64 = if d.month <= 2 {
        1
    } else {
        0
    };
    let y: i64 = d.year as i64 - shift + 32800;
    let era: i64 = y / 400;
    assert(0 <= era <= 164) by (nonlinear_arith)
        requires
            31 <= y <= 65567,
            era == y / 400,
    ;
    let yoe: i64 = y - era * 400;
    let mp: i64 = (d.month as i64 + 9) % 12;
    let doy: i64 = (153 * mp + 2) / 5 + d.day as i64 - 1;
    assert(0 <= yoe < 400) by (nonlinear_arith)
        requires
            31 <= y,
            era == y / 400,
            yoe == y - era * 400,
    ;
    let doe: i64 = yoe * 365 + yoe / 4 - yoe / 100 + doy;
    era * 146097 + doe - 719468 - 82 * 146097
}

/// The day `seconds` after the epoch falls on, rounding toward the past.
pub fn day_of_seconds(seconds: i64) -> (r: i64)
    ensures
        r == seconds / 86400,
{
    if seconds >= 0 {
        seconds / 86400
    } else {
        let back: i64 = -(seconds + 1);
        let q: i64 = back / 86400;
        proof {
            let r = back % 86400;
            assert(back == q * 86400 + r) by {
                vstd::arithmetic::div_mod::lemma_fundamental_div_mod(back as int, 86400);
            }
            assert(0 <= r < 86400) by {
                vstd::arithmetic::div_mod::lemma_mod_bound(back as int, 86400);
            }
            vstd::arithmetic::div_mod::lemma_fundamental_div_mod_converse(seconds as int, 86400, -q - 1, 86399 - r);
        }
        -q - 1
    }
}

/// The day `w` falls on.
pub fn day_of_when(w: When) -> (r: i64)
    ensures
        r == day_of(w),
{
    match w {
        When::Day(d) => day_number_of(d),
        When::At(t) => day_of_seconds(t.seconds),
    }
}

/// The day `o` is listed under.
fn listing_day_of(o: &Object) -> (r: Option<i64>)
    ensures
        match listing_day(o@) {
            Some(x) => r == Some(x as i64) && r.unwrap() == x,
            None => r is None,
        },
{
    match o {
        Object::Task(t) => match t.due {
            Some(w) => Some(day_of_when(w)),
            None => None,
        },
        Object::Event(e) => Some(day_of_when(e.start)),
    }
}

/// Whether `a` is listed before `b`.
pub fn listed_first(a: &Object, b: &Object) -> (r: bool)
    ensures
        r == listed_before(a@, b@),
{
    let pa = a.base().path.as_str();
    let pb = b.base().path.as_str();
    if !a.base().path.same(&b.base().path) {
        return text_less(pa, pb);
    }
    let da = listing_day_of(a);
    let db = listing_day_of(b);
    if da != db {
        return match (da, db) {
            (Some(x), Some(y)) => x < y,
            (Some(_), None) => true,
            _ => false,
        };
    }
    let ra: u8 = match a {
        Object::Task(t) => t.priority,
        Object::Event(_) => 255,
    };
    let rb: u8 = match b {
        Object::Task(t) => t.priority,
        Object::Event(_) => 255,
    };
    if ra != rb {
        return ra < rb;
    }
    text_less(a.base().subject.as_str(), b.base().subject.as_str())
}

/// `objects` in listing order: the same objects, each as often as it came.
pub fn in_order(objects: &Vec<Object>) -> (r: Vec<Object>)
    ensures
        object_views(r@).to_multiset() == object_views(objects@).to_multiset(),
        in_listing_order(object_views(r@)),
{
    let mut out: Vec<Object> = Vec::new();
    let mut i: usize = 0;
    while i < objects.len()
        invariant
            i <= objects.len(),
            object_views(out@).to_multiset() == object_views(objects@.take(i as int)).to_multiset(),
            in_listing_order(object_views(out@)),
        decreases objects.len() - i,
    {
        let x = objects[i].clone();
        let ghost s = object_views(out@);
        let mut k: usize = 0;
        while k < out.len() && !listed_first(&x, &out[k])
            invariant
                k <= out.len(),
                s == object_views(out@),
                forall|m: int| 0 <= m < k ==> !listed_before(x@, #[trigger] s[m]),
            decreases out.len() - k,
        {
            k = k + 1;
        }
        proof {
            assert forall|m: int| k <= m < s.len() implies !listed_before(#[trigger] s[m], x@) by {
                if listed_before(s[m], x@) {
                    lemma_listed_before_transitive(s[m], x@, s[k as int]);
                    if m == k {
                        lemma_listed_before_irreflexive(s[m]);
                    }
                }
            }
        }
        out.insert(k, x);
        proof {
            let t = object_views(out@);
            assert(t =~= s.insert(k as int, objects@[i as int]@));
            assert(objects@.take(i + 1) =~= objects@.take(i as int).push(objects@[i as int]));
            assert(object_views(objects@.take(i + 1)) =~= object_views(objects@.take(i as int)).push(
                objects@[i as int]@,
            ));
            assert forall|a: int, b: int| 0 <= a < b < t.len() implies !listed_before(
                #[trigger] t[b],
                #[trigger] t[a],
            ) by {
                if b < k {
                } else if a < k && b == k {
                } else if a < k {
                    assert(t[b] == s[b - 1]);
                } else if a == k {
                    assert(t[b] == s[b - 1]);
                } else {
                    assert(t[a] == s[a - 1] && t[b] == s[b - 1]);
                }
            }
        }
        i = i + 1;
    }
    assert(objects@.take(objects.len() as int) =~= objects@);
    out
}

/// The query text a name stands for: the saved filter's query when a
/// filter is saved under it, else the text itself.
pub open spec fn query_text_spec(config: Config, q: Seq<char>) -> Seq<char> {
    match filter_index(config.filters@, q) {
        Some(i) => config.filters@[i].query@,
        None => q,
    }
}

/// The text `q` stands for under `config`.
pub fn query_text<'a>(config: &'a Config, q: &'a str) -> (r: &'a str)
    ensures
        r@ == query_text_spec(*config, q@),
{
    match config.filter(q) {
        Some(f) => f.query.as_str(),
        None => q,
    }
}

/// Whether `cats` declares a category named `name`.
pub open spec fn declares(cats: Seq<CategoryView>, name: Seq<char>) -> bool {
    exists|i: int| 0 <= i < cats.len() && cats[i].name == name
}

/// The first of `names` that `cats` does not declare, if any.
pub open spec fn first_undeclared(cats: Seq<CategoryView>, names: Seq<Seq<char>>) -> Option<int> {
    if exists|i: int| 0 <= i < names.len() && !declares(cats, #[trigger] names[i]) {
        Some(
            choose|i: int|
                0 <= i < names.len() && !declares(cats, #[trigger] names[i]) && forall|j: int|
                    0 <= j < i ==> declares(cats, names[j]),
        )
    } else {
        None
    }
}

/// The first undeclared name stands among the names.
proof fn lemma_first_undeclared_in_range(cats: Seq<CategoryView>, names: Seq<Seq<char>>)
    ensures
        first_undeclared(cats, names) matches Some(i) ==> 0 <= i < names.len(),
{
    if exists|i: int| 0 <= i < names.len() && !declares(cats, #[trigger] names[i]) {
        let w = choose|i: int| 0 <= i < names.len() && !declares(cats, #[trigger] names[i]);
        let k = first_undeclared(cats, names).unwrap();
        assert(0 <= k < names.len()) by {
            assert(forall|j: int| 0 <= j < w ==> declares(cats, names[j]) ==> true);
            lemma_first_undeclared_exists(cats, names);
        }
    }
}

/// Of the names some of which are undeclared, one is the first.
proof fn lemma_first_undeclared_exists(cats: Seq<CategoryView>, names: Seq<Seq<char>>)
    requires
        exists|i: int| 0 <= i < names.len() && !declares(cats, #[trigger] names[i]),
    ensures
        exists|i: int|
            0 <= i < names.len() && !declares(cats, #[trigger] names[i]) && forall|j: int|
                0 <= j < i ==> declares(cats, names[j]),
    decreases names.len(),
{
    if !declares(cats, names[0]) {
        assert(0 <= 0 < names.len() && !declares(cats, names[0]));
    } else {
        let rest = names.drop_first();
        let w = choose|i: int| 0 <= i < names.len() && !declares(cats, #[trigger] names[i]);
        assert(w > 0);
        assert(!declares(cats, rest[w - 1]));
        lemma_first_undeclared_exists(cats, rest);
        let k = choose|i: int|
            0 <= i < rest.len() && !declares(cats, #[trigger] rest[i]) && forall|j: int|
                0 <= j < i ==> declares(cats, rest[j]);
        assert(!declares(cats, names[k + 1]));
        assert forall|j: int| 0 <= j < k + 1 implies declares(cats, names[j]) by {
            if j > 0 {
                assert(names[j] == rest[j - 1]);
            }
        }
    }
}

/// Refuses the first category a query names that is not declared.
pub fn check_categories(names: &Vec<String>, categories: &Categories) -> (r: Result<(), UseCaseError>)
    ensures
        match first_undeclared(categories@, crate::domain::texts(names@)) {
            Some(i) => r matches Err(UseCaseError::Refused(Refusal::UnknownCategory(n))) && n@ == names@[i]@,
            None => r is Ok,
        },
        r matches Err(e) ==> e matches UseCaseError::Refused(Refusal::UnknownCategory(n)) && !declares(
            categories@,
            n@,
        ),
{
    let ghost ns = crate::domain::texts(names@);
    let mut i: usize = 0;
    while i < names.len()
        invariant
            ns == crate::domain::texts(names@),
            i <= names.len(),
            forall|j: int| 0 <= j < i ==> declares(categories@, #[trigger] ns[j]),
        decreases names.len() - i,
    {
        if categories.category_of_name(&names[i]).is_none() {
            proof {
                assert(!declares(categories@, ns[i as int]));
                let k = first_undeclared(categories@, ns).unwrap();
                if k < i {
                    assert(declares(categories@, ns[k]));
                } else if k > i {
                    assert(declares(categories@, ns[i as int]));
                }
            }
            return Err(UseCaseError::Refused(Refusal::UnknownCategory(names[i].clone())));
        }
        i = i + 1;
    }
    Ok(())
}

/// Each of `v` is the working object under its oid, and no oid comes twice.
pub open spec fn drawn_from(v: Seq<ObjectView>, working: Map<Seq<char>, ObjectView>) -> bool {
    &&& forall|i: int| 0 <= i < v.len() ==> working.get(#[trigger] v[i].oid()) == Some(v[i])
    &&& forall|i: int, j: int| 0 <= i < j < v.len() ==> (#[trigger] v[i]).oid() != (#[trigger] v[j]).oid()
}

/// Reordering a list keeps what it is drawn from.
proof fn lemma_drawn_from_reordered(v: Seq<ObjectView>, w: Seq<ObjectView>, working: Map<Seq<char>, ObjectView>)
    requires
        drawn_from(v, working),
        w.to_multiset() == v.to_multiset(),
    ensures
        drawn_from(w, working),
{
    assert forall|i: int| 0 <= i < w.len() implies working.get(#[trigger] w[i].oid()) == Some(w[i]) by {
        assert(w.to_multiset().count(w[i]) > 0);
        assert(v.contains(w[i]));
    }
    assert(v.no_duplicates()) by {
        assert forall|i: int, j: int| 0 <= i < v.len() && 0 <= j < v.len() && i != j implies v[i] != v[j] by {
            if i < j {
                assert(v[i].oid() != v[j].oid());
            } else {
                assert(v[j].oid() != v[i].oid());
            }
        }
    }
    v.lemma_multiset_has_no_duplicates();
    assert forall|i: int, j: int| 0 <= i < j < w.len() implies (#[trigger] w[i]).oid() != (#[trigger] w[j]).oid() by {
        if w[i].oid() == w[j].oid() {
            assert(w[i] == w[j]);
            assert(w.to_multiset().count(w[i]) >= 2) by {
                lemma_count_two(w, i, j);
            }
        }
    }
}

/// An element found at two places is counted at least twice.
pub(crate) proof fn lemma_count_two<A>(s: Seq<A>, i: int, j: int)
    requires
        0 <= i < j < s.len(),
        s[i] == s[j],
    ensures
        s.to_multiset().count(s[i]) >= 2,
{
    let a = s[i];
    let l = s.take(j);
    let r = s.skip(j);
    assert(s =~= l + r);
    vstd::seq_lib::lemma_multiset_commutative(l, r);
    assert(l.contains(a)) by {
        assert(l[i] == a);
    }
    assert(r.contains(a)) by {
        assert(r[0] == a);
    }
    assert(l.to_multiset().count(a) >= 1);
    assert(r.to_multiset().count(a) >= 1);
}

/// Whether `x` stands among the first `upto` of `av`.
pub open spec fn found_in(av: Seq<ObjectView>, upto: int, x: ObjectView) -> bool {
    exists|n: int| 0 <= n < upto && #[trigger] av[n] == x
}

/// The working objects `query` admits on `today`.
pub open spec fn admitted<Q: QueryLanguage>(
    language: Q,
    query: Q::Query,
    working: Map<Seq<char>, ObjectView>,
    today: Date,
) -> Map<Seq<char>, ObjectView> {
    working.restrict(working.dom().filter(|k: Seq<char>| language.meets(query, working[k], today)))
}

/// `v` lists, each once and in listing order, exactly the working objects
/// `query` admits on `today`.
pub open spec fn listed_admitted<Q: QueryLanguage>(
    language: Q,
    query: Q::Query,
    working: Map<Seq<char>, ObjectView>,
    today: Date,
    v: Seq<ObjectView>,
) -> bool {
    &&& in_listing_order(v)
    &&& lists_objects(v, admitted(language, query, working, today))
}

/// `v` lists, in listing order, exactly the working objects `query` admits
/// on the day the listing was made.
pub open spec fn listed_admitted_on_its_day<Q: QueryLanguage>(
    language: Q,
    query: Q::Query,
    working: Map<Seq<char>, ObjectView>,
    v: Seq<ObjectView>,
) -> bool {
    exists|today: Date| #[trigger] listed_admitted(language, query, working, today, v)
}

/// Kept in some order, the objects of a full listing of `w` that meet
/// `query` list exactly the objects it admits.
proof fn lemma_listed_admitted<Q: QueryLanguage>(
    language: Q,
    query: Q::Query,
    w: Map<Seq<char>, ObjectView>,
    today: Date,
    av: Seq<ObjectView>,
    kept: Seq<ObjectView>,
    out: Seq<ObjectView>,
)
    requires
        lists_objects(av, w),
        drawn_from(out, w),
        in_listing_order(out),
        out.to_multiset() == kept.to_multiset(),
        forall|m: int| 0 <= m < kept.len() ==> language.meets(query, #[trigger] kept[m], today),
        forall|n: int| 0 <= n < av.len() && language.meets(query, #[trigger] av[n], today) ==> kept.contains(av[n]),
    ensures
        listed_admitted(language, query, w, today, out),
{
    let a = admitted(language, query, w, today);
    assert forall|i: int| 0 <= i < out.len() implies a.contains_key(#[trigger] out[i].oid()) && a[out[i].oid()]
        == out[i] by {
        assert(out.to_multiset().count(out[i]) > 0);
        assert(kept.to_multiset().count(out[i]) > 0);
        assert(kept.contains(out[i]));
        let m = choose|m: int| 0 <= m < kept.len() && kept[m] == out[i];
        assert(language.meets(query, kept[m], today));
        assert(w.get(out[i].oid()) == Some(out[i]));
    }
    assert forall|k: Seq<char>| a.contains_key(k) implies exists|i: int| 0 <= i < out.len() && #[trigger] out[i].oid() == k by {
        assert(w.contains_key(k));
        let n = choose|n: int| 0 <= n < av.len() && #[trigger] av[n].oid() == k;
        assert(av[n] == w[k]);
        assert(language.meets(query, av[n], today));
        assert(kept.contains(av[n]));
        let m = choose|m: int| 0 <= m < kept.len() && kept[m] == av[n];
        assert(kept.to_multiset().count(av[n]) > 0);
        assert(out.to_multiset().count(av[n]) > 0);
        assert(out.contains(av[n]));
        let j = choose|j: int| 0 <= j < out.len() && out[j] == av[n];
        assert(out[j].oid() == k);
    }
}

/// Every object the query admits on today's date, or every object when no
/// query is given, in listing order. A query is the text of the filter
/// saved under its name, or the text itself; one that does not read is a
/// parse error, and one naming a category the operator did not declare is
/// refused.
pub fn list<S: ObjectRepository, K: Clock, Q: QueryLanguage>(
    store: &S,
    clock: &K,
    config: &Config,
    language: &Q,
    query: Option<&str>,
) -> (r: Result<Vec<Object>, UseCaseError>)
    ensures
        r matches Ok(v) ==> {
            &&& in_listing_order(object_views(v@))
            &&& drawn_from(object_views(v@), store.model().data.working)
            &&& query is None ==> lists_objects(object_views(v@), store.model().data.working)
        },
        query is None ==> (store.reliable() ==> r is Ok) && (r matches Err(e) ==> e is Store),
        query matches Some(q) ==> (language.reads_as(query_text_spec(*config, q@)) matches Err(why) ==> r matches Err(
            UseCaseError::Parse(w),
        ) && w@ == why),
        query matches Some(q) ==> (language.reads_as(query_text_spec(*config, q@)) matches Ok(pq) ==> (
        first_undeclared(config.categories@, language.names_in(pq)) matches Some(i) ==> r matches Err(
            UseCaseError::Refused(Refusal::UnknownCategory(n)),
        ) && n@ == language.names_in(pq)[i])),
        query matches Some(q) ==> (language.reads_as(query_text_spec(*config, q@)) matches Ok(pq) ==> (
        first_undeclared(config.categories@, language.names_in(pq)) is None ==> (store.reliable() ==> r is Ok) && (
        r matches Err(e) ==> e is Store))),
        query matches Some(q) ==> (language.reads_as(query_text_spec(*config, q@)) matches Ok(pq) ==> (r matches Ok(
            v,
        ) ==> listed_admitted_on_its_day(*language, pq, store.model().data.working, object_views(v@)))),
        r matches Err(UseCaseError::Refused(Refusal::UnknownCategory(n))) ==> query is Some && !declares(
            config.categories@,
            n@,
        ),
        r matches Err(e) ==> e is Store || (query is Some && (e is Parse || e matches UseCaseError::Refused(
            Refusal::UnknownCategory(_),
        ))),
{
    proof {
        store.lemma_model_wf();
    }
    let parsed = match query {
        None => None,
        Some(q) => {
            let text = query_text(config, q);
            let read = match language.parse(text) {
                Ok(e) => e,
                Err(why) => return Err(UseCaseError::Parse(why)),
            };
            let names = language.categories(&read);
            match check_categories(&names, &config.categories) {
                Ok(()) => {},
                Err(e) => {
                    proof {
                        lemma_first_undeclared_in_range(config.categories@, crate::domain::texts(names@));
                        let k = first_undeclared(config.categories@, crate::domain::texts(names@)).unwrap();
                        assert(crate::domain::texts(names@)[k] == names@[k]@);
                    }
                    return Err(e);
                },
            }
            Some(read)
        },
    };
    let today = clock.today();
    let all = match store.all() {
        Ok(a) => a,
        Err(e) => return Err(UseCaseError::Store(e)),
    };
    let ghost w = store.model().data.working;
    let ghost av = object_views(all@);
    let mut kept: Vec<Object> = Vec::new();
    let mut i: usize = 0;
    while i < all.len()
        invariant
            av == object_views(all@),
            lists_objects(av, w),
            i <= all.len(),
            drawn_from(object_views(kept@), w),
            forall|m: int| 0 <= m < kept@.len() ==> found_in(av, i as int, #[trigger] object_views(kept@)[m]),
            query is None <==> parsed is None,
            parsed matches Some(e) ==> query matches Some(q) && language.reads_as(query_text_spec(*config, q@))
                == Ok::<Q::Query, Text>(e) && first_undeclared(config.categories@, language.names_in(e)) is None,
            w == store.model().data.working,
            parsed is None ==> object_views(kept@) == av.take(i as int),
            parsed matches Some(e) ==> forall|m: int|
                0 <= m < object_views(kept@).len() ==> language.meets(e, #[trigger] object_views(kept@)[m], today),
            parsed matches Some(e) ==> forall|n: int|
                0 <= n < i && language.meets(e, #[trigger] av[n], today) ==> object_views(kept@).contains(av[n]),
        decreases all.len() - i,
    {
        let take = match &parsed {
            None => true,
            Some(e) => language.admits(e, &all[i], today),
        };
        if take {
            let ghost before = object_views(kept@);
            kept.push(all[i].clone());
            proof {
                let kv = object_views(kept@);
                assert(kv =~= before.push(av[i as int]));
                assert(av.take(i + 1) =~= av.take(i as int).push(av[i as int]));
                assert(kv[kv.len() - 1] == av[i as int]);
                if parsed is Some {
                    assert forall|n: int|
                        0 <= n < i + 1 && language.meets(parsed.unwrap(), #[trigger] av[n], today) implies kv.contains(
                        av[n],
                    ) by {
                        if n < i {
                            assert(before.contains(av[n]));
                            let m = choose|m: int| 0 <= m < before.len() && before[m] == av[n];
                            assert(kv[m] == av[n]);
                        }
                    }
                }
                assert forall|m: int| 0 <= m < kv.len() implies found_in(av, i + 1, #[trigger] kv[m]) by {
                    if m < before.len() {
                        assert(found_in(av, i as int, before[m]));
                        let n = choose|n: int| 0 <= n < i && #[trigger] av[n] == before[m];
                        assert(av[n] == kv[m]);
                    } else {
                        assert(av[i as int] == kv[m]);
                    }
                }
                assert forall|a: int, b: int| 0 <= a < b < kv.len() implies (#[trigger] kv[a]).oid() != (#[trigger] kv[b]).oid() by {
                    if b == kv.len() - 1 {
                        assert(found_in(av, i as int, before[a]));
                        let n = choose|n: int| 0 <= n < i && #[trigger] av[n] == before[a];
                        assert(av[n].oid() != av[i as int].oid());
                    }
                }
            }
        } else {
            proof {
                assert(all@[i as int]@ == av[i as int]);
                assert forall|m: int| 0 <= m < object_views(kept@).len() implies found_in(
                    av,
                    i + 1,
                    #[trigger] object_views(kept@)[m],
                ) by {
                    assert(found_in(av, i as int, object_views(kept@)[m]));
                    let n = choose|n: int| 0 <= n < i && #[trigger] av[n] == object_views(kept@)[m];
                }
            }
        }
        i = i + 1;
    }
    let out = in_order(&kept);
    proof {
        lemma_drawn_from_reordered(object_views(kept@), object_views(out@), w);
        if parsed is Some {
            let e = parsed.unwrap();
            lemma_listed_admitted(*language, e, w, today, av, object_views(kept@), object_views(out@));
            let q = query.unwrap();
            let pq = language.reads_as(query_text_spec(*config, q@))->Ok_0;
            assert(pq == e);
            assert(listed_admitted(*language, pq, store.model().data.working, today, object_views(out@)));
            assert(listed_admitted_on_its_day(*language, pq, store.model().data.working, object_views(out@)));
        }
        if query is None {
            assert(object_views(kept@) =~= av);
            assert forall|k: Seq<char>| w.contains_key(k) implies exists|m: int|
                0 <= m < object_views(out@).len() && #[trigger] object_views(out@)[m].oid() == k by {
                let n = choose|n: int| 0 <= n < av.len() && #[trigger] av[n].oid() == k;
                assert(av.to_multiset().count(av[n]) > 0);
                assert(object_views(out@).contains(av[n]));
            }
        }
    }
    Ok(out)
}

} // verus!
