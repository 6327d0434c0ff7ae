//! Editing one object's fields.

pub mod cycle;

use vstd::prelude::*;

use crate::domain::{
    BaseView, Categories, Date, EventView, Object, ObjectView, Oid, TaskView, When,
    exclusive_violation, lemma_text_lt_total, lemma_text_lt_transitive, oid_texts, oids_contain, opt_oid_text,
    opt_text, short_text, text_less, text_lt, texts, texts_contain,
};
use crate::errors::{Refusal, UseCaseError};
use crate::ports::{Calendar, ObjectRepository, StoreData};

use cycle::{find_cycle, is_chain, no_chain};

verus! {

/// What an edit changes. An outer `None` leaves a field alone;
/// `Some(None)` clears it; `Some(Some(v))` sets it.
#[derive(Debug, PartialEq, Eq)]
pub struct EditFields {
    pub subject: Option<String>,
    pub body: Option<String>,
    pub priority: Option<u8>,
    pub due: Option<Option<When>>,
    pub deadline: Option<Option<Date>>,
    /// Reopens a completed task; refused on one that is already open.
    pub undone: bool,
    pub add_labels: Vec<String>,
    pub remove_labels: Vec<String>,
    pub add_depends: Vec<Oid>,
    pub remove_depends: Vec<Oid>,
    pub recurrence: Option<Option<String>>,
    pub attach: Option<Option<Oid>>,
    pub start: Option<When>,
    pub end: Option<When>,
    pub location: Option<Option<String>>,
}

impl EditFields {
    /// An edit that changes nothing.
    pub fn none() -> (f: EditFields)
        ensures
            f.subject is None && f.body is None && f.priority is None && f.due is None && f.deadline is None,
            !f.undone,
            f.add_labels@.len() == 0 && f.remove_labels@.len() == 0,
            f.add_depends@.len() == 0 && f.remove_depends@.len() == 0,
            f.recurrence is None && f.attach is None,
            f.start is None && f.end is None && f.location is None,
    {
        EditFields {
            subject: None,
            body: None,
            priority: None,
            due: None,
            deadline: None,
            undone: false,
            add_labels: Vec::new(),
            remove_labels: Vec::new(),
            add_depends: Vec::new(),
            remove_depends: Vec::new(),
            recurrence: None,
            attach: None,
            start: None,
            end: None,
            location: None,
        }
    }
}

/// `s` with `l` inserted before the first label that sorts after it.
pub open spec fn insert_sorted(s: Seq<Seq<char>>, l: Seq<char>) -> Seq<Seq<char>>
    decreases s.len(),
{
    if s.len() == 0 {
        seq![l]
    } else if text_lt(l, s[0]) {
        seq![l] + s
    } else {
        seq![s[0]] + insert_sorted(s.drop_first(), l)
    }
}

/// The labels `s` once `l` is added: labels are a set kept in order, so a
/// label already held stays where it is.
pub open spec fn label_added(s: Seq<Seq<char>>, l: Seq<char>) -> Seq<Seq<char>> {
    if s.contains(l) {
        s
    } else {
        insert_sorted(s, l)
    }
}

/// The labels `s` once each of `adds` is added, in order.
pub open spec fn labels_added(s: Seq<Seq<char>>, adds: Seq<Seq<char>>) -> Seq<Seq<char>>
    decreases adds.len(),
{
    if adds.len() == 0 {
        s
    } else {
        label_added(labels_added(s, adds.drop_last()), adds.last())
    }
}

/// Labels kept as a set: in order, each once.
pub open spec fn label_order(s: Seq<Seq<char>>) -> bool {
    forall|i: int, j: int| 0 <= i < j < s.len() ==> text_lt(#[trigger] s[i], #[trigger] s[j])
}

/// Inserting a label not held yet into labels in order keeps them in
/// order, and adds that label alone.
proof fn lemma_insert_sorted_keeps_order(s: Seq<Seq<char>>, l: Seq<char>)
    requires
        label_order(s),
        !s.contains(l),
    ensures
        label_order(insert_sorted(s, l)),
        forall|x: Seq<char>| insert_sorted(s, l).contains(x) <==> (s.contains(x) || x == l),
    decreases s.len(),
{
    let r = insert_sorted(s, l);
    if s.len() == 0 {
        assert forall|x: Seq<char>| r.contains(x) <==> (s.contains(x) || x == l) by {
            if r.contains(x) {
                assert(r[0] == l);
            }
            if x == l {
                assert(r[0] == x);
            }
        }
    } else if text_lt(l, s[0]) {
        assert(r =~= seq![l] + s);
        assert forall|i: int, j: int| 0 <= i < j < r.len() implies text_lt(#[trigger] r[i], #[trigger] r[j]) by {
            if i == 0 {
                if j > 1 {
                    assert(text_lt(s[0], s[j - 1]));
                    lemma_text_lt_transitive(l, s[0], s[j - 1]);
                }
            } else {
                assert(r[i] == s[i - 1] && r[j] == s[j - 1]);
            }
        }
        assert forall|x: Seq<char>| r.contains(x) <==> (s.contains(x) || x == l) by {
            if r.contains(x) {
                let k = choose|k: int| 0 <= k < r.len() && r[k] == x;
                if k > 0 {
                    assert(s[k - 1] == x);
                }
            }
            if s.contains(x) {
                let k = choose|k: int| 0 <= k < s.len() && s[k] == x;
                assert(r[k + 1] == x);
            }
            if x == l {
                assert(r[0] == x);
            }
        }
    } else {
        let t = s.drop_first();
        assert(s[0] != l);
        lemma_text_lt_total(l, s[0]);
        assert(text_lt(s[0], l));
        assert forall|i: int, j: int| 0 <= i < j < t.len() implies text_lt(#[trigger] t[i], #[trigger] t[j]) by {
            assert(t[i] == s[i + 1] && t[j] == s[j + 1]);
        }
        assert(!t.contains(l)) by {
            if t.contains(l) {
                let k = choose|k: int| 0 <= k < t.len() && t[k] == l;
                assert(s[k + 1] == l);
            }
        }
        lemma_insert_sorted_keeps_order(t, l);
        let u = insert_sorted(t, l);
        assert(r =~= seq![s[0]] + u);
        assert forall|i: int, j: int| 0 <= i < j < r.len() implies text_lt(#[trigger] r[i], #[trigger] r[j]) by {
            if i == 0 {
                assert(r[j] == u[j - 1]);
                assert(u.contains(u[j - 1]));
                if u[j - 1] == l {
                } else {
                    assert(t.contains(u[j - 1]));
                    let k = choose|k: int| 0 <= k < t.len() && t[k] == u[j - 1];
                    assert(s[k + 1] == t[k]);
                    assert(text_lt(s[0], s[k + 1]));
                }
            } else {
                assert(r[i] == u[i - 1] && r[j] == u[j - 1]);
            }
        }
        assert forall|x: Seq<char>| r.contains(x) <==> (s.contains(x) || x == l) by {
            if r.contains(x) {
                let k = choose|k: int| 0 <= k < r.len() && r[k] == x;
                if k > 0 {
                    assert(u[k - 1] == x);
                    assert(u.contains(x));
                    if t.contains(x) {
                        let m = choose|m: int| 0 <= m < t.len() && t[m] == x;
                        assert(s[m + 1] == x);
                    }
                } else {
                    assert(s[0] == x);
                }
            }
            if s.contains(x) {
                let k = choose|k: int| 0 <= k < s.len() && s[k] == x;
                if k == 0 {
                    assert(r[0] == x);
                } else {
                    assert(t[k - 1] == x);
                    assert(t.contains(x));
                    assert(u.contains(x));
                    let m = choose|m: int| 0 <= m < u.len() && u[m] == x;
                    assert(r[m + 1] == x);
                }
            }
            if x == l {
                assert(u.contains(l));
                let m = choose|m: int| 0 <= m < u.len() && u[m] == l;
                assert(r[m + 1] == x);
            }
        }
    }
}

/// Adding labels to labels kept as a set keeps them a set, holding what
/// they held and each label added.
pub proof fn lemma_labels_added_keeps_order(s: Seq<Seq<char>>, adds: Seq<Seq<char>>)
    requires
        label_order(s),
    ensures
        label_order(labels_added(s, adds)),
        forall|x: Seq<char>| #[trigger] labels_added(s, adds).contains(x) <==> (s.contains(x) || adds.contains(x)),
    decreases adds.len(),
{
    if adds.len() > 0 {
        let a = adds.drop_last();
        lemma_labels_added_keeps_order(s, a);
        let r = labels_added(s, a);
        if !r.contains(adds.last()) {
            lemma_insert_sorted_keeps_order(r, adds.last());
        }
        let l = adds.last();
        assert(labels_added(s, adds) == label_added(r, l));
        assert forall|x: Seq<char>| #[trigger] labels_added(s, adds).contains(x) <==> (s.contains(x) || adds.contains(x)) by {
            assert(label_added(r, l).contains(x) <==> (r.contains(x) || x == l)) by {
                if r.contains(l) {
                    if x == l {
                        assert(r.contains(x));
                    }
                }
            }
            assert(r.contains(x) <==> (s.contains(x) || a.contains(x)));
            if a.contains(x) {
                let k = choose|k: int| 0 <= k < a.len() && a[k] == x;
                assert(adds[k] == x);
            }
            if x == l {
                assert(adds[adds.len() - 1] == x);
            }
            if adds.contains(x) {
                let k = choose|k: int| 0 <= k < adds.len() && adds[k] == x;
                if k < a.len() {
                    assert(a[k] == x);
                    assert(a.contains(x));
                }
            }
        }
    }
}

/// Dropping labels from labels kept as a set keeps them a set.
pub proof fn lemma_filtered_labels_keep_order(s: Seq<Seq<char>>, p: spec_fn(Seq<char>) -> bool)
    requires
        label_order(s),
    ensures
        label_order(s.filter(p)),
    decreases s.len(),
{
    if s.len() > 0 {
        let a = s.drop_last();
        assert forall|i: int, j: int| 0 <= i < j < a.len() implies text_lt(#[trigger] a[i], #[trigger] a[j]) by {
            assert(a[i] == s[i] && a[j] == s[j]);
        }
        lemma_filtered_labels_keep_order(a, p);
        assert(a.push(s.last()) =~= s);
        crate::domain::lemma_filter_push(a, s.last(), p);
        if p(s.last()) {
            let f = a.filter(p);
            let g = f.push(s.last());
            assert forall|i: int, j: int| 0 <= i < j < g.len() implies text_lt(#[trigger] g[i], #[trigger] g[j]) by {
                if j == g.len() - 1 {
                    assert(f.contains(f[i]));
                    a.lemma_filter_contains_rev(p, f[i]);
                    assert(a.contains(f[i]));
                    let k = choose|k: int| 0 <= k < a.len() && a[k] == f[i];
                    assert(text_lt(s[k], s[s.len() - 1]));
                } else {
                    assert(g[i] == f[i] && g[j] == f[j]);
                }
            }
        }
    }
}

/// An edit keeps labels that were a set a set: in order, each once.
pub proof fn lemma_edited_labels_keep_order(labels: Seq<Seq<char>>, removes: Seq<Seq<char>>, adds: Seq<Seq<char>>)
    requires
        label_order(labels),
    ensures
        label_order(labels_added(labels.filter(|l: Seq<char>| !removes.contains(l)), adds)),
{
    lemma_filtered_labels_keep_order(labels, |l: Seq<char>| !removes.contains(l));
    lemma_labels_added_keeps_order(labels.filter(|l: Seq<char>| !removes.contains(l)), adds);
}

/// The dependencies `s` once each of `adds` not held yet is appended.
pub open spec fn deps_added(s: Seq<Seq<char>>, adds: Seq<Seq<char>>) -> Seq<Seq<char>>
    decreases adds.len(),
{
    if adds.len() == 0 {
        s
    } else {
        let r = deps_added(s, adds.drop_last());
        if r.contains(adds.last()) {
            r
        } else {
            r.push(adds.last())
        }
    }
}

/// Whether `f` touches a field only a task has.
pub open spec fn task_only(f: EditFields) -> bool {
    f.priority is Some || f.due is Some || f.deadline is Some || f.attach is Some || f.recurrence is Some || f.undone
}

/// Whether `f` touches a field only an event has.
pub open spec fn event_only(f: EditFields) -> bool {
    f.start is Some || f.end is Some || f.location is Some
}

/// `b` with the base fields of `f` applied.
pub open spec fn edited_base(b: BaseView, f: EditFields) -> BaseView {
    BaseView {
        subject: match f.subject {
            Some(s) => s@,
            None => b.subject,
        },
        body: match f.body {
            Some(s) => s@,
            None => b.body,
        },
        labels: labels_added(
            b.labels.filter(|l: Seq<char>| !texts(f.remove_labels@).contains(l)),
            texts(f.add_labels@),
        ),
        depends: deps_added(
            b.depends.filter(|x: Seq<char>| !oid_texts(f.remove_depends@).contains(x)),
            oid_texts(f.add_depends@),
        ),
        recurrence: match f.recurrence {
            Some(r) => opt_text(r),
            None => b.recurrence,
        },
        ..b
    }
}

/// `o` with `f` applied, when `f` fits it.
pub open spec fn edited(o: ObjectView, f: EditFields) -> ObjectView {
    match o {
        ObjectView::Task(t) => ObjectView::Task(
            TaskView {
                base: edited_base(t.base, f),
                priority: match f.priority {
                    Some(p) => p,
                    None => t.priority,
                },
                due: match f.due {
                    Some(d) => d,
                    None => t.due,
                },
                deadline: match f.deadline {
                    Some(d) => d,
                    None => t.deadline,
                },
                event: match f.attach {
                    Some(a) => opt_oid_text(a),
                    None => t.event,
                },
                done: if f.undone {
                    false
                } else {
                    t.done
                },
                ..t
            },
        ),
        ObjectView::Event(e) => ObjectView::Event(
            EventView {
                base: edited_base(e.base, f),
                start: match f.start {
                    Some(s) => s,
                    None => e.start,
                },
                end: match f.end {
                    Some(x) => x,
                    None => e.end,
                },
                location: match f.location {
                    Some(l) => opt_text(l),
                    None => e.location,
                },
                ..e
            },
        ),
    }
}

/// Appending dependencies keeps the ones held and adds exactly those given.
proof fn lemma_deps_added_holds(s: Seq<Seq<char>>, adds: Seq<Seq<char>>)
    ensures
        forall|x: Seq<char>| #[trigger] deps_added(s, adds).contains(x) <==> (s.contains(x) || adds.contains(x)),
    decreases adds.len(),
{
    if adds.len() > 0 {
        lemma_deps_added_holds(s, adds.drop_last());
        let r = deps_added(s, adds.drop_last());
        let l = adds.last();
        assert forall|x: Seq<char>| #[trigger] deps_added(s, adds).contains(x) <==> (s.contains(x) || adds.contains(
            x,
        )) by {
            if !r.contains(l) {
                assert(deps_added(s, adds) == r.push(l));
                if r.push(l).contains(x) && x != l {
                    let k = choose|k: int| 0 <= k < r.push(l).len() && r.push(l)[k] == x;
                    assert(r[k] == x);
                }
                if r.contains(x) {
                    let k = choose|k: int| 0 <= k < r.len() && r[k] == x;
                    assert(r.push(l)[k] == x);
                }
                assert(r.push(l)[r.len() as int] == l);
            }
            if adds.contains(x) && !adds.drop_last().contains(x) {
                let k = choose|k: int| 0 <= k < adds.len() && adds[k] == x;
                if k < adds.len() - 1 {
                    assert(adds.drop_last()[k] == x);
                }
            }
            if adds.drop_last().contains(x) {
                let k = choose|k: int| 0 <= k < adds.drop_last().len() && adds.drop_last()[k] == x;
                assert(adds[k] == x);
            }
            if x == adds.last() {
                assert(adds[adds.len() - 1] == x);
            }
        }
    }
}

/// `x` is in `s` filtered by `p` exactly when it is in `s` and `p` holds.
proof fn lemma_filter_holds(s: Seq<Seq<char>>, p: spec_fn(Seq<char>) -> bool, x: Seq<char>)
    ensures
        s.filter(p).contains(x) <==> (s.contains(x) && p(x)),
{
    s.filter_lemma(p);
    if s.contains(x) && p(x) {
        let k = choose|k: int| 0 <= k < s.len() && s[k] == x;
        s.lemma_filter_contains(p, k);
    }
    if s.filter(p).contains(x) {
        s.lemma_filter_contains_rev(p, x);
        let k = choose|k: int| 0 <= k < s.filter(p).len() && s.filter(p)[k] == x;
        assert(p(s.filter(p)[k]));
    }
}

/// An edit keeps what it does not name: the object keeps its oid, path and
/// kind, and each base field it names reads back as given while each other
/// one reads back as before. Labels and dependencies it adds are held
/// after it, those it removes and does not add again are not, and the rest
/// stay as they were.
pub proof fn lemma_edit_sets_what_it_names(o: ObjectView, f: EditFields)
    ensures
        edited(o, f).oid() == o.oid(),
        edited(o, f).base().path == o.base().path,
        (edited(o, f) is Task) == (o is Task),
        f.subject matches Some(s) ==> edited(o, f).base().subject == s@,
        f.subject is None ==> edited(o, f).base().subject == o.base().subject,
        f.body matches Some(b) ==> edited(o, f).base().body == b@,
        f.body is None ==> edited(o, f).base().body == o.base().body,
        f.recurrence matches Some(r) ==> edited(o, f).base().recurrence == opt_text(r),
        f.recurrence is None ==> edited(o, f).base().recurrence == o.base().recurrence,
        label_order(o.base().labels) ==> forall|x: Seq<char>| #[trigger] edited(o, f).base().labels.contains(x) <==> (
        texts(f.add_labels@).contains(x) || (o.base().labels.contains(x) && !texts(f.remove_labels@).contains(x))),
        forall|x: Seq<char>| #[trigger] edited(o, f).base().depends.contains(x) <==> (oid_texts(
            f.add_depends@,
        ).contains(x) || (o.base().depends.contains(x) && !oid_texts(f.remove_depends@).contains(x))),
{
    let b = o.base();
    let keep = |l: Seq<char>| !texts(f.remove_labels@).contains(l);
    let stay = |x: Seq<char>| !oid_texts(f.remove_depends@).contains(x);
    assert(edited(o, f).base() == edited_base(b, f));
    if label_order(b.labels) {
        lemma_filtered_labels_keep_order(b.labels, keep);
        lemma_labels_added_keeps_order(b.labels.filter(keep), texts(f.add_labels@));
        assert forall|x: Seq<char>| #[trigger] edited(o, f).base().labels.contains(x) <==> (texts(
            f.add_labels@,
        ).contains(x) || (b.labels.contains(x) && !texts(f.remove_labels@).contains(x))) by {
            lemma_filter_holds(b.labels, keep, x);
        }
    }
    lemma_deps_added_holds(b.depends.filter(stay), oid_texts(f.add_depends@));
    assert forall|x: Seq<char>| #[trigger] edited(o, f).base().depends.contains(x) <==> (oid_texts(
        f.add_depends@,
    ).contains(x) || (b.depends.contains(x) && !oid_texts(f.remove_depends@).contains(x))) by {
        lemma_filter_holds(b.depends, stay, x);
    }
}

/// An edit of a task sets each task field it names and leaves the others:
/// a deadline, due time, priority or attached event given reads back as
/// given, one not given reads back as before; undoing reopens the task,
/// and its completion time is kept.
pub proof fn lemma_task_edit_sets_what_it_names(t: TaskView, f: EditFields)
    ensures
        edited(ObjectView::Task(t), f) is Task,
        f.deadline matches Some(d) ==> edited(ObjectView::Task(t), f)->Task_0.deadline == d,
        f.deadline is None ==> edited(ObjectView::Task(t), f)->Task_0.deadline == t.deadline,
        f.due matches Some(d) ==> edited(ObjectView::Task(t), f)->Task_0.due == d,
        f.due is None ==> edited(ObjectView::Task(t), f)->Task_0.due == t.due,
        f.priority matches Some(p) ==> edited(ObjectView::Task(t), f)->Task_0.priority == p,
        f.priority is None ==> edited(ObjectView::Task(t), f)->Task_0.priority == t.priority,
        f.attach matches Some(a) ==> edited(ObjectView::Task(t), f)->Task_0.event == opt_oid_text(a),
        f.attach is None ==> edited(ObjectView::Task(t), f)->Task_0.event == t.event,
        f.undone ==> !edited(ObjectView::Task(t), f)->Task_0.done,
        !f.undone ==> edited(ObjectView::Task(t), f)->Task_0.done == t.done,
        edited(ObjectView::Task(t), f)->Task_0.completed_at == t.completed_at,
{
}

/// An edit of an event sets each event field it names and leaves the
/// others: a start, end or location given reads back as given, one not
/// given reads back as before, and its status and times zone are kept.
pub proof fn lemma_event_edit_sets_what_it_names(e: EventView, f: EditFields)
    ensures
        edited(ObjectView::Event(e), f) is Event,
        f.start matches Some(s) ==> edited(ObjectView::Event(e), f)->Event_0.start == s,
        f.start is None ==> edited(ObjectView::Event(e), f)->Event_0.start == e.start,
        f.end matches Some(x) ==> edited(ObjectView::Event(e), f)->Event_0.end == x,
        f.end is None ==> edited(ObjectView::Event(e), f)->Event_0.end == e.end,
        f.location matches Some(l) ==> edited(ObjectView::Event(e), f)->Event_0.location == opt_text(l),
        f.location is None ==> edited(ObjectView::Event(e), f)->Event_0.location == e.location,
        edited(ObjectView::Event(e), f)->Event_0.status == e.status,
        edited(ObjectView::Event(e), f)->Event_0.timezone == e.timezone,
{
}

/// Inserting into a list before the first entry that sorts after `l`.
pub proof fn lemma_insert_sorted_at(s: Seq<Seq<char>>, l: Seq<char>, k: int)
    requires
        0 <= k <= s.len(),
        forall|j: int| 0 <= j < k ==> !text_lt(l, #[trigger] s[j]),
        k < s.len() ==> text_lt(l, s[k]),
    ensures
        insert_sorted(s, l) == s.take(k) + seq![l] + s.skip(k),
    decreases s.len(),
{
    if s.len() == 0 {
        assert(s.take(k) + seq![l] + s.skip(k) =~= seq![l]);
    } else if k == 0 {
        assert(s.take(0) + seq![l] + s.skip(0) =~= seq![l] + s);
    } else {
        assert(!text_lt(l, s[0]));
        let t = s.drop_first();
        assert forall|j: int| 0 <= j < k - 1 implies !text_lt(l, #[trigger] t[j]) by {
            assert(t[j] == s[j + 1]);
        }
        lemma_insert_sorted_at(t, l, k - 1);
        assert(seq![s[0]] + (t.take(k - 1) + seq![l] + t.skip(k - 1)) =~= s.take(k) + seq![l] + s.skip(k));
    }
}

/// `labels` with `l` added as `label_added` says.
pub fn add_label(labels: &mut Vec<String>, l: &String)
    ensures
        texts(final(labels)@) == label_added(texts(old(labels)@), l@),
{
    if texts_contain(labels, l) {
        return;
    }
    let ghost s = texts(labels@);
    let mut k: usize = 0;
    while k < labels.len() && !text_less(l.as_str(), labels[k].as_str())
        invariant
            s == texts(labels@),
            k <= labels.len(),
            forall|j: int| 0 <= j < k ==> !text_lt(l@, #[trigger] s[j]),
        decreases labels.len() - k,
    {
        k = k + 1;
    }
    proof {
        if k < labels.len() {
            assert(text_lt(l@, s[k as int]));
        }
        lemma_insert_sorted_at(s, l@, k as int);
    }
    labels.insert(k, l.clone());
    assert(texts(labels@) =~= s.take(k as int) + seq![l@] + s.skip(k as int));
}

/// `labels` without any label of `drop`.
fn remove_labels(labels: &Vec<String>, drop: &Vec<String>) -> (r: Vec<String>)
    ensures
        texts(r@) == texts(labels@).filter(|l: Seq<char>| !texts(drop@).contains(l)),
{
    let ghost p = |l: Seq<char>| !texts(drop@).contains(l);
    let mut out: Vec<String> = Vec::new();
    let mut i: usize = 0;
    while i < labels.len()
        invariant
            i <= labels.len(),
            p == (|l: Seq<char>| !texts(drop@).contains(l)),
            texts(out@) == texts(labels@).take(i as int).filter(p),
        decreases labels.len() - i,
    {
        let ghost before = texts(out@);
        proof {
            assert(texts(labels@).take(i + 1) =~= texts(labels@).take(i as int).push(texts(labels@)[i as int]));
            crate::domain::lemma_filter_push(texts(labels@).take(i as int), texts(labels@)[i as int], p);
        }
        if !texts_contain(drop, &labels[i]) {
            out.push(labels[i].clone());
            assert(texts(out@) =~= before.push(labels@[i as int]@));
        }
        i = i + 1;
    }
    assert(texts(labels@).take(labels.len() as int) =~= texts(labels@));
    out
}

/// `v` without any oid of `drop`, then with each of `adds` not held yet
/// appended.
fn edit_depends(v: &Vec<Oid>, drop: &Vec<Oid>, adds: &Vec<Oid>) -> (r: Vec<Oid>)
    ensures
        oid_texts(r@) == deps_added(
            oid_texts(v@).filter(|x: Seq<char>| !oid_texts(drop@).contains(x)),
            oid_texts(adds@),
        ),
{
    let ghost p = |x: Seq<char>| !oid_texts(drop@).contains(x);
    let mut out: Vec<Oid> = Vec::new();
    let mut i: usize = 0;
    while i < v.len()
        invariant
            i <= v.len(),
            p == (|x: Seq<char>| !oid_texts(drop@).contains(x)),
            oid_texts(out@) == oid_texts(v@).take(i as int).filter(p),
        decreases v.len() - i,
    {
        let ghost before = oid_texts(out@);
        proof {
            assert(oid_texts(v@).take(i + 1) =~= oid_texts(v@).take(i as int).push(oid_texts(v@)[i as int]));
            crate::domain::lemma_filter_push(oid_texts(v@).take(i as int), oid_texts(v@)[i as int], p);
        }
        if !oids_contain(drop, &v[i]) {
            out.push(v[i].copy());
            assert(oid_texts(out@) =~= before.push(v@[i as int]@));
        }
        i = i + 1;
    }
    assert(oid_texts(v@).take(v.len() as int) =~= oid_texts(v@));
    let ghost kept = oid_texts(out@);
    let mut j: usize = 0;
    while j < adds.len()
        invariant
            j <= adds.len(),
            oid_texts(out@) == deps_added(kept, oid_texts(adds@).take(j as int)),
        decreases adds.len() - j,
    {
        proof {
            assert(oid_texts(adds@).take(j + 1).drop_last() =~= oid_texts(adds@).take(j as int));
        }
        if !oids_contain(&out, &adds[j]) {
            let ghost before = oid_texts(out@);
            out.push(adds[j].copy());
            assert(oid_texts(out@) =~= before.push(adds@[j as int]@));
        }
        j = j + 1;
    }
    assert(oid_texts(adds@).take(adds.len() as int) =~= oid_texts(adds@));
    out
}

/// Whether the recurrence `fields` set, if they set one, reads.
pub open spec fn rule_or_none_reads<C: Calendar>(calendar: C, fields: EditFields) -> bool {
    fields.recurrence matches Some(Some(t)) ==> calendar.rule_reads(t@)
}

/// Applies `fields` to a copy of `object` without writing it. A task-only
/// field on an event is refused, and so is an event-only field on a task;
/// a recurrence rule must read; only a completed task can be reopened.
pub fn apply<C: Calendar>(object: &Object, fields: &EditFields, calendar: &C) -> (r: Result<Object, UseCaseError>)
    ensures
        r matches Ok(next) ==> next@ == edited(object@, *fields) && !(object@ is Event && task_only(*fields))
            && !(object@ is Task && event_only(*fields)) && (fields.undone ==> object@ is Task
            && !object@.is_open_task()),
        object@ is Event && task_only(*fields) ==> (r matches Err(UseCaseError::Refused(Refusal::NotATask(o))) && o@
            == object@.oid()),
        object@ is Task && event_only(*fields) ==> (r matches Err(UseCaseError::Parse(m)) && m@
            == "start applies to events"@),
        object@ is Task && !event_only(*fields) ==> (fields.recurrence matches Some(Some(t)) ==> (
        !calendar.rule_reads(t@) ==> (r matches Err(UseCaseError::Parse(m)) && m@ == calendar.rule_error(t@)))),
        r is Ok ==> (fields.recurrence matches Some(Some(t)) ==> calendar.rule_reads(t@)),
        object@ is Task && !event_only(*fields) && rule_or_none_reads(*calendar, *fields) && !(fields.undone
            && object@.is_open_task()) ==> r is Ok,
        object@ is Event && !task_only(*fields) ==> r is Ok,
        object@.is_open_task() && !event_only(*fields) && fields.undone && rule_or_none_reads(*calendar, *fields)
            ==> (r matches Err(UseCaseError::Refused(Refusal::NotCompleted(o))) && o@ == object@.oid()),
        r matches Err(UseCaseError::Parse(_)) ==> object@ is Task && (event_only(*fields)
            || !rule_or_none_reads(*calendar, *fields)),
        r matches Err(UseCaseError::Refused(Refusal::NotATask(o))) ==> o@ == object@.oid() && object@ is Event
            && task_only(*fields),
        r matches Err(UseCaseError::Refused(Refusal::NotCompleted(o))) ==> o@ == object@.oid() && object@.is_open_task()
            && fields.undone,
        r matches Err(e) ==> e is Parse || e matches UseCaseError::Refused(Refusal::NotATask(_))
            || e matches UseCaseError::Refused(Refusal::NotCompleted(_)),
{
    let is_task = match object {
        Object::Task(_) => true,
        Object::Event(_) => false,
    };
    if !is_task && (fields.priority.is_some() || fields.due.is_some() || fields.deadline.is_some()
        || fields.attach.is_some() || fields.recurrence.is_some() || fields.undone) {
        return Err(UseCaseError::Refused(Refusal::NotATask(object.oid().copy())));
    }
    if is_task && (fields.start.is_some() || fields.end.is_some() || fields.location.is_some()) {
        proof {
            reveal_strlit("start applies to events");
        }
        return Err(UseCaseError::Parse(String::from_str("start applies to events")));
    }
    let mut next = object.copy();
    let old_base = object.base();
    let mut labels = remove_labels(&old_base.labels, &fields.remove_labels);
    let mut i: usize = 0;
    let ghost kept = texts(labels@);
    while i < fields.add_labels.len()
        invariant
            i <= fields.add_labels.len(),
            texts(labels@) == labels_added(kept, texts(fields.add_labels@).take(i as int)),
        decreases fields.add_labels.len() - i,
    {
        proof {
            assert(texts(fields.add_labels@).take(i + 1).drop_last() =~= texts(fields.add_labels@).take(i as int));
        }
        add_label(&mut labels, &fields.add_labels[i]);
        i = i + 1;
    }
    assert(texts(fields.add_labels@).take(fields.add_labels.len() as int) =~= texts(fields.add_labels@));
    let depends = edit_depends(&old_base.depends, &fields.remove_depends, &fields.add_depends);
    let recurrence = match &fields.recurrence {
        Some(Some(text)) => {
            match calendar.check_rule(text.as_str()) {
                Ok(()) => {},
                Err(why) => return Err(UseCaseError::Parse(why)),
            }
            Some(text.clone())
        },
        Some(None) => None,
        None => crate::domain::copy_opt_text(&old_base.recurrence),
    };
    let subject = match &fields.subject {
        Some(s) => s.clone(),
        None => old_base.subject.clone(),
    };
    let body = match &fields.body {
        Some(b) => b.clone(),
        None => old_base.body.clone(),
    };
    let b = next.base_mut();
    b.subject = subject;
    b.body = body;
    b.labels = labels;
    b.depends = depends;
    b.recurrence = recurrence;
    match &mut next {
        Object::Task(t) => {
            if let Some(p) = fields.priority {
                t.priority = p;
            }
            if let Some(d) = fields.due {
                t.due = d;
            }
            if let Some(d) = fields.deadline {
                t.deadline = d;
            }
            match &fields.attach {
                Some(a) => {
                    t.event = crate::domain::copy_opt_oid(a);
                },
                None => {},
            }
            if fields.undone {
                if !t.done {
                    return Err(UseCaseError::Refused(Refusal::NotCompleted(t.base.oid.copy())));
                }
                t.done = false;
            }
        },
        Object::Event(e) => {
            if let Some(s) = fields.start {
                e.start = s;
            }
            if let Some(x) = fields.end {
                e.end = x;
            }
            match &fields.location {
                Some(l) => {
                    e.location = crate::domain::copy_opt_text(l);
                },
                None => {},
            }
        },
    }
    Ok(next)
}

/// Edits the object `oid` in place: the fields are applied, the labels held
/// to the categories, new dependencies refused when they would close a loop
/// back to it, and an attached event required to exist.
pub fn edit<S: ObjectRepository, C: Calendar>(
    store: &mut S,
    categories: &Categories,
    calendar: &C,
    oid: &Oid,
    fields: &EditFields,
) -> (r: Result<Object, UseCaseError>)
    ensures
        final(store).model().unit == old(store).model().unit,
        r matches Ok(next) ==> {
            let d = old(store).model().data;
            &&& d.working.contains_key(oid@)
            &&& next@ == edited(d.working[oid@], *fields)
            &&& exclusive_violation(categories@, next@.base().labels) is None
            &&& fields.add_depends@.len() > 0 ==> exists|skipped: Set<Seq<char>>|
                #[trigger] no_chain(d, skipped, oid_texts(fields.add_depends@), oid@)
            &&& fields.add_depends@.len() > 0 && old(store).reliable() ==> no_chain(
                d,
                Set::empty(),
                oid_texts(fields.add_depends@),
                oid@,
            )
            &&& match fields.attach {
                Some(Some(e)) => d.working.get(e@) matches Some(ObjectView::Event(_)),
                _ => true,
            }
            &&& final(store).model() == old(store).model().with(
                StoreData { working: d.working.insert(oid@, next@), ..d },
            )
        },
        !old(store).model().data.working.contains_key(oid@) ==> r is Err,
        r matches Err(e) ==> e is Store || final(store).model() == old(store).model(),
        r matches Err(UseCaseError::Refused(Refusal::Labels(v))) ==> old(store).model().data.working.contains_key(oid@)
            && exclusive_violation(
            categories@,
            edited(old(store).model().data.working[oid@], *fields).base().labels,
        ) == Some((v@.category, v@.held)),
        r matches Err(UseCaseError::Refused(Refusal::Cycle { oid: o, path })) ==> o@ == oid@ && is_chain(
            old(store).model().data,
            Set::empty(),
            oid_texts(fields.add_depends@),
            oid_texts(path@),
            oid@,
        ),
        r matches Err(UseCaseError::Refused(Refusal::NoSuchObject(s))) ==> (!old(
            store,
        ).model().data.working.contains_key(oid@) && s@ == short_text(oid@)) || (fields.attach matches Some(Some(e))
            && !(old(store).model().data.working.get(e@) matches Some(ObjectView::Event(_))) && s@ == short_text(
            e@,
        )),
        r matches Err(e) ==> e is Store || e is Parse || e matches UseCaseError::Refused(Refusal::NotATask(_))
            || e matches UseCaseError::Refused(Refusal::NotCompleted(_)) || e matches UseCaseError::Refused(
            Refusal::Labels(_),
        ) || e matches UseCaseError::Refused(Refusal::Cycle { .. }) || e matches UseCaseError::Refused(
            Refusal::NoSuchObject(_),
        ),
{
    proof {
        store.lemma_model_wf();
    }
    let current = match store.get(oid) {
        Ok(Some(o)) => o,
        Ok(None) => return Err(UseCaseError::Refused(Refusal::NoSuchObject(oid.short()))),
        Err(e) => return Err(UseCaseError::Store(e)),
    };
    let next = match apply(&current, fields, calendar) {
        Ok(n) => n,
        Err(e) => return Err(e),
    };
    match categories.check(&next.base().labels) {
        Ok(()) => {},
        Err(v) => return Err(UseCaseError::Refused(Refusal::Labels(v))),
    }
    if fields.add_depends.len() > 0 {
        match find_cycle(store, &fields.add_depends, oid) {
            Some(path) => return Err(UseCaseError::Refused(Refusal::Cycle { oid: oid.copy(), path })),
            None => {},
        }
    }
    match &fields.attach {
        Some(Some(event)) => {
            match store.get(event) {
                Ok(Some(Object::Event(_))) => {},
                Ok(_) => return Err(UseCaseError::Refused(Refusal::NoSuchObject(event.short()))),
                Err(e) => return Err(UseCaseError::Store(e)),
            }
        },
        _ => {},
    }
    match store.put(&next) {
        Ok(()) => {},
        Err(e) => return Err(UseCaseError::Store(e)),
    }
    Ok(next)
}

} // verus!
