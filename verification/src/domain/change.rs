//! A change between two states of one object, how two changes to the same
//! object combine, and which fields two states of an object differ in.

use vstd::prelude::*;

use super::ids::{CommitId, Oid};
use super::object::{copy_opt, opt_object, Field, Object, ObjectView, same_opt};
use super::values::{oid_texts, opt_text_eq, texts_eq, ints_eq, oids_eq, opt_oid_eq};

verus! {

#[derive(Clone, Copy, Debug, PartialEq, Eq, Structural)]
pub enum Op {
    Create,
    Update,
    Delete,
}

/// One object going from `before` to `after`; a create has no before and a
/// delete no after.
#[derive(Debug, PartialEq, Eq)]
pub struct Change {
    pub oid: Oid,
    pub op: Op,
    pub before: Option<Object>,
    pub after: Option<Object>,
}

pub struct ChangeView {
    pub oid: Seq<char>,
    pub op: Op,
    pub before: Option<ObjectView>,
    pub after: Option<ObjectView>,
}

impl View for Change {
    type V = ChangeView;

    open spec fn view(&self) -> ChangeView {
        ChangeView {
            oid: self.oid@,
            op: self.op,
            before: opt_object(self.before),
            after: opt_object(self.after),
        }
    }
}

/// The changes of a list, as values.
pub open spec fn change_views(v: Seq<Change>) -> Seq<ChangeView> {
    v.map_values(|c: Change| c@)
}

impl Change {
    pub fn copy(&self) -> (r: Change)
        ensures
            r@ == self@,
    {
        Change {
            oid: self.oid.copy(),
            op: self.op,
            before: copy_opt(&self.before),
            after: copy_opt(&self.after),
        }
    }

    pub fn same(&self, other: &Change) -> (r: bool)
        ensures
            r == (self@ == other@),
    {
        self.oid.same(&other.oid) && self.op == other.op && same_opt(&self.before, &other.before)
            && same_opt(&self.after, &other.after)
    }
}

pub fn copy_changes(v: &Vec<Change>) -> (r: Vec<Change>)
    ensures
        change_views(r@) == change_views(v@),
{
    let mut out: Vec<Change> = Vec::new();
    let mut i: usize = 0;
    while i < v.len()
        invariant
            i <= v.len(),
            out@.len() == i,
            forall|k: int| 0 <= k < i ==> #[trigger] out@[k]@ == v@[k]@,
        decreases v.len() - i,
    {
        out.push(v[i].copy());
        i = i + 1;
    }
    assert(change_views(out@) =~= change_views(v@));
    out
}

/// One commit: the changes it recorded, when, and why.
#[derive(Debug, PartialEq, Eq)]
pub struct CommitRecord {
    pub id: CommitId,
    pub message: String,
    pub at: super::object::Timestamp,
    pub changes: Vec<Change>,
}

pub struct CommitRecordView {
    pub id: Seq<char>,
    pub message: Seq<char>,
    pub at: super::object::Timestamp,
    pub changes: Seq<ChangeView>,
}

impl View for CommitRecord {
    type V = CommitRecordView;

    open spec fn view(&self) -> CommitRecordView {
        CommitRecordView {
            id: self.id@,
            message: self.message@,
            at: self.at,
            changes: change_views(self.changes@),
        }
    }
}

/// The records of a list, as values.
pub open spec fn record_views(v: Seq<CommitRecord>) -> Seq<CommitRecordView> {
    v.map_values(|c: CommitRecord| c@)
}

impl CommitRecord {
    pub fn copy(&self) -> (r: CommitRecord)
        ensures
            r@ == self@,
    {
        CommitRecord {
            id: self.id.copy(),
            message: self.message.clone(),
            at: self.at,
            changes: copy_changes(&self.changes),
        }
    }
}

/// The change that takes `base` to `working`, or none when they agree.
pub open spec fn diff_spec(
    oid: Seq<char>,
    base: Option<ObjectView>,
    working: Option<ObjectView>,
) -> Option<ChangeView> {
    match (base, working) {
        (None, None) => None,
        (None, Some(w)) => Some(ChangeView { oid, op: Op::Create, before: None, after: Some(w) }),
        (Some(b), None) => Some(ChangeView { oid, op: Op::Delete, before: Some(b), after: None }),
        (Some(b), Some(w)) => if b == w {
            None
        } else {
            Some(ChangeView { oid, op: Op::Update, before: Some(b), after: Some(w) })
        },
    }
}

/// The change that takes `base` to `working`, or `None` when they agree.
pub fn diff(oid: &Oid, base: Option<&Object>, working: Option<&Object>) -> (r: Option<Change>)
    ensures
        opt_change(r) == diff_spec(
            oid@,
            match base { Some(b) => Some(b@), None => None },
            match working { Some(w) => Some(w@), None => None },
        ),
{
    match (base, working) {
        (None, None) => None,
        (None, Some(w)) => Some(Change { oid: oid.copy(), op: Op::Create, before: None, after: Some(w.copy()) }),
        (Some(b), None) => Some(Change { oid: oid.copy(), op: Op::Delete, before: Some(b.copy()), after: None }),
        (Some(b), Some(w)) => {
            if b.same(w) {
                None
            } else {
                Some(Change { oid: oid.copy(), op: Op::Update, before: Some(b.copy()), after: Some(w.copy()) })
            }
        },
    }
}

/// The text of an optional change.
pub open spec fn opt_change(c: Option<Change>) -> Option<ChangeView> {
    match c {
        Some(x) => Some(x@),
        None => None,
    }
}

/// Two changes to one object, made one after the other, as the single change
/// that goes from the first one's start to the second one's end. A create
/// absorbs what follows it and vanishes with a delete; anything else keeps
/// its starting point and takes the end the second change reached.
pub open spec fn coalesce_spec(first: ChangeView, second: ChangeView) -> Option<ChangeView> {
    if first.op == Op::Create {
        if second.after is None {
            None
        } else {
            Some(ChangeView { oid: first.oid, op: Op::Create, before: None, after: second.after })
        }
    } else if second.after is None {
        Some(ChangeView { oid: first.oid, op: Op::Delete, before: first.before, after: None })
    } else if first.before is None {
        Some(ChangeView { oid: first.oid, op: Op::Create, before: None, after: second.after })
    } else {
        Some(ChangeView { oid: first.oid, op: Op::Update, before: first.before, after: second.after })
    }
}

/// Two changes to one object as one; see `coalesce_spec`.
pub fn coalesce(first: Change, second: Change) -> (r: Option<Change>)
    ensures
        opt_change(r) == coalesce_spec(first@, second@),
{
    if first.op == Op::Create {
        if second.after.is_none() {
            None
        } else {
            Some(Change { oid: first.oid, op: Op::Create, before: None, after: second.after })
        }
    } else if second.after.is_none() {
        Some(Change { oid: first.oid, op: Op::Delete, before: first.before, after: None })
    } else if first.before.is_none() {
        Some(Change { oid: first.oid, op: Op::Create, before: None, after: second.after })
    } else {
        Some(Change { oid: first.oid, op: Op::Update, before: first.before, after: second.after })
    }
}

/// Every field, in the order a change names them.
pub open spec fn all_fields() -> Seq<Field> {
    seq![
        Field::Subject, Field::Body, Field::Path, Field::Labels, Field::Depends, Field::Reminders,
        Field::Recurrence, Field::Done, Field::Priority, Field::Due, Field::Deadline, Field::Event,
        Field::Start, Field::End, Field::Timezone, Field::Location, Field::Attendees, Field::Status,
        Field::Transparency, Field::Visibility, Field::EventType, Field::Color, Field::Organizer,
        Field::Conference, Field::Attachments,
    ]
}

pub fn all_fields_exec() -> (r: Vec<Field>)
    ensures
        r@ == all_fields(),
{
    let r = vec![
        Field::Subject, Field::Body, Field::Path, Field::Labels, Field::Depends, Field::Reminders,
        Field::Recurrence, Field::Done, Field::Priority, Field::Due, Field::Deadline, Field::Event,
        Field::Start, Field::End, Field::Timezone, Field::Location, Field::Attendees, Field::Status,
        Field::Transparency, Field::Visibility, Field::EventType, Field::Color, Field::Organizer,
        Field::Conference, Field::Attachments,
    ];
    assert(r@ =~= all_fields());
    r
}

/// Whether two states of an object differ in one field. A task field only
/// differs between two tasks, an event field only between two events.
pub open spec fn field_differs(a: ObjectView, b: ObjectView, f: Field) -> bool {
    let (x, y) = (a.base(), b.base());
    match f {
        Field::Subject => x.subject != y.subject,
        Field::Body => x.body != y.body,
        Field::Path => x.path != y.path,
        Field::Labels => x.labels != y.labels,
        Field::Depends => x.depends != y.depends,
        Field::Reminders => x.reminders != y.reminders,
        Field::Recurrence => x.recurrence != y.recurrence,
        _ => match (a, b) {
            (ObjectView::Task(s), ObjectView::Task(t)) => match f {
                Field::Done => s.done != t.done,
                Field::Priority => s.priority != t.priority,
                Field::Due => s.due != t.due,
                Field::Deadline => s.deadline != t.deadline,
                Field::Event => s.event != t.event,
                _ => false,
            },
            (ObjectView::Event(s), ObjectView::Event(t)) => match f {
                Field::Start => s.start != t.start,
                Field::End => s.end != t.end,
                Field::Timezone => s.timezone != t.timezone,
                Field::Location => s.location != t.location,
                Field::Attendees => s.attendees != t.attendees,
                Field::Status => s.status != t.status,
                Field::Transparency => s.transparency != t.transparency,
                Field::Visibility => s.visibility != t.visibility,
                Field::EventType => s.event_type != t.event_type,
                Field::Color => s.color != t.color,
                Field::Organizer => s.organizer != t.organizer,
                Field::Conference => s.conference != t.conference,
                Field::Attachments => s.attachments != t.attachments,
                _ => false,
            },
            _ => false,
        },
    }
}

/// The fields two states of an object differ in, in field order.
pub open spec fn changed_fields_spec(a: ObjectView, b: ObjectView) -> Seq<Field> {
    all_fields().filter(differs_in(a, b))
}

/// The fields two states differ in, as a predicate.
pub open spec fn differs_in(a: ObjectView, b: ObjectView) -> spec_fn(Field) -> bool {
    |f: Field| field_differs(a, b, f)
}

pub fn field_differs_exec(a: &Object, b: &Object, f: Field) -> (r: bool)
    ensures
        r == field_differs(a@, b@, f),
{
    let (x, y) = (a.base(), b.base());
    match f {
        Field::Subject => x.subject != y.subject,
        Field::Body => x.body != y.body,
        Field::Path => !x.path.same(&y.path),
        Field::Labels => !texts_eq(&x.labels, &y.labels),
        Field::Depends => !oids_eq(&x.depends, &y.depends),
        Field::Reminders => !ints_eq(&x.reminders, &y.reminders),
        Field::Recurrence => !opt_text_eq(&x.recurrence, &y.recurrence),
        _ => match (a, b) {
            (Object::Task(s), Object::Task(t)) => match f {
                Field::Done => s.done != t.done,
                Field::Priority => s.priority != t.priority,
                Field::Due => s.due != t.due,
                Field::Deadline => s.deadline != t.deadline,
                Field::Event => !opt_oid_eq(&s.event, &t.event),
                _ => false,
            },
            (Object::Event(s), Object::Event(t)) => match f {
                Field::Start => s.start != t.start,
                Field::End => s.end != t.end,
                Field::Timezone => !opt_text_eq(&s.timezone, &t.timezone),
                Field::Location => !opt_text_eq(&s.location, &t.location),
                Field::Attendees => !texts_eq(&s.attendees, &t.attendees),
                Field::Status => s.status != t.status,
                Field::Transparency => s.transparency != t.transparency,
                Field::Visibility => s.visibility != t.visibility,
                Field::EventType => s.event_type != t.event_type,
                Field::Color => !opt_text_eq(&s.color, &t.color),
                Field::Organizer => !opt_text_eq(&s.organizer, &t.organizer),
                Field::Conference => !opt_text_eq(&s.conference, &t.conference),
                Field::Attachments => !texts_eq(&s.attachments, &t.attachments),
                _ => false,
            },
            _ => false,
        },
    }
}

/// Filtering a sequence extended by one element.
pub proof fn lemma_filter_push<A>(s: Seq<A>, x: A, p: spec_fn(A) -> bool)
    ensures
        s.push(x).filter(p) == if p(x) { s.filter(p).push(x) } else { s.filter(p) },
{
    reveal(Seq::filter);
    assert(s.push(x).drop_last() =~= s);
}

/// The fields two states of an object differ in, in field order.
pub fn changed_fields(a: &Object, b: &Object) -> (r: Vec<Field>)
    ensures
        r@ == changed_fields_spec(a@, b@),
{
    let all = all_fields_exec();
    let ghost p = differs_in(a@, b@);
    let mut out: Vec<Field> = Vec::new();
    let mut i: usize = 0;
    while i < all.len()
        invariant
            all@ == all_fields(),
            p == differs_in(a@, b@),
            i <= all.len(),
            out@ == all@.take(i as int).filter(p),
        decreases all.len() - i,
    {
        let f = all[i];
        proof {
            lemma_filter_push(all@.take(i as int), f, p);
            assert(all@.take(i + 1) =~= all@.take(i as int).push(f));
        }
        let d = field_differs_exec(a, b, f);
        assert(p(f) == d);
        if d {
            out.push(f);
        }
        i = i + 1;
    }
    assert(all@.take(all.len() as int) =~= all@);
    out
}

/// Whether a list of fields names `f`.
pub fn fields_contain(v: &Vec<Field>, f: Field) -> (r: bool)
    ensures
        r == v@.contains(f),
{
    let mut i: usize = 0;
    while i < v.len()
        invariant
            i <= v.len(),
            forall|k: int| 0 <= k < i ==> v@[k] != f,
        decreases v.len() - i,
    {
        if v[i] == f {
            return true;
        }
        i = i + 1;
    }
    false
}

} // verus!
