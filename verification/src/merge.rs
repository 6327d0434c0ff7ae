//! Bringing a pulled object onto ours: the fields a remote declares come
//! from theirs, everything else stays ours.

use vstd::prelude::*;

use crate::domain::{
    Base, BaseView, Event, EventView, Field, Kind, Object, ObjectView, Task, TaskView, copy_ints,
    copy_oids, copy_opt_oid, copy_opt_text, copy_texts, field_differs, fields_contain,
};

verus! {

/// `t` where `fields` names `f`, else `o`.
pub open spec fn pick<T>(fields: Seq<Field>, f: Field, o: T, t: T) -> T {
    if fields.contains(f) {
        t
    } else {
        o
    }
}

/// The base fields `fields` names taken from `t`, the rest from `o`.
pub open spec fn merged_base(o: BaseView, t: BaseView, fields: Seq<Field>) -> BaseView {
    BaseView {
        oid: o.oid,
        subject: pick(fields, Field::Subject, o.subject, t.subject),
        body: pick(fields, Field::Body, o.body, t.body),
        path: pick(fields, Field::Path, o.path, t.path),
        labels: pick(fields, Field::Labels, o.labels, t.labels),
        depends: pick(fields, Field::Depends, o.depends, t.depends),
        reminders: pick(fields, Field::Reminders, o.reminders, t.reminders),
        recurrence: pick(fields, Field::Recurrence, o.recurrence, t.recurrence),
    }
}

/// `ours` with the fields `fields` names copied from `theirs`. Objects of two
/// different kinds do not merge: ours is kept entirely.
pub open spec fn merge_spec(ours: ObjectView, theirs: ObjectView, fields: Seq<Field>) -> ObjectView {
    match (ours, theirs) {
        (ObjectView::Task(o), ObjectView::Task(t)) => ObjectView::Task(
            TaskView {
                base: merged_base(o.base, t.base, fields),
                done: pick(fields, Field::Done, o.done, t.done),
                priority: pick(fields, Field::Priority, o.priority, t.priority),
                due: pick(fields, Field::Due, o.due, t.due),
                deadline: pick(fields, Field::Deadline, o.deadline, t.deadline),
                event: pick(fields, Field::Event, o.event, t.event),
                completed_at: o.completed_at,
            },
        ),
        (ObjectView::Event(o), ObjectView::Event(t)) => ObjectView::Event(
            EventView {
                base: merged_base(o.base, t.base, fields),
                start: pick(fields, Field::Start, o.start, t.start),
                end: pick(fields, Field::End, o.end, t.end),
                timezone: pick(fields, Field::Timezone, o.timezone, t.timezone),
                location: pick(fields, Field::Location, o.location, t.location),
                attendees: pick(fields, Field::Attendees, o.attendees, t.attendees),
                status: pick(fields, Field::Status, o.status, t.status),
                transparency: pick(fields, Field::Transparency, o.transparency, t.transparency),
                visibility: pick(fields, Field::Visibility, o.visibility, t.visibility),
                event_type: pick(fields, Field::EventType, o.event_type, t.event_type),
                color: pick(fields, Field::Color, o.color, t.color),
                organizer: pick(fields, Field::Organizer, o.organizer, t.organizer),
                conference: pick(fields, Field::Conference, o.conference, t.conference),
                attachments: pick(fields, Field::Attachments, o.attachments, t.attachments),
            },
        ),
        _ => ours,
    }
}

/// The two kinds, when a pulled object is not the kind we hold.
pub open spec fn kind_change_spec(ours: ObjectView, theirs: ObjectView) -> Option<(Kind, Kind)> {
    if ours.kind() != theirs.kind() {
        Some((ours.kind(), theirs.kind()))
    } else {
        None
    }
}

/// The two kinds when a pulled object is not the kind we hold, which is what
/// `merge_fields` refuses to merge.
pub fn kind_change(ours: &Object, theirs: &Object) -> (r: Option<(Kind, Kind)>)
    ensures
        r == kind_change_spec(ours@, theirs@),
{
    let (o, t) = (ours.kind(), theirs.kind());
    if o != t {
        Some((o, t))
    } else {
        None
    }
}

fn merge_base(o: &Base, t: &Base, fields: &Vec<Field>) -> (r: Base)
    ensures
        r@ == merged_base(o@, t@, fields@),
{
    Base {
        oid: o.oid.copy(),
        subject: if fields_contain(fields, Field::Subject) {
            t.subject.clone()
        } else {
            o.subject.clone()
        },
        body: if fields_contain(fields, Field::Body) {
            t.body.clone()
        } else {
            o.body.clone()
        },
        path: if fields_contain(fields, Field::Path) {
            t.path.copy()
        } else {
            o.path.copy()
        },
        labels: if fields_contain(fields, Field::Labels) {
            copy_texts(&t.labels)
        } else {
            copy_texts(&o.labels)
        },
        depends: if fields_contain(fields, Field::Depends) {
            copy_oids(&t.depends)
        } else {
            copy_oids(&o.depends)
        },
        reminders: if fields_contain(fields, Field::Reminders) {
            copy_ints(&t.reminders)
        } else {
            copy_ints(&o.reminders)
        },
        recurrence: if fields_contain(fields, Field::Recurrence) {
            copy_opt_text(&t.recurrence)
        } else {
            copy_opt_text(&o.recurrence)
        },
    }
}

fn merge_task(o: &Task, t: &Task, fields: &Vec<Field>) -> (r: Task)
    ensures
        ObjectView::Task(r@) == merge_spec(ObjectView::Task(o@), ObjectView::Task(t@), fields@),
{
    Task {
        base: merge_base(&o.base, &t.base, fields),
        done: if fields_contain(fields, Field::Done) {
            t.done
        } else {
            o.done
        },
        priority: if fields_contain(fields, Field::Priority) {
            t.priority
        } else {
            o.priority
        },
        due: if fields_contain(fields, Field::Due) {
            t.due
        } else {
            o.due
        },
        deadline: if fields_contain(fields, Field::Deadline) {
            t.deadline
        } else {
            o.deadline
        },
        event: if fields_contain(fields, Field::Event) {
            copy_opt_oid(&t.event)
        } else {
            copy_opt_oid(&o.event)
        },
        completed_at: o.completed_at,
    }
}

fn merge_event(o: &Event, t: &Event, fields: &Vec<Field>) -> (r: Event)
    ensures
        ObjectView::Event(r@) == merge_spec(ObjectView::Event(o@), ObjectView::Event(t@), fields@),
{
    Event {
        base: merge_base(&o.base, &t.base, fields),
        start: if fields_contain(fields, Field::Start) {
            t.start
        } else {
            o.start
        },
        end: if fields_contain(fields, Field::End) {
            t.end
        } else {
            o.end
        },
        timezone: if fields_contain(fields, Field::Timezone) {
            copy_opt_text(&t.timezone)
        } else {
            copy_opt_text(&o.timezone)
        },
        location: if fields_contain(fields, Field::Location) {
            copy_opt_text(&t.location)
        } else {
            copy_opt_text(&o.location)
        },
        attendees: if fields_contain(fields, Field::Attendees) {
            copy_texts(&t.attendees)
        } else {
            copy_texts(&o.attendees)
        },
        status: if fields_contain(fields, Field::Status) {
            t.status
        } else {
            o.status
        },
        transparency: if fields_contain(fields, Field::Transparency) {
            t.transparency
        } else {
            o.transparency
        },
        visibility: if fields_contain(fields, Field::Visibility) {
            t.visibility
        } else {
            o.visibility
        },
        event_type: if fields_contain(fields, Field::EventType) {
            t.event_type
        } else {
            o.event_type
        },
        color: if fields_contain(fields, Field::Color) {
            copy_opt_text(&t.color)
        } else {
            copy_opt_text(&o.color)
        },
        organizer: if fields_contain(fields, Field::Organizer) {
            copy_opt_text(&t.organizer)
        } else {
            copy_opt_text(&o.organizer)
        },
        conference: if fields_contain(fields, Field::Conference) {
            copy_opt_text(&t.conference)
        } else {
            copy_opt_text(&o.conference)
        },
        attachments: if fields_contain(fields, Field::Attachments) {
            copy_texts(&t.attachments)
        } else {
            copy_texts(&o.attachments)
        },
    }
}

/// Copies the named fields from `theirs` onto a copy of `ours`. Anything not
/// named, which includes every dam-only field, keeps ours; so does the whole
/// object when the kinds differ.
pub fn merge_fields(ours: &Object, theirs: &Object, fields: &Vec<Field>) -> (r: Object)
    ensures
        r@ == merge_spec(ours@, theirs@, fields@),
{
    match (ours, theirs) {
        (Object::Task(o), Object::Task(t)) => Object::Task(merge_task(o, t, fields)),
        (Object::Event(o), Object::Event(t)) => Object::Event(merge_event(o, t, fields)),
        _ => ours.copy(),
    }
}

/// A merge takes each field it names from theirs and every other field from
/// ours, and keeps our oid: for objects of one kind, no field of the result
/// differs from theirs when named, nor from ours when not.
pub proof fn lemma_merge_takes_only_named_fields(ours: ObjectView, theirs: ObjectView, fields: Seq<Field>, f: Field)
    requires
        ours.kind() == theirs.kind(),
    ensures
        merge_spec(ours, theirs, fields).oid() == ours.oid(),
        fields.contains(f) ==> !field_differs(merge_spec(ours, theirs, fields), theirs, f),
        !fields.contains(f) ==> !field_differs(merge_spec(ours, theirs, fields), ours, f),
{
}

/// Merging objects of different kinds keeps ours entirely, and that is
/// exactly when a kind change is reported.
pub proof fn lemma_kind_mismatch_keeps_ours(ours: ObjectView, theirs: ObjectView, fields: Seq<Field>)
    ensures
        ours.kind() != theirs.kind() ==> merge_spec(ours, theirs, fields) == ours,
        kind_change_spec(ours, theirs) is Some <==> ours.kind() != theirs.kind(),
{
}

/// Merging one field moves that field alone: the result differs from ours
/// in that field when theirs does, and in no other.
pub proof fn lemma_one_field_moves_alone(ours: ObjectView, theirs: ObjectView, f: Field, g: Field)
    requires
        ours.kind() == theirs.kind(),
    ensures
        field_differs(ours, merge_spec(ours, theirs, seq![f]), g) <==> (g == f && field_differs(ours, theirs, f)),
{
    let s = seq![f];
    assert(s.contains(f)) by {
        assert(s[0] == f);
    }
    assert(g != f ==> !s.contains(g));
}

/// Merging no field changes nothing.
pub proof fn lemma_merge_nothing_is_ours(ours: ObjectView, theirs: ObjectView)
    ensures
        merge_spec(ours, theirs, Seq::empty()) == ours,
{
    assert(forall|f: Field| !Seq::<Field>::empty().contains(f));
    match (ours, theirs) {
        (ObjectView::Task(o), ObjectView::Task(t)) => {
            assert(merged_base(o.base, t.base, Seq::empty()) == o.base);
        },
        (ObjectView::Event(o), ObjectView::Event(t)) => {
            assert(merged_base(o.base, t.base, Seq::empty()) == o.base);
        },
        _ => {},
    }
}

} // verus!
