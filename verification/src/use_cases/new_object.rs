//! Creating a task or an event in the working layer.

use vstd::prelude::*;

use crate::domain::{
    BaseView, Categories, Date, Event, EventView, Object, ObjectView, Oid, Path, Task, TaskView, When,
    exclusive_violation, hex_of, new_event_view, new_task_view, texts,
};
use crate::errors::{Refusal, UseCaseError};
use crate::ports::{ObjectRepository, Randomness, StoreData, new_oid};
use crate::use_cases::edit::{add_label, label_order, labels_added, lemma_labels_added_keeps_order};

verus! {

/// What a new task starts with.
pub struct NewTask {
    pub subject: String,
    pub path: Path,
    pub priority: u8,
    pub due: Option<When>,
    pub deadline: Option<Date>,
    /// Its labels, a set: each is kept once, in order.
    pub labels: Vec<String>,
    pub body: String,
}

/// What a new event starts with.
pub struct NewEvent {
    pub subject: String,
    pub path: Path,
    pub start: When,
    pub end: When,
    /// Its labels, a set: each is kept once, in order.
    pub labels: Vec<String>,
    pub body: String,
}

/// The labels `v` as a set.
pub open spec fn label_set(v: Seq<String>) -> Seq<Seq<char>> {
    labels_added(Seq::empty(), texts(v))
}

/// A new object's labels are a set: in order, each once, and exactly the
/// labels it was given.
pub proof fn lemma_new_labels_are_a_set(v: Seq<String>)
    ensures
        label_order(label_set(v)),
        forall|x: Seq<char>| #[trigger] label_set(v).contains(x) <==> texts(v).contains(x),
{
    lemma_labels_added_keeps_order(Seq::empty(), texts(v));
}

/// The task `input` describes, under `oid`.
pub open spec fn new_task_of(oid: Seq<char>, input: NewTask) -> ObjectView {
    let t = new_task_view(oid, input.subject@);
    ObjectView::Task(
        TaskView {
            base: BaseView { path: input.path@, labels: label_set(input.labels@), body: input.body@, ..t.base },
            priority: input.priority,
            due: input.due,
            deadline: input.deadline,
            ..t
        },
    )
}

/// The event `input` describes, under `oid`.
pub open spec fn new_event_of(oid: Seq<char>, input: NewEvent) -> ObjectView {
    let e = new_event_view(oid, input.subject@, input.start, input.end);
    ObjectView::Event(
        EventView {
            base: BaseView { path: input.path@, labels: label_set(input.labels@), body: input.body@, ..e.base },
            ..e
        },
    )
}

/// A new task carries what it was given: its subject, path, body,
/// priority, due time and deadline are the input's, its labels are the
/// input's labels each once; it is open, never completed, with no
/// dependencies, no rule and no attached event, under the oid it was made
/// for.
pub proof fn lemma_new_task_carries_its_input(oid: Seq<char>, input: NewTask)
    ensures
        new_task_of(oid, input) is Task,
        new_task_of(oid, input)->Task_0.base.oid == oid,
        new_task_of(oid, input)->Task_0.base.subject == input.subject@,
        new_task_of(oid, input)->Task_0.base.path == input.path@,
        new_task_of(oid, input)->Task_0.base.body == input.body@,
        new_task_of(oid, input)->Task_0.priority == input.priority,
        new_task_of(oid, input)->Task_0.due == input.due,
        new_task_of(oid, input)->Task_0.deadline == input.deadline,
        forall|x: Seq<char>| #[trigger] new_task_of(oid, input)->Task_0.base.labels.contains(x) <==> texts(
            input.labels@,
        ).contains(x),
        !new_task_of(oid, input)->Task_0.done,
        new_task_of(oid, input)->Task_0.completed_at is None,
        new_task_of(oid, input)->Task_0.base.depends.len() == 0,
        new_task_of(oid, input)->Task_0.base.recurrence is None,
        new_task_of(oid, input)->Task_0.event is None,
{
    lemma_new_labels_are_a_set(input.labels@);
}

/// A new event carries what it was given: its subject, path, body, start
/// and end are the input's, its labels are the input's labels each once,
/// under the oid it was made for.
pub proof fn lemma_new_event_carries_its_input(oid: Seq<char>, input: NewEvent)
    ensures
        new_event_of(oid, input) is Event,
        new_event_of(oid, input)->Event_0.base.oid == oid,
        new_event_of(oid, input)->Event_0.base.subject == input.subject@,
        new_event_of(oid, input)->Event_0.base.path == input.path@,
        new_event_of(oid, input)->Event_0.base.body == input.body@,
        new_event_of(oid, input)->Event_0.start == input.start,
        new_event_of(oid, input)->Event_0.end == input.end,
        forall|x: Seq<char>| #[trigger] new_event_of(oid, input)->Event_0.base.labels.contains(x) <==> texts(
            input.labels@,
        ).contains(x),
        new_event_of(oid, input)->Event_0.base.depends.len() == 0,
{
    lemma_new_labels_are_a_set(input.labels@);
}

/// The labels of `v`, each once, in order.
fn normalize(v: &Vec<String>) -> (r: Vec<String>)
    ensures
        texts(r@) == label_set(v@),
{
    let mut out: Vec<String> = Vec::new();
    let mut i: usize = 0;
    assert(texts(out@) =~= Seq::<Seq<char>>::empty());
    while i < v.len()
        invariant
            i <= v.len(),
            texts(out@) == labels_added(Seq::empty(), texts(v@).take(i as int)),
        decreases v.len() - i,
    {
        proof {
            assert(texts(v@).take(i + 1).drop_last() =~= texts(v@).take(i as int));
        }
        add_label(&mut out, &v[i]);
        i = i + 1;
    }
    assert(texts(v@).take(v.len() as int) =~= texts(v@));
    out
}

/// Creates a task in the working layer under a fresh oid; its labels must
/// keep the categories.
pub fn new_task<S: ObjectRepository, R: Randomness>(
    store: &mut S,
    random: &mut R,
    categories: &Categories,
    input: NewTask,
) -> (r: Result<Oid, UseCaseError>)
    ensures
        final(store).model().unit == old(store).model().unit,
        r matches Ok(oid) ==> exclusive_violation(categories@, label_set(input.labels@)) is None
            && final(store).model() == old(store).model().with(
            StoreData {
                working: old(store).model().data.working.insert(oid@, new_task_of(oid@, input)),
                ..old(store).model().data
            },
        ),
        exclusive_violation(categories@, label_set(input.labels@)) is Some ==> r is Err,
        exclusive_violation(categories@, label_set(input.labels@)) is None && old(store).reliable() ==> r is Ok,
        r matches Ok(oid) ==> exists|bytes: Seq<u8>| bytes.len() == 20 && oid@ == #[trigger] hex_of(bytes),
        r matches Err(UseCaseError::Refused(Refusal::Labels(v))) ==> exclusive_violation(
            categories@,
            label_set(input.labels@),
        ) == Some((v@.category, v@.held)) && final(store).model() == old(store).model(),
        r matches Err(e) ==> e is Store || e matches UseCaseError::Refused(Refusal::Labels(_)),
{
    let labels = normalize(&input.labels);
    match categories.check(&labels) {
        Ok(()) => {},
        Err(v) => return Err(UseCaseError::Refused(Refusal::Labels(v))),
    }
    let oid = new_oid(random);
    let mut task = Task::new(oid.copy(), input.subject);
    task.base.path = input.path;
    task.base.labels = labels;
    task.base.body = input.body;
    task.priority = input.priority;
    task.due = input.due;
    task.deadline = input.deadline;
    match store.put(&Object::Task(task)) {
        Ok(()) => {},
        Err(e) => return Err(UseCaseError::Store(e)),
    }
    Ok(oid)
}

/// Creates an event in the working layer under a fresh oid; its labels
/// must keep the categories.
pub fn new_event<S: ObjectRepository, R: Randomness>(
    store: &mut S,
    random: &mut R,
    categories: &Categories,
    input: NewEvent,
) -> (r: Result<Oid, UseCaseError>)
    ensures
        final(store).model().unit == old(store).model().unit,
        r matches Ok(oid) ==> exclusive_violation(categories@, label_set(input.labels@)) is None
            && final(store).model() == old(store).model().with(
            StoreData {
                working: old(store).model().data.working.insert(oid@, new_event_of(oid@, input)),
                ..old(store).model().data
            },
        ),
        exclusive_violation(categories@, label_set(input.labels@)) is Some ==> r is Err,
        exclusive_violation(categories@, label_set(input.labels@)) is None && old(store).reliable() ==> r is Ok,
        r matches Ok(oid) ==> exists|bytes: Seq<u8>| bytes.len() == 20 && oid@ == #[trigger] hex_of(bytes),
        r matches Err(UseCaseError::Refused(Refusal::Labels(v))) ==> exclusive_violation(
            categories@,
            label_set(input.labels@),
        ) == Some((v@.category, v@.held)) && final(store).model() == old(store).model(),
        r matches Err(e) ==> e is Store || e matches UseCaseError::Refused(Refusal::Labels(_)),
{
    let labels = normalize(&input.labels);
    match categories.check(&labels) {
        Ok(()) => {},
        Err(v) => return Err(UseCaseError::Refused(Refusal::Labels(v))),
    }
    let oid = new_oid(random);
    let mut event = Event::new(oid.copy(), input.subject, input.start, input.end);
    event.base.path = input.path;
    event.base.labels = labels;
    event.base.body = input.body;
    match store.put(&Object::Event(event)) {
        Ok(()) => {},
        Err(e) => return Err(UseCaseError::Store(e)),
    }
    Ok(oid)
}

} // verus!
