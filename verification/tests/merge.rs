use dam_application::domain::{
    changed_fields, Date, Event, EventStatus, EventType, Field, Kind, Object, Path, Task,
    Transparency, Visibility, When, PRIORITY_HIGHEST, PRIORITY_LOWEST,
};
use dam_application::merge::{kind_change, merge_fields};
use dam_application::Oid;

fn oid(byte: u8) -> Oid {
    Oid::from_bytes(&vec![byte; 20])
}

fn date(year: i16, month: u8, day: u8) -> Date {
    Date { year, month, day }
}

#[test]
fn only_named_fields_come_from_theirs() {
    let mut ours = Task::new(oid(1), "ours".to_string());
    ours.priority = PRIORITY_HIGHEST;
    ours.base.depends.push(oid(9));
    let mut theirs = Task::new(oid(1), "theirs".to_string());
    theirs.priority = PRIORITY_LOWEST;
    let out = merge_fields(&Object::Task(ours), &Object::Task(theirs), &vec![Field::Subject]);
    let t = out.as_task().unwrap();
    assert_eq!(t.base.subject, "theirs");
    assert_eq!(t.priority, PRIORITY_HIGHEST);
    assert_eq!(t.base.depends, vec![oid(9)]);
}

#[test]
fn a_kind_mismatch_keeps_ours_entirely_and_is_reported() {
    let ours = Object::Task(Task::new(oid(1), "ours".to_string()));
    let theirs = Object::Event(Event::new(
        oid(1),
        "e".to_string(),
        When::Day(date(2026, 1, 1)),
        When::Day(date(2026, 1, 2)),
    ));
    assert_eq!(merge_fields(&ours, &theirs, &vec![Field::Subject]), ours);
    assert_eq!(kind_change(&ours, &theirs), Some((Kind::Task, Kind::Event)));
    assert_eq!(kind_change(&ours, &ours), None);
}

/// A task with every mergeable field set apart from its `"a"` counterpart.
fn task_variant(tag: &str) -> Task {
    let n: u8 = if tag == "a" { 1 } else { 2 };
    let mut t = Task::new(oid(1), format!("subject-{tag}"));
    t.base.body = format!("body-{tag}");
    t.base.path = Path::parse(&format!("area-{tag}")).unwrap();
    t.base.labels = vec![format!("label-{tag}")];
    t.base.depends = vec![oid(90 + n)];
    t.base.reminders = vec![n as i64];
    t.base.recurrence = Some(format!("every {n} days"));
    t.priority = if tag == "a" { PRIORITY_HIGHEST } else { PRIORITY_LOWEST };
    t.done = tag != "a";
    t.due = Some(When::Day(date(2026, 1, n)));
    t.deadline = Some(date(2026, 2, n));
    t.event = Some(oid(92 + n));
    t
}

/// An event with every mergeable field set apart from its `"a"` counterpart.
fn event_variant(tag: &str) -> Event {
    let n: u8 = if tag == "a" { 1 } else { 2 };
    let mut e = Event::new(
        oid(1),
        format!("subject-{tag}"),
        When::Day(date(2026, 1, n)),
        When::Day(date(2026, 1, n + 1)),
    );
    e.base.body = format!("body-{tag}");
    e.base.path = Path::parse(&format!("area-{tag}")).unwrap();
    e.base.labels = vec![format!("label-{tag}")];
    e.base.depends = vec![oid(90 + n)];
    e.base.reminders = vec![n as i64];
    e.base.recurrence = Some(format!("every {n} days"));
    e.timezone = Some(format!("Zone/{tag}"));
    e.location = Some(format!("Room {tag}"));
    e.attendees = vec![format!("{tag}@example.com")];
    e.status = if tag == "a" { EventStatus::Confirmed } else { EventStatus::Tentative };
    e.transparency = if tag == "a" { Transparency::Busy } else { Transparency::Free };
    e.visibility = if tag == "a" { Visibility::Default } else { Visibility::Private };
    e.event_type = if tag == "a" { EventType::Default } else { EventType::FocusTime };
    e.color = Some(format!("color-{tag}"));
    e.organizer = Some(format!("org-{tag}@example.com"));
    e.conference = Some(format!("url-{tag}"));
    e.attachments = vec![format!("att-{tag}")];
    e
}

#[test]
fn every_task_field_moves_alone_and_nothing_else_does() {
    let ours = Object::Task(task_variant("a"));
    let theirs = Object::Task(task_variant("b"));
    let fields = changed_fields(&ours, &theirs);
    assert_eq!(fields.len(), 12, "expected every task field to differ: {fields:?}");
    for f in &fields {
        let merged = merge_fields(&ours, &theirs, &vec![*f]);
        assert_eq!(changed_fields(&ours, &merged), vec![*f], "field {f:?}");
    }
}

#[test]
fn every_event_field_moves_alone_and_nothing_else_does() {
    let ours = Object::Event(event_variant("a"));
    let theirs = Object::Event(event_variant("b"));
    let fields = changed_fields(&ours, &theirs);
    assert_eq!(fields.len(), 20, "expected every event field to differ: {fields:?}");
    for f in &fields {
        let merged = merge_fields(&ours, &theirs, &vec![*f]);
        assert_eq!(changed_fields(&ours, &merged), vec![*f], "field {f:?}");
    }
}

#[test]
fn merging_no_field_gives_ours_back() {
    let ours = Object::Task(task_variant("a"));
    let theirs = Object::Task(task_variant("b"));
    assert_eq!(merge_fields(&ours, &theirs, &vec![]), ours);
}

#[test]
fn merging_every_changed_field_gives_theirs() {
    let ours = Object::Event(event_variant("a"));
    let theirs = Object::Event(event_variant("b"));
    let fields = changed_fields(&ours, &theirs);
    assert_eq!(merge_fields(&ours, &theirs, &fields), theirs);
}
