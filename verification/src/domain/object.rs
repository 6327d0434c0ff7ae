//! Tasks and events, the two kinds of object dam keeps, with the fields the
//! application reads, copies and compares.

use vstd::prelude::*;

use super::ids::Oid;
use super::path::Path;
use super::values::{
    copy_ints, copy_oids, copy_opt_oid, copy_opt_text, copy_texts, ints_eq, oid_texts, oids_eq,
    opt_oid_eq, opt_oid_text, opt_text, opt_text_eq, texts, texts_eq,
};

verus! {

/// Which of the two kinds an object is.
#[derive(Clone, Copy, Debug, PartialEq, Eq, Structural)]
pub enum Kind {
    Task,
    Event,
}

/// One field of an object, as a remote declares what it accepts and as a
/// change names what it touches. The first seven belong to every object,
/// the next five to tasks and the last thirteen to events.
#[derive(Clone, Copy, Debug, PartialEq, Eq, Structural)]
pub enum Field {
    Subject,
    Body,
    Path,
    Labels,
    Depends,
    Reminders,
    Recurrence,
    Done,
    Priority,
    Due,
    Deadline,
    Event,
    Start,
    End,
    Timezone,
    Location,
    Attendees,
    Status,
    Transparency,
    Visibility,
    EventType,
    Color,
    Organizer,
    Conference,
    Attachments,
}

/// A calendar day.
#[derive(Clone, Copy, Debug, PartialEq, Eq, Structural)]
pub struct Date {
    pub year: i16,
    pub month: u8,
    pub day: u8,
}

/// An instant: the second since the Unix epoch that it falls in, and the
/// nanoseconds after the start of that second, below one billion.
#[derive(Clone, Copy, Debug, PartialEq, Eq, Structural)]
pub struct Timestamp {
    pub seconds: i64,
    pub nanos: u32,
}

/// Whether the instant `a` comes before `b`.
pub open spec fn earlier(a: Timestamp, b: Timestamp) -> bool {
    a.seconds < b.seconds || (a.seconds == b.seconds && a.nanos < b.nanos)
}

/// Whether the instant `a` comes before `b`.
pub fn is_earlier(a: Timestamp, b: Timestamp) -> (r: bool)
    ensures
        r == earlier(a, b),
{
    a.seconds < b.seconds || (a.seconds == b.seconds && a.nanos < b.nanos)
}

/// When something is due or happens: a whole day, or an instant.
#[derive(Clone, Copy, Debug, PartialEq, Eq, Structural)]
pub enum When {
    Day(Date),
    At(Timestamp),
}

#[derive(Clone, Copy, Debug, PartialEq, Eq, Structural)]
pub enum EventStatus {
    Confirmed,
    Tentative,
    Cancelled,
}

#[derive(Clone, Copy, Debug, PartialEq, Eq, Structural)]
pub enum Transparency {
    Busy,
    Free,
}

#[derive(Clone, Copy, Debug, PartialEq, Eq, Structural)]
pub enum Visibility {
    Default,
    Public,
    Private,
    Confidential,
}

#[derive(Clone, Copy, Debug, PartialEq, Eq, Structural)]
pub enum EventType {
    Default,
    FocusTime,
    OutOfOffice,
    WorkingLocation,
}

/// The highest priority a task can carry.
pub const PRIORITY_HIGHEST: u8 = 1;

/// The lowest priority, which is also what a new task carries.
pub const PRIORITY_LOWEST: u8 = 4;

/// What every object carries, whatever its kind.
#[derive(Debug, PartialEq, Eq)]
pub struct Base {
    pub oid: Oid,
    pub subject: String,
    pub body: String,
    pub path: Path,
    pub labels: Vec<String>,
    pub depends: Vec<Oid>,
    /// Minutes before the object that each reminder fires.
    pub reminders: Vec<i64>,
    pub recurrence: Option<String>,
}

#[derive(Debug, PartialEq, Eq)]
pub struct Task {
    pub base: Base,
    pub done: bool,
    /// 1 is the highest, 4 the lowest.
    pub priority: u8,
    pub due: Option<When>,
    pub deadline: Option<Date>,
    /// The event the task is tied to, if any.
    pub event: Option<Oid>,
    /// When the task was completed; dam's own record, never a remote's.
    pub completed_at: Option<Timestamp>,
}

#[derive(Debug, PartialEq, Eq)]
pub struct Event {
    pub base: Base,
    pub start: When,
    pub end: When,
    pub timezone: Option<String>,
    pub location: Option<String>,
    pub attendees: Vec<String>,
    pub status: EventStatus,
    pub transparency: Transparency,
    pub visibility: Visibility,
    pub event_type: EventType,
    pub color: Option<String>,
    pub organizer: Option<String>,
    pub conference: Option<String>,
    pub attachments: Vec<String>,
}

#[derive(Debug)]
pub enum Object {
    Task(Task),
    Event(Event),
}

/// What a `Base` holds, as text.
pub struct BaseView {
    pub oid: Seq<char>,
    pub subject: Seq<char>,
    pub body: Seq<char>,
    pub path: Seq<char>,
    pub labels: Seq<Seq<char>>,
    pub depends: Seq<Seq<char>>,
    pub reminders: Seq<i64>,
    pub recurrence: Option<Seq<char>>,
}

pub struct TaskView {
    pub base: BaseView,
    pub done: bool,
    pub priority: u8,
    pub due: Option<When>,
    pub deadline: Option<Date>,
    pub event: Option<Seq<char>>,
    pub completed_at: Option<Timestamp>,
}

pub struct EventView {
    pub base: BaseView,
    pub start: When,
    pub end: When,
    pub timezone: Option<Seq<char>>,
    pub location: Option<Seq<char>>,
    pub attendees: Seq<Seq<char>>,
    pub status: EventStatus,
    pub transparency: Transparency,
    pub visibility: Visibility,
    pub event_type: EventType,
    pub color: Option<Seq<char>>,
    pub organizer: Option<Seq<char>>,
    pub conference: Option<Seq<char>>,
    pub attachments: Seq<Seq<char>>,
}

pub enum ObjectView {
    Task(TaskView),
    Event(EventView),
}

impl View for Base {
    type V = BaseView;

    open spec fn view(&self) -> BaseView {
        BaseView {
            oid: self.oid@,
            subject: self.subject@,
            body: self.body@,
            path: self.path@,
            labels: texts(self.labels@),
            depends: oid_texts(self.depends@),
            reminders: self.reminders@,
            recurrence: opt_text(self.recurrence),
        }
    }
}

impl View for Task {
    type V = TaskView;

    open spec fn view(&self) -> TaskView {
        TaskView {
            base: self.base@,
            done: self.done,
            priority: self.priority,
            due: self.due,
            deadline: self.deadline,
            event: opt_oid_text(self.event),
            completed_at: self.completed_at,
        }
    }
}

impl View for Event {
    type V = EventView;

    open spec fn view(&self) -> EventView {
        EventView {
            base: self.base@,
            start: self.start,
            end: self.end,
            timezone: opt_text(self.timezone),
            location: opt_text(self.location),
            attendees: texts(self.attendees@),
            status: self.status,
            transparency: self.transparency,
            visibility: self.visibility,
            event_type: self.event_type,
            color: opt_text(self.color),
            organizer: opt_text(self.organizer),
            conference: opt_text(self.conference),
            attachments: texts(self.attachments@),
        }
    }
}

impl View for Object {
    type V = ObjectView;

    open spec fn view(&self) -> ObjectView {
        match self {
            Object::Task(t) => ObjectView::Task(t@),
            Object::Event(e) => ObjectView::Event(e@),
        }
    }
}

impl ObjectView {
    pub open spec fn base(self) -> BaseView {
        match self {
            ObjectView::Task(t) => t.base,
            ObjectView::Event(e) => e.base,
        }
    }

    pub open spec fn oid(self) -> Seq<char> {
        self.base().oid
    }

    pub open spec fn kind(self) -> Kind {
        match self {
            ObjectView::Task(_) => Kind::Task,
            ObjectView::Event(_) => Kind::Event,
        }
    }

    /// The same object with its base replaced.
    pub open spec fn with_base(self, base: BaseView) -> ObjectView {
        match self {
            ObjectView::Task(t) => ObjectView::Task(TaskView { base, ..t }),
            ObjectView::Event(e) => ObjectView::Event(EventView { base, ..e }),
        }
    }

    /// Whether this is a task that is not done.
    pub open spec fn is_open_task(self) -> bool {
        self matches ObjectView::Task(t) && !t.done
    }
}

/// The text of an optional object.
pub open spec fn opt_object(o: Option<Object>) -> Option<ObjectView> {
    match o {
        Some(x) => Some(x@),
        None => None,
    }
}

/// What `Task::new` makes: a top-level open task with only its subject set.
pub open spec fn new_task_view(oid: Seq<char>, subject: Seq<char>) -> TaskView {
    TaskView {
        base: BaseView {
            oid,
            subject,
            body: Seq::empty(),
            path: Seq::empty(),
            labels: Seq::empty(),
            depends: Seq::empty(),
            reminders: Seq::empty(),
            recurrence: None,
        },
        done: false,
        priority: PRIORITY_LOWEST,
        due: None,
        deadline: None,
        event: None,
        completed_at: None,
    }
}

/// What `Event::new` makes: a confirmed, busy event with only its subject
/// and times set.
pub open spec fn new_event_view(oid: Seq<char>, subject: Seq<char>, start: When, end: When) -> EventView {
    EventView {
        base: BaseView {
            oid,
            subject,
            body: Seq::empty(),
            path: Seq::empty(),
            labels: Seq::empty(),
            depends: Seq::empty(),
            reminders: Seq::empty(),
            recurrence: None,
        },
        start,
        end,
        timezone: None,
        location: None,
        attendees: Seq::empty(),
        status: EventStatus::Confirmed,
        transparency: Transparency::Busy,
        visibility: Visibility::Default,
        event_type: EventType::Default,
        color: None,
        organizer: None,
        conference: None,
        attachments: Seq::empty(),
    }
}

fn empty_base(oid: Oid, subject: String) -> (b: Base)
    ensures
        b@ == new_task_view(oid@, subject@).base,
{
    let b = Base {
        oid,
        subject,
        body: String::new(),
        path: Path::root(),
        labels: Vec::new(),
        depends: Vec::new(),
        reminders: Vec::new(),
        recurrence: None,
    };
    assert(b@.labels =~= Seq::<Seq<char>>::empty());
    assert(b@.depends =~= Seq::<Seq<char>>::empty());
    b
}

impl Base {
    pub fn copy(&self) -> (r: Base)
        ensures
            r@ == self@,
    {
        Base {
            oid: self.oid.copy(),
            subject: self.subject.clone(),
            body: self.body.clone(),
            path: self.path.copy(),
            labels: copy_texts(&self.labels),
            depends: copy_oids(&self.depends),
            reminders: copy_ints(&self.reminders),
            recurrence: copy_opt_text(&self.recurrence),
        }
    }

    pub fn same(&self, other: &Base) -> (r: bool)
        ensures
            r == (self@ == other@),
    {
        self.oid.same(&other.oid) && self.subject == other.subject && self.body == other.body
            && self.path.same(&other.path) && texts_eq(&self.labels, &other.labels)
            && oids_eq(&self.depends, &other.depends) && ints_eq(
            &self.reminders,
            &other.reminders,
        ) && opt_text_eq(&self.recurrence, &other.recurrence)
    }
}

impl Task {
    /// A top-level open task with only its subject set.
    pub fn new(oid: Oid, subject: String) -> (t: Task)
        ensures
            t@ == new_task_view(oid@, subject@),
    {
        Task {
            base: empty_base(oid, subject),
            done: false,
            priority: PRIORITY_LOWEST,
            due: None,
            deadline: None,
            event: None,
            completed_at: None,
        }
    }

    pub fn copy(&self) -> (r: Task)
        ensures
            r@ == self@,
    {
        Task {
            base: self.base.copy(),
            done: self.done,
            priority: self.priority,
            due: self.due,
            deadline: self.deadline,
            event: copy_opt_oid(&self.event),
            completed_at: self.completed_at,
        }
    }

    pub fn same(&self, other: &Task) -> (r: bool)
        ensures
            r == (self@ == other@),
    {
        self.base.same(&other.base) && self.done == other.done && self.priority == other.priority
            && self.due == other.due && self.deadline == other.deadline && opt_oid_eq(
            &self.event,
            &other.event,
        ) && self.completed_at == other.completed_at
    }
}

impl Event {
    /// A confirmed, busy event with only its subject and times set.
    pub fn new(oid: Oid, subject: String, start: When, end: When) -> (e: Event)
        ensures
            e@ == new_event_view(oid@, subject@, start, end),
    {
        let e = Event {
            base: empty_base(oid, subject),
            start,
            end,
            timezone: None,
            location: None,
            attendees: Vec::new(),
            status: EventStatus::Confirmed,
            transparency: Transparency::Busy,
            visibility: Visibility::Default,
            event_type: EventType::Default,
            color: None,
            organizer: None,
            conference: None,
            attachments: Vec::new(),
        };
        assert(e@.attendees =~= Seq::<Seq<char>>::empty());
        assert(e@.attachments =~= Seq::<Seq<char>>::empty());
        e
    }

    pub fn copy(&self) -> (r: Event)
        ensures
            r@ == self@,
    {
        Event {
            base: self.base.copy(),
            start: self.start,
            end: self.end,
            timezone: copy_opt_text(&self.timezone),
            location: copy_opt_text(&self.location),
            attendees: copy_texts(&self.attendees),
            status: self.status,
            transparency: self.transparency,
            visibility: self.visibility,
            event_type: self.event_type,
            color: copy_opt_text(&self.color),
            organizer: copy_opt_text(&self.organizer),
            conference: copy_opt_text(&self.conference),
            attachments: copy_texts(&self.attachments),
        }
    }

    pub fn same(&self, other: &Event) -> (r: bool)
        ensures
            r == (self@ == other@),
    {
        self.base.same(&other.base) && self.start == other.start && self.end == other.end
            && opt_text_eq(&self.timezone, &other.timezone) && opt_text_eq(
            &self.location,
            &other.location,
        ) && texts_eq(&self.attendees, &other.attendees) && self.status == other.status
            && self.transparency == other.transparency && self.visibility == other.visibility
            && self.event_type == other.event_type && opt_text_eq(&self.color, &other.color)
            && opt_text_eq(&self.organizer, &other.organizer) && opt_text_eq(
            &self.conference,
            &other.conference,
        ) && texts_eq(&self.attachments, &other.attachments)
    }
}

impl Object {
    pub fn base(&self) -> (b: &Base)
        ensures
            b@ == self@.base(),
    {
        match self {
            Object::Task(t) => &t.base,
            Object::Event(e) => &e.base,
        }
    }

    pub fn base_mut(&mut self) -> (b: &mut Base)
        ensures
            b@ == old(self)@.base(),
            final(self)@ == old(self)@.with_base(final(b)@),
    {
        match self {
            Object::Task(t) => &mut t.base,
            Object::Event(e) => &mut e.base,
        }
    }

    pub fn oid(&self) -> (o: &Oid)
        ensures
            o@ == self@.oid(),
    {
        &self.base().oid
    }

    pub fn kind(&self) -> (k: Kind)
        ensures
            k == self@.kind(),
    {
        match self {
            Object::Task(_) => Kind::Task,
            Object::Event(_) => Kind::Event,
        }
    }

    pub fn as_task(&self) -> (t: Option<&Task>)
        ensures
            t matches Some(t) ==> self@ == ObjectView::Task(t@),
            t is None <==> self@ is Event,
    {
        match self {
            Object::Task(t) => Some(t),
            Object::Event(_) => None,
        }
    }

    pub fn copy(&self) -> (r: Object)
        ensures
            r@ == self@,
    {
        match self {
            Object::Task(t) => Object::Task(t.copy()),
            Object::Event(e) => Object::Event(e.copy()),
        }
    }

    /// Whether two objects hold the same values.
    pub fn same(&self, other: &Object) -> (r: bool)
        ensures
            r == (self@ == other@),
    {
        match (self, other) {
            (Object::Task(a), Object::Task(b)) => a.same(b),
            (Object::Event(a), Object::Event(b)) => a.same(b),
            _ => false,
        }
    }
}

/// Whether two optional objects hold the same values.
pub fn same_opt(a: &Option<Object>, b: &Option<Object>) -> (r: bool)
    ensures
        r == (opt_object(*a) == opt_object(*b)),
{
    match (a, b) {
        (Some(x), Some(y)) => x.same(y),
        (None, None) => true,
        _ => false,
    }
}

pub fn copy_opt(o: &Option<Object>) -> (r: Option<Object>)
    ensures
        opt_object(r) == opt_object(*o),
{
    match o {
        Some(x) => Some(x.copy()),
        None => None,
    }
}

impl Clone for Object {
    fn clone(&self) -> (r: Object)
        ensures
            r@ == self@,
    {
        self.copy()
    }
}

impl PartialEq for Object {
    fn eq(&self, other: &Object) -> (r: bool) {
        self.same(other)
    }
}

impl vstd::std_specs::cmp::PartialEqSpecImpl for Object {
    open spec fn obeys_eq_spec() -> bool {
        true
    }

    open spec fn eq_spec(&self, other: &Object) -> bool {
        self@ == other@
    }
}

impl Eq for Object {
}

} // verus!
