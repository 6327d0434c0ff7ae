use std::collections::BTreeMap;

use dam_application::config::{Config, FilterConfig};
use dam_application::domain::{
    Categories, Category, Date, Event, EventStatus, Object, ObjectView, Path, Task, Timestamp, Transparency,
    When, PRIORITY_HIGHEST,
};
use dam_application::errors::{Refusal, UseCaseError};
use dam_application::ports::{
    Clock, Modeled, ObjectRepository, QueryLanguage, StoreError, StoreModel, Text, Texts,
};
use jiff::tz::TimeZone;
use dam_application::use_cases::agenda::{agenda, Scheduled, Window};
use dam_application::use_cases::list::{
    check_categories, day_number_of, day_of_seconds, in_order, list, listed_first, query_text,
};
use dam_application::Oid;

/// The working layer alone, which is all a listing reads.
struct Shelf(BTreeMap<String, Object>);

impl Shelf {
    fn new() -> Shelf {
        Shelf(BTreeMap::new())
    }
}

impl Modeled for Shelf {
    fn model(&self) -> StoreModel {
        panic!("the model is read in proofs only")
    }
    fn lemma_model_wf(&self) {}
    fn reliable(&self) -> bool {
        panic!("reliability is read in proofs only")
    }
}

impl ObjectRepository for Shelf {
    fn get(&self, oid: &Oid) -> Result<Option<Object>, StoreError> {
        Ok(self.0.get(oid.as_str()).cloned())
    }
    fn all(&self) -> Result<Vec<Object>, StoreError> {
        Ok(self.0.values().cloned().collect())
    }
    fn children_of(&self, path: &Path) -> Result<Vec<Object>, StoreError> {
        Ok(self.0.values().filter(|o| o.base().path.parent().as_ref() == Some(path)).cloned().collect())
    }
    fn dependents_of(&self, oid: &Oid) -> Result<Vec<Oid>, StoreError> {
        Ok(self.0.values().filter(|o| o.base().depends.contains(oid)).map(|o| o.oid().clone()).collect())
    }
    fn put(&mut self, object: &Object) -> Result<(), StoreError> {
        self.0.insert(object.oid().as_str().to_string(), object.clone());
        Ok(())
    }
    fn delete(&mut self, oid: &Oid) -> Result<(), StoreError> {
        self.0.remove(oid.as_str());
        Ok(())
    }
    fn committed(&self, _oid: &Oid) -> Result<Option<Object>, StoreError> {
        Ok(None)
    }
}

fn oid(byte: u8) -> Oid {
    Oid::from_bytes(&vec![byte; 20])
}

fn date(year: i16, month: u8, day: u8) -> Date {
    Date { year, month, day }
}

struct FixedClock(Date);

impl Clock for FixedClock {
    fn today(&self) -> Date {
        self.0
    }
    fn now(&self) -> Timestamp {
        Timestamp { seconds: day_number_of(self.0) * 86_400, nanos: 0 }
    }
}

/// A small query language: terms joined by `|`, any of which admits.
struct Terms;

enum Term {
    DueToday,
    Overdue,
    Under(String),
    Label(String, String),
}

fn key(d: Date) -> (i16, u8, u8) {
    (d.year, d.month, d.day)
}

fn due_day(o: &Object) -> Option<Date> {
    match o {
        Object::Task(t) => match t.due {
            Some(When::Day(d)) => Some(d),
            _ => None,
        },
        Object::Event(_) => None,
    }
}

impl QueryLanguage for Terms {
    type Query = Vec<Term>;

    fn reads_as(&self, _text: Text) -> Result<Vec<Term>, Text> {
        unreachable!("what a query reads as is stated in proofs only")
    }

    fn names_in(&self, _query: Vec<Term>) -> Texts {
        unreachable!("the names a query holds are stated in proofs only")
    }

    fn meets(&self, _query: Vec<Term>, _object: ObjectView, _today: Date) -> bool {
        unreachable!("what a query admits is stated in proofs only")
    }

    fn parse(&self, text: &str) -> Result<Vec<Term>, String> {
        if text.contains('(') || text.contains(')') {
            return Err(format!("cannot read {text:?}"));
        }
        text.split('|')
            .map(|t| t.trim())
            .map(|t| match t {
                "due:today" => Ok(Term::DueToday),
                "overdue" => Ok(Term::Overdue),
                _ => match t.split_once(':') {
                    Some(("path", p)) => Ok(Term::Under(p.to_string())),
                    Some((name, value)) => Ok(Term::Label(name.to_string(), value.to_string())),
                    None => Err(format!("cannot read {t:?}")),
                },
            })
            .collect()
    }

    fn categories(&self, query: &Vec<Term>) -> Vec<String> {
        query
            .iter()
            .filter_map(|t| match t {
                Term::Label(name, _) => Some(name.clone()),
                _ => None,
            })
            .collect()
    }

    fn admits(&self, query: &Vec<Term>, object: &Object, today: Date) -> bool {
        query.iter().any(|t| match t {
            Term::DueToday => due_day(object) == Some(today),
            Term::Overdue => due_day(object).map(|d| key(d) < key(today)).unwrap_or(false),
            Term::Under(p) => object.base().path.as_str().starts_with(p.as_str()),
            Term::Label(_, value) => object.base().labels.contains(value),
        })
    }
}

fn seed(store: &mut Shelf) {
    let mut a = Task::new(oid(1), "a".to_string());
    a.due = Some(When::Day(date(2026, 9, 18)));
    a.base.labels.push("deep".to_string());
    let mut b = Task::new(oid(2), "b".to_string());
    b.due = Some(When::Day(date(2026, 9, 10)));
    b.priority = PRIORITY_HIGHEST;
    let mut c = Task::new(oid(3), "c".to_string());
    c.base.path = Path::parse("later").unwrap();
    for t in [a, b, c] {
        store.put(&Object::Task(t)).unwrap();
    }
}

fn config() -> Config {
    let mut c = Config::empty();
    c.categories = Categories::new(vec![Category {
        name: "effort".to_string(),
        values: vec!["deep".to_string()],
        exclusive: true,
    }])
    .unwrap();
    c.filters.push(FilterConfig { name: "today".to_string(), query: "due:today | overdue".to_string() });
    c
}

fn subjects(out: &[Object]) -> Vec<&str> {
    out.iter().map(|o| o.base().subject.as_str()).collect()
}

fn listed(store: &Shelf, query: Option<&str>) -> Result<Vec<Object>, UseCaseError> {
    list(store, &FixedClock(date(2026, 9, 18)), &config(), &Terms, query)
}

#[test]
fn no_query_lists_everything_ordered() {
    let mut store = Shelf::new();
    seed(&mut store);
    let out = listed(&store, None).unwrap();
    // root path first (b due 9/10 before a due 9/18), then later/
    assert_eq!(subjects(&out), vec!["b", "a", "c"]);
}

#[test]
fn a_saved_filter_runs_by_name() {
    let mut store = Shelf::new();
    seed(&mut store);
    assert_eq!(listed(&store, Some("today")).unwrap().len(), 2);
}

#[test]
fn a_category_term_checks_the_category_exists() {
    let mut store = Shelf::new();
    seed(&mut store);
    assert_eq!(listed(&store, Some("effort:deep")).unwrap().len(), 1);
    let err = listed(&store, Some("mood:happy")).unwrap_err();
    assert_eq!(err, UseCaseError::Refused(Refusal::UnknownCategory("mood".to_string())));
}

#[test]
fn a_bad_query_is_a_parse_error() {
    let store = Shelf::new();
    let err = listed(&store, Some("(due:today")).unwrap_err();
    assert!(matches!(err, UseCaseError::Parse(_)));
}

#[test]
fn a_filter_name_stands_for_its_query_and_any_other_text_for_itself() {
    let c = config();
    assert_eq!(query_text(&c, "today"), "due:today | overdue");
    assert_eq!(query_text(&c, "overdue"), "overdue");
}

#[test]
fn the_first_undeclared_category_is_the_one_refused() {
    let cats = config().categories;
    let names = vec!["effort".to_string(), "mood".to_string(), "energy".to_string()];
    assert_eq!(
        check_categories(&names, &cats),
        Err(UseCaseError::Refused(Refusal::UnknownCategory("mood".to_string())))
    );
    assert_eq!(check_categories(&vec!["effort".to_string()], &cats), Ok(()));
}

#[test]
fn tasks_sort_by_path_then_day_then_priority_then_subject() {
    let mut undated = Task::new(oid(1), "undated".to_string());
    undated.priority = PRIORITY_HIGHEST;
    let mut late = Task::new(oid(2), "late".to_string());
    late.due = Some(When::Day(date(2026, 10, 1)));
    let mut early_low = Task::new(oid(3), "early low".to_string());
    early_low.due = Some(When::Day(date(2026, 9, 1)));
    let mut early_high = Task::new(oid(4), "early high".to_string());
    early_high.due = Some(When::Day(date(2026, 9, 1)));
    early_high.priority = PRIORITY_HIGHEST;
    let mut b_twin = Task::new(oid(5), "b".to_string());
    b_twin.due = Some(When::Day(date(2026, 10, 1)));
    let objects: Vec<Object> =
        [undated, late, early_low, early_high, b_twin].into_iter().map(Object::Task).collect();
    let out = in_order(&objects);
    assert_eq!(subjects(&out), vec!["early high", "early low", "b", "late", "undated"]);
    assert!(listed_first(&out[0], &out[1]));
    assert!(!listed_first(&out[1], &out[0]));
}

#[test]
fn days_are_counted_from_the_epoch() {
    assert_eq!(day_number_of(date(1970, 1, 1)), 0);
    assert_eq!(day_number_of(date(2000, 3, 1)), 11017);
    assert_eq!(day_number_of(date(1969, 12, 31)), -1);
    assert_eq!(day_of_seconds(86_399), 0);
    assert_eq!(day_of_seconds(-1), -1);
    assert_eq!(day_of_seconds(-86_400), -1);
    assert_eq!(day_of_seconds(-86_401), -2);
}

// ---------------------------------------------------------------------------
// The agenda.

/// `2026-09-25T09:00:00Z`, as seconds.
fn at(text: &str) -> Timestamp {
    let (day, time) = text.trim_end_matches('Z').split_once('T').unwrap();
    let d: Vec<i64> = day.split('-').map(|p| p.parse().unwrap()).collect();
    let t: Vec<i64> = time.split(':').map(|p| p.parse().unwrap()).collect();
    let days = day_number_of(date(d[0] as i16, d[1] as u8, d[2] as u8));
    Timestamp { seconds: days * 86_400 + t[0] * 3600 + t[1] * 60 + t[2], nanos: 0 }
}

fn event(n: u8, subject: &str, start: &str, end: &str) -> Event {
    Event::new(oid(n), subject.to_string(), When::At(at(start)), When::At(at(end)))
}

fn run(store: &Shelf, query: Option<&str>, from: &str, to: &str) -> Vec<Scheduled> {
    agenda(
        store,
        &FixedClock(date(2026, 9, 25)),
        &Config::empty(),
        &Terms,
        query,
        Window { from: at(from), to: at(to) },
        &TimeZone::UTC,
    )
    .unwrap()
}

fn titles(found: &[Scheduled]) -> Vec<&str> {
    found.iter().map(|s| s.event.base.subject.as_str()).collect()
}

#[test]
fn an_event_in_progress_when_the_window_opens_is_listed() {
    let mut store = Shelf::new();
    store.put(&Object::Event(event(1, "running", "2026-09-25T09:00:00Z", "2026-09-25T11:00:00Z"))).unwrap();
    let found = run(&store, None, "2026-09-25T10:00:00Z", "2026-09-26T10:00:00Z");
    assert_eq!(titles(&found), vec!["running"]);
    assert_eq!(
        (found[0].start, found[0].end, found[0].busy),
        (at("2026-09-25T09:00:00Z"), at("2026-09-25T11:00:00Z"), true)
    );
}

#[test]
fn events_a_fraction_of_a_second_apart_keep_their_order_and_the_window_its_bounds() {
    let mut store = Shelf::new();
    let nine = at("2026-09-25T09:00:00Z");
    let later = Timestamp { seconds: nine.seconds, nanos: 250_000_000 };
    let end = at("2026-09-25T10:00:00Z");
    store.put(&Object::Event(Event::new(oid(1), "later".to_string(), When::At(later), When::At(end)))).unwrap();
    store.put(&Object::Event(Event::new(oid(2), "sooner".to_string(), When::At(nine), When::At(end)))).unwrap();
    let found = run(&store, None, "2026-09-25T08:00:00Z", "2026-09-26T08:00:00Z");
    assert_eq!(titles(&found), vec!["sooner", "later"]);
    assert_eq!(found[1].start, later);
    let found = agenda(
        &store,
        &FixedClock(date(2026, 9, 25)),
        &Config::empty(),
        &Terms,
        None,
        Window { from: at("2026-09-25T07:00:00Z"), to: Timestamp { seconds: nine.seconds, nanos: 100_000_000 } },
        &TimeZone::UTC,
    )
    .unwrap();
    assert_eq!(titles(&found), vec!["sooner"]);
}

#[test]
fn the_window_is_half_open_on_both_sides() {
    let mut store = Shelf::new();
    store.put(&Object::Event(event(1, "ended at open", "2026-09-25T08:00:00Z", "2026-09-25T10:00:00Z"))).unwrap();
    store.put(&Object::Event(event(2, "starts at close", "2026-09-26T10:00:00Z", "2026-09-26T11:00:00Z"))).unwrap();
    assert!(run(&store, None, "2026-09-25T10:00:00Z", "2026-09-26T10:00:00Z").is_empty());
}

#[test]
fn events_are_ordered_by_start_and_a_cancelled_one_is_listed_as_not_busy() {
    let mut store = Shelf::new();
    let mut gone = event(1, "gone", "2026-09-25T15:00:00Z", "2026-09-25T16:00:00Z");
    gone.status = EventStatus::Cancelled;
    store.put(&Object::Event(gone)).unwrap();
    store.put(&Object::Event(event(2, "first", "2026-09-25T12:00:00Z", "2026-09-25T13:00:00Z"))).unwrap();
    let found = run(&store, None, "2026-09-25T00:00:00Z", "2026-09-26T00:00:00Z");
    assert_eq!(titles(&found), vec!["first", "gone"]);
    assert!(found[0].busy && !found[1].busy);
}

#[test]
fn a_free_event_is_listed_as_not_busy() {
    let mut store = Shelf::new();
    let mut free = event(1, "lunch", "2026-09-25T12:00:00Z", "2026-09-25T13:00:00Z");
    free.transparency = Transparency::Free;
    store.put(&Object::Event(free)).unwrap();
    let found = run(&store, None, "2026-09-25T00:00:00Z", "2026-09-26T00:00:00Z");
    assert!(!found[0].busy);
}

#[test]
fn tasks_are_never_listed_and_a_query_narrows_the_events() {
    let mut store = Shelf::new();
    let mut due = Task::new(oid(3), "a task due now".to_string());
    due.due = Some(When::Day(date(2026, 9, 25)));
    store.put(&Object::Task(due)).unwrap();
    let mut work = event(4, "work", "2026-09-25T12:00:00Z", "2026-09-25T13:00:00Z");
    work.base.path = Path::parse("work").unwrap();
    store.put(&Object::Event(work)).unwrap();
    store.put(&Object::Event(event(5, "home", "2026-09-25T12:00:00Z", "2026-09-25T13:00:00Z"))).unwrap();
    assert_eq!(titles(&run(&store, None, "2026-09-25T00:00:00Z", "2026-09-26T00:00:00Z")), vec!["work", "home"]);
    assert_eq!(
        titles(&run(&store, Some("path:work/"), "2026-09-25T00:00:00Z", "2026-09-26T00:00:00Z")),
        vec!["work"]
    );
}

#[test]
fn an_all_day_event_runs_midnight_to_midnight_in_the_zone_given() {
    let mut store = Shelf::new();
    let day = Event::new(oid(6), "offsite".to_string(), When::Day(date(2026, 9, 25)), When::Day(date(2026, 9, 26)));
    store.put(&Object::Event(day)).unwrap();
    let window = Window { from: at("2026-09-25T00:00:00Z"), to: at("2026-09-27T00:00:00Z") };
    let zone = TimeZone::fixed(jiff::tz::offset(-4));
    let found = agenda(&store, &FixedClock(date(2026, 9, 25)), &Config::empty(), &Terms, None, window, &zone).unwrap();
    assert_eq!((found[0].start, found[0].end), (at("2026-09-25T04:00:00Z"), at("2026-09-26T04:00:00Z")));
}

#[test]
fn a_whole_day_event_on_a_day_that_is_no_date_is_not_listed() {
    let mut store = Shelf::new();
    let bad = Event::new(oid(7), "never".to_string(), When::Day(date(2026, 2, 30)), When::Day(date(2026, 3, 1)));
    store.put(&Object::Event(bad)).unwrap();
    let window = Window { from: at("2026-02-01T00:00:00Z"), to: at("2026-04-01T00:00:00Z") };
    let found =
        agenda(&store, &FixedClock(date(2026, 2, 25)), &Config::empty(), &Terms, None, window, &TimeZone::UTC).unwrap();
    assert!(found.is_empty());
}
