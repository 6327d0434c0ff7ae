//! Events as intervals over a window, each with whether it holds time: the
//! reading a scheduler takes busy times from.

use vstd::prelude::*;

use crate::config::Config;
use crate::domain::{
    Date, Event, EventStatus, EventView, Object, ObjectView, Timestamp, Transparency, When, earlier,
    is_earlier,
    lemma_text_lt_irreflexive, lemma_text_lt_transitive, text_less, text_lt,
};
use crate::errors::{Refusal, UseCaseError};
use crate::ports::{Clock, ObjectRepository, QueryLanguage, object_views};
use super::list::{admitted, declares, list, listed_admitted, listed_admitted_on_its_day, query_text_spec};

verus! {

broadcast use vstd::seq_lib::group_to_multiset_ensures;

/// A stretch of time. An event overlaps it when it starts before `to` and
/// ends after `from`.
#[derive(Clone, Copy, Debug, PartialEq, Eq, Structural)]
pub struct Window {
    pub from: Timestamp,
    pub to: Timestamp,
}

/// An event placed in time, and whether it holds that time.
#[derive(Debug, PartialEq, Eq)]
pub struct Scheduled {
    pub event: Event,
    pub start: Timestamp,
    pub end: Timestamp,
    pub busy: bool,
}

pub struct ScheduledView {
    pub event: EventView,
    pub start: Timestamp,
    pub end: Timestamp,
    pub busy: bool,
}

impl View for Scheduled {
    type V = ScheduledView;

    open spec fn view(&self) -> ScheduledView {
        ScheduledView { event: self.event@, start: self.start, end: self.end, busy: self.busy }
    }
}

pub open spec fn scheduled_views(v: Seq<Scheduled>) -> Seq<ScheduledView> {
    v.map_values(|s: Scheduled| s@)
}

/// An event holds its time unless it was cancelled or marked free.
pub open spec fn holds_time(e: EventView) -> bool {
    e.status != EventStatus::Cancelled && e.transparency == Transparency::Busy
}

/// Whether an event that runs from `start` to `end` overlaps `w`.
pub open spec fn overlaps(start: Timestamp, end: Timestamp, w: Window) -> bool {
    earlier(start, w.to) && earlier(w.from, end)
}

/// Whether `a` comes before `b` in an agenda: by start, then by oid.
pub open spec fn scheduled_before(a: ScheduledView, b: ScheduledView) -> bool {
    earlier(a.start, b.start) || (a.start == b.start && text_lt(
        a.event.base.oid,
        b.event.base.oid,
    ))
}

/// No entry of `v` comes before one that precedes it.
pub open spec fn in_agenda_order(v: Seq<ScheduledView>) -> bool {
    forall|i: int, j: int| 0 <= i < j < v.len() ==> !scheduled_before(#[trigger] v[j], #[trigger] v[i])
}

/// `s` places an event of `working` in time, overlapping `w`: at its own
/// instants where it has them, holding time as it says.
pub open spec fn placed(s: ScheduledView, working: Map<Seq<char>, ObjectView>, w: Window) -> bool {
    &&& working.get(s.event.base.oid) == Some(ObjectView::Event(s.event))
    &&& overlaps(s.start, s.end, w)
    &&& s.busy == holds_time(s.event)
    &&& s.event.start matches When::At(t) ==> s.start == t
    &&& s.event.end matches When::At(t) ==> s.end == t
    &&& s.event.start matches When::Day(d) ==> civil_date_ok(d)
    &&& s.event.end matches When::Day(d) ==> civil_date_ok(d)
}

/// Only an event that goes ahead and is marked busy holds time: a
/// cancelled one never does, nor one marked free, whatever else it says.
pub proof fn lemma_only_busy_events_hold_time(e: EventView)
    ensures
        e.status == EventStatus::Cancelled ==> !holds_time(e),
        e.transparency == Transparency::Free ==> !holds_time(e),
        e.status != EventStatus::Cancelled && e.transparency == Transparency::Busy ==> holds_time(e),
{
}

/// The window is half open on both sides: an event that ends by the time
/// it opens, or starts once it has closed, is outside it; one that starts
/// before it closes and ends after it opens is inside.
pub proof fn lemma_window_is_half_open(start: Timestamp, end: Timestamp, w: Window)
    ensures
        end == w.from || earlier(end, w.from) ==> !overlaps(start, end, w),
        start == w.to || earlier(w.to, start) ==> !overlaps(start, end, w),
        earlier(start, w.to) && earlier(w.from, end) ==> overlaps(start, end, w),
{
}

/// An agenda runs by start: an entry that starts earlier comes first, and
/// of two that start together, the one with the lower oid.
pub proof fn lemma_agenda_runs_by_start(a: ScheduledView, b: ScheduledView)
    ensures
        earlier(a.start, b.start) ==> scheduled_before(a, b) && !scheduled_before(b, a),
        a.start == b.start && text_lt(a.event.base.oid, b.event.base.oid) ==> scheduled_before(a, b)
            && !scheduled_before(b, a),
{
    lemma_text_lt_irreflexive(a.event.base.oid);
    if text_lt(a.event.base.oid, b.event.base.oid) && text_lt(b.event.base.oid, a.event.base.oid) {
        lemma_text_lt_transitive(a.event.base.oid, b.event.base.oid, a.event.base.oid);
    }
}

proof fn lemma_scheduled_before_irreflexive(a: ScheduledView)
    ensures
        !scheduled_before(a, a),
{
    lemma_text_lt_irreflexive(a.event.base.oid);
}

proof fn lemma_scheduled_before_transitive(a: ScheduledView, b: ScheduledView, c: ScheduledView)
    requires
        scheduled_before(a, b),
        scheduled_before(b, c),
    ensures
        scheduled_before(a, c),
{
    if a.start == b.start && b.start == c.start {
        lemma_text_lt_transitive(a.event.base.oid, b.event.base.oid, c.event.base.oid);
    }
}

/// Whether `a` comes before `b`.
fn scheduled_first(a: &Scheduled, b: &Scheduled) -> (r: bool)
    ensures
        r == scheduled_before(a@, b@),
{
    if a.start != b.start {
        return is_earlier(a.start, b.start);
    }
    text_less(a.event.base.oid.as_str(), b.event.base.oid.as_str())
}

/// `found` in agenda order: the same entries, each as often as it came.
pub fn in_agenda(found: Vec<Scheduled>) -> (r: Vec<Scheduled>)
    ensures
        scheduled_views(r@).to_multiset() == scheduled_views(found@).to_multiset(),
        in_agenda_order(scheduled_views(r@)),
{
    let mut out: Vec<Scheduled> = Vec::new();
    let mut rest = found;
    let ghost all = scheduled_views(rest@);
    let mut i: usize = 0;
    let n = rest.len();
    while i < n
        invariant
            n == all.len(),
            i <= n,
            scheduled_views(rest@) == all.skip(i as int),
            scheduled_views(out@).to_multiset() == all.take(i as int).to_multiset(),
            in_agenda_order(scheduled_views(out@)),
        decreases n - i,
    {
        let ghost old_rest = rest@;
        assert(scheduled_views(old_rest).len() == old_rest.len());
        let x = rest.remove(0);
        proof {
            assert(scheduled_views(old_rest)[0] == all[i as int]);
            assert(x@ == all[i as int]);
            assert forall|j: int| 0 <= j < rest@.len() implies #[trigger] scheduled_views(rest@)[j] == all.skip(i + 1)[j] by {
                assert(rest@[j] == old_rest[j + 1]);
                assert(scheduled_views(old_rest)[j + 1] == all.skip(i as int)[j + 1]);
            }
            assert(scheduled_views(rest@) =~= all.skip(i + 1));
        }
        let ghost s = scheduled_views(out@);
        let mut k: usize = 0;
        while k < out.len() && !scheduled_first(&x, &out[k])
            invariant
                k <= out.len(),
                s == scheduled_views(out@),
                forall|m: int| 0 <= m < k ==> !scheduled_before(x@, #[trigger] s[m]),
            decreases out.len() - k,
        {
            k = k + 1;
        }
        proof {
            assert forall|m: int| k <= m < s.len() implies !scheduled_before(#[trigger] s[m], x@) by {
                if scheduled_before(s[m], x@) {
                    lemma_scheduled_before_transitive(s[m], x@, s[k as int]);
                    if m == k {
                        lemma_scheduled_before_irreflexive(s[m]);
                    }
                }
            }
        }
        let ghost xv = x@;
        out.insert(k, x);
        proof {
            let t = scheduled_views(out@);
            assert(t =~= s.insert(k as int, xv));
            assert(all.take(i + 1) =~= all.take(i as int).push(all[i as int]));
            assert forall|a: int, b: int| 0 <= a < b < t.len() implies !scheduled_before(
                #[trigger] t[b],
                #[trigger] t[a],
            ) by {
                if b < k {
                } else if a < k && b == k {
                } else if a < k {
                    assert(t[b] == s[b - 1]);
                } else if a == k {
                    assert(t[b] == s[b - 1]);
                } else {
                    assert(t[a] == s[a - 1] && t[b] == s[b - 1]);
                }
            }
        }
        i = i + 1;
    }
    assert(all.take(n as int) =~= all);
    out
}

/// A time zone, as jiff keeps it.
#[verifier::external_type_specification]
#[verifier::external_body]
pub struct ExTimeZone(jiff::tz::TimeZone);

/// Whether `y` is a leap year of the proleptic Gregorian calendar.
pub open spec fn leap_year(y: int) -> bool {
    y % 4 == 0 && (y % 100 != 0 || y % 400 == 0)
}

/// How many days month `m` of year `y` has.
pub open spec fn days_in_month(y: int, m: int) -> int {
    if m == 2 {
        if leap_year(y) {
            29
        } else {
            28
        }
    } else if m == 4 || m == 6 || m == 9 || m == 11 {
        30
    } else {
        31
    }
}

/// Whether `d` names a day jiff's `civil::Date::new` accepts: a year from
/// -9999 to 9999, a month from 1 to 12, and a day of that month.
pub open spec fn civil_date_ok(d: Date) -> bool {
    &&& -9999 <= d.year <= 9999
    &&& 1 <= d.month <= 12
    &&& 1 <= d.day <= days_in_month(d.year as int, d.month as int)
}

/// When `day` starts in `zone`, by jiff's `civil::Date::new` and
/// `Date::to_zoned`, which sets the date at midnight in the zone. `Date::new`
/// refuses a day that is not a date, and then there is none. Nothing is
/// claimed of the instant, which depends on the zone's rules, nor of whether
/// jiff can place a date it accepts in the zone. jiff's offsets are whole
/// seconds, so midnight in a zone has no fraction of a second.
#[verifier::external_body]
fn start_of_day(zone: &jiff::tz::TimeZone, day: Date) -> (r: Option<Timestamp>)
    ensures
        !civil_date_ok(day) ==> r is None,
{
    let civil = jiff::civil::Date::new(day.year, day.month as i8, day.day as i8).ok()?;
    let zoned = civil.to_zoned(zone.clone()).ok()?;
    let at = zoned.timestamp();
    Some(Timestamp { seconds: at.as_second(), nanos: at.subsec_nanosecond() as u32 })
}

/// Where `w` falls: the instant itself, or when the day starts in `zone`.
fn instant_of(w: When, zone: &jiff::tz::TimeZone) -> (r: Option<Timestamp>)
    ensures
        w matches When::At(t) ==> r == Some(t),
        w matches When::Day(d) ==> (!civil_date_ok(d) ==> r is None),
{
    match w {
        When::At(t) => Some(t),
        When::Day(d) => start_of_day(zone, d),
    }
}

/// Whether `v` has an entry for the object `k`.
pub open spec fn has_entry(v: Seq<ScheduledView>, k: Seq<char>) -> bool {
    exists|m: int| 0 <= m < v.len() && #[trigger] v[m].event.base.oid == k
}

/// No object has two entries in `v`.
pub open spec fn entries_distinct(v: Seq<ScheduledView>) -> bool {
    forall|a: int, b: int| 0 <= a < b < v.len() ==> (#[trigger] v[a]).event.base.oid != (#[trigger] v[b]).event.base.oid
}

/// Whether `o` is an event fixed at two instants that overlap `w`.
pub open spec fn fixed_in(o: ObjectView, w: Window) -> bool {
    &&& o matches ObjectView::Event(ev)
    &&& ev.start matches When::At(s)
    &&& ev.end matches When::At(e)
    &&& overlaps(s, e, w)
}

/// Each entry of `v` is for one of the first `upto` objects of `lv`.
pub open spec fn entries_from(v: Seq<ScheduledView>, lv: Seq<ObjectView>, upto: int) -> bool {
    forall|m: int| 0 <= m < v.len() ==> exists|n: int| 0 <= n < upto && #[trigger] lv[n].oid() == (#[trigger] v[m]).event.base.oid
}

/// Reordering entries keeps each placed and each object once.
proof fn lemma_entries_reordered(v: Seq<ScheduledView>, u: Seq<ScheduledView>, working: Map<Seq<char>, ObjectView>, w: Window)
    requires
        forall|m: int| 0 <= m < v.len() ==> placed(#[trigger] v[m], working, w),
        entries_distinct(v),
        u.to_multiset() == v.to_multiset(),
    ensures
        forall|m: int| 0 <= m < u.len() ==> placed(#[trigger] u[m], working, w),
        entries_distinct(u),
        forall|k: Seq<char>| has_entry(v, k) ==> has_entry(u, k),
{
    assert forall|m: int| 0 <= m < u.len() implies placed(#[trigger] u[m], working, w) by {
        assert(u.to_multiset().count(u[m]) > 0);
        assert(v.contains(u[m]));
    }
    assert(v.no_duplicates()) by {
        assert forall|i: int, j: int| 0 <= i < v.len() && 0 <= j < v.len() && i != j implies v[i] != v[j] by {
            if i < j {
                assert(v[i].event.base.oid != v[j].event.base.oid);
            } else {
                assert(v[j].event.base.oid != v[i].event.base.oid);
            }
        }
    }
    v.lemma_multiset_has_no_duplicates();
    assert forall|a: int, b: int| 0 <= a < b < u.len() implies (#[trigger] u[a]).event.base.oid != (#[trigger] u[b]).event.base.oid by {
        if u[a].event.base.oid == u[b].event.base.oid {
            assert(placed(u[a], working, w) && placed(u[b], working, w));
            assert(u[a].event == u[b].event);
            assert(u.to_multiset().count(u[a]) > 0 && v.contains(u[a]));
            assert(u.to_multiset().count(u[b]) > 0 && v.contains(u[b]));
            let i = choose|i: int| 0 <= i < v.len() && v[i] == u[a];
            let j = choose|j: int| 0 <= j < v.len() && v[j] == u[b];
            if i != j {
                if i < j {
                    assert(v[i].event.base.oid != v[j].event.base.oid);
                } else {
                    assert(v[j].event.base.oid != v[i].event.base.oid);
                }
            }
            assert(u[a] == u[b]);
            crate::use_cases::list::lemma_count_two(u, a, b);
        }
    }
    assert forall|k: Seq<char>| has_entry(v, k) implies has_entry(u, k) by {
        let m = choose|m: int| 0 <= m < v.len() && #[trigger] v[m].event.base.oid == k;
        assert(v.to_multiset().count(v[m]) > 0);
        assert(u.contains(v[m]));
        let n = choose|n: int| 0 <= n < u.len() && u[n] == v[m];
        assert(u[n].event.base.oid == k);
    }
}

/// On the day the listing was made, every entry of `sv` is an event `query`
/// admits, and every event it admits that is fixed in `window` has an entry.
pub open spec fn agenda_admitted<Q: QueryLanguage>(
    language: Q,
    query: Q::Query,
    working: Map<Seq<char>, ObjectView>,
    window: Window,
    sv: Seq<ScheduledView>,
) -> bool {
    exists|today: Date| #[trigger] admitted_on(language, query, working, window, sv, today)
}

/// On `today`, every entry of `sv` is an event `query` admits, and every
/// event it admits that is fixed in `window` has an entry.
pub open spec fn admitted_on<Q: QueryLanguage>(
    language: Q,
    query: Q::Query,
    working: Map<Seq<char>, ObjectView>,
    window: Window,
    sv: Seq<ScheduledView>,
    today: Date,
) -> bool {
    &&& forall|i: int| 0 <= i < sv.len() ==> language.meets(query, ObjectView::Event((#[trigger] sv[i]).event), today)
    &&& forall|k: Seq<char>|
        #[trigger] admitted(language, query, working, today).contains_key(k) && fixed_in(working[k], window)
            ==> has_entry(sv, k)
}

/// Every event the query admits whose span overlaps the window, busy or
/// not, ordered by start and then by oid. Tasks are never listed. A whole
/// day runs from when it starts in `zone` to when the next one does.
pub fn agenda<S: ObjectRepository, K: Clock, Q: QueryLanguage>(
    objects: &S,
    clock: &K,
    config: &Config,
    language: &Q,
    query: Option<&str>,
    window: Window,
    zone: &jiff::tz::TimeZone,
) -> (r: Result<Vec<Scheduled>, UseCaseError>)
    ensures
        r matches Ok(v) ==> {
            let sv = scheduled_views(v@);
            let w = objects.model().data.working;
            &&& in_agenda_order(sv)
            &&& forall|i: int| 0 <= i < sv.len() ==> placed(#[trigger] sv[i], w, window)
            &&& entries_distinct(sv)
            &&& query is None ==> forall|k: Seq<char>| #[trigger] w.contains_key(k) && fixed_in(w[k], window) ==> has_entry(sv, k)
        },
        query matches Some(q) ==> (language.reads_as(query_text_spec(*config, q@)) matches Ok(pq) ==> (r matches Ok(
            v,
        ) ==> agenda_admitted(*language, pq, objects.model().data.working, window, scheduled_views(v@)))),
        r matches Err(UseCaseError::Refused(Refusal::UnknownCategory(n))) ==> query is Some && !declares(
            config.categories@,
            n@,
        ),
        r matches Err(e) ==> e is Store || (query is Some && (e is Parse || e matches UseCaseError::Refused(
            Refusal::UnknownCategory(_),
        ))),
{
    let listed = match list(objects, clock, config, language, query) {
        Ok(v) => v,
        Err(e) => return Err(e),
    };
    let ghost w = objects.model().data.working;
    let ghost lv = object_views(listed@);
    let mut found: Vec<Scheduled> = Vec::new();
    let mut i: usize = 0;
    while i < listed.len()
        invariant
            lv == object_views(listed@),
            crate::use_cases::list::drawn_from(lv, w),
            i <= listed.len(),
            forall|m: int| 0 <= m < found@.len() ==> placed(#[trigger] scheduled_views(found@)[m], w, window),
            entries_from(scheduled_views(found@), lv, i as int),
            entries_distinct(scheduled_views(found@)),
            forall|n: int| 0 <= n < i && fixed_in(#[trigger] lv[n], window) ==> has_entry(scheduled_views(found@), lv[n].oid()),
        decreases listed.len() - i,
    {
        let ghost before = scheduled_views(found@);
        if let Object::Event(event) = &listed[i] {
            let start = instant_of(event.start, zone);
            let end = instant_of(event.end, zone);
            if let (Some(s), Some(e)) = (start, end) {
                if is_earlier(s, window.to) && is_earlier(window.from, e) {
                    let busy = event.status != EventStatus::Cancelled && event.transparency == Transparency::Busy;
                    found.push(Scheduled { event: event.copy(), start: s, end: e, busy });
                    proof {
                        let now = scheduled_views(found@);
                        assert(lv[i as int] == ObjectView::Event(event@));
                        assert(now =~= before.push(now[now.len() - 1]));
                        assert(entries_from(now, lv, i + 1)) by {
                            assert forall|m: int| 0 <= m < now.len() implies exists|n: int| 0 <= n < i + 1 && #[trigger] lv[n].oid() == (#[trigger] now[m]).event.base.oid by {
                                if m < before.len() {
                                    let n = choose|n: int| 0 <= n < i && #[trigger] lv[n].oid() == (#[trigger] before[m]).event.base.oid;
                                    assert(lv[n].oid() == now[m].event.base.oid);
                                } else {
                                    assert(lv[i as int].oid() == now[m].event.base.oid);
                                }
                            }
                        }
                        assert(entries_distinct(now)) by {
                            assert forall|a: int, b: int| 0 <= a < b < now.len() implies (#[trigger] now[a]).event.base.oid != (#[trigger] now[b]).event.base.oid by {
                                if b == now.len() - 1 {
                                    let n = choose|n: int| 0 <= n < i && #[trigger] lv[n].oid() == (#[trigger] before[a]).event.base.oid;
                                    assert(lv[n].oid() != lv[i as int].oid());
                                } else {
                                    assert(now[a] == before[a] && now[b] == before[b]);
                                }
                            }
                        }
                        assert forall|n: int| 0 <= n < i + 1 && fixed_in(#[trigger] lv[n], window) implies has_entry(now, lv[n].oid()) by {
                            if n < i {
                                assert(has_entry(before, lv[n].oid()));
                                let m = choose|m: int| 0 <= m < before.len() && #[trigger] before[m].event.base.oid == lv[n].oid();
                                assert(now[m] == before[m]);
                            } else {
                                assert(now[now.len() - 1].event.base.oid == lv[n].oid());
                            }
                        }
                    }
                }
            }
        }
        proof {
            let now = scheduled_views(found@);
            if now == before {
                assert(entries_from(now, lv, i + 1)) by {
                    assert forall|m: int| 0 <= m < now.len() implies exists|n: int| 0 <= n < i + 1 && #[trigger] lv[n].oid() == (#[trigger] now[m]).event.base.oid by {
                        let n = choose|n: int| 0 <= n < i && #[trigger] lv[n].oid() == (#[trigger] before[m]).event.base.oid;
                    }
                }
                assert forall|n: int| 0 <= n < i + 1 && fixed_in(#[trigger] lv[n], window) implies has_entry(now, lv[n].oid()) by {
                    if n == i {
                        assert(lv[n] == listed@[n]@);
                    }
                }
            }
        }
        i = i + 1;
    }
    let ghost fv = scheduled_views(found@);
    let ordered = in_agenda(found);
    proof {
        lemma_entries_reordered(fv, scheduled_views(ordered@), w, window);
        if query is Some {
            let q = query.unwrap();
            if language.reads_as(query_text_spec(*config, q@)) is Ok {
                let pq = language.reads_as(query_text_spec(*config, q@))->Ok_0;
                assert(listed_admitted_on_its_day(*language, pq, w, lv));
                let today = choose|today: Date| #[trigger] listed_admitted(*language, pq, w, today, lv);
                let a = admitted(*language, pq, w, today);
                let ov = scheduled_views(ordered@);
                assert forall|m: int| 0 <= m < ov.len() implies language.meets(
                    pq,
                    ObjectView::Event((#[trigger] ov[m]).event),
                    today,
                ) by {
                    assert(ov.to_multiset().count(ov[m]) > 0);
                    assert(fv.contains(ov[m]));
                    let f = choose|f: int| 0 <= f < fv.len() && fv[f] == ov[m];
                    let n = choose|n: int| 0 <= n < lv.len() && #[trigger] lv[n].oid() == (#[trigger] fv[f]).event.base.oid;
                    assert(a.contains_key(lv[n].oid()) && a[lv[n].oid()] == lv[n]);
                    assert(placed(ov[m], w, window));
                    assert(w[lv[n].oid()] == lv[n]);
                }
                assert forall|k: Seq<char>| #[trigger] a.contains_key(k) && fixed_in(w[k], window) implies has_entry(ov, k) by {
                    let n = choose|n: int| 0 <= n < lv.len() && #[trigger] lv[n].oid() == k;
                    assert(lv[n] == a[k]);
                    assert(has_entry(fv, lv[n].oid()));
                }
                assert(admitted_on(*language, pq, w, window, ov, today));
            }
        }
        if query is None {
            assert forall|k: Seq<char>| #[trigger] w.contains_key(k) && fixed_in(w[k], window) implies has_entry(
                scheduled_views(ordered@),
                k,
            ) by {
                let n = choose|n: int| 0 <= n < lv.len() && #[trigger] lv[n].oid() == k;
                assert(lv[n] == w[k]);
            }
        }
    }
    Ok(ordered)
}

} // verus!
