//! Deriving reminders from the scheduling entries of a document.
//!
//! Times are naive wall-clock values, held as seconds since 1970-01-01 00:00.
use vstd::prelude::*;
use vstd::string::StringExecFns;
use crate::document::{Org, Scheduling, Section};

verus! {

/// Bound on the seconds of any date and time chrono can hold (years -262143 to 262142).
pub const MAX_SECONDS: i64 = 10_000_000_000_000;

/// The seconds of `s` read with the chrono format `fmt`, if it reads.
pub uninterp spec fn datetime_of(s: Seq<char>, fmt: Seq<char>) -> Option<i64>;

/// Relies on chrono's `NaiveDateTime::parse_from_str`, the result taken as
/// seconds by `and_utc().timestamp()`; chrono's dates span years -262143 to
/// 262142 (`NaiveDate::MIN`, `NaiveDate::MAX`).
#[verifier::external_body]
fn parse_datetime(s: &str, fmt: &str) -> (r: Option<i64>)
    ensures
        r == datetime_of(s@, fmt@),
        r matches Some(t) ==> -MAX_SECONDS <= t <= MAX_SECONDS,
{
    match chrono::NaiveDateTime::parse_from_str(s, fmt) {
        Ok(dt) => Some(dt.and_utc().timestamp()),
        Err(_) => None,
    }
}

/// Relies on chrono's `Local::now().naive_local()`: the local wall-clock time now.
#[verifier::external_body]
pub(crate) fn local_now() -> (r: i64)
{
    chrono::Local::now().naive_local().and_utc().timestamp()
}

/// The format of a timestamp with a time of day: `2024-12-03 Tue 12:34`.
pub open spec fn time_format() -> Seq<char> {
    "%F %a %R"@
}

/// The time a scheduling entry stands for: its timestamp as written, or, where
/// that has no time of day, the same day at 09:00.
pub open spec fn target_time(ts: Seq<char>) -> Option<i64> {
    match datetime_of(ts, time_format()) {
        Some(t) => Some(t),
        None => datetime_of(ts + " 09:00"@, time_format()),
    }
}

/// The text of the reminder `minutes` before the start (or, for a deadline, the end) of `title`.
pub open spec fn message(deadline: bool, minutes: int, title: Seq<char>) -> Seq<char> {
    let head = if deadline {
        if minutes == 30 {
            "このイベント終了まであと30分: "@
        } else if minutes == 10 {
            "このイベント終了まであと10分: "@
        } else {
            "このイベント終了まであと1分: "@
        }
    } else {
        if minutes == 30 {
            "このイベント開始まであと30分: "@
        } else if minutes == 10 {
            "このイベント開始まであと10分: "@
        } else {
            "このイベント開始まであと1分: "@
        }
    };
    head + title
}

/// A notification due at a time.
#[derive(Clone, Debug)]
pub struct Reminder {
    /// The text shown.
    pub title: String,
    /// When it is due.
    pub datetime: i64,
    /// The entry it was derived from.
    pub scheduling: Scheduling,
}

/// Two reminders are the same when their text and time are.
impl PartialEq for Reminder {
    fn eq(&self, other: &Reminder) -> (r: bool) {
        self.title == other.title && self.datetime == other.datetime
    }
}

impl vstd::std_specs::cmp::PartialEqSpecImpl for Reminder {
    open spec fn obeys_eq_spec() -> bool {
        true
    }

    open spec fn eq_spec(&self, other: &Reminder) -> bool {
        self.title@ == other.title@ && self.datetime == other.datetime
    }
}

impl Eq for Reminder {}

impl Reminder {
    /// What identifies a reminder: its text and its time.
    pub open spec fn key(&self) -> (Seq<char>, i64) {
        (self.title@, self.datetime)
    }
}

pub open spec fn is_deadline(s: Scheduling) -> bool {
    s is Deadline
}

/// The same entry: kind, position, title and timestamp.
pub open spec fn same_entry(a: Scheduling, b: Scheduling) -> bool {
    match (a, b) {
        (Scheduling::Scheduled(p, t, d), Scheduling::Scheduled(q, u, e)) => p == q && t@ == u@ && d@
            == e@,
        (Scheduling::Deadline(p, t, d), Scheduling::Deadline(q, u, e)) => p == q && t@ == u@ && d@
            == e@,
        _ => false,
    }
}

impl Scheduling {
    /// A copy of the entry.
    pub fn duplicate(&self) -> (r: Scheduling)
        ensures
            same_entry(r, *self),
    {
        match self {
            Scheduling::Scheduled(p, t, d) => Scheduling::Scheduled(*p, t.clone(), d.clone()),
            Scheduling::Deadline(p, t, d) => Scheduling::Deadline(*p, t.clone(), d.clone()),
        }
    }
}

/// The reminders of one entry, as (text, time): none unless its time reads
/// and lies after `now`; else three, 30, 10 and 1 minute before it.
pub open spec fn entry_reminders(s: Scheduling, now: i64) -> Seq<(Seq<char>, i64)> {
    let d = is_deadline(s);
    let title = s.title_view();
    match target_time(s.timestamp_view()) {
        Some(t) => if t > now {
            seq![
                (message(d, 30, title), (t - 1800) as i64),
                (message(d, 10, title), (t - 600) as i64),
                (message(d, 1, title), (t - 60) as i64),
            ]
        } else {
            seq![]
        },
        None => seq![],
    }
}

pub open spec fn keys_of(rs: Seq<Reminder>) -> Seq<(Seq<char>, i64)> {
    rs.map_values(|r: Reminder| r.key())
}

fn make(head: &str, title: &String, at: i64, s: &Scheduling) -> (r: Reminder)
    ensures
        r.title@ == head@ + title@,
        r.datetime == at,
        same_entry(r.scheduling, *s),
{
    let mut text = String::from_str(head);
    text.append(title.as_str());
    Reminder { title: text, datetime: at, scheduling: s.duplicate() }
}

/// The time a timestamp stands for (see `target_time`).
pub fn target(ts: &String) -> (r: Option<i64>)
    ensures
        r == target_time(ts@),
        r matches Some(t) ==> -MAX_SECONDS <= t <= MAX_SECONDS,
{
    let fmt = "%F %a %R";
    match parse_datetime(ts.as_str(), fmt) {
        Some(t) => Some(t),
        None => {
            let morning = ts.clone().concat(" 09:00");
            parse_datetime(morning.as_str(), fmt)
        },
    }
}

/// The reminders of one entry, given its time (see `entry_reminders`).
pub fn create_reminders(s: &Scheduling, target: Option<i64>, now: i64) -> (r: Vec<Reminder>)
    requires
        target matches Some(t) ==> -MAX_SECONDS <= t <= MAX_SECONDS,
    ensures
        keys_of(r@) == (match target {
            Some(t) => if t > now {
                seq![
                    (message(is_deadline(*s), 30, s.title_view()), (t - 1800) as i64),
                    (message(is_deadline(*s), 10, s.title_view()), (t - 600) as i64),
                    (message(is_deadline(*s), 1, s.title_view()), (t - 60) as i64),
                ]
            } else {
                seq![]
            },
            None => seq![],
        }),
        forall|i: int| 0 <= i < r@.len() ==> same_entry(#[trigger] r@[i].scheduling, *s),
{
    let mut r: Vec<Reminder> = Vec::new();
    match target {
        Some(t) => {
            if t > now {
                let (title, deadline) = match s {
                    Scheduling::Scheduled(_, t, _) => (t, false),
                    Scheduling::Deadline(_, t, _) => (t, true),
                };
                let (h30, h10, h1) = if deadline {
                    ("このイベント終了まであと30分: ", "このイベント終了まであと10分: ", "このイベント終了まであと1分: ")
                } else {
                    ("このイベント開始まであと30分: ", "このイベント開始まであと10分: ", "このイベント開始まであと1分: ")
                };
                r.push(make(h30, title, t - 1800, s));
                r.push(make(h10, title, t - 600, s));
                r.push(make(h1, title, t - 60, s));
                proof {
                    assert(keys_of(r@) =~= seq![
                        (message(is_deadline(*s), 30, s.title_view()), (t - 1800) as i64),
                        (message(is_deadline(*s), 10, s.title_view()), (t - 600) as i64),
                        (message(is_deadline(*s), 1, s.title_view()), (t - 60) as i64),
                    ]);
                }
            }
        },
        None => {},
    }
    proof {
        if r@.len() == 0 {
            assert(keys_of(r@) =~= seq![]);
        }
    }
    r
}


/// The reminders of a sequence of entries, in order.
pub open spec fn entries_reminders(ss: Seq<Scheduling>, now: i64) -> Seq<(Seq<char>, i64)>
    decreases ss.len(),
{
    if ss.len() == 0 {
        seq![]
    } else {
        entries_reminders(ss.subrange(0, ss.len() - 1), now) + entry_reminders(ss.last(), now)
    }
}

/// The reminders of a section: those of its own entries, then those of its
/// children, in document order.
pub open spec fn section_reminders(s: Section, now: i64) -> Seq<(Seq<char>, i64)>
    decreases s,
{
    entries_reminders(s.scheduling@, now) + sections_reminders(s.sections@, now)
}

pub open spec fn sections_reminders(cs: Seq<Section>, now: i64) -> Seq<(Seq<char>, i64)>
    decreases cs,
{
    if cs.len() == 0 {
        seq![]
    } else {
        sections_reminders(cs.subrange(0, cs.len() - 1), now) + section_reminders(
            cs[cs.len() - 1],
            now,
        )
    }
}

/// The reminders of one entry at the time `now`.
pub fn convert_reminder(s: &Scheduling, now: i64) -> (r: Vec<Reminder>)
    ensures
        keys_of(r@) == entry_reminders(*s, now),
        forall|i: int| 0 <= i < r@.len() ==> same_entry(#[trigger] r@[i].scheduling, *s),
{
    let ts = match s {
        Scheduling::Scheduled(_, _, d) => d,
        Scheduling::Deadline(_, _, d) => d,
    };
    let t = target(ts);
    create_reminders(s, t, now)
}

proof fn lemma_keys_append(a: Seq<Reminder>, b: Seq<Reminder>)
    ensures
        keys_of(a + b) == keys_of(a) + keys_of(b),
{
    assert(keys_of(a + b) =~= keys_of(a) + keys_of(b));
}

/// The reminders of the entries of a section and of all sections under it, at the time `now`.
pub fn get_reminders_at(sec: &Section, now: i64) -> (r: Vec<Reminder>)
    ensures
        keys_of(r@) == section_reminders(*sec, now),
    decreases sec,
{
    let mut res: Vec<Reminder> = Vec::new();
    let mut i: usize = 0;
    while i < sec.scheduling.len()
        invariant
            i <= sec.scheduling@.len(),
            keys_of(res@) == entries_reminders(sec.scheduling@.subrange(0, i as int), now),
        decreases sec.scheduling@.len() - i,
    {
        let mut more = convert_reminder(&sec.scheduling[i], now);
        let ghost before = res@;
        let ghost added = more@;
        res.append(&mut more);
        proof {
            lemma_keys_append(before, added);
            assert(sec.scheduling@.subrange(0, i + 1).subrange(0, i as int) =~= sec.scheduling@.subrange(0, i as int));
        }
        i += 1;
    }
    proof {
        assert(sec.scheduling@.subrange(0, sec.scheduling@.len() as int) =~= sec.scheduling@);
    }
    let ghost own = res@;
    let mut j: usize = 0;
    while j < sec.sections.len()
        invariant
            j <= sec.sections@.len(),
            keys_of(res@) == entries_reminders(sec.scheduling@, now) + sections_reminders(sec.sections@.subrange(0, j as int), now),
        decreases sec.sections@.len() - j,
    {
        proof {
            assert(decreases_to!(sec => sec.sections));
            assert(decreases_to!(sec.sections => sec.sections@));
            assert(decreases_to!(sec.sections@ => sec.sections@[j as int]));
        }
        let mut more = get_reminders_at(&sec.sections[j], now);
        let ghost before = res@;
        let ghost added = more@;
        res.append(&mut more);
        proof {
            lemma_keys_append(before, added);
            assert(sec.sections@.subrange(0, j + 1).subrange(0, j as int) =~= sec.sections@.subrange(0, j as int));
            assert(sec.sections@.subrange(0, j + 1)[j as int] == sec.sections@[j as int]);
        }
        j += 1;
    }
    proof {
        assert(sec.sections@.subrange(0, sec.sections@.len() as int) =~= sec.sections@);
    }
    res
}

/// The reminders of a section and of all sections under it, at the local time now.
pub fn get_reminders(sec: &Section) -> (r: Vec<Reminder>)
    ensures
        exists|now: i64| keys_of(r@) == section_reminders(*sec, now),
{
    let now = local_now();
    get_reminders_at(sec, now)
}

impl Org {
    /// The reminders of all sections of the document, in document order, at the time `now`.
    pub fn get_reminders_at(&self, now: i64) -> (r: Vec<Reminder>)
        ensures
            keys_of(r@) == sections_reminders(self.sections@, now),
    {
        let mut res: Vec<Reminder> = Vec::new();
        let mut j: usize = 0;
        while j < self.sections.len()
            invariant
                j <= self.sections@.len(),
                keys_of(res@) == sections_reminders(self.sections@.subrange(0, j as int), now),
            decreases self.sections@.len() - j,
        {
            let mut more = get_reminders_at(&self.sections[j], now);
            let ghost before = res@;
            let ghost added = more@;
            res.append(&mut more);
            proof {
                lemma_keys_append(before, added);
                assert(self.sections@.subrange(0, j + 1).subrange(0, j as int) =~= self.sections@.subrange(0, j as int));
            }
            j += 1;
        }
        proof {
            assert(self.sections@.subrange(0, self.sections@.len() as int) =~= self.sections@);
        }
        res
    }

    /// The reminders of all sections of the document at the local time now.
    pub fn get_reminders(&self) -> (r: Vec<Reminder>)
        ensures
            exists|now: i64| keys_of(r@) == sections_reminders(self.sections@, now),
    {
        let now = local_now();
        self.get_reminders_at(now)
    }
}

} // verus!
