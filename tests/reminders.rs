use org_parser::engine::Pending;
use org_parser::movable::Movable;
use org_parser::reminder::{convert_reminder, create_reminders, target};
use org_parser::watch::{paths_to_reparse, FileEvent};
use org_parser::{get_reminders_at, parse, Context, Pos, Reminder, Scheduling};

const DEC3_1234: i64 = 1733229240;
const DEC3_0900: i64 = 1733216400;
const JAN1_2024: i64 = 1704067200;

fn scheduled(title: &str, ts: &str) -> Scheduling {
    Scheduling::Scheduled(Pos::new(0, 0), title.to_string(), ts.to_string())
}

#[test]
fn test_convert_reminder() {
    let now = JAN1_2024;
    let rem = convert_reminder(&scheduled("title", "2024-03-04 Mon 13:00"), now);
    assert_eq!(3, rem.len());
    assert_eq!(1709557200 - 60, rem[2].datetime);
    let rem = convert_reminder(&scheduled("title", "2024-03-04 Mon"), now);
    assert_eq!(3, rem.len());
    assert_eq!(1709542800 - 1800, rem[0].datetime);
}

#[test]
fn test_parse_org() {
    let content = r#":PROPERTIES:
:ID:   value
:END:
#+TITLE: title
#+STARTUP: overview

* SECTION 1
SCHEDULED: <2024-12-03 Tue 12:34>
DEADLINE: <2024-12-03 Tue 10:30>
#+KEYWORD1: title1
:PROPERTIES:
:ID: 461e7f4a-5467-4e1b-baed-517a02c00b9c
:CREATED: <2024-01-02 Tue 12:34>
:END:
:LOGBOOK:
CLOCK: [2024-02-27 Tue 09:56]--[2024-02-27 Tue 17:56] =>  8:00
:END:
#+KEYWORD2: title2
CONTENT1
CONTENT1

"#;
    let mut ctx = Context::new();
    let org = parse(&mut ctx, content).unwrap_or_else(|e| panic!("{:?}", e));
    assert_eq!(1, org.properties.len());
    assert_eq!(2, org.keywords.len());
    assert_eq!(1, org.sections.len());
    let sec = org.sections.first().unwrap();
    assert_eq!(1, sec.drawers.len());
    // The document was written when its entries lay ahead; derive as of then.
    let rems = org.get_reminders_at(JAN1_2024);
    assert_eq!(6, rems.len());
}

#[test]
fn three_reminders_before_a_scheduled_time() {
    let mut ctx = Context::new();
    let org = parse(&mut ctx, "* Foo\nSCHEDULED: <2024-12-03 Tue 12:34>\n").unwrap();
    let rems = org.get_reminders_at(JAN1_2024);
    let times: Vec<i64> = rems.iter().map(|r| r.datetime).collect();
    assert_eq!(vec![DEC3_1234 - 30 * 60, DEC3_1234 - 10 * 60, DEC3_1234 - 60], times);
    assert_eq!("このイベント開始まであと30分: Foo", rems[0].title);
    assert_eq!("このイベント開始まであと10分: Foo", rems[1].title);
    assert_eq!("このイベント開始まであと1分: Foo", rems[2].title);
    // 12:04, 12:24 and 12:33 on 2024-12-03
    assert_eq!(1733227440, rems[0].datetime);
    assert_eq!(1733228640, rems[1].datetime);
    assert_eq!(1733229180, rems[2].datetime);
}

#[test]
fn no_time_of_day_means_nine() {
    assert_eq!(Some(DEC3_0900), target(&"2024-12-03 Tue".to_string()));
    let rems = convert_reminder(&scheduled("x", "2024-12-03 Tue"), JAN1_2024);
    assert_eq!(DEC3_0900 - 60, rems[2].datetime);
}

#[test]
fn timestamp_is_read_with_its_time() {
    assert_eq!(Some(DEC3_1234), target(&"2024-12-03 Tue 12:34".to_string()));
    assert_eq!(None, target(&"not a date".to_string()));
}

#[test]
fn past_entries_give_nothing() {
    let rems = convert_reminder(&scheduled("x", "2024-12-03 Tue 12:34"), DEC3_1234);
    assert!(rems.is_empty());
    let rems = convert_reminder(&scheduled("x", "2024-12-03 Tue 12:34"), DEC3_1234 + 1);
    assert!(rems.is_empty());
}

#[test]
fn deadline_messages_speak_of_the_end() {
    let d = Scheduling::Deadline(Pos::new(1, 1), "Bar".to_string(), "2024-12-03 Tue 12:34".to_string());
    let rems = create_reminders(&d, Some(DEC3_1234), JAN1_2024);
    assert_eq!("このイベント終了まであと30分: Bar", rems[0].title);
    assert_eq!("このイベント終了まであと1分: Bar", rems[2].title);
}

#[test]
fn malformed_timestamp_is_dropped() {
    assert!(convert_reminder(&scheduled("x", "someday"), JAN1_2024).is_empty());
    assert!(create_reminders(&scheduled("x", "someday"), None, JAN1_2024).is_empty());
}

#[test]
fn nested_sections_give_reminders_in_document_order() {
    let mut ctx = Context::new();
    let org = parse(&mut ctx, "* A\n** B\nDEADLINE: <2024-12-03 Tue 12:34>\n* C\nSCHEDULED: <2024-12-03 Tue>\n").unwrap();
    let rems = org.get_reminders_at(JAN1_2024);
    assert_eq!(6, rems.len());
    assert!(rems[0].title.ends_with(": B"));
    assert!(rems[3].title.ends_with(": C"));
    assert_eq!(3, get_reminders_at(&org.sections[0], JAN1_2024).len());
}

#[test]
fn clock_reads_the_present() {
    let mut ctx = Context::new();
    let org = parse(&mut ctx, "* Past\nSCHEDULED: <2024-01-02 Tue 10:00>\n* Future\nDEADLINE: <2999-01-01 Tue 10:00>\n").unwrap();
    let rems = org.get_reminders();
    assert_eq!(3, rems.len());
    assert!(rems[0].title.ends_with(": Future"));
    assert_eq!(3, org_parser::get_reminders(&org.sections[1]).len());
    let mut p = Pending::new();
    assert_eq!(3, p.receive(&org));
    assert!(p.tick().is_empty());
    assert_eq!(3, p.len());
}

fn reminder(title: &str, at: i64) -> Reminder {
    Reminder { title: title.to_string(), datetime: at, scheduling: scheduled("t", "2024-12-03 Tue") }
}

#[test]
fn dedup_inserting_twice_adds_once() {
    let mut p = Pending::new();
    assert!(p.insert(reminder("a", 10)));
    assert!(!p.insert(Reminder { scheduling: scheduled("other", "x"), ..reminder("a", 10) }));
    assert_eq!(1, p.len());
    assert!(p.insert(reminder("a", 11)));
    assert_eq!(2, p.len());
}

#[test]
fn reminders_equal_by_text_and_time() {
    assert_eq!(reminder("a", 10), Reminder { scheduling: scheduled("other", "y"), ..reminder("a", 10) });
    assert_ne!(reminder("a", 10), reminder("a", 11));
}

#[test]
fn due_reminders_leave_the_set() {
    let mut p = Pending::new();
    p.insert(reminder("a", 10));
    p.insert(reminder("b", 30));
    p.insert(reminder("c", 20));
    let due = p.take_due(25);
    let due: Vec<&str> = due.iter().map(|r| r.title.as_str()).collect();
    assert_eq!(vec!["a", "c"], due);
    assert_eq!(1, p.len());
    assert_eq!("b", p.entries()[0].title);
}

#[test]
fn documents_add_only_future_reminders() {
    let mut ctx = Context::new();
    let org = parse(&mut ctx, "* Foo\nSCHEDULED: <2024-12-03 Tue 12:34>\n").unwrap();
    let mut p = Pending::new();
    assert_eq!(3, p.add_document(&org, JAN1_2024));
    assert_eq!(0, p.add_document(&org, JAN1_2024));
    let mut q = Pending::new();
    // at 12:10 only the 10- and 1-minute reminders lie ahead
    assert_eq!(2, q.add_document(&org, DEC3_1234 - 24 * 60));
}

fn modified(paths: &[&str]) -> FileEvent {
    FileEvent { modified: true, kind: "Modify(Data(Content))".to_string(), paths: paths.iter().map(|p| p.to_string()).collect() }
}

#[test]
fn each_modified_root_reparsed_once() {
    let ev = modified(&["/notes/a.org", "/work/b.org"]);
    assert_eq!(vec!["/notes/a.org".to_string(), "/work/b.org".to_string()], paths_to_reparse(&None, &ev));
    let prev = Some(modified(&["/notes/a.org", "/work/b.org"]));
    assert!(paths_to_reparse(&prev, &ev).is_empty());
}

#[test]
fn only_modified_markup_files_are_reparsed() {
    let ev = modified(&["/notes/a.txt", "/notes/.org", "/notes/c.org"]);
    assert_eq!(vec!["/notes/c.org".to_string()], paths_to_reparse(&None, &ev));
    let created = FileEvent { modified: false, kind: "Create(File)".to_string(), paths: vec!["/n/a.org".to_string()] };
    assert!(paths_to_reparse(&None, &created).is_empty());
    let other = Some(modified(&["/notes/x.org"]));
    assert_eq!(vec!["/notes/c.org".to_string()], paths_to_reparse(&other, &ev));
}

#[test]
fn moving_and_moving_back_restores_positions() {
    let mut ctx = Context::new();
    let mut org = parse(&mut ctx, "* A\n:LOGBOOK:\nx\n:END:\n** B\nSCHEDULED: <2024-12-03 Tue>\n").unwrap();
    let before = format!("{:?}", org.sections);
    for s in org.sections.iter_mut() {
        s.move_point(3, 5);
    }
    assert_eq!((6, 4), (org.sections[0].pos.line, org.sections[0].pos.col));
    assert_eq!((10, 4), (org.sections[0].sections[0].pos.line, org.sections[0].sections[0].pos.col));
    for s in org.sections.iter_mut() {
        s.move_point(-3, -5);
    }
    assert_eq!(before, format!("{:?}", org.sections));
}

#[test]
fn moving_saturates_at_zero() {
    let mut ctx = Context::new();
    let mut org = parse(&mut ctx, "* A\n").unwrap();
    org.sections[0].move_point(-10, -10);
    assert_eq!((0, 0), (org.sections[0].pos.line, org.sections[0].pos.col));
}
