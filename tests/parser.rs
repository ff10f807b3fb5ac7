use org_parser::line::{block_end, drawer_start, heading_title, line_fragments, properties_start, scheduling_entries, tag_list_at};
use org_parser::{parse, Context, Org, ParseError};

fn chars(s: &str) -> Vec<char> {
    s.chars().collect()
}

fn text(l: &[char], a: usize, b: usize) -> String {
    l[a..b].iter().collect()
}

fn parse_ok(content: &str) -> Org {
    let mut ctx = Context::new();
    parse(&mut ctx, content).unwrap_or_else(|e| panic!("{:?}", e))
}

#[test]
fn test_rule_active_time_quote() {
    let l = chars("<2023-12-11 Mon 07:09>");
    let fs = line_fragments(&l);
    assert_eq!(1, fs.len());
    assert_eq!("<2023-12-11 Mon 07:09>", text(&l, fs[0].0, fs[0].1));
}

#[test]
fn test_rule_scheduled() {
    let l = chars("SCHEDULED: <2023-12-11 Mon 07:09>");
    let es = scheduling_entries(&l).unwrap();
    assert_eq!(1, es.len());
    assert!(!es[0].0);
    assert_eq!("2023-12-11 Mon 07:09", text(&l, es[0].2, es[0].3));
}

#[test]
fn test_rule_inactive_time_quote() {
    let l = chars("[2023-12-11 Mon 07:09]");
    let fs = line_fragments(&l);
    assert_eq!(1, fs.len());
    assert_eq!("[2023-12-11 Mon 07:09]", text(&l, fs[0].0, fs[0].1));
}

#[test]
fn test_rule_inactive_quote() {
    let l = chars("[2023-12-11 Mon 07:09]");
    let fs = line_fragments(&l);
    assert_eq!(vec![(0, 22)], fs);
}

#[test]
fn test_rule_headline() {
    let l = chars("** TODO 日 本 語  :abc:");
    let (a, b) = heading_title(&l);
    assert_eq!("日 本 語  ", text(&l, a, b));
    assert_eq!("abc", text(&l, b + 1, l.len() - 1));
}

#[test]
fn test_rule_property_start() {
    assert!(properties_start(&chars(":PROPERTIES:")));
    assert!(properties_start(&chars(":properties:")));
}

#[test]
fn test_rule_property_end() {
    assert!(block_end(&chars(":END:")));
    assert!(block_end(&chars(":end:")));
}

#[test]
fn test_rule_property() {
    let org = parse_ok(":PROPERTIES:\n:ID:   :value   \n:END:\n");
    let p = &org.properties[0].children[0];
    assert_eq!("ID", p.key);
    assert_eq!(":value", p.value);
}

#[test]
fn test_rule_property_timestamp() {
    let org = parse_ok(":PROPERTIES:\n:CREATED:    <2023-12-11 Mon 07:09>\n:END:\n");
    let p = &org.properties[0].children[0];
    assert_eq!("CREATED", p.key);
    assert_eq!("<2023-12-11 Mon 07:09>", p.value);
}

#[test]
fn test_rule_properties() {
    let org = parse_ok(":PROPERTIES:\n:ID:   :value\n:ID:     :value\n:END:\n");
    assert_eq!(2, org.properties[0].children.len());
    for p in &org.properties[0].children {
        assert_eq!("ID", p.key);
        assert_eq!(":value", p.value);
    }
}

#[test]
fn test_rule_drawer_start() {
    assert!(drawer_start(&chars(":LOGBOOK:")));
    assert!(drawer_start(&chars(":logbook:")));
    assert!(!drawer_start(&chars(":END:")));
}

#[test]
fn test_rule_drawer_end() {
    assert!(block_end(&chars(":END:")));
    assert!(block_end(&chars(":end:")));
}

#[test]
fn test_rule_drawer_contents() {
    let l = chars(" <2023-12-26 Tue 08:02> [2023-12-26 Tue 09:02] abc def");
    let fs = line_fragments(&l);
    assert_eq!(3, fs.len());
    assert_eq!("<2023-12-26 Tue 08:02>", text(&l, fs[0].0, fs[0].1));
    assert_eq!("[2023-12-26 Tue 09:02]", text(&l, fs[1].0, fs[1].1));
    assert_eq!("abc def", text(&l, fs[2].0, fs[2].1));
}

#[test]
fn test_rule_drawer_all() {
    let org = parse_ok(":LOGBOOK:\n[1 abc def] :abc:\n:END:\n");
    assert_eq!(1, org.drawers.len());
    let d = &org.drawers[0];
    assert_eq!("LOGBOOK", d.name);
    assert!(!d.children.is_empty());
    assert_eq!("[1 abc def]", d.children[0].contents);
    assert_eq!(":abc:", d.children[1].contents);
}

#[test]
fn test_rule_keyword() {
    let org = parse_ok("#+TODO: TODO(t) | DONE(d)");
    assert_eq!("TODO", org.keywords[0].key);
    assert_eq!("TODO(t) | DONE(d)", org.keywords[0].value);
}

#[test]
fn test_rule_options_keyword() {
    let org = parse_ok("#+OPTIONS: ^:nil");
    assert_eq!("OPTIONS", org.keywords[0].key);
    assert_eq!("^:nil", org.keywords[0].value);
}

#[test]
fn test_rule_tags() {
    let l = chars(":abc:def:");
    assert!(tag_list_at(&l, 0, l.len()));
    assert_eq!("abc", text(&l, 1, 4));
    assert_eq!("def", text(&l, 5, 8));
}

#[test]
fn test_rule_section() {
    let org = parse_ok("* TEST\n:PROPERTIES:\n:ID:   :value\n:END:\n\nContent\n");
    let sec = &org.sections[0];
    assert_eq!("TEST", sec.title);
    assert_eq!("Content\n", sec.contents[0].contents);
    assert_eq!("ID", sec.properties[0].children[0].key);
    assert_eq!(":value", sec.properties[0].children[0].value);
}

#[test]
fn test_rule_org() {
    let content = ":PROPERTIES:
:ID:   value
:END:
#+TITLE: title

* TEST1
:PROPERTIES:
:ID:   value1
:CREATED: <2023-12-26 Tue 08:02>
:END:
Content1

* test2
:PROPERTIES:
:ID:   value2
:END:
Content2

";
    let org = parse_ok(content);
    assert_eq!("ID", org.properties[0].children[0].key);
    assert_eq!("value", org.properties[0].children[0].value);
    assert_eq!("TITLE", org.keywords[0].key);
    assert_eq!("title", org.keywords[0].value);
    assert_eq!(Some("value".to_string()), org.id);
    assert_eq!(Some("title".to_string()), org.title);
    assert_eq!(2, org.sections.len());

    let s1 = &org.sections[0];
    assert_eq!("TEST1", s1.title);
    assert_eq!("Content1\n\n", s1.contents[0].contents);
    assert_eq!("ID", s1.properties[0].children[0].key);
    assert_eq!("value1", s1.properties[0].children[0].value);
    assert_eq!("CREATED", s1.properties[0].children[1].key);
    assert_eq!("<2023-12-26 Tue 08:02>", s1.properties[0].children[1].value);

    let s2 = &org.sections[1];
    assert_eq!("test2", s2.title);
    assert_eq!("Content2\n\n", s2.contents[0].contents);
    assert_eq!("ID", s2.properties[0].children[0].key);
    assert_eq!("value2", s2.properties[0].children[0].value);
}

#[test]
fn test_rule_org_simple1() {
    let org = parse_ok(":PROPERTIES:\n:ID:   value\n:END:\n#+TITLE: title\n\n");
    assert_eq!(1, org.properties.len());
    assert_eq!(1, org.keywords.len());
    assert_eq!(0, org.sections.len());
}

#[test]
fn section_with_property_and_content() {
    let org = parse_ok("* TEST\n:PROPERTIES:\n:ID:   value\n:END:\n\nContent\n");
    assert_eq!(1, org.sections.len());
    let sec = &org.sections[0];
    assert_eq!("TEST", sec.title);
    assert_eq!(1, sec.properties.len());
    assert_eq!(1, sec.properties[0].children.len());
    assert_eq!("ID", sec.properties[0].children[0].key);
    assert_eq!("value", sec.properties[0].children[0].value);
    assert_eq!(1, sec.contents.len());
    assert_eq!("Content\n", sec.contents[0].contents);
}

#[test]
fn positions_are_line_and_column() {
    let org = parse_ok("* TEST\n:PROPERTIES:\n:ID:   value\n:END:\n\nContent\n");
    let sec = &org.sections[0];
    assert_eq!((1, 1), (sec.pos.line, sec.pos.col));
    assert_eq!((2, 1), (sec.properties[0].pos.line, sec.properties[0].pos.col));
    assert_eq!((3, 2), (sec.properties[0].children[0].pos.line, sec.properties[0].children[0].pos.col));
    assert_eq!((6, 1), (sec.contents[0].pos.line, sec.contents[0].pos.col));
}

#[test]
fn parsing_twice_gives_the_same_tree() {
    let content = "#+TITLE: t\n* A\nSCHEDULED: <2024-12-03 Tue 12:34>\n** B\ntext\n* C\n:LOGBOOK:\nx [y]\n:END:\n";
    assert_eq!(parse_ok(content), parse_ok(content));
}

#[test]
fn sections_nest_by_heading_depth() {
    let org = parse_ok("* A\n** B\n*** C\n** D\n* E\n*** F\n** G\n");
    let titles: Vec<&str> = org.sections.iter().map(|s| s.title.as_str()).collect();
    assert_eq!(vec!["A", "E"], titles);
    let a = &org.sections[0];
    assert_eq!(2, a.sections.len());
    assert_eq!("B", a.sections[0].title);
    assert_eq!("C", a.sections[0].sections[0].title);
    assert_eq!("D", a.sections[1].title);
    let e = &org.sections[1];
    assert_eq!(2, e.sections.len());
    assert_eq!("F", e.sections[0].title);
    assert_eq!("G", e.sections[1].title);
}

#[test]
fn id_lookup_ignores_case() {
    assert_eq!(Some("x".to_string()), parse_ok(":PROPERTIES:\n:id: x\n:END:\n").id);
    assert_eq!(Some("y".to_string()), parse_ok(":PROPERTIES:\n:ID: y\n:END:\n").id);
    assert_eq!(Some("z".to_string()), parse_ok("#+title: z\n").title);
    assert_eq!(None, parse_ok(":PROPERTIES:\n:IDX: y\n:END:\n").id);
}

#[test]
fn unclosed_block_is_an_error() {
    let mut ctx = Context::new();
    assert_eq!(Err(ParseError::UnclosedBlock(2)), parse(&mut ctx, "* A\n:PROPERTIES:\n:ID: x\n").map(|_| ()));
    assert_eq!(Err(ParseError::UnclosedBlock(1)), parse(&mut ctx, ":LOGBOOK:\nx\n").map(|_| ()));
}

#[test]
fn non_property_in_block_is_an_error() {
    let mut ctx = Context::new();
    assert_eq!(Err(ParseError::InvalidProperty(3)), parse(&mut ctx, ":PROPERTIES:\n:ID: x\nplain\n:END:\n").map(|_| ()));
}

#[test]
fn scheduling_entries_keep_title_and_timestamp() {
    let org = parse_ok("* Foo\nSCHEDULED: <2024-12-03 Tue 12:34> DEADLINE: <2024-12-04 Wed>\n");
    let sec = &org.sections[0];
    assert_eq!(2, sec.scheduling.len());
    match &sec.scheduling[0] {
        org_parser::Scheduling::Scheduled(p, t, d) => {
            assert_eq!((2, 1), (p.line, p.col));
            assert_eq!("Foo", t);
            assert_eq!("2024-12-03 Tue 12:34", d);
        }
        _ => panic!("expected a scheduled entry"),
    }
    match &sec.scheduling[1] {
        org_parser::Scheduling::Deadline(p, t, d) => {
            assert_eq!((2, 35), (p.line, p.col));
            assert_eq!("Foo", t);
            assert_eq!("2024-12-04 Wed", d);
        }
        _ => panic!("expected a deadline"),
    }
}

#[test]
fn empty_document() {
    let org = parse_ok("");
    assert_eq!(0, org.sections.len());
    assert_eq!(None, org.id);
}
