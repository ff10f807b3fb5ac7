//! Building the section tree from the blocks of a document, in order.
use vstd::prelude::*;
use crate::document::{Content, Drawer, Keyword, Org, Properties, Property, Scheduling, Section};
use crate::line;
use crate::text::chars_of;
use crate::lexer::{Item, SchedEntry};

verus! {

pub open spec fn item_depth(it: Item) -> int {
    match it {
        Item::Heading(d, _, _) => d as int,
        _ => 0,
    }
}

/// The first heading from `k` on whose depth is at most `d`, or the number of items.
pub open spec fn scan_end(items: Seq<Item>, k: int, d: int) -> int
    decreases items.len() - k,
{
    if k < 0 || k >= items.len() {
        items.len() as int
    } else if items[k] is Heading && item_depth(items[k]) <= d {
        k
    } else {
        scan_end(items, k + 1, d)
    }
}

/// Where the section opened by the heading at `i` ends.
pub open spec fn section_end(items: Seq<Item>, i: int) -> int {
    scan_end(items, i + 1, item_depth(items[i]))
}

/// The first heading from `k` on, or the number of items.
pub open spec fn next_heading(items: Seq<Item>, k: int) -> int
    decreases items.len() - k,
{
    if k < 0 || k >= items.len() {
        items.len() as int
    } else if items[k] is Heading {
        k
    } else {
        next_heading(items, k + 1)
    }
}

/// The headings in `k..e` that open the sections found one after another from `k`.
pub open spec fn child_starts(items: Seq<Item>, k: int, e: int) -> Seq<int>
    decreases e - k,
{
    if k < 0 || k >= e || e > items.len() {
        seq![]
    } else if items[k] is Heading {
        let c = section_end(items, k);
        if k < c <= e {
            seq![k] + child_starts(items, c, e)
        } else {
            seq![k]
        }
    } else {
        child_starts(items, k + 1, e)
    }
}

pub open spec fn keywords_in(items: Seq<Item>, a: int, b: int) -> Seq<Keyword>
    decreases b - a,
{
    if b <= a {
        seq![]
    } else {
        keywords_in(items, a, b - 1) + match items[b - 1] {
            Item::Keyword(k) => seq![k],
            _ => seq![],
        }
    }
}

pub open spec fn properties_in(items: Seq<Item>, a: int, b: int) -> Seq<Properties>
    decreases b - a,
{
    if b <= a {
        seq![]
    } else {
        properties_in(items, a, b - 1) + match items[b - 1] {
            Item::Properties(p) => seq![p],
            _ => seq![],
        }
    }
}

pub open spec fn drawers_in(items: Seq<Item>, a: int, b: int) -> Seq<Drawer>
    decreases b - a,
{
    if b <= a {
        seq![]
    } else {
        drawers_in(items, a, b - 1) + match items[b - 1] {
            Item::Drawer(d) => seq![d],
            _ => seq![],
        }
    }
}

pub open spec fn contents_in(items: Seq<Item>, a: int, b: int) -> Seq<Content>
    decreases b - a,
{
    if b <= a {
        seq![]
    } else {
        contents_in(items, a, b - 1) + match items[b - 1] {
            Item::Content(c) => seq![c],
            _ => seq![],
        }
    }
}

pub open spec fn entries_in(items: Seq<Item>, a: int, b: int) -> Seq<SchedEntry>
    decreases b - a,
{
    if b <= a {
        seq![]
    } else {
        entries_in(items, a, b - 1) + match items[b - 1] {
            Item::Scheduling(es) => es@,
            _ => seq![],
        }
    }
}

/// `s` is the entry `e` of a section titled `title`.
pub open spec fn scheduling_matches(s: Scheduling, e: SchedEntry, title: Seq<char>) -> bool {
    match s {
        Scheduling::Scheduled(p, t, ts) => !e.deadline && p == e.pos && t@ == title && ts@
            == e.timestamp@,
        Scheduling::Deadline(p, t, ts) => e.deadline && p == e.pos && t@ == title && ts@
            == e.timestamp@,
    }
}

/// `s` is the section opened by the heading at `i`: its own blocks are those
/// up to the next heading, in order, and its children are the sections that
/// follow one another up to its end.
pub open spec fn section_matches(s: Section, items: Seq<Item>, i: int) -> bool
    decreases items.len() - i,
{
    let h = next_heading(items, i + 1);
    let e = section_end(items, i);
    let cs = child_starts(items, h, e);
    let es = entries_in(items, i + 1, h);
    &&& 0 <= i < items.len()
    &&& match items[i] {
        Item::Heading(_, t, pos) => s.title@ == t@ && s.pos == pos,
        _ => false,
    }
    &&& s.keywords@ == keywords_in(items, i + 1, h)
    &&& s.properties@ == properties_in(items, i + 1, h)
    &&& s.drawers@ == drawers_in(items, i + 1, h)
    &&& s.contents@ == contents_in(items, i + 1, h)
    &&& s.scheduling@.len() == es.len()
    &&& forall|m: int|
        0 <= m < es.len() ==> scheduling_matches(#[trigger] s.scheduling@[m], es[m], s.title@)
    &&& s.sections@.len() == cs.len()
    &&& forall|m: int|
        0 <= m < cs.len() ==> (i < cs[m] < items.len() ==> section_matches(
            #[trigger] s.sections@[m],
            items,
            cs[m],
        ))
}

/// `stack` holds `items[k..]`, the next one last.
pub open spec fn stack_at(stack: Seq<Item>, items: Seq<Item>, k: int) -> bool {
    &&& 0 <= k <= items.len()
    &&& stack.len() == items.len() - k
    &&& forall|x: int| 0 <= x < stack.len() ==> #[trigger] stack[x] == items[items.len() - 1 - x]
}

pub proof fn lemma_scan_end(items: Seq<Item>, k: int, d: int)
    requires
        0 <= k <= items.len(),
    ensures
        k <= scan_end(items, k, d) <= items.len(),
        forall|h: int|
            k <= h < scan_end(items, k, d) ==> !(#[trigger] items[h] is Heading && item_depth(items[h]) <= d),
        scan_end(items, k, d) < items.len() ==> items[scan_end(items, k, d)] is Heading
            && item_depth(items[scan_end(items, k, d)]) <= d,
    decreases items.len() - k,
{
    if k < items.len() {
        lemma_scan_end(items, k + 1, d);
    }
}

pub proof fn lemma_next_heading(items: Seq<Item>, k: int)
    requires
        0 <= k <= items.len(),
    ensures
        k <= next_heading(items, k) <= items.len(),
        next_heading(items, k) < items.len() ==> items[next_heading(items, k)] is Heading,
        forall|h: int| k <= h < next_heading(items, k) ==> !(#[trigger] items[h] is Heading),
    decreases items.len() - k,
{
    if k < items.len() {
        lemma_next_heading(items, k + 1);
    }
}

/// Skipping a deeper section does not pass the end of a shallower one.
pub proof fn lemma_scan_skip(items: Seq<Item>, a: int, dk: int, d: int)
    requires
        0 <= a <= items.len(),
        d < dk,
    ensures
        scan_end(items, a, d) == scan_end(items, scan_end(items, a, dk), d),
    decreases items.len() - a,
{
    if a < items.len() {
        if items[a] is Heading && item_depth(items[a]) <= dk {
        } else {
            lemma_scan_skip(items, a + 1, dk, d);
        }
    }
}

pub proof fn lemma_child_starts(items: Seq<Item>, k: int, e: int)
    requires
        0 <= k,
        e <= items.len(),
    ensures
        forall|m: int|
            0 <= m < child_starts(items, k, e).len() ==> k <= #[trigger] child_starts(items, k, e)[m]
                < e,
    decreases e - k,
{
    if k < e {
        if items[k] is Heading {
            let c = section_end(items, k);
            if k < c <= e {
                lemma_child_starts(items, c, e);
                let cs = child_starts(items, k, e);
                assert forall|m: int| 0 <= m < cs.len() implies k <= #[trigger] cs[m] < e by {
                    if m > 0 {
                        assert(cs[m] == child_starts(items, c, e)[m - 1]);
                    }
                }
            }
        } else {
            lemma_child_starts(items, k + 1, e);
            let cs = child_starts(items, k, e);
            assert forall|m: int| 0 <= m < cs.len() implies k <= #[trigger] cs[m] < e by {
                assert(cs[m] == child_starts(items, k + 1, e)[m]);
            }
        }
    }
}


fn heading_deeper(it: &Item, d: usize) -> (r: bool)
    ensures
        r == (*it is Heading && item_depth(*it) > d),
{
    match it {
        Item::Heading(e, _, _) => *e > d,
        _ => false,
    }
}

fn is_heading_item(it: &Item) -> (r: bool)
    ensures
        r == (*it is Heading),
{
    match it {
        Item::Heading(..) => true,
        _ => false,
    }
}

/// Appends the entries of a scheduling line, each with the section's title.
fn add_entries(sec: &mut Section, es: &Vec<SchedEntry>)
    ensures
        final(sec).scheduling@.len() == old(sec).scheduling@.len() + es@.len(),
        forall|m: int|
            0 <= m < old(sec).scheduling@.len() ==> #[trigger] final(sec).scheduling@[m]
                == old(sec).scheduling@[m],
        forall|m: int|
            0 <= m < es@.len() ==> scheduling_matches(
                #[trigger] final(sec).scheduling@[old(sec).scheduling@.len() + m],
                es@[m],
                old(sec).title@,
            ),
        final(sec).title == old(sec).title,
        final(sec).pos == old(sec).pos,
        final(sec).keywords == old(sec).keywords,
        final(sec).properties == old(sec).properties,
        final(sec).drawers == old(sec).drawers,
        final(sec).contents == old(sec).contents,
        final(sec).sections == old(sec).sections,
{
    let ghost base = sec.scheduling@;
    let mut t: usize = 0;
    while t < es.len()
        invariant
            t <= es@.len(),
            sec.scheduling@.len() == base.len() + t,
            forall|m: int| 0 <= m < base.len() ==> #[trigger] sec.scheduling@[m] == base[m],
            forall|m: int|
                0 <= m < t ==> scheduling_matches(
                    #[trigger] sec.scheduling@[base.len() + m],
                    es@[m],
                    old(sec).title@,
                ),
            sec.title == old(sec).title,
            sec.pos == old(sec).pos,
            sec.keywords == old(sec).keywords,
            sec.properties == old(sec).properties,
            sec.drawers == old(sec).drawers,
            sec.contents == old(sec).contents,
            sec.sections == old(sec).sections,
            base == old(sec).scheduling@,
        decreases es@.len() - t,
    {
        let e = &es[t];
        let title = sec.title.clone();
        let ts = e.timestamp.clone();
        let sch = if e.deadline {
            Scheduling::Deadline(e.pos, title, ts)
        } else {
            Scheduling::Scheduled(e.pos, title, ts)
        };
        sec.scheduling.push(sch);
        proof {
            assert(sec.scheduling@[base.len() + t as int] == sch);
        }
        t += 1;
    }
}

/// Builds the section opened by the heading at `i`, taking its items off the stack.
fn build_section(stack: &mut Vec<Item>, Ghost(items): Ghost<Seq<Item>>, Ghost(i): Ghost<int>) -> (s: Section)
    requires
        stack_at(old(stack)@, items, i),
        0 <= i < items.len(),
        items[i] is Heading,
    ensures
        stack_at(final(stack)@, items, section_end(items, i)),
        section_matches(s, items, i),
    decreases items.len() - i,
{
    let ghost n = items.len();
    assert(stack@[stack@.len() - 1] == items[i]);
    let top = stack.pop();
    let (d, title, pos) = match top {
        Some(Item::Heading(d, t, p)) => (d, t, p),
        _ => {
            proof {
                assert(false);
            }
            (0, String::new(), crate::document::Pos::new(0, 0))
        },
    };
    let mut sec = Section {
        pos,
        title,
        drawers: Vec::new(),
        properties: Vec::new(),
        keywords: Vec::new(),
        contents: Vec::new(),
        sections: Vec::new(),
        scheduling: Vec::new(),
    };
    let ghost mut k: int = i + 1;
    proof {
        assert(stack_at(stack@, items, k));
        assert(keywords_in(items, i + 1, k) =~= seq![]);
        assert(properties_in(items, i + 1, k) =~= seq![]);
        assert(drawers_in(items, i + 1, k) =~= seq![]);
        assert(contents_in(items, i + 1, k) =~= seq![]);
        assert(entries_in(items, i + 1, k) =~= seq![]);
    }
    while stack.len() > 0 && !is_heading_item(&stack[stack.len() - 1])
        invariant
            stack_at(stack@, items, k),
            i < k <= n,
            n == items.len(),
            items[i] is Heading,
            item_depth(items[i]) == d,
            match items[i] {
                Item::Heading(_, t, p) => sec.title@ == t@ && sec.pos == p,
                _ => false,
            },
            next_heading(items, i + 1) == next_heading(items, k),
            scan_end(items, i + 1, d as int) == scan_end(items, k, d as int),
            sec.keywords@ == keywords_in(items, i + 1, k),
            sec.properties@ == properties_in(items, i + 1, k),
            sec.drawers@ == drawers_in(items, i + 1, k),
            sec.contents@ == contents_in(items, i + 1, k),
            sec.scheduling@.len() == entries_in(items, i + 1, k).len(),
            forall|m: int|
                0 <= m < sec.scheduling@.len() ==> scheduling_matches(
                    #[trigger] sec.scheduling@[m],
                    entries_in(items, i + 1, k)[m],
                    sec.title@,
                ),
            sec.sections@.len() == 0,
        decreases stack@.len(),
    {
        assert(stack@[stack@.len() - 1] == items[k]);
        let it = stack.pop().unwrap();
        let ghost olds = sec.scheduling@;
        let ghost oldt = sec.title@;
        match it {
            Item::Keyword(kw) => sec.keywords.push(kw),
            Item::Properties(p) => sec.properties.push(p),
            Item::Drawer(dr) => sec.drawers.push(dr),
            Item::Content(c) => sec.contents.push(c),
            Item::Scheduling(es) => add_entries(&mut sec, &es),
            Item::Heading(..) => {
                proof {
                    assert(false);
                }
            },
        }
        proof {
            assert(sec.keywords@ =~= keywords_in(items, i + 1, k + 1));
            assert(sec.properties@ =~= properties_in(items, i + 1, k + 1));
            assert(sec.drawers@ =~= drawers_in(items, i + 1, k + 1));
            assert(sec.contents@ =~= contents_in(items, i + 1, k + 1));
            let ents = entries_in(items, i + 1, k + 1);
            assert forall|m: int| 0 <= m < sec.scheduling@.len() implies scheduling_matches(
                #[trigger] sec.scheduling@[m],
                ents[m],
                sec.title@,
            ) by {
                if m < olds.len() {
                    assert(ents[m] == entries_in(items, i + 1, k)[m]);
                } else {
                    if let Item::Scheduling(es) = items[k] {
                        assert(ents[m] == es@[m - olds.len()]);
                        assert(sec.scheduling@[olds.len() + (m - olds.len())] == sec.scheduling@[m]);
                    }
                }
            }
            k = k + 1;
        }
    }
    proof {
        lemma_next_heading(items, k);
        lemma_scan_end(items, k, d as int);
        lemma_scan_end(items, i + 1, d as int);
        lemma_next_heading(items, i + 1);
    }
    let ghost h = k;
    let ghost e = section_end(items, i);
    let ghost mut done: Seq<int> = seq![];
    while stack.len() > 0 && heading_deeper(&stack[stack.len() - 1], d)
        invariant
            stack_at(stack@, items, k),
            i < h <= k <= n,
            n == items.len(),
            h == next_heading(items, i + 1),
            e == section_end(items, i),
            items[i] is Heading,
            item_depth(items[i]) == d,
            k < n ==> items[k] is Heading,
            match items[i] {
                Item::Heading(_, t, p) => sec.title@ == t@ && sec.pos == p,
                _ => false,
            },
            e == scan_end(items, k, d as int),
            child_starts(items, h, e) == done + child_starts(items, k, e),
            sec.sections@.len() == done.len(),
            forall|m: int| 0 <= m < done.len() ==> i < #[trigger] done[m] < n,
            forall|m: int|
                0 <= m < done.len() ==> section_matches(#[trigger] sec.sections@[m], items, done[m]),
            sec.keywords@ == keywords_in(items, i + 1, h),
            sec.properties@ == properties_in(items, i + 1, h),
            sec.drawers@ == drawers_in(items, i + 1, h),
            sec.contents@ == contents_in(items, i + 1, h),
            sec.scheduling@.len() == entries_in(items, i + 1, h).len(),
            forall|m: int|
                0 <= m < sec.scheduling@.len() ==> scheduling_matches(
                    #[trigger] sec.scheduling@[m],
                    entries_in(items, i + 1, h)[m],
                    sec.title@,
                ),
        decreases n - k,
    {
        assert(stack@[stack@.len() - 1] == items[k]);
        let ghost kk = k;
        let ghost dk = item_depth(items[kk]);
        let child = build_section(stack, Ghost(items), Ghost(kk));
        let ghost before = sec.sections@;
        sec.sections.push(child);
        proof {
            let c = section_end(items, kk);
            lemma_scan_end(items, kk + 1, dk);
            lemma_scan_end(items, c, d as int);
            lemma_scan_skip(items, kk + 1, dk, d as int);
            assert(c <= e);
            assert(child_starts(items, kk, e) == seq![kk] + child_starts(items, c, e));
            assert(done + child_starts(items, kk, e) =~= done.push(kk) + child_starts(items, c, e));
            done = done.push(kk);
            assert forall|m: int| 0 <= m < done.len() implies section_matches(
                #[trigger] sec.sections@[m],
                items,
                done[m],
            ) by {
                if m < before.len() {
                    assert(sec.sections@[m] == before[m]);
                }
            }
            k = c;
        }
    }
    proof {
        assert(k == e);
        assert(done + seq![] =~= done);
    }
    sec
}


// ---------------------------------------------------------------- the document

pub open spec fn opt_view(o: Option<String>) -> Option<Seq<char>> {
    match o {
        Some(s) => Some(s@),
        None => None,
    }
}

/// `k` is `w`, up to the case of ASCII letters.
pub open spec fn key_is(k: Seq<char>, w: Seq<char>) -> bool {
    line::has_word_ic(k, 0, k.len() as int, w)
}

/// The properties of a sequence of property blocks, in order.
pub open spec fn all_properties(ps: Seq<Properties>) -> Seq<Property>
    decreases ps.len(),
{
    if ps.len() == 0 {
        seq![]
    } else {
        all_properties(ps.drop_last()) + ps.last().children@
    }
}

/// The value of the last property whose key is `ID`, in any case.
pub open spec fn id_in(props: Seq<Property>) -> Option<Seq<char>>
    decreases props.len(),
{
    if props.len() == 0 {
        None
    } else if key_is(props.last().key@, seq!['i', 'd']) {
        Some(props.last().value@)
    } else {
        id_in(props.drop_last())
    }
}

/// The value of the last keyword line whose key is `TITLE`, in any case.
pub open spec fn title_in(ks: Seq<Keyword>) -> Option<Seq<char>>
    decreases ks.len(),
{
    if ks.len() == 0 {
        None
    } else if key_is(ks.last().key@, seq!['t', 'i', 't', 'l', 'e']) {
        Some(ks.last().value@)
    } else {
        title_in(ks.drop_last())
    }
}

/// `org` is the document whose blocks are `items`: its own blocks are those
/// before the first heading, and its sections follow one another from there.
pub open spec fn org_matches(org: Org, items: Seq<Item>) -> bool {
    let h = next_heading(items, 0);
    let cs = child_starts(items, h, items.len() as int);
    &&& org.filename is None
    &&& org.keywords@ == keywords_in(items, 0, h)
    &&& org.properties@ == properties_in(items, 0, h)
    &&& org.drawers@ == drawers_in(items, 0, h)
    &&& org.sections@.len() == cs.len()
    &&& forall|m: int|
        0 <= m < cs.len() ==> section_matches(#[trigger] org.sections@[m], items, cs[m])
    &&& opt_view(org.id) == id_in(all_properties(org.properties@))
    &&& opt_view(org.title) == title_in(org.keywords@)
}

fn key_matches(k: &String, w: &Vec<char>) -> (r: bool)
    ensures
        r == key_is(k@, w@),
{
    let cs = chars_of(k.as_str());
    line::word_ic_at(&cs, 0, cs.len(), w)
}

/// The value of the last `ID` property of the blocks, the key compared without case.
pub fn find_id(ps: &Vec<Properties>) -> (r: Option<String>)
    ensures
        opt_view(r) == id_in(all_properties(ps@)),
{
    let w: Vec<char> = vec!['i', 'd'];
    let mut cur: Option<String> = None;
    let mut b: usize = 0;
    while b < ps.len()
        invariant
            b <= ps@.len(),
            w@ == seq!['i', 'd'],
            opt_view(cur) == id_in(all_properties(ps@.take(b as int))),
        decreases ps@.len() - b,
    {
        let ch = &ps[b].children;
        let ghost pre = all_properties(ps@.take(b as int));
        let mut x: usize = 0;
        while x < ch.len()
            invariant
                x <= ch@.len(),
                b < ps@.len(),
                ch == ps@[b as int].children,
                w@ == seq!['i', 'd'],
                opt_view(cur) == id_in(pre + ch@.take(x as int)),
            decreases ch@.len() - x,
        {
            let p = &ch[x];
            proof {
                assert((pre + ch@.take(x + 1)).drop_last() =~= pre + ch@.take(x as int));
                assert((pre + ch@.take(x + 1)).last() == ch@[x as int]);
            }
            if key_matches(&p.key, &w) {
                cur = Some(p.value.clone());
            }
            x += 1;
        }
        proof {
            assert(ps@.take(b + 1).drop_last() =~= ps@.take(b as int));
            assert(ch@.take(ch@.len() as int) =~= ch@);
        }
        b += 1;
    }
    proof {
        assert(ps@.take(ps@.len() as int) =~= ps@);
    }
    cur
}

/// The value of the last `TITLE` keyword line, the key compared without case.
pub fn find_title(ks: &Vec<Keyword>) -> (r: Option<String>)
    ensures
        opt_view(r) == title_in(ks@),
{
    let w: Vec<char> = vec!['t', 'i', 't', 'l', 'e'];
    let mut cur: Option<String> = None;
    let mut x: usize = 0;
    while x < ks.len()
        invariant
            x <= ks@.len(),
            w@ == seq!['t', 'i', 't', 'l', 'e'],
            opt_view(cur) == title_in(ks@.take(x as int)),
        decreases ks@.len() - x,
    {
        proof {
            assert(ks@.take(x + 1).drop_last() =~= ks@.take(x as int));
        }
        if key_matches(&ks[x].key, &w) {
            cur = Some(ks[x].value.clone());
        }
        x += 1;
    }
    proof {
        assert(ks@.take(ks@.len() as int) =~= ks@);
    }
    cur
}

/// Builds the document from its blocks.
pub fn build_org(items: Vec<Item>) -> (org: Org)
    ensures
        org_matches(org, items@),
{
    let ghost all = items@;
    let ghost n = items@.len();
    let mut items = items;
    let mut stack: Vec<Item> = Vec::new();
    while items.len() > 0
        invariant
            n == all.len(),
            items@.len() + stack@.len() == n,
            items@ == all.take(items@.len() as int),
            forall|x: int| 0 <= x < stack@.len() ==> #[trigger] stack@[x] == all[n - 1 - x],
        decreases items@.len(),
    {
        let it = items.pop().unwrap();
        stack.push(it);
        proof {
            assert(items@ =~= all.take(items@.len() as int));
        }
    }
    let mut org = Org::new();
    let ghost mut k: int = 0;
    proof {
        assert(stack_at(stack@, all, 0));
        assert(keywords_in(all, 0, 0) =~= seq![]);
        assert(properties_in(all, 0, 0) =~= seq![]);
        assert(drawers_in(all, 0, 0) =~= seq![]);
    }
    while stack.len() > 0 && !is_heading_item(&stack[stack.len() - 1])
        invariant
            stack_at(stack@, all, k),
            0 <= k <= n,
            n == all.len(),
            next_heading(all, 0) == next_heading(all, k),
            org.keywords@ == keywords_in(all, 0, k),
            org.properties@ == properties_in(all, 0, k),
            org.drawers@ == drawers_in(all, 0, k),
            org.sections@.len() == 0,
            org.filename is None,
        decreases stack@.len(),
    {
        assert(stack@[stack@.len() - 1] == all[k]);
        let it = stack.pop().unwrap();
        match it {
            Item::Keyword(kw) => org.keywords.push(kw),
            Item::Properties(p) => org.properties.push(p),
            Item::Drawer(dr) => org.drawers.push(dr),
            _ => {},
        }
        proof {
            assert(org.keywords@ =~= keywords_in(all, 0, k + 1));
            assert(org.properties@ =~= properties_in(all, 0, k + 1));
            assert(org.drawers@ =~= drawers_in(all, 0, k + 1));
            k = k + 1;
        }
    }
    proof {
        lemma_next_heading(all, k);
    }
    let ghost h = k;
    let ghost mut done: Seq<int> = seq![];
    while stack.len() > 0
        invariant
            stack_at(stack@, all, k),
            h <= k <= n,
            n == all.len(),
            h == next_heading(all, 0),
            k < n ==> all[k] is Heading,
            child_starts(all, h, n as int) == done + child_starts(all, k, n as int),
            org.sections@.len() == done.len(),
            forall|m: int| 0 <= m < done.len() ==> 0 <= #[trigger] done[m] < n,
            forall|m: int|
                0 <= m < done.len() ==> section_matches(#[trigger] org.sections@[m], all, done[m]),
            org.keywords@ == keywords_in(all, 0, h),
            org.properties@ == properties_in(all, 0, h),
            org.drawers@ == drawers_in(all, 0, h),
            org.filename is None,
        decreases n - k,
    {
        let ghost kk = k;
        let child = build_section(&mut stack, Ghost(all), Ghost(kk));
        let ghost before = org.sections@;
        org.sections.push(child);
        proof {
            let c = section_end(all, kk);
            lemma_scan_end(all, kk + 1, item_depth(all[kk]));
            assert(child_starts(all, kk, n as int) == seq![kk] + child_starts(all, c, n as int));
            assert(done + child_starts(all, kk, n as int) =~= done.push(kk) + child_starts(all, c, n as int));
            done = done.push(kk);
            assert forall|m: int| 0 <= m < done.len() implies section_matches(
                #[trigger] org.sections@[m],
                all,
                done[m],
            ) by {
                if m < before.len() {
                    assert(org.sections@[m] == before[m]);
                }
            }
            lemma_scan_end(all, c, 0);
            k = c;
        }
    }
    proof {
        assert(done + seq![] =~= done);
    }
    org.id = find_id(&org.properties);
    org.title = find_title(&org.keywords);
    org
}

} // verus!
