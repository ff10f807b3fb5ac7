//! Structural equality of documents: the same shape, positions and text.
use vstd::prelude::*;
use crate::document::{Content, Drawer, Keyword, Org, Pos, Properties, Property, Scheduling, Section};
use crate::reminder::is_deadline;
use crate::lexer::{item_matches, Block, Item, SchedEntry};
use crate::tree::{
    all_properties, child_starts, contents_in, drawers_in, entries_in, id_in, item_depth,
    keywords_in, next_heading, opt_view, properties_in, scan_end, scheduling_matches,
    section_end, section_matches, title_in,
};

verus! {

pub open spec fn keyword_view(k: Keyword) -> (Seq<char>, Seq<char>, Pos) {
    (k.key@, k.value@, k.pos)
}

pub open spec fn property_view(p: Property) -> (Seq<char>, Seq<char>, Pos) {
    (p.key@, p.value@, p.pos)
}

pub open spec fn content_view(c: Content) -> (Pos, Seq<char>) {
    (c.pos, c.contents@)
}

pub open spec fn scheduling_view(s: Scheduling) -> (bool, Pos, Seq<char>, Seq<char>) {
    let p = match s {
        Scheduling::Scheduled(p, _, _) => p,
        Scheduling::Deadline(p, _, _) => p,
    };
    (is_deadline(s), p, s.title_view(), s.timestamp_view())
}

pub open spec fn entry_view(e: SchedEntry) -> (bool, Pos, Seq<char>) {
    (e.deadline, e.pos, e.timestamp@)
}

pub open spec fn same_keywords(a: Seq<Keyword>, b: Seq<Keyword>) -> bool {
    a.len() == b.len() && forall|i: int| 0 <= i < a.len() ==> keyword_view(#[trigger] a[i]) == keyword_view(b[i])
}

pub open spec fn same_property_list(a: Seq<Property>, b: Seq<Property>) -> bool {
    a.len() == b.len() && forall|i: int| 0 <= i < a.len() ==> property_view(#[trigger] a[i]) == property_view(b[i])
}

pub open spec fn same_contents(a: Seq<Content>, b: Seq<Content>) -> bool {
    a.len() == b.len() && forall|i: int| 0 <= i < a.len() ==> content_view(#[trigger] a[i]) == content_view(b[i])
}

pub open spec fn same_schedulings(a: Seq<Scheduling>, b: Seq<Scheduling>) -> bool {
    a.len() == b.len() && forall|i: int| 0 <= i < a.len() ==> scheduling_view(#[trigger] a[i]) == scheduling_view(b[i])
}

pub open spec fn same_entries(a: Seq<SchedEntry>, b: Seq<SchedEntry>) -> bool {
    a.len() == b.len() && forall|i: int| 0 <= i < a.len() ==> entry_view(#[trigger] a[i]) == entry_view(b[i])
}

pub open spec fn same_block(p: Properties, q: Properties) -> bool {
    p.pos == q.pos && same_property_list(p.children@, q.children@)
}

pub open spec fn same_blocks(a: Seq<Properties>, b: Seq<Properties>) -> bool {
    a.len() == b.len() && forall|i: int| 0 <= i < a.len() ==> same_block(#[trigger] a[i], b[i])
}

pub open spec fn same_drawer(d: Drawer, e: Drawer) -> bool {
    d.name@ == e.name@ && d.pos == e.pos && same_contents(d.children@, e.children@)
}

pub open spec fn same_drawers(a: Seq<Drawer>, b: Seq<Drawer>) -> bool {
    a.len() == b.len() && forall|i: int| 0 <= i < a.len() ==> same_drawer(#[trigger] a[i], b[i])
}

/// `a` and `b` hold the same blocks, text and positions, and so do their children.
pub open spec fn same_section(a: Section, b: Section) -> bool
    decreases a,
{
    &&& a.pos == b.pos
    &&& a.title@ == b.title@
    &&& same_keywords(a.keywords@, b.keywords@)
    &&& same_blocks(a.properties@, b.properties@)
    &&& same_drawers(a.drawers@, b.drawers@)
    &&& same_contents(a.contents@, b.contents@)
    &&& same_schedulings(a.scheduling@, b.scheduling@)
    &&& a.sections@.len() == b.sections@.len()
    &&& forall|i: int|
        0 <= i < a.sections@.len() ==> same_section(#[trigger] a.sections@[i], b.sections@[i])
}

/// `a` and `b` are the same document.
pub open spec fn same_org(a: Org, b: Org) -> bool {
    &&& opt_view(a.filename) == opt_view(b.filename)
    &&& opt_view(a.id) == opt_view(b.id)
    &&& opt_view(a.title) == opt_view(b.title)
    &&& same_keywords(a.keywords@, b.keywords@)
    &&& same_blocks(a.properties@, b.properties@)
    &&& same_drawers(a.drawers@, b.drawers@)
    &&& a.sections@.len() == b.sections@.len()
    &&& forall|i: int|
        0 <= i < a.sections@.len() ==> same_section(#[trigger] a.sections@[i], b.sections@[i])
}

/// `a` and `b` are the same block, built.
pub open spec fn same_item(a: Item, b: Item) -> bool {
    match (a, b) {
        (Item::Heading(d, t, p), Item::Heading(e, u, q)) => d == e && t@ == u@ && p == q,
        (Item::Keyword(k), Item::Keyword(l)) => keyword_view(k) == keyword_view(l),
        (Item::Properties(k), Item::Properties(l)) => same_block(k, l),
        (Item::Drawer(k), Item::Drawer(l)) => same_drawer(k, l),
        (Item::Scheduling(k), Item::Scheduling(l)) => same_entries(k@, l@),
        (Item::Content(k), Item::Content(l)) => content_view(k) == content_view(l),
        _ => false,
    }
}

pub open spec fn same_items(a: Seq<Item>, b: Seq<Item>) -> bool {
    a.len() == b.len() && forall|k: int| 0 <= k < a.len() ==> same_item(#[trigger] a[k], b[k])
}

/// What a block holds is fixed by the lines.
pub proof fn lemma_item_unique(a: Item, b: Item, ls: Seq<Seq<char>>, bl: (Block, int, int))
    requires
        item_matches(a, ls, bl),
        item_matches(b, ls, bl),
    ensures
        same_item(a, b),
{
}

proof fn lemma_scan_end_same(a: Seq<Item>, b: Seq<Item>, k: int, d: int)
    requires
        same_items(a, b),
    ensures
        scan_end(a, k, d) == scan_end(b, k, d),
    decreases a.len() - k,
{
    if 0 <= k < a.len() {
        assert(same_item(a[k], b[k]));
        lemma_scan_end_same(a, b, k + 1, d);
    }
}

proof fn lemma_next_heading_same(a: Seq<Item>, b: Seq<Item>, k: int)
    requires
        same_items(a, b),
    ensures
        next_heading(a, k) == next_heading(b, k),
    decreases a.len() - k,
{
    if 0 <= k < a.len() {
        assert(same_item(a[k], b[k]));
        lemma_next_heading_same(a, b, k + 1);
    }
}

proof fn lemma_child_starts_same(a: Seq<Item>, b: Seq<Item>, k: int, e: int)
    requires
        same_items(a, b),
    ensures
        child_starts(a, k, e) == child_starts(b, k, e),
    decreases e - k,
{
    if 0 <= k < e && e <= a.len() {
        assert(same_item(a[k], b[k]));
        if a[k] is Heading {
            lemma_scan_end_same(a, b, k + 1, item_depth(a[k]));
            let c = section_end(a, k);
            if k < c <= e {
                lemma_child_starts_same(a, b, c, e);
            }
        } else {
            lemma_child_starts_same(a, b, k + 1, e);
        }
    }
}

proof fn lemma_in_same(a: Seq<Item>, b: Seq<Item>, x: int, y: int)
    requires
        same_items(a, b),
        0 <= x,
        y <= a.len(),
    ensures
        same_keywords(keywords_in(a, x, y), keywords_in(b, x, y)),
        same_blocks(properties_in(a, x, y), properties_in(b, x, y)),
        same_drawers(drawers_in(a, x, y), drawers_in(b, x, y)),
        same_contents(contents_in(a, x, y), contents_in(b, x, y)),
        same_entries(entries_in(a, x, y), entries_in(b, x, y)),
    decreases y - x,
{
    if x < y {
        lemma_in_same(a, b, x, y - 1);
        assert(same_item(a[y - 1], b[y - 1]));
        let (ka, kb) = (keywords_in(a, x, y), keywords_in(b, x, y));
        assert forall|i: int| 0 <= i < ka.len() implies keyword_view(#[trigger] ka[i]) == keyword_view(kb[i]) by {
            if i < keywords_in(a, x, y - 1).len() {
                assert(ka[i] == keywords_in(a, x, y - 1)[i]);
                assert(kb[i] == keywords_in(b, x, y - 1)[i]);
            }
        }
        let (pa, pb) = (properties_in(a, x, y), properties_in(b, x, y));
        assert forall|i: int| 0 <= i < pa.len() implies same_block(#[trigger] pa[i], pb[i]) by {
            if i < properties_in(a, x, y - 1).len() {
                assert(pa[i] == properties_in(a, x, y - 1)[i]);
                assert(pb[i] == properties_in(b, x, y - 1)[i]);
            }
        }
        let (da, db) = (drawers_in(a, x, y), drawers_in(b, x, y));
        assert forall|i: int| 0 <= i < da.len() implies same_drawer(#[trigger] da[i], db[i]) by {
            if i < drawers_in(a, x, y - 1).len() {
                assert(da[i] == drawers_in(a, x, y - 1)[i]);
                assert(db[i] == drawers_in(b, x, y - 1)[i]);
            }
        }
        let (ca, cb) = (contents_in(a, x, y), contents_in(b, x, y));
        assert forall|i: int| 0 <= i < ca.len() implies content_view(#[trigger] ca[i]) == content_view(cb[i]) by {
            if i < contents_in(a, x, y - 1).len() {
                assert(ca[i] == contents_in(a, x, y - 1)[i]);
                assert(cb[i] == contents_in(b, x, y - 1)[i]);
            }
        }
        let ea = entries_in(a, x, y - 1);
        let eb = entries_in(b, x, y - 1);
        let (la, lb) = match (a[y - 1], b[y - 1]) {
            (Item::Scheduling(k), Item::Scheduling(l)) => (k@, l@),
            _ => (seq![], seq![]),
        };
        assert(entries_in(a, x, y) == ea + la);
        assert(entries_in(b, x, y) == eb + lb);
        assert(same_entries(la, lb));
        assert forall|m: int| 0 <= m < ea.len() + la.len() implies entry_view(#[trigger] (ea + la)[m]) == entry_view((eb + lb)[m]) by {
            if m < ea.len() {
                assert(entry_view(ea[m]) == entry_view(eb[m]));
            } else {
                assert(entry_view(la[m - ea.len()]) == entry_view(lb[m - ea.len()]));
            }
        }
    }
}

/// The section opened at `i` is fixed by the blocks.
pub proof fn lemma_section_unique(a: Seq<Item>, b: Seq<Item>, i: int, s: Section, t: Section)
    requires
        same_items(a, b),
        section_matches(s, a, i),
        section_matches(t, b, i),
    ensures
        same_section(s, t),
    decreases a.len() - i,
{
    assert(same_item(a[i], b[i]));
    lemma_next_heading_same(a, b, i + 1);
    lemma_scan_end_same(a, b, i + 1, item_depth(a[i]));
    let h = next_heading(a, i + 1);
    let e = section_end(a, i);
    lemma_child_starts_same(a, b, h, e);
    crate::tree::lemma_next_heading(a, i + 1);
    crate::tree::lemma_scan_end(a, i + 1, item_depth(a[i]));
    lemma_in_same(a, b, i + 1, h);
    let ea = entries_in(a, i + 1, h);
    let eb = entries_in(b, i + 1, h);
    assert forall|m: int| 0 <= m < s.scheduling@.len() implies scheduling_view(
        #[trigger] s.scheduling@[m],
    ) == scheduling_view(t.scheduling@[m]) by {
        assert(scheduling_matches(s.scheduling@[m], ea[m], s.title@));
        assert(scheduling_matches(t.scheduling@[m], eb[m], t.title@));
        assert(entry_view(ea[m]) == entry_view(eb[m]));
    }
    let cs = child_starts(a, h, e);
    crate::tree::lemma_child_starts(a, h, e);
    assert forall|m: int| 0 <= m < s.sections@.len() implies same_section(
        #[trigger] s.sections@[m],
        t.sections@[m],
    ) by {
        assert(i < cs[m] < a.len());
        lemma_section_unique(a, b, cs[m], s.sections@[m], t.sections@[m]);
    }
}

proof fn lemma_all_properties_same(p: Seq<Properties>, q: Seq<Properties>)
    requires
        same_blocks(p, q),
    ensures
        same_property_list(all_properties(p), all_properties(q)),
    decreases p.len(),
{
    if p.len() > 0 {
        assert(same_blocks(p.drop_last(), q.drop_last())) by {
            assert forall|m: int| 0 <= m < p.len() - 1 implies same_block(#[trigger] p.drop_last()[m], q.drop_last()[m]) by {
                assert(same_block(p[m], q[m]));
            }
        }
        lemma_all_properties_same(p.drop_last(), q.drop_last());
        assert(same_block(p[p.len() - 1], q[q.len() - 1]));
        let (pa, qa) = (all_properties(p.drop_last()), all_properties(q.drop_last()));
        let (pl, ql) = (p.last().children@, q.last().children@);
        assert(all_properties(p) == pa + pl);
        assert(all_properties(q) == qa + ql);
        assert forall|m: int| 0 <= m < pa.len() + pl.len() implies property_view(#[trigger] (pa + pl)[m]) == property_view((qa + ql)[m]) by {
            if m < pa.len() {
                assert(property_view(pa[m]) == property_view(qa[m]));
            } else {
                assert(property_view(pl[m - pa.len()]) == property_view(ql[m - pa.len()]));
            }
        }
    }
}

proof fn lemma_id_same(p: Seq<Property>, q: Seq<Property>)
    requires
        same_property_list(p, q),
    ensures
        id_in(p) == id_in(q),
    decreases p.len(),
{
    if p.len() > 0 {
        assert(property_view(p[p.len() - 1]) == property_view(q[q.len() - 1]));
        assert(same_property_list(p.drop_last(), q.drop_last())) by {
            assert forall|m: int| 0 <= m < p.len() - 1 implies property_view(#[trigger] p.drop_last()[m]) == property_view(q.drop_last()[m]) by {
                assert(property_view(p[m]) == property_view(q[m]));
            }
        }
        lemma_id_same(p.drop_last(), q.drop_last());
    }
}

proof fn lemma_title_same(p: Seq<Keyword>, q: Seq<Keyword>)
    requires
        same_keywords(p, q),
    ensures
        title_in(p) == title_in(q),
    decreases p.len(),
{
    if p.len() > 0 {
        assert(keyword_view(p[p.len() - 1]) == keyword_view(q[q.len() - 1]));
        assert(same_keywords(p.drop_last(), q.drop_last())) by {
            assert forall|m: int| 0 <= m < p.len() - 1 implies keyword_view(#[trigger] p.drop_last()[m]) == keyword_view(q.drop_last()[m]) by {
                assert(keyword_view(p[m]) == keyword_view(q[m]));
            }
        }
        lemma_title_same(p.drop_last(), q.drop_last());
    }
}

/// The document is fixed by its blocks.
pub proof fn lemma_org_unique(a: Seq<Item>, b: Seq<Item>, o: Org, p: Org)
    requires
        same_items(a, b),
        crate::tree::org_matches(o, a),
        crate::tree::org_matches(p, b),
    ensures
        same_org(o, p),
{
    lemma_next_heading_same(a, b, 0);
    crate::tree::lemma_next_heading(a, 0);
    let h = next_heading(a, 0);
    lemma_child_starts_same(a, b, h, a.len() as int);
    crate::tree::lemma_child_starts(a, h, a.len() as int);
    lemma_in_same(a, b, 0, h);
    lemma_all_properties_same(o.properties@, p.properties@);
    lemma_id_same(all_properties(o.properties@), all_properties(p.properties@));
    lemma_title_same(o.keywords@, p.keywords@);
    let cs = child_starts(a, h, a.len() as int);
    assert forall|m: int| 0 <= m < o.sections@.len() implies same_section(
        #[trigger] o.sections@[m],
        p.sections@[m],
    ) by {
        lemma_section_unique(a, b, cs[m], o.sections@[m], p.sections@[m]);
    }
}

} // verus!
