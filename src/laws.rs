//! Laws that relate the functions of the library.
use vstd::prelude::*;
use crate::document::{Org, Property};
use crate::lexer::{blocks, lines_of, ParseError};
use crate::parser::{items_of, parsed};
use crate::same::{lemma_item_unique, lemma_org_unique, same_item, same_items, same_org};
use crate::tree::org_matches;
use crate::engine::insert_key;
use crate::lexer::Item;
use crate::line::{eq_ignore_case, lower};
use crate::reminder::{entry_reminders, is_deadline, message, target_time};
use crate::document::Scheduling;
use crate::tree::{
    child_starts, id_in, item_depth, key_is, lemma_next_heading, lemma_scan_end, next_heading,
    section_end,
};

verus! {

proof fn lemma_children_from(items: Seq<Item>, i: int, k: int, e: int)
    requires
        0 <= i < items.len(),
        items[i] is Heading,
        e == section_end(items, i),
        i < k <= e,
        k < e ==> items[k] is Heading,
        k < e ==> forall|h: int|
            i < h < k && #[trigger] items[h] is Heading ==> item_depth(items[h]) >= item_depth(
                items[k],
            ),
    ensures
        forall|m: int|
            0 <= m < child_starts(items, k, e).len() ==> {
                let c = #[trigger] child_starts(items, k, e)[m];
                &&& i < c < e
                &&& items[c] is Heading
                &&& item_depth(items[c]) > item_depth(items[i])
                &&& forall|h: int|
                    i < h < c && #[trigger] items[h] is Heading ==> item_depth(items[h])
                        >= item_depth(items[c])
            },
    decreases e - k,
{
    lemma_scan_end(items, i + 1, item_depth(items[i]));
    if k < e {
        let c = section_end(items, k);
        lemma_scan_end(items, k + 1, item_depth(items[k]));
        let cs = child_starts(items, k, e);
        if k < c <= e {
            if c < e {
                assert forall|h: int|
                    i < h < c && #[trigger] items[h] is Heading implies item_depth(items[h])
                    >= item_depth(items[c]) by {
                    if h > k {
                        assert(!(items[h] is Heading && item_depth(items[h]) <= item_depth(items[k])));
                    }
                }
            }
            lemma_children_from(items, i, c, e);
            assert forall|m: int| 0 <= m < cs.len() implies {
                let c2 = #[trigger] cs[m];
                &&& i < c2 < e
                &&& items[c2] is Heading
                &&& item_depth(items[c2]) > item_depth(items[i])
                &&& forall|h: int|
                    i < h < c2 && #[trigger] items[h] is Heading ==> item_depth(items[h])
                        >= item_depth(items[c2])
            } by {
                if m > 0 {
                    assert(cs[m] == child_starts(items, c, e)[m - 1]);
                }
            }
        }
    }
}

/// Sections nest by heading depth: each child of the section opened at `i`
/// is opened by a deeper heading, and `i` is the nearest heading before that
/// child whose depth is smaller than the child's.
pub proof fn lemma_nesting(items: Seq<Item>, i: int)
    requires
        0 <= i < items.len(),
        items[i] is Heading,
    ensures
        forall|m: int|
            0 <= m < child_starts(items, next_heading(items, i + 1), section_end(items, i)).len()
                ==> {
                let c = #[trigger] child_starts(
                    items,
                    next_heading(items, i + 1),
                    section_end(items, i),
                )[m];
                &&& i < c < items.len()
                &&& items[c] is Heading
                &&& item_depth(items[c]) > item_depth(items[i])
                &&& forall|h: int|
                    i < h < c && #[trigger] items[h] is Heading ==> item_depth(items[h])
                        >= item_depth(items[c])
            },
{
    let e = section_end(items, i);
    lemma_scan_end(items, i + 1, item_depth(items[i]));
    lemma_next_heading(items, i + 1);
    let h0 = next_heading(items, i + 1);
    if h0 > e {
        // the first heading after `i` is never past the end of its section
        assert(e < items.len());
        assert(false);
    }
    lemma_children_from(items, i, h0, e);
}

/// Whether a key is `ID` does not depend on the case of its letters: property
/// lists that differ only so give the same `ID`.
pub proof fn lemma_id_case_insensitive(a: Seq<Property>, b: Seq<Property>)
    requires
        a.len() == b.len(),
        forall|i: int|
            0 <= i < a.len() ==> eq_ignore_case(#[trigger] a[i].key@, b[i].key@) && a[i].value@
                == b[i].value@,
    ensures
        id_in(a) == id_in(b),
        key_is(seq!['i', 'd'], seq!['i', 'd']),
        key_is(seq!['I', 'D'], seq!['i', 'd']),
    decreases a.len(),
{
    assert(lower('I') == 'i');
    assert(lower('D') == 'd');
    if a.len() > 0 {
        let (ka, kb) = (a.last().key@, b.last().key@);
        let w = seq!['i', 'd'];
        assert(eq_ignore_case(ka, kb));
        if key_is(ka, w) {
            assert forall|j: int| 0 <= j < w.len() implies lower(#[trigger] kb[0 + j]) == lower(
                w[j],
            ) by {
                assert(lower(ka[0 + j]) == lower(w[j]));
                assert(lower(ka[j]) == lower(kb[j]));
            }
        }
        if key_is(kb, w) {
            assert forall|j: int| 0 <= j < w.len() implies lower(#[trigger] ka[0 + j]) == lower(
                w[j],
            ) by {
                assert(lower(kb[0 + j]) == lower(w[j]));
                assert(lower(ka[j]) == lower(kb[j]));
            }
        }
        assert forall|i: int| 0 <= i < a.len() - 1 implies eq_ignore_case(
            #[trigger] a.drop_last()[i].key@,
            b.drop_last()[i].key@,
        ) && a.drop_last()[i].value@ == b.drop_last()[i].value@ by {
            assert(a.drop_last()[i] == a[i]);
            assert(b.drop_last()[i] == b[i]);
        }
        lemma_id_case_insensitive(a.drop_last(), b.drop_last());
    }
}

/// An entry whose time lies after `now` gives exactly three reminders, 30, 10
/// and 1 minute before that time.
pub proof fn lemma_future_entry(s: Scheduling, now: i64, t: i64)
    requires
        target_time(s.timestamp_view()) == Some(t),
        t > now,
        t >= i64::MIN + 1800,
    ensures
        entry_reminders(s, now).len() == 3,
        entry_reminders(s, now)[0].1 == t - 1800,
        entry_reminders(s, now)[1].1 == t - 600,
        entry_reminders(s, now)[2].1 == t - 60,
        entry_reminders(s, now)[0].0 == message(is_deadline(s), 30, s.title_view()),
        entry_reminders(s, now)[1].0 == message(is_deadline(s), 10, s.title_view()),
        entry_reminders(s, now)[2].0 == message(is_deadline(s), 1, s.title_view()),
{
}

/// An entry whose time does not lie after `now` gives no reminder.
pub proof fn lemma_past_entry(s: Scheduling, now: i64, t: i64)
    requires
        target_time(s.timestamp_view()) == Some(t),
        t <= now,
    ensures
        entry_reminders(s, now).len() == 0,
{
}

/// Adding a reminder twice grows the pending set by at most one.
pub proof fn lemma_dedup(ks: Seq<(Seq<char>, i64)>, k: (Seq<char>, i64))
    ensures
        insert_key(insert_key(ks, k), k).len() <= ks.len() + 1,
        insert_key(insert_key(ks, k), k) == insert_key(ks, k),
{
    if !ks.contains(k) {
        assert(ks.push(k)[ks.len() as int] == k);
    }
}

/// Parsing is deterministic: two parses of the same text both fail with the
/// same error, or both give documents with the same structure, text and positions.
pub proof fn lemma_parse_deterministic(
    s: Seq<char>,
    r1: Result<Org, ParseError>,
    r2: Result<Org, ParseError>,
)
    requires
        parsed(r1, s),
        parsed(r2, s),
    ensures
        match (r1, r2) {
            (Ok(a), Ok(b)) => same_org(a, b),
            (Err(e), Err(f)) => e == f,
            _ => false,
        },
{
    let ls = lines_of(s);
    match (r1, r2) {
        (Ok(a), Ok(b)) => {
            let ia = choose|items: Seq<Item>| items_of(items, ls) && org_matches(a, items);
            let ib = choose|items: Seq<Item>| items_of(items, ls) && org_matches(b, items);
            if let Ok(bs) = blocks(ls, 0) {
                assert forall|k: int| 0 <= k < ia.len() implies same_item(#[trigger] ia[k], ib[k]) by {
                    lemma_item_unique(ia[k], ib[k], ls, bs[k]);
                }
                assert(same_items(ia, ib));
                lemma_org_unique(ia, ib, a, b);
            }
        },
        (Ok(a), Err(f)) => {
            let ia = choose|items: Seq<Item>| items_of(items, ls) && org_matches(a, items);
        },
        (Err(e), Ok(b)) => {
            let ib = choose|items: Seq<Item>| items_of(items, ls) && org_matches(b, items);
        },
        (Err(e), Err(f)) => {},
    }
}

} // verus!
