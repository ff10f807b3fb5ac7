//! Splitting a document into lines and grouping the lines into blocks:
//! headings, keyword lines, property blocks, drawers, scheduling lines and
//! runs of body text.
use vstd::prelude::*;
use crate::document::{Content, Drawer, Keyword, Pos, Properties, Property};
use crate::line;
use crate::text::string_of;

verus! {

/// Why a document could not be parsed.
#[derive(Clone, Copy, Debug, PartialEq, Eq, Structural)]
pub enum ParseError {
    /// A property block or drawer opened on this line has no `:END:`.
    UnclosedBlock(usize),
    /// This line stands inside a property block but is no property.
    InvalidProperty(usize),
}

/// What a run of lines forms.
#[derive(Clone, Copy, Debug, PartialEq, Eq, Structural)]
pub enum Block {
    Heading,
    Keyword,
    Properties,
    Drawer,
    Scheduling,
    Content,
}

/// One entry of a scheduling line, before the title of its section is known.
#[derive(Debug)]
pub struct SchedEntry {
    pub deadline: bool,
    pub pos: Pos,
    pub timestamp: String,
}

/// A block, built.
#[derive(Debug)]
pub enum Item {
    /// Depth, title and position of a heading.
    Heading(usize, String, Pos),
    Keyword(Keyword),
    Properties(Properties),
    Drawer(Drawer),
    Scheduling(Vec<SchedEntry>),
    Content(Content),
}

// ---------------------------------------------------------------- lines

/// The lines of `cs` from index `p`, each with its line break if it has one.
pub open spec fn split_lines(cs: Seq<char>, p: int) -> Seq<Seq<char>>
    decreases cs.len() - p,
{
    if p < 0 || p >= cs.len() {
        seq![]
    } else {
        let k = line::find_char(cs, p, '\n', cs.len() as int);
        let end = if k < cs.len() {
            k + 1
        } else {
            cs.len() as int
        };
        if p < end <= cs.len() {
            seq![cs.subrange(p, end)] + split_lines(cs, end)
        } else {
            seq![]
        }
    }
}

pub open spec fn lines_of(cs: Seq<char>) -> Seq<Seq<char>> {
    split_lines(cs, 0)
}

pub open spec fn view_lines(ls: Seq<Vec<char>>) -> Seq<Seq<char>> {
    ls.map_values(|v: Vec<char>| v@)
}

fn sub_vec(v: &Vec<char>, from: usize, to: usize) -> (r: Vec<char>)
    requires
        from <= to <= v@.len(),
    ensures
        r@ == v@.subrange(from as int, to as int),
{
    let mut r: Vec<char> = Vec::new();
    let mut i = from;
    while i < to
        invariant
            from <= i <= to <= v@.len(),
            r@ == v@.subrange(from as int, i as int),
        decreases to - i,
    {
        r.push(v[i]);
        proof {
            assert(r@ =~= v@.subrange(from as int, i + 1));
        }
        i += 1;
    }
    r
}

/// The lines of `cs`.
pub fn split(cs: &Vec<char>) -> (r: Vec<Vec<char>>)
    ensures
        view_lines(r@) == lines_of(cs@),
{
    let n = cs.len();
    let mut r: Vec<Vec<char>> = Vec::new();
    let mut p: usize = 0;
    while p < n
        invariant
            n == cs@.len(),
            p <= n,
            lines_of(cs@) == view_lines(r@) + split_lines(cs@, p as int),
        decreases n - p,
    {
        proof {
            line::lemma_find_char(cs@, p as int, '\n', n as int);
        }
        let k = line::find(cs, p, '\n', n);
        let end = if k < n {
            k + 1
        } else {
            n
        };
        let ghost before = view_lines(r@);
        let piece = sub_vec(cs, p, end);
        r.push(piece);
        proof {
            assert(view_lines(r@) =~= before.push(cs@.subrange(p as int, end as int)));
            assert(before + (seq![cs@.subrange(p as int, end as int)] + split_lines(
                cs@,
                end as int,
            )) =~= view_lines(r@) + split_lines(cs@, end as int));
        }
        p = end;
    }
    proof {
        assert(view_lines(r@) + seq![] =~= view_lines(r@));
    }
    r
}

// ---------------------------------------------------------------- blocks

/// A line of body text: none of the structural kinds.
pub open spec fn is_text(l: Seq<char>) -> bool {
    !line::is_heading(l) && !line::is_properties_start(l) && !line::is_drawer_start(l)
        && !line::is_keyword(l) && !line::is_scheduling(l)
}

pub open spec fn is_blank(l: Seq<char>) -> bool {
    line::text_end(l) == 0
}

/// The first line from `k` on that closes a block, or the number of lines.
pub open spec fn find_end(ls: Seq<Seq<char>>, k: int) -> int
    decreases ls.len() - k,
{
    if k < 0 || k >= ls.len() {
        ls.len() as int
    } else if line::is_block_end(ls[k]) {
        k
    } else {
        find_end(ls, k + 1)
    }
}

/// The first line in `k..b` that is no property line, or `b`.
pub open spec fn first_non_property(ls: Seq<Seq<char>>, k: int, b: int) -> int
    decreases b - k,
{
    if k < 0 || k >= b {
        b
    } else if !line::is_property(ls[k]) {
        k
    } else {
        first_non_property(ls, k + 1, b)
    }
}

/// The first line from `k` on that is no body text, or the number of lines.
pub open spec fn text_run_end(ls: Seq<Seq<char>>, k: int) -> int
    decreases ls.len() - k,
{
    if k < 0 || k >= ls.len() {
        ls.len() as int
    } else if !is_text(ls[k]) {
        k
    } else {
        text_run_end(ls, k + 1)
    }
}

pub open spec fn prepend_res(
    b: (Block, int, int),
    rest: Result<Seq<(Block, int, int)>, ParseError>,
) -> Result<Seq<(Block, int, int)>, ParseError> {
    match rest {
        Ok(s) => Ok(seq![b] + s),
        Err(e) => Err(e),
    }
}

/// The blocks of the lines from `i` on, each as its kind, its first line and
/// the line after it; blank lines between blocks belong to none. A property
/// block or drawer without `:END:`, or a property block with a line that is
/// no property, is an error.
pub open spec fn blocks(ls: Seq<Seq<char>>, i: int) -> Result<Seq<(Block, int, int)>, ParseError>
    decreases ls.len() - i,
{
    if i < 0 || i >= ls.len() {
        Ok(seq![])
    } else {
        let l = ls[i];
        if line::is_heading(l) {
            prepend_res((Block::Heading, i, i + 1), blocks(ls, i + 1))
        } else if line::is_properties_start(l) {
            let j = find_end(ls, i + 1);
            let bad = first_non_property(ls, i + 1, j);
            if j >= ls.len() {
                Err(ParseError::UnclosedBlock((i + 1) as usize))
            } else if bad < j {
                Err(ParseError::InvalidProperty((bad + 1) as usize))
            } else if i < j {
                prepend_res((Block::Properties, i, j + 1), blocks(ls, j + 1))
            } else {
                Ok(seq![])
            }
        } else if line::is_drawer_start(l) {
            let j = find_end(ls, i + 1);
            if j >= ls.len() {
                Err(ParseError::UnclosedBlock((i + 1) as usize))
            } else if i < j {
                prepend_res((Block::Drawer, i, j + 1), blocks(ls, j + 1))
            } else {
                Ok(seq![])
            }
        } else if line::is_keyword(l) {
            prepend_res((Block::Keyword, i, i + 1), blocks(ls, i + 1))
        } else if line::is_scheduling(l) {
            prepend_res((Block::Scheduling, i, i + 1), blocks(ls, i + 1))
        } else if is_blank(l) {
            blocks(ls, i + 1)
        } else {
            let j = text_run_end(ls, i + 1);
            if i < j <= ls.len() {
                prepend_res((Block::Content, i, j), blocks(ls, j))
            } else {
                Ok(seq![])
            }
        }
    }
}

// ---------------------------------------------------------------- what each block holds

pub open spec fn pos_at(i: int, c: int) -> Pos {
    Pos { line: (i + 1) as usize, col: (c + 1) as usize }
}

pub open spec fn keyword_matches(k: Keyword, l: Seq<char>, i: int) -> bool {
    let c = line::keyword_colon(l);
    &&& k.key@ == l.subrange(2, c)
    &&& k.value@ == l.subrange(line::value_start(l, c), line::text_end(l))
    &&& k.pos == pos_at(i, 2)
}

pub open spec fn property_matches(p: Property, l: Seq<char>, i: int) -> bool {
    let c = line::property_colon(l);
    &&& p.key@ == l.subrange(1, c)
    &&& p.value@ == l.subrange(line::value_start(l, c), line::text_end(l))
    &&& p.pos == pos_at(i, 1)
}

/// The fragments of lines `a..b` in order, each with its line.
pub open spec fn drawer_fragments(ls: Seq<Seq<char>>, a: int, b: int) -> Seq<(int, usize, usize)>
    decreases b - a,
{
    if b <= a {
        seq![]
    } else {
        let l = ls[b - 1];
        drawer_fragments(ls, a, b - 1) + line::fragments(l, 0, line::text_end(l)).map_values(
            |f: (usize, usize)| (b - 1, f.0, f.1),
        )
    }
}

pub open spec fn fragment_matches(c: Content, ls: Seq<Seq<char>>, f: (int, usize, usize)) -> bool {
    &&& c.contents@ == ls[f.0].subrange(f.1 as int, f.2 as int)
    &&& c.pos == pos_at(f.0, f.1 as int)
}

pub open spec fn drawer_matches(d: Drawer, ls: Seq<Seq<char>>, i: int, j: int) -> bool {
    let l = ls[i];
    let fs = drawer_fragments(ls, i + 1, j - 1);
    &&& d.name@ == l.subrange(1, line::text_end(l) - 1)
    &&& d.pos == pos_at(i, 0)
    &&& d.children@.len() == fs.len()
    &&& forall|m: int| 0 <= m < fs.len() ==> fragment_matches(#[trigger] d.children@[m], ls, fs[m])
}

pub open spec fn properties_match(p: Properties, ls: Seq<Seq<char>>, i: int, j: int) -> bool {
    &&& p.pos == pos_at(i, 0)
    &&& p.children@.len() == j - i - 2
    &&& forall|m: int|
        0 <= m < j - i - 2 ==> property_matches(#[trigger] p.children@[m], ls[i + 1 + m], i + 1 + m)
}

pub open spec fn entries_match(es: Seq<SchedEntry>, l: Seq<char>, i: int) -> bool {
    let spans = line::sched_entries(l, 0, line::text_end(l))->0;
    &&& es.len() == spans.len()
    &&& forall|m: int|
        0 <= m < es.len() ==> {
            &&& (#[trigger] es[m]).deadline == spans[m].0
            &&& es[m].pos == pos_at(i, spans[m].1 as int)
            &&& es[m].timestamp@ == l.subrange(spans[m].2 as int, spans[m].3 as int)
        }
}

/// The text of lines `a..b`, line breaks included.
pub open spec fn joined(ls: Seq<Seq<char>>, a: int, b: int) -> Seq<char>
    decreases b - a,
{
    if b <= a {
        seq![]
    } else {
        joined(ls, a, b - 1) + ls[b - 1]
    }
}

/// `it` is what block `b` of the lines `ls` holds.
pub open spec fn item_matches(it: Item, ls: Seq<Seq<char>>, b: (Block, int, int)) -> bool {
    let i = b.1;
    let j = b.2;
    let l = ls[i];
    match it {
        Item::Heading(d, t, pos) => {
            &&& b.0 == Block::Heading
            &&& d == line::depth(l)
            &&& t@ == l.subrange(line::title_start(l), line::title_end(l))
            &&& pos == pos_at(i, 0)
        },
        Item::Keyword(k) => b.0 == Block::Keyword && keyword_matches(k, l, i),
        Item::Properties(p) => b.0 == Block::Properties && properties_match(p, ls, i, j),
        Item::Drawer(d) => b.0 == Block::Drawer && drawer_matches(d, ls, i, j),
        Item::Scheduling(es) => b.0 == Block::Scheduling && entries_match(es@, l, i),
        Item::Content(c) => {
            &&& b.0 == Block::Content
            &&& c.contents@ == joined(ls, i, j)
            &&& c.pos == pos_at(i, 0)
        },
    }
}

// ---------------------------------------------------------------- building blocks

fn heading_line(l: &Vec<char>) -> (r: bool)
    ensures
        r == line::is_heading(l@),
{
    let d = line::count_stars(l);
    d >= 1 && d < l.len() && l[d] == ' '
}

/// The colon and the value start of a keyword line, where `l` is one.
fn keyword_line(l: &Vec<char>) -> (r: Option<(usize, usize)>)
    ensures
        r is Some <==> line::is_keyword(l@),
        r matches Some((c, v)) ==> c == line::keyword_colon(l@) && v == line::value_start(l@, c as int)
            && 2 < c < v <= line::text_end(l@) <= l@.len(),
{
    proof {
        line::lemma_trim_end_to(l@, 0, l@.len() as int);
    }
    if l.len() < 2 || l[0] != '#' || l[1] != '+' {
        return None;
    }
    proof {
        assert(!line::is_ws(l@[1]));
        if line::text_end(l@) < 2 {
            assert(line::is_ws(l@[1]));
        }
    }
    line::key_colon(l, 2)
}

/// The colon and the value start of a property line, where `l` is one.
fn property_line(l: &Vec<char>) -> (r: Option<(usize, usize)>)
    ensures
        r is Some <==> line::is_property(l@),
        r matches Some((c, v)) ==> c == line::property_colon(l@) && v == line::value_start(l@, c as int)
            && 1 < c < v <= line::text_end(l@) <= l@.len(),
{
    proof {
        line::lemma_trim_end_to(l@, 0, l@.len() as int);
    }
    if l.len() < 1 || l[0] != ':' {
        return None;
    }
    proof {
        if line::text_end(l@) < 1 {
            assert(line::is_ws(l@[0]));
        }
    }
    line::key_colon(l, 1)
}

fn text_line(l: &Vec<char>) -> (r: bool)
    ensures
        r == is_text(l@),
{
    !heading_line(l) && !line::properties_start(l) && !line::drawer_start(l) && keyword_line(
        l,
    ).is_none() && line::scheduling_entries(l).is_none()
}

fn build_keyword(l: &Vec<char>, i: usize) -> (r: Keyword)
    requires
        line::is_keyword(l@),
        i < usize::MAX,
    ensures
        keyword_matches(r, l@, i as int),
{
    proof {
        line::lemma_trim_end_to(l@, 0, l@.len() as int);
    }
    let e = line::trim_end(l, 0, l.len());
    match keyword_line(l) {
        Some((c, v)) => Keyword {
            key: string_of(l, 2, c),
            value: string_of(l, v, e),
            pos: Pos::new(i + 1, 3),
        },
        None => {
            proof {
                assert(false);
            }
            Keyword { key: String::new(), value: String::new(), pos: Pos::new(0, 0) }
        },
    }
}

fn build_property(l: &Vec<char>, i: usize) -> (r: Property)
    requires
        line::is_property(l@),
        i < usize::MAX,
    ensures
        property_matches(r, l@, i as int),
{
    proof {
        line::lemma_trim_end_to(l@, 0, l@.len() as int);
    }
    let e = line::trim_end(l, 0, l.len());
    match property_line(l) {
        Some((c, v)) => Property {
            key: string_of(l, 1, c),
            value: string_of(l, v, e),
            pos: Pos::new(i + 1, 2),
        },
        None => {
            proof {
                assert(false);
            }
            Property { key: String::new(), value: String::new(), pos: Pos::new(0, 0) }
        },
    }
}

fn build_properties(ls: &Vec<Vec<char>>, i: usize, j: usize) -> (r: Properties)
    requires
        i < j < ls@.len(),
        first_non_property(view_lines(ls@), i + 1, j as int) == j,
    ensures
        properties_match(r, view_lines(ls@), i as int, j + 1),
{
    let ghost vl = view_lines(ls@);
    let mut children: Vec<Property> = Vec::new();
    let mut k = i + 1;
    while k < j
        invariant
            i < k <= j < ls@.len(),
            vl == view_lines(ls@),
            first_non_property(vl, k as int, j as int) == j,
            children@.len() == k - i - 1,
            forall|m: int|
                0 <= m < k - i - 1 ==> property_matches(
                    #[trigger] children@[m],
                    vl[i + 1 + m],
                    i + 1 + m,
                ),
        decreases j - k,
    {
        assert(vl[k as int] == ls@[k as int]@);
        let p = build_property(&ls[k], k);
        children.push(p);
        k += 1;
    }
    Properties { pos: Pos::new(i + 1, 1), children }
}

fn build_drawer(ls: &Vec<Vec<char>>, i: usize, j: usize) -> (r: Drawer)
    requires
        i < j < ls@.len(),
        line::is_drawer_start(ls@[i as int]@),
    ensures
        drawer_matches(r, view_lines(ls@), i as int, j + 1),
{
    let ghost vl = view_lines(ls@);
    let l = &ls[i];
    proof {
        line::lemma_trim_end_to(l@, 0, l@.len() as int);
    }
    let e = line::trim_end(l, 0, l.len());
    let name = string_of(l, 1, e - 1);
    let mut children: Vec<Content> = Vec::new();
    let mut k = i + 1;
    while k < j
        invariant
            i < k <= j < ls@.len(),
            vl == view_lines(ls@),
            children@.len() == drawer_fragments(vl, i + 1, k as int).len(),
            forall|m: int|
                0 <= m < children@.len() ==> fragment_matches(
                    #[trigger] children@[m],
                    vl,
                    drawer_fragments(vl, i + 1, k as int)[m],
                ),
        decreases j - k,
    {
        let lk = &ls[k];
        assert(vl[k as int] == lk@);
        let fs = line::line_fragments(lk);
        let ghost base = drawer_fragments(vl, i + 1, k as int);
        let ghost tagged = line::fragments(lk@, 0, line::text_end(lk@)).map_values(
            |f: (usize, usize)| (k as int, f.0, f.1),
        );
        assert(drawer_fragments(vl, i + 1, k + 1) == base + tagged);
        let mut t: usize = 0;
        while t < fs.len()
            invariant
                t <= fs@.len(),
                k < ls@.len(),
                vl == view_lines(ls@),
                vl[k as int] == lk@,
                fs@ == line::fragments(lk@, 0, line::text_end(lk@)),
                forall|x: int| 0 <= x < fs@.len() ==> (#[trigger] fs@[x]).0 < fs@[x].1 <= lk@.len(),
                tagged.len() == fs@.len(),
                forall|x: int| 0 <= x < fs@.len() ==> #[trigger] tagged[x] == (k as int, fs@[x].0, fs@[x].1),
                children@.len() == base.len() + t,
                forall|m: int|
                    0 <= m < base.len() ==> fragment_matches(#[trigger] children@[m], vl, base[m]),
                forall|m: int|
                    0 <= m < t ==> fragment_matches(
                        #[trigger] children@[base.len() + m],
                        vl,
                        tagged[m],
                    ),
            decreases fs@.len() - t,
        {
            let (a, b) = fs[t];
            let n = ls.len();
            let ln = lk.len();
            let c = Content { pos: Pos::new(k + 1, a + 1), contents: string_of(lk, a, b) };
            children.push(c);
            proof {
                assert(children@[base.len() + t] == c);
            }
            t += 1;
        }
        proof {
            let all = drawer_fragments(vl, i + 1, k + 1);
            assert forall|m: int| 0 <= m < children@.len() implies fragment_matches(
                #[trigger] children@[m],
                vl,
                all[m],
            ) by {
                if m >= base.len() {
                    assert(children@[base.len() + (m - base.len())] == children@[m]);
                }
            }
        }
        k += 1;
    }
    Drawer { name, pos: Pos::new(i + 1, 1), children }
}

fn build_entries(l: &Vec<char>, i: usize) -> (r: Vec<SchedEntry>)
    requires
        line::is_scheduling(l@),
        i < usize::MAX,
    ensures
        entries_match(r@, l@, i as int),
{
    match line::scheduling_entries(l) {
        Some(spans) => {
            let mut r: Vec<SchedEntry> = Vec::new();
            let mut m: usize = 0;
            while m < spans.len()
                invariant
                    m <= spans@.len(),
                    i < usize::MAX,
                    Some(spans@) == line::sched_entries(l@, 0, line::text_end(l@)),
                    forall|x: int|
                        0 <= x < spans@.len() ==> (#[trigger] spans@[x]).2 <= spans@[x].3 <= l@.len(),
                    r@.len() == m,
                    forall|x: int|
                        0 <= x < m ==> {
                            &&& (#[trigger] r@[x]).deadline == spans@[x].0
                            &&& r@[x].pos == pos_at(i as int, spans@[x].1 as int)
                            &&& r@[x].timestamp@ == l@.subrange(spans@[x].2 as int, spans@[x].3 as int)
                        },
                decreases spans@.len() - m,
            {
                let (dl, q, a, b) = spans[m];
                assert(q < l@.len()) by {
                    lemma_entry_bounds(l@, 0, line::text_end(l@), m as int);
                }
                let ln = l.len();
                r.push(SchedEntry { deadline: dl, pos: Pos::new(i + 1, q + 1), timestamp: string_of(l, a, b) });
                m += 1;
            }
            r
        },
        None => {
            proof {
                assert(false);
            }
            Vec::new()
        },
    }
}

proof fn lemma_entry_bounds(l: Seq<char>, p: int, e: int, m: int)
    requires
        0 <= p <= e <= l.len(),
        line::sched_entries(l, p, e) is Some,
        0 <= m < line::sched_entries(l, p, e)->0.len(),
    ensures
        line::sched_entries(l, p, e)->0[m].1 < l.len(),
    decreases e - p, m,
{
    let q = line::skip_ws_to(l, p, e);
    line::lemma_skip_ws_to(l, p, e);
    if q < e {
        let sc = line::has_word(l, q, e, line::word_scheduled());
        let a = if sc { q + 10 } else { q + 9 };
        line::lemma_skip_ws_to(l, a, e);
        let r = line::skip_ws_to(l, a, e);
        line::lemma_find_char(l, r + 1, '>', e);
        let c = line::find_char(l, r + 1, '>', e);
        if m > 0 {
            lemma_entry_bounds(l, c + 1, e, m - 1);
        }
    }
}

fn build_content(ls: &Vec<Vec<char>>, i: usize, j: usize) -> (r: Content)
    requires
        i < j <= ls@.len(),
    ensures
        r.contents@ == joined(view_lines(ls@), i as int, j as int),
        r.pos == pos_at(i as int, 0),
{
    let ghost vl = view_lines(ls@);
    let mut s = String::new();
    let mut k = i;
    while k < j
        invariant
            i <= k <= j <= ls@.len(),
            vl == view_lines(ls@),
            s@ == joined(vl, i as int, k as int),
        decreases j - k,
    {
        assert(vl[k as int] == ls@[k as int]@);
        crate::text::push_chars(&mut s, &ls[k]);
        k += 1;
    }
    Content { pos: Pos::new(i + 1, 1), contents: s }
}

fn find_end_line(ls: &Vec<Vec<char>>, k: usize) -> (r: usize)
    requires
        k <= ls@.len(),
    ensures
        r == find_end(view_lines(ls@), k as int),
        k <= r <= ls@.len(),
{
    let ghost vl = view_lines(ls@);
    let mut m = k;
    while m < ls.len() && !line::block_end(&ls[m])
        invariant
            k <= m <= ls@.len(),
            vl == view_lines(ls@),
            find_end(vl, k as int) == find_end(vl, m as int),
        decreases ls@.len() - m,
    {
        assert(vl[m as int] == ls@[m as int]@);
        m += 1;
    }
    proof {
        if m < ls@.len() {
            assert(vl[m as int] == ls@[m as int]@);
        }
    }
    m
}

fn first_non_property_line(ls: &Vec<Vec<char>>, k: usize, b: usize) -> (r: usize)
    requires
        k <= b <= ls@.len(),
    ensures
        r == first_non_property(view_lines(ls@), k as int, b as int),
        k <= r <= b,
{
    let ghost vl = view_lines(ls@);
    let mut m = k;
    while m < b && property_line(&ls[m]).is_some()
        invariant
            k <= m <= b <= ls@.len(),
            vl == view_lines(ls@),
            first_non_property(vl, k as int, b as int) == first_non_property(vl, m as int, b as int),
        decreases b - m,
    {
        assert(vl[m as int] == ls@[m as int]@);
        m += 1;
    }
    proof {
        if m < b {
            assert(vl[m as int] == ls@[m as int]@);
        }
    }
    m
}

fn text_run_end_line(ls: &Vec<Vec<char>>, k: usize) -> (r: usize)
    requires
        k <= ls@.len(),
    ensures
        r == text_run_end(view_lines(ls@), k as int),
        k <= r <= ls@.len(),
{
    let ghost vl = view_lines(ls@);
    let mut m = k;
    while m < ls.len() && text_line(&ls[m])
        invariant
            k <= m <= ls@.len(),
            vl == view_lines(ls@),
            text_run_end(vl, k as int) == text_run_end(vl, m as int),
        decreases ls@.len() - m,
    {
        assert(vl[m as int] == ls@[m as int]@);
        m += 1;
    }
    proof {
        if m < ls@.len() {
            assert(vl[m as int] == ls@[m as int]@);
        }
    }
    m
}

pub open spec fn prepend_all(
    acc: Seq<(Block, int, int)>,
    rest: Result<Seq<(Block, int, int)>, ParseError>,
) -> Result<Seq<(Block, int, int)>, ParseError> {
    match rest {
        Ok(s) => Ok(acc + s),
        Err(e) => Err(e),
    }
}

/// `items` are the blocks of `ls`, built; or both are the same error.
pub open spec fn lexed(r: Result<Vec<Item>, ParseError>, ls: Seq<Seq<char>>) -> bool {
    match (r, blocks(ls, 0)) {
        (Ok(items), Ok(bs)) => items@.len() == bs.len() && forall|k: int|
            0 <= k < bs.len() ==> item_matches(#[trigger] items@[k], ls, bs[k]),
        (Err(e), Err(f)) => e == f,
        _ => false,
    }
}

/// Groups the lines into blocks and builds each.
pub fn lex(ls: &Vec<Vec<char>>) -> (r: Result<Vec<Item>, ParseError>)
    ensures
        lexed(r, view_lines(ls@)),
{
    let ghost vl = view_lines(ls@);
    let n = ls.len();
    let mut items: Vec<Item> = Vec::new();
    let ghost mut spans: Seq<(Block, int, int)> = seq![];
    let mut i: usize = 0;
    while i < n
        invariant
            n == ls@.len(),
            i <= n,
            vl == view_lines(ls@),
            blocks(vl, 0) == prepend_all(spans, blocks(vl, i as int)),
            items@.len() == spans.len(),
            forall|k: int| 0 <= k < spans.len() ==> item_matches(#[trigger] items@[k], vl, spans[k]),
        decreases n - i,
    {
        let l = &ls[i];
        assert(vl[i as int] == l@);
        let ghost before = spans;
        if heading_line(l) {
            proof {
                line::lemma_stars(l@, 0);
            }
            let d = line::count_stars(l);
            let (a, b) = line::heading_title(l);
            items.push(Item::Heading(d, string_of(l, a, b), Pos::new(i + 1, 1)));
            proof {
                spans = spans.push((Block::Heading, i as int, i + 1));
                if let Ok(rest) = blocks(vl, i + 1) {
                    assert(before + (seq![(Block::Heading, i as int, i + 1)] + rest) =~= spans + rest);
                }
                assert(items@[items@.len() - 1] == items@.last());
            }
            i += 1;
        } else if line::properties_start(l) {
            let j = find_end_line(ls, i + 1);
            if j >= n {
                return Err(ParseError::UnclosedBlock(i + 1));
            }
            let bad = first_non_property_line(ls, i + 1, j);
            if bad < j {
                return Err(ParseError::InvalidProperty(bad + 1));
            }
            let p = build_properties(ls, i, j);
            items.push(Item::Properties(p));
            proof {
                spans = spans.push((Block::Properties, i as int, j + 1));
                if let Ok(rest) = blocks(vl, j + 1) {
                    assert(before + (seq![(Block::Properties, i as int, j + 1)] + rest) =~= spans + rest);
                }
                assert(items@[items@.len() - 1] == items@.last());
            }
            i = j + 1;
        } else if line::drawer_start(l) {
            let j = find_end_line(ls, i + 1);
            if j >= n {
                return Err(ParseError::UnclosedBlock(i + 1));
            }
            let d = build_drawer(ls, i, j);
            items.push(Item::Drawer(d));
            proof {
                spans = spans.push((Block::Drawer, i as int, j + 1));
                if let Ok(rest) = blocks(vl, j + 1) {
                    assert(before + (seq![(Block::Drawer, i as int, j + 1)] + rest) =~= spans + rest);
                }
                assert(items@[items@.len() - 1] == items@.last());
            }
            i = j + 1;
        } else if keyword_line(l).is_some() {
            let k = build_keyword(l, i);
            items.push(Item::Keyword(k));
            proof {
                spans = spans.push((Block::Keyword, i as int, i + 1));
                if let Ok(rest) = blocks(vl, i + 1) {
                    assert(before + (seq![(Block::Keyword, i as int, i + 1)] + rest) =~= spans + rest);
                }
                assert(items@[items@.len() - 1] == items@.last());
            }
            i += 1;
        } else if line::scheduling_entries(l).is_some() {
            let es = build_entries(l, i);
            items.push(Item::Scheduling(es));
            proof {
                spans = spans.push((Block::Scheduling, i as int, i + 1));
                if let Ok(rest) = blocks(vl, i + 1) {
                    assert(before + (seq![(Block::Scheduling, i as int, i + 1)] + rest) =~= spans + rest);
                }
                assert(items@[items@.len() - 1] == items@.last());
            }
            i += 1;
        } else if line::trim_end(l, 0, l.len()) == 0 {
            i += 1;
        } else {
            let j = text_run_end_line(ls, i + 1);
            let c = build_content(ls, i, j);
            items.push(Item::Content(c));
            proof {
                spans = spans.push((Block::Content, i as int, j as int));
                if let Ok(rest) = blocks(vl, j as int) {
                    assert(before + (seq![(Block::Content, i as int, j as int)] + rest) =~= spans + rest);
                }
                assert(items@[items@.len() - 1] == items@.last());
            }
            i = j;
        }
    }
    proof {
        assert(spans + seq![] =~= spans);
    }
    Ok(items)
}

} // verus!
