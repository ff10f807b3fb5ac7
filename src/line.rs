//! The grammar of single lines: headings, keyword lines, property lines,
//! block markers, scheduling lines and the fragments of drawer lines.
//!
//! Every scanner works on the characters of one line without its line break
//! and returns indices into it; the spec functions say what those indices are.
use vstd::prelude::*;

verus! {

pub open spec fn is_ws(c: char) -> bool {
    c == ' ' || c == '\t' || c == '\r' || c == '\n'
}

pub open spec fn lower(c: char) -> char {
    if 'A' <= c && c <= 'Z' {
        ((c as u8) + 32) as char
    } else {
        c
    }
}

/// `a` and `b` are equal up to the case of ASCII letters.
pub open spec fn eq_ignore_case(a: Seq<char>, b: Seq<char>) -> bool {
    a.len() == b.len() && forall|i: int| 0 <= i < a.len() ==> lower(#[trigger] a[i]) == lower(b[i])
}

/// Length of `l[..e]` once trailing white space is removed, never below `p`.
pub open spec fn trim_end_to(l: Seq<char>, p: int, e: int) -> int
    decreases e - p,
{
    if e <= p {
        p
    } else if is_ws(l[e - 1]) {
        trim_end_to(l, p, e - 1)
    } else {
        e
    }
}

/// The first index in `p..e` that holds no white space, or `e`.
pub open spec fn skip_ws_to(l: Seq<char>, p: int, e: int) -> int
    decreases e - p,
{
    if p >= e {
        e
    } else if !is_ws(l[p]) {
        p
    } else {
        skip_ws_to(l, p + 1, e)
    }
}

/// The first index in `p..e` that holds `c`, or `e`.
pub open spec fn find_char(l: Seq<char>, p: int, c: char, e: int) -> int
    decreases e - p,
{
    if p >= e {
        e
    } else if l[p] == c {
        p
    } else {
        find_char(l, p + 1, c, e)
    }
}

/// The first index in `p..e` that opens a bracketed token, or `e`.
pub open spec fn find_open(l: Seq<char>, p: int, e: int) -> int
    decreases e - p,
{
    if p >= e {
        e
    } else if l[p] == '<' || l[p] == '[' {
        p
    } else {
        find_open(l, p + 1, e)
    }
}

/// The number of leading heading markers.
pub open spec fn stars(l: Seq<char>, p: int) -> int
    decreases l.len() - p,
{
    if p >= l.len() || l[p] != '*' {
        p
    } else {
        stars(l, p + 1)
    }
}

pub proof fn lemma_trim_end_to(l: Seq<char>, p: int, e: int)
    requires
        0 <= p <= e <= l.len(),
    ensures
        p <= trim_end_to(l, p, e) <= e,
        forall|i: int| trim_end_to(l, p, e) <= i < e ==> is_ws(#[trigger] l[i]),
        trim_end_to(l, p, e) > p ==> !is_ws(l[trim_end_to(l, p, e) - 1]),
    decreases e - p,
{
    if e > p && is_ws(l[e - 1]) {
        lemma_trim_end_to(l, p, e - 1);
    }
}

pub proof fn lemma_skip_ws_to(l: Seq<char>, p: int, e: int)
    requires
        0 <= p <= e <= l.len(),
    ensures
        p <= skip_ws_to(l, p, e) <= e,
        forall|i: int| p <= i < skip_ws_to(l, p, e) ==> is_ws(#[trigger] l[i]),
        skip_ws_to(l, p, e) < e ==> !is_ws(l[skip_ws_to(l, p, e)]),
    decreases e - p,
{
    if p < e && is_ws(l[p]) {
        lemma_skip_ws_to(l, p + 1, e);
    }
}

pub proof fn lemma_find_char(l: Seq<char>, p: int, c: char, e: int)
    requires
        0 <= p <= e <= l.len(),
    ensures
        p <= find_char(l, p, c, e) <= e,
        forall|i: int| p <= i < find_char(l, p, c, e) ==> #[trigger] l[i] != c,
        find_char(l, p, c, e) < e ==> l[find_char(l, p, c, e)] == c,
    decreases e - p,
{
    if p < e && l[p] != c {
        lemma_find_char(l, p + 1, c, e);
    }
}

pub proof fn lemma_find_open(l: Seq<char>, p: int, e: int)
    requires
        0 <= p <= e <= l.len(),
    ensures
        p <= find_open(l, p, e) <= e,
    decreases e - p,
{
    if p < e && !(l[p] == '<' || l[p] == '[') {
        lemma_find_open(l, p + 1, e);
    }
}

pub proof fn lemma_stars(l: Seq<char>, p: int)
    requires
        0 <= p <= l.len(),
    ensures
        p <= stars(l, p) <= l.len(),
        forall|i: int| p <= i < stars(l, p) ==> #[trigger] l[i] == '*',
        stars(l, p) < l.len() ==> l[stars(l, p)] != '*',
    decreases l.len() - p,
{
    if p < l.len() && l[p] == '*' {
        lemma_stars(l, p + 1);
    }
}

pub fn is_ws_char(c: char) -> (r: bool)
    ensures
        r == is_ws(c),
{
    c == ' ' || c == '\t' || c == '\r' || c == '\n'
}

pub fn lower_char(c: char) -> (r: char)
    ensures
        r == lower(c),
{
    if 'A' <= c && c <= 'Z' {
        ((c as u8) + 32) as char
    } else {
        c
    }
}

pub fn trim_end(l: &Vec<char>, p: usize, e: usize) -> (r: usize)
    requires
        p <= e <= l@.len(),
    ensures
        r == trim_end_to(l@, p as int, e as int),
{
    let mut k = e;
    while k > p && is_ws_char(l[k - 1])
        invariant
            p <= k <= e <= l@.len(),
            trim_end_to(l@, p as int, e as int) == trim_end_to(l@, p as int, k as int),
        decreases k,
    {
        k -= 1;
    }
    k
}

pub fn skip_ws(l: &Vec<char>, p: usize, e: usize) -> (r: usize)
    requires
        p <= e <= l@.len(),
    ensures
        r == skip_ws_to(l@, p as int, e as int),
{
    let mut k = p;
    while k < e && is_ws_char(l[k])
        invariant
            p <= k <= e <= l@.len(),
            skip_ws_to(l@, p as int, e as int) == skip_ws_to(l@, k as int, e as int),
        decreases e - k,
    {
        k += 1;
    }
    k
}

pub fn find(l: &Vec<char>, p: usize, c: char, e: usize) -> (r: usize)
    requires
        p <= e <= l@.len(),
    ensures
        r == find_char(l@, p as int, c, e as int),
{
    let mut k = p;
    while k < e && l[k] != c
        invariant
            p <= k <= e <= l@.len(),
            find_char(l@, p as int, c, e as int) == find_char(l@, k as int, c, e as int),
        decreases e - k,
    {
        k += 1;
    }
    k
}

pub fn find_opening(l: &Vec<char>, p: usize, e: usize) -> (r: usize)
    requires
        p <= e <= l@.len(),
    ensures
        r == find_open(l@, p as int, e as int),
{
    let mut k = p;
    while k < e && l[k] != '<' && l[k] != '['
        invariant
            p <= k <= e <= l@.len(),
            find_open(l@, p as int, e as int) == find_open(l@, k as int, e as int),
        decreases e - k,
    {
        k += 1;
    }
    k
}

pub fn count_stars(l: &Vec<char>) -> (r: usize)
    ensures
        r == stars(l@, 0),
{
    let mut k: usize = 0;
    while k < l.len() && l[k] == '*'
        invariant
            k <= l@.len(),
            stars(l@, 0) == stars(l@, k as int),
        decreases l@.len() - k,
    {
        k += 1;
    }
    k
}

/// `w` stands in `l` at `p` and ends at or before `e`.
pub open spec fn has_word(l: Seq<char>, p: int, e: int, w: Seq<char>) -> bool {
    0 <= p && p + w.len() <= e && e <= l.len() && forall|i: int|
        0 <= i < w.len() ==> #[trigger] l[p + i] == w[i]
}

/// `l[p..e]` equals `w` up to the case of ASCII letters.
pub open spec fn has_word_ic(l: Seq<char>, p: int, e: int, w: Seq<char>) -> bool {
    0 <= p && p + w.len() == e && e <= l.len() && forall|i: int|
        0 <= i < w.len() ==> lower(#[trigger] l[p + i]) == lower(w[i])
}

pub fn word_at(l: &Vec<char>, p: usize, e: usize, w: &Vec<char>) -> (r: bool)
    requires
        e <= l@.len(),
    ensures
        r == has_word(l@, p as int, e as int, w@),
{
    if p > e || w.len() > e - p {
        return false;
    }
    let mut i: usize = 0;
    while i < w.len()
        invariant
            p + w@.len() <= e <= l@.len(),
            i <= w@.len(),
            forall|j: int| 0 <= j < i ==> #[trigger] l@[p + j] == w@[j],
        decreases w@.len() - i,
    {
        if l[p + i] != w[i] {
            return false;
        }
        i += 1;
    }
    true
}

pub fn word_ic_at(l: &Vec<char>, p: usize, e: usize, w: &Vec<char>) -> (r: bool)
    requires
        e <= l@.len(),
    ensures
        r == has_word_ic(l@, p as int, e as int, w@),
{
    if p > e || w.len() != e - p {
        return false;
    }
    let mut i: usize = 0;
    while i < w.len()
        invariant
            p + w@.len() == e <= l@.len(),
            i <= w@.len(),
            forall|j: int| 0 <= j < i ==> lower(#[trigger] l@[p + j]) == lower(w@[j]),
        decreases w@.len() - i,
    {
        if lower_char(l[p + i]) != lower_char(w[i]) {
            return false;
        }
        i += 1;
    }
    true
}

pub open spec fn word_todo() -> Seq<char> {
    seq!['T', 'O', 'D', 'O', ' ']
}

pub open spec fn word_done() -> Seq<char> {
    seq!['D', 'O', 'N', 'E', ' ']
}

pub open spec fn word_scheduled() -> Seq<char> {
    seq!['S', 'C', 'H', 'E', 'D', 'U', 'L', 'E', 'D', ':']
}

pub open spec fn word_deadline() -> Seq<char> {
    seq!['D', 'E', 'A', 'D', 'L', 'I', 'N', 'E', ':']
}

pub open spec fn word_properties() -> Seq<char> {
    seq![':', 'P', 'R', 'O', 'P', 'E', 'R', 'T', 'I', 'E', 'S', ':']
}

pub open spec fn word_end() -> Seq<char> {
    seq![':', 'E', 'N', 'D', ':']
}

/// End of the line's text once trailing white space is removed.
pub open spec fn text_end(l: Seq<char>) -> int {
    trim_end_to(l, 0, l.len() as int)
}

// ---------------------------------------------------------------- headings

pub open spec fn is_heading(l: Seq<char>) -> bool {
    let d = stars(l, 0);
    d >= 1 && d < l.len() && l[d] == ' '
}

/// The heading's depth: the number of its leading markers.
pub open spec fn depth(l: Seq<char>) -> int {
    stars(l, 0)
}

/// Where a heading's text ends, white space and line break removed.
pub open spec fn heading_end(l: Seq<char>) -> int {
    let s = stars(l, 0) + 1;
    if text_end(l) < s {
        s
    } else {
        text_end(l)
    }
}

/// Where the title starts: after the markers, the space, and a TODO or DONE word.
pub open spec fn title_start(l: Seq<char>) -> int {
    let s = stars(l, 0) + 1;
    let e = heading_end(l);
    if has_word(l, s, e, word_todo()) || has_word(l, s, e, word_done()) {
        s + 5
    } else {
        s
    }
}

/// The index after the last white space in `s..e`, or `s`.
pub open spec fn after_last_ws(l: Seq<char>, s: int, e: int) -> int
    decreases e - s,
{
    if e <= s {
        s
    } else if is_ws(l[e - 1]) {
        e
    } else {
        after_last_ws(l, s, e - 1)
    }
}

/// `l[k..e]` is a tag list such as `:work:urgent:`.
pub open spec fn is_tag_list(l: Seq<char>, k: int, e: int) -> bool {
    e - k >= 3 && l[k] == ':' && l[e - 1] == ':' && forall|i: int|
        k <= i < e - 1 ==> !(#[trigger] l[i] == ':' && l[i + 1] == ':')
}

/// Where the title ends: before a trailing tag list, if there is one.
pub open spec fn title_end(l: Seq<char>) -> int {
    let s = title_start(l);
    let e = heading_end(l);
    let k = after_last_ws(l, s, e);
    if k > s && is_tag_list(l, k, e) {
        k
    } else {
        e
    }
}

pub fn after_last_space(l: &Vec<char>, s: usize, e: usize) -> (r: usize)
    requires
        s <= e <= l@.len(),
    ensures
        r == after_last_ws(l@, s as int, e as int),
        s <= r <= e,
{
    let mut k = e;
    while k > s && !is_ws_char(l[k - 1])
        invariant
            s <= k <= e <= l@.len(),
            after_last_ws(l@, s as int, e as int) == after_last_ws(l@, s as int, k as int),
        decreases k,
    {
        k -= 1;
    }
    k
}

pub fn tag_list_at(l: &Vec<char>, k: usize, e: usize) -> (r: bool)
    requires
        k <= e <= l@.len(),
    ensures
        r == is_tag_list(l@, k as int, e as int),
{
    if e - k < 3 || l[k] != ':' || l[e - 1] != ':' {
        return false;
    }
    let mut i = k;
    while i < e - 1
        invariant
            k <= i <= e - 1,
            e <= l@.len(),
            forall|j: int| k <= j < i ==> !(#[trigger] l@[j] == ':' && l@[j + 1] == ':'),
        decreases e - i,
    {
        if l[i] == ':' && l[i + 1] == ':' {
            return false;
        }
        i += 1;
    }
    true
}

/// The title of a heading line, as a range of `l`.
pub fn heading_title(l: &Vec<char>) -> (r: (usize, usize))
    requires
        is_heading(l@),
    ensures
        r.0 == title_start(l@),
        r.1 == title_end(l@),
        r.0 <= r.1 <= l@.len(),
{
    proof {
        lemma_stars(l@, 0);
        lemma_trim_end_to(l@, 0, l@.len() as int);
    }
    let d = count_stars(l);
    assert(d < l.len());
    let s = d + 1;
    let te = trim_end(l, 0, l.len());
    let e = if te < s {
        s
    } else {
        te
    };
    let todo: Vec<char> = vec!['T', 'O', 'D', 'O', ' '];
    let done: Vec<char> = vec!['D', 'O', 'N', 'E', ' '];
    let ts = if word_at(l, s, e, &todo) || word_at(l, s, e, &done) {
        s + 5
    } else {
        s
    };
    let k = after_last_space(l, ts, e);
    let te2 = if k > ts && tag_list_at(l, k, e) {
        k
    } else {
        e
    };
    (ts, te2)
}

// ---------------------------------------------------------------- keyword lines

/// A `#+KEY: value` line.
pub open spec fn is_keyword(l: Seq<char>) -> bool {
    let e = text_end(l);
    let c = find_char(l, 2, ':', e);
    e >= 2 && l[0] == '#' && l[1] == '+' && c < e && c > 2 && forall|i: int|
        2 <= i < c ==> !is_ws(#[trigger] l[i])
}

/// Where the key of a keyword line ends (its colon).
pub open spec fn keyword_colon(l: Seq<char>) -> int {
    find_char(l, 2, ':', text_end(l))
}

/// A `:KEY: value` line of a property block.
pub open spec fn is_property(l: Seq<char>) -> bool {
    let e = text_end(l);
    let c = find_char(l, 1, ':', e);
    e >= 1 && l[0] == ':' && c < e && c > 1 && forall|i: int|
        1 <= i < c ==> !is_ws(#[trigger] l[i])
}

/// Where the key of a property line ends (its colon).
pub open spec fn property_colon(l: Seq<char>) -> int {
    find_char(l, 1, ':', text_end(l))
}

/// Where the value after the colon at `c` starts.
pub open spec fn value_start(l: Seq<char>, c: int) -> int {
    skip_ws_to(l, c + 1, text_end(l))
}

/// Shared by keyword and property lines: a key from `from` to a colon, with no white space.
pub fn key_colon(l: &Vec<char>, from: usize) -> (r: Option<(usize, usize)>)
    requires
        1 <= from <= 2,
    ensures
        match r {
            Some((c, v)) => {
                let e = text_end(l@);
                &&& c == find_char(l@, from as int, ':', e)
                &&& e >= from && c < e && c > from
                &&& forall|i: int| from <= i < c ==> !is_ws(#[trigger] l@[i])
                &&& v == skip_ws_to(l@, c + 1, e)
                &&& c < v <= e
            },
            None => {
                let e = text_end(l@);
                let c = find_char(l@, from as int, ':', e);
                !(e >= from && c < e && c > from && forall|i: int|
                    from <= i < c ==> !is_ws(#[trigger] l@[i]))
            },
        },
{
    proof {
        lemma_trim_end_to(l@, 0, l@.len() as int);
    }
    let e = trim_end(l, 0, l.len());
    if e < from {
        return None;
    }
    proof {
        lemma_find_char(l@, from as int, ':', e as int);
    }
    let c = find(l, from, ':', e);
    if c >= e || c <= from {
        return None;
    }
    let mut i = from;
    while i < c
        invariant
            from <= i <= c < e <= l@.len(),
            e == text_end(l@),
            c == find_char(l@, from as int, ':', e as int),
            forall|j: int| from <= j < i ==> !is_ws(#[trigger] l@[j]),
        decreases c - i,
    {
        if is_ws_char(l[i]) {
            assert(is_ws(l@[i as int]));
            return None;
        }
        i += 1;
    }
    proof {
        lemma_skip_ws_to(l@, c + 1, e as int);
    }
    let v = skip_ws(l, c + 1, e);
    Some((c, v))
}

// ---------------------------------------------------------------- block markers

pub open spec fn is_properties_start(l: Seq<char>) -> bool {
    has_word_ic(l, 0, text_end(l), word_properties())
}

pub open spec fn is_block_end(l: Seq<char>) -> bool {
    has_word_ic(l, 0, text_end(l), word_end())
}

pub open spec fn is_name_char(c: char) -> bool {
    ('a' <= c && c <= 'z') || ('A' <= c && c <= 'Z') || ('0' <= c && c <= '9') || c == '_' || c
        == '-'
}

/// A `:NAME:` line that opens a drawer.
pub open spec fn is_drawer_start(l: Seq<char>) -> bool {
    let e = text_end(l);
    e >= 3 && l[0] == ':' && l[e - 1] == ':' && (forall|i: int|
        1 <= i < e - 1 ==> is_name_char(#[trigger] l[i])) && !is_properties_start(l)
        && !is_block_end(l)
}

pub fn properties_start(l: &Vec<char>) -> (r: bool)
    ensures
        r == is_properties_start(l@),
{
    proof {
        lemma_trim_end_to(l@, 0, l@.len() as int);
    }
    let e = trim_end(l, 0, l.len());
    let w: Vec<char> = vec![':', 'P', 'R', 'O', 'P', 'E', 'R', 'T', 'I', 'E', 'S', ':'];
    word_ic_at(l, 0, e, &w)
}

pub fn block_end(l: &Vec<char>) -> (r: bool)
    ensures
        r == is_block_end(l@),
{
    proof {
        lemma_trim_end_to(l@, 0, l@.len() as int);
    }
    let e = trim_end(l, 0, l.len());
    let w: Vec<char> = vec![':', 'E', 'N', 'D', ':'];
    word_ic_at(l, 0, e, &w)
}

pub fn drawer_start(l: &Vec<char>) -> (r: bool)
    ensures
        r == is_drawer_start(l@),
{
    proof {
        lemma_trim_end_to(l@, 0, l@.len() as int);
    }
    let e = trim_end(l, 0, l.len());
    if e < 3 || l[0] != ':' || l[e - 1] != ':' {
        return false;
    }
    let mut i: usize = 1;
    while i < e - 1
        invariant
            1 <= i <= e - 1,
            e <= l@.len(),
            e == text_end(l@),
            l@[0] == ':',
            l@[e - 1] == ':',
            forall|j: int| 1 <= j < i ==> is_name_char(#[trigger] l@[j]),
        decreases e - i,
    {
        let c = l[i];
        if !(('a' <= c && c <= 'z') || ('A' <= c && c <= 'Z') || ('0' <= c && c <= '9') || c
            == '_' || c == '-') {
            assert(!is_name_char(l@[i as int]));
            return false;
        }
        i += 1;
    }
    !properties_start(l) && !block_end(l)
}

// ---------------------------------------------------------------- scheduling lines

/// The scheduling entries of `l[p..e]`: for each, whether it is a deadline, where
/// its keyword stands, and the start and end of the timestamp inside `<...>`.
/// `None` where the text is anything else.
pub open spec fn sched_entries(l: Seq<char>, p: int, e: int) -> Option<
    Seq<(bool, usize, usize, usize)>,
>
    decreases e - p,
{
    let q = skip_ws_to(l, p, e);
    if q >= e {
        Some(seq![])
    } else {
        let sc = has_word(l, q, e, word_scheduled());
        let dl = has_word(l, q, e, word_deadline());
        if !sc && !dl {
            None
        } else {
            let a = if sc {
                q + 10
            } else {
                q + 9
            };
            let r = skip_ws_to(l, a, e);
            if r < e && l[r] == '<' {
                let c = find_char(l, r + 1, '>', e);
                if c < e && c + 1 > p {
                    match sched_entries(l, c + 1, e) {
                        Some(rest) => Some(seq![(dl, q as usize, (r + 1) as usize, c as usize)] + rest),
                        None => None,
                    }
                } else {
                    None
                }
            } else {
                None
            }
        }
    }
}

/// A line of one or more `SCHEDULED: <...>` or `DEADLINE: <...>` entries.
pub open spec fn is_scheduling(l: Seq<char>) -> bool {
    let e = text_end(l);
    skip_ws_to(l, 0, e) < e && sched_entries(l, 0, e) is Some
}

pub open spec fn prepend<T>(acc: Seq<T>, rest: Option<Seq<T>>) -> Option<Seq<T>> {
    match rest {
        Some(s) => Some(acc + s),
        None => None,
    }
}

/// The entries of a line, where it is a scheduling line.
pub fn scheduling_entries(l: &Vec<char>) -> (r: Option<Vec<(bool, usize, usize, usize)>>)
    ensures
        is_scheduling(l@) <==> r is Some,
        r is Some ==> Some(r->0@) == sched_entries(l@, 0, text_end(l@)),
        r is Some ==> forall|i: int|
            0 <= i < r->0@.len() ==> (#[trigger] r->0@[i]).2 <= r->0@[i].3 <= l@.len(),
{
    proof {
        lemma_trim_end_to(l@, 0, l@.len() as int);
        lemma_skip_ws_to(l@, 0, text_end(l@));
    }
    let e = trim_end(l, 0, l.len());
    if skip_ws(l, 0, e) >= e {
        return None;
    }
    let ghost whole = sched_entries(l@, 0, e as int);
    let mut acc: Vec<(bool, usize, usize, usize)> = Vec::new();
    let mut p: usize = 0;
    let sw: Vec<char> = vec!['S', 'C', 'H', 'E', 'D', 'U', 'L', 'E', 'D', ':'];
    let dw: Vec<char> = vec!['D', 'E', 'A', 'D', 'L', 'I', 'N', 'E', ':'];
    loop
        invariant
            p <= e <= l@.len(),
            e == text_end(l@),
            skip_ws_to(l@, 0, e as int) < e,
            whole == sched_entries(l@, 0, e as int),
            whole == prepend(acc@, sched_entries(l@, p as int, e as int)),
            sw@ == word_scheduled(),
            dw@ == word_deadline(),
            forall|i: int| 0 <= i < acc@.len() ==> (#[trigger] acc@[i]).2 <= acc@[i].3 <= l@.len(),
        decreases e - p,
    {
        proof {
            lemma_skip_ws_to(l@, p as int, e as int);
        }
        let q = skip_ws(l, p, e);
        if q >= e {
            assert(acc@ + seq![] == acc@);
            return Some(acc);
        }
        let sc = word_at(l, q, e, &sw);
        let dl = word_at(l, q, e, &dw);
        if !sc && !dl {
            return None;
        }
        let a = if sc {
            q + 10
        } else {
            q + 9
        };
        proof {
            lemma_skip_ws_to(l@, a as int, e as int);
        }
        let r = skip_ws(l, a, e);
        if !(r < e && l[r] == '<') {
            return None;
        }
        proof {
            lemma_find_char(l@, r + 1, '>', e as int);
        }
        let c = find(l, r + 1, '>', e);
        if c >= e {
            return None;
        }
        let ghost entry = (dl, q, (r + 1) as usize, c);
        let ghost before = acc@;
        acc.push((dl, q, r + 1, c));
        proof {
            if let Some(rest) = sched_entries(l@, c + 1, e as int) {
                assert(before + (seq![entry] + rest) =~= acc@ + rest);
            }
        }
        p = c + 1;
    }
}

// ---------------------------------------------------------------- drawer lines

/// Where the bracketed token opening at `q` closes, or `e` if it does not.
pub open spec fn closing(l: Seq<char>, q: int, e: int) -> int {
    if l[q] == '<' {
        find_char(l, q + 1, '>', e)
    } else if l[q] == '[' {
        find_char(l, q + 1, ']', e)
    } else {
        e
    }
}

/// The fragments of `l[p..e]`, each as a range of `l`: a `<...>` or `[...]`
/// token, or a run of other text up to the next opening bracket, trailing
/// white space removed.
pub open spec fn fragments(l: Seq<char>, p: int, e: int) -> Seq<(usize, usize)>
    decreases e - p,
{
    let q = skip_ws_to(l, p, e);
    if q >= e {
        seq![]
    } else {
        let c = closing(l, q, e);
        if c < e {
            if c + 1 > p {
                seq![(q as usize, (c + 1) as usize)] + fragments(l, c + 1, e)
            } else {
                seq![]
            }
        } else {
            let r = find_open(l, q + 1, e);
            if p < r <= e {
                seq![(q as usize, trim_end_to(l, q, r) as usize)] + fragments(l, r, e)
            } else {
                seq![]
            }
        }
    }
}

/// The fragments of a drawer line.
pub fn line_fragments(l: &Vec<char>) -> (r: Vec<(usize, usize)>)
    ensures
        r@ == fragments(l@, 0, text_end(l@)),
        forall|i: int| 0 <= i < r@.len() ==> (#[trigger] r@[i]).0 < r@[i].1 <= l@.len(),
{
    proof {
        lemma_trim_end_to(l@, 0, l@.len() as int);
    }
    let e = trim_end(l, 0, l.len());
    let ghost whole = fragments(l@, 0, e as int);
    let mut acc: Vec<(usize, usize)> = Vec::new();
    let mut p: usize = 0;
    loop
        invariant
            p <= e <= l@.len(),
            e == text_end(l@),
            whole == fragments(l@, 0, e as int),
            whole == acc@ + fragments(l@, p as int, e as int),
            forall|i: int| 0 <= i < acc@.len() ==> (#[trigger] acc@[i]).0 < acc@[i].1 <= l@.len(),
        decreases e - p,
    {
        proof {
            lemma_skip_ws_to(l@, p as int, e as int);
        }
        let q = skip_ws(l, p, e);
        if q >= e {
            assert(acc@ + seq![] == acc@);
            return acc;
        }
        let c = if l[q] == '<' {
            proof {
                lemma_find_char(l@, q + 1, '>', e as int);
            }
            find(l, q + 1, '>', e)
        } else if l[q] == '[' {
            proof {
                lemma_find_char(l@, q + 1, ']', e as int);
            }
            find(l, q + 1, ']', e)
        } else {
            e
        };
        let ghost before = acc@;
        if c < e {
            acc.push((q, c + 1));
            proof {
                assert(before + (seq![(q, (c + 1) as usize)] + fragments(l@, c + 1, e as int))
                    =~= acc@ + fragments(l@, c + 1, e as int));
            }
            p = c + 1;
        } else {
            proof {
                lemma_find_open(l@, q + 1, e as int);
            }
            let r = find_opening(l, q + 1, e);
            proof {
                lemma_trim_end_to(l@, q as int, r as int);
            }
            let t = trim_end(l, q, r);
            acc.push((q, t));
            proof {
                assert(before + (seq![(q, t)] + fragments(l@, r as int, e as int)) =~= acc@
                    + fragments(l@, r as int, e as int));
            }
            p = r;
        }
    }
}

} // verus!
