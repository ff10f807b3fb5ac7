//! Shifting every position of a tree by a column and a line delta.
use vstd::prelude::*;
use crate::document::{Content, Drawer, Keyword, Pos, Properties, Property, Scheduling, Section};

verus! {

/// `v + d`, held within the range of `usize`.
pub open spec fn shift(v: usize, d: isize) -> usize {
    let x = v + d;
    if x < 0 {
        0
    } else if x > usize::MAX {
        usize::MAX
    } else {
        x as usize
    }
}

pub open spec fn pos_moved(a: Pos, b: Pos, col: isize, line: isize) -> bool {
    a.col == shift(b.col, col) && a.line == shift(b.line, line)
}

pub fn shift_by(v: usize, d: isize) -> (r: usize)
    ensures
        r == shift(v, d),
{
    if d >= 0 {
        v.saturating_add(d as usize)
    } else {
        let m: usize = if d == isize::MIN {
            (isize::MAX as usize) + 1
        } else {
            (-d) as usize
        };
        v.saturating_sub(m)
    }
}

fn move_pos(p: &mut Pos, col: isize, line: isize)
    ensures
        pos_moved(*final(p), *old(p), col, line),
{
    p.col = shift_by(p.col, col);
    p.line = shift_by(p.line, line);
}

pub trait Movable: Sized {
    /// `self` is `before` with every position shifted by the deltas.
    spec fn moved(&self, before: &Self, col: isize, line: isize) -> bool;

    fn move_point(&mut self, col: isize, line: isize)
        ensures
            final(self).moved(old(self), col, line),
    ;
}

/// Each element of `a` is the same element of `b`, moved.
pub open spec fn all_moved<T: Movable>(a: Seq<T>, b: Seq<T>, col: isize, line: isize) -> bool {
    a.len() == b.len() && forall|i: int| 0 <= i < a.len() ==> (#[trigger] a[i]).moved(&b[i], col, line)
}

fn move_all<T: Movable>(v: &mut Vec<T>, col: isize, line: isize)
    ensures
        all_moved(final(v)@, old(v)@, col, line),
{
    let mut rest: Vec<T> = Vec::new();
    std::mem::swap(&mut rest, v);
    let ghost orig = rest@;
    let ghost mut k: int = 0;
    while rest.len() > 0
        invariant
            0 <= k <= orig.len(),
            rest@ == orig.subrange(k, orig.len() as int),
            v@.len() == k,
            forall|i: int| 0 <= i < k ==> (#[trigger] v@[i]).moved(&orig[i], col, line),
        decreases rest@.len(),
    {
        let ghost before = rest@;
        let mut x = rest.remove(0);
        proof {
            assert(x == orig[k]);
            assert(rest@ =~= orig.subrange(k + 1, orig.len() as int));
        }
        x.move_point(col, line);
        v.push(x);
        proof {
            k = k + 1;
        }
    }
}

impl Movable for Content {
    open spec fn moved(&self, before: &Content, col: isize, line: isize) -> bool {
        pos_moved(self.pos, before.pos, col, line) && self.contents == before.contents
    }

    fn move_point(&mut self, col: isize, line: isize) {
        move_pos(&mut self.pos, col, line);
    }
}

impl Movable for Keyword {
    open spec fn moved(&self, before: &Keyword, col: isize, line: isize) -> bool {
        pos_moved(self.pos, before.pos, col, line) && self.key == before.key && self.value
            == before.value
    }

    fn move_point(&mut self, col: isize, line: isize) {
        move_pos(&mut self.pos, col, line);
    }
}

impl Movable for Property {
    open spec fn moved(&self, before: &Property, col: isize, line: isize) -> bool {
        pos_moved(self.pos, before.pos, col, line) && self.key == before.key && self.value
            == before.value
    }

    fn move_point(&mut self, col: isize, line: isize) {
        move_pos(&mut self.pos, col, line);
    }
}

impl Movable for Properties {
    open spec fn moved(&self, before: &Properties, col: isize, line: isize) -> bool {
        pos_moved(self.pos, before.pos, col, line) && all_moved(
            self.children@,
            before.children@,
            col,
            line,
        )
    }

    fn move_point(&mut self, col: isize, line: isize) {
        move_pos(&mut self.pos, col, line);
        move_all(&mut self.children, col, line);
    }
}

impl Movable for Drawer {
    open spec fn moved(&self, before: &Drawer, col: isize, line: isize) -> bool {
        pos_moved(self.pos, before.pos, col, line) && self.name == before.name && all_moved(
            self.children@,
            before.children@,
            col,
            line,
        )
    }

    fn move_point(&mut self, col: isize, line: isize) {
        move_pos(&mut self.pos, col, line);
        move_all(&mut self.children, col, line);
    }
}

impl Movable for Scheduling {
    open spec fn moved(&self, before: &Scheduling, col: isize, line: isize) -> bool {
        match (*self, *before) {
            (Scheduling::Scheduled(p, t, d), Scheduling::Scheduled(q, u, e)) => pos_moved(
                p,
                q,
                col,
                line,
            ) && t == u && d == e,
            (Scheduling::Deadline(p, t, d), Scheduling::Deadline(q, u, e)) => pos_moved(
                p,
                q,
                col,
                line,
            ) && t == u && d == e,
            _ => false,
        }
    }

    fn move_point(&mut self, col: isize, line: isize) {
        match self {
            Scheduling::Scheduled(p, _, _) => move_pos(p, col, line),
            Scheduling::Deadline(p, _, _) => move_pos(p, col, line),
        }
    }
}

/// `a` is `b` with every position in it and under it shifted.
pub open spec fn section_moved(a: Section, b: Section, col: isize, line: isize) -> bool
    decreases b,
{
    &&& pos_moved(a.pos, b.pos, col, line)
    &&& a.title == b.title
    &&& all_moved(a.drawers@, b.drawers@, col, line)
    &&& all_moved(a.properties@, b.properties@, col, line)
    &&& all_moved(a.keywords@, b.keywords@, col, line)
    &&& all_moved(a.contents@, b.contents@, col, line)
    &&& all_moved(a.scheduling@, b.scheduling@, col, line)
    &&& a.sections@.len() == b.sections@.len()
    &&& forall|i: int|
        0 <= i < b.sections@.len() ==> section_moved(#[trigger] a.sections@[i], b.sections@[i], col, line)
}

fn move_section(s: &mut Section, col: isize, line: isize)
    ensures
        section_moved(*final(s), *old(s), col, line),
    decreases *old(s),
{
    move_pos(&mut s.pos, col, line);
    move_all(&mut s.drawers, col, line);
    move_all(&mut s.properties, col, line);
    move_all(&mut s.keywords, col, line);
    move_all(&mut s.contents, col, line);
    move_all(&mut s.scheduling, col, line);
    let mut rest: Vec<Section> = Vec::new();
    std::mem::swap(&mut rest, &mut s.sections);
    let ghost orig = rest@;
    proof {
        assert(orig == old(s).sections@);
    }
    let ghost mut k: int = 0;
    while rest.len() > 0
        invariant
            0 <= k <= orig.len(),
            orig == old(s).sections@,
            pos_moved(s.pos, old(s).pos, col, line),
            s.title == old(s).title,
            all_moved(s.drawers@, old(s).drawers@, col, line),
            all_moved(s.properties@, old(s).properties@, col, line),
            all_moved(s.keywords@, old(s).keywords@, col, line),
            all_moved(s.contents@, old(s).contents@, col, line),
            all_moved(s.scheduling@, old(s).scheduling@, col, line),
            rest@ == orig.subrange(k, orig.len() as int),
            s.sections@.len() == k,
            forall|i: int| 0 <= i < k ==> section_moved(#[trigger] s.sections@[i], orig[i], col, line),
        decreases rest@.len(),
    {
        let mut x = rest.remove(0);
        proof {
            assert(x == orig[k]);
            assert(rest@ =~= orig.subrange(k + 1, orig.len() as int));
            assert(decreases_to!(old(s).sections => old(s).sections@));
            assert(decreases_to!(old(s).sections@ => old(s).sections@[k]));
        }
        move_section(&mut x, col, line);
        s.sections.push(x);
        proof {
            k = k + 1;
        }
    }
}

impl Movable for Section {
    open spec fn moved(&self, before: &Section, col: isize, line: isize) -> bool {
        section_moved(*self, *before, col, line)
    }

    fn move_point(&mut self, col: isize, line: isize) {
        move_section(self, col, line);
    }
}

} // verus!
