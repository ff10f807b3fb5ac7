//! What to re-parse when the file watcher reports a change.
use vstd::prelude::*;
use crate::text::chars_of;

verus! {

/// A change reported by the file watcher: whether it modified files, its kind
/// as the watcher names it, and the paths it touched.
#[derive(Debug)]
pub struct FileEvent {
    pub modified: bool,
    pub kind: String,
    pub paths: Vec<String>,
}

/// The same event, reported again.
pub open spec fn same_event(a: FileEvent, b: FileEvent) -> bool {
    &&& a.modified == b.modified
    &&& a.kind@ == b.kind@
    &&& a.paths@.len() == b.paths@.len()
    &&& forall|i: int| 0 <= i < a.paths@.len() ==> (#[trigger] a.paths@[i])@ == b.paths@[i]@
}

/// A path of a markup file: a file name with the extension `.org`.
pub open spec fn is_markup_path(p: Seq<char>) -> bool {
    let n = p.len();
    n > 4 && p[n - 4] == '.' && p[n - 3] == 'o' && p[n - 2] == 'r' && p[n - 1] == 'g' && p[n - 5]
        != '/'
}

/// The markup paths among `ps`, in order.
pub open spec fn markup_paths(ps: Seq<String>) -> Seq<Seq<char>>
    decreases ps.len(),
{
    if ps.len() == 0 {
        seq![]
    } else {
        markup_paths(ps.drop_last()) + if is_markup_path(ps.last()@) {
            seq![ps.last()@]
        } else {
            seq![]
        }
    }
}

/// The files to parse again for `ev`, `prev` being the event before it: none
/// for a repeat of `prev` or for a change that is no modification, else its
/// markup paths.
pub open spec fn reparse_paths(prev: Option<FileEvent>, ev: FileEvent) -> Seq<Seq<char>> {
    if !ev.modified {
        seq![]
    } else if prev matches Some(p) && same_event(p, ev) {
        seq![]
    } else {
        markup_paths(ev.paths@)
    }
}

pub fn has_markup_extension(p: &String) -> (r: bool)
    ensures
        r == is_markup_path(p@),
{
    let cs = chars_of(p.as_str());
    let n = cs.len();
    n > 4 && cs[n - 4] == '.' && cs[n - 3] == 'o' && cs[n - 2] == 'r' && cs[n - 1] == 'g' && cs[n
        - 5] != '/'
}

pub fn same_file_event(a: &FileEvent, b: &FileEvent) -> (r: bool)
    ensures
        r == same_event(*a, *b),
{
    if a.modified != b.modified || a.kind != b.kind || a.paths.len() != b.paths.len() {
        return false;
    }
    let mut i: usize = 0;
    while i < a.paths.len()
        invariant
            i <= a.paths@.len(),
            a.paths@.len() == b.paths@.len(),
            forall|j: int| 0 <= j < i ==> (#[trigger] a.paths@[j])@ == b.paths@[j]@,
        decreases a.paths@.len() - i,
    {
        if a.paths[i] != b.paths[i] {
            return false;
        }
        i += 1;
    }
    true
}

/// The files to parse again for `ev` (see `reparse_paths`).
pub fn paths_to_reparse(prev: &Option<FileEvent>, ev: &FileEvent) -> (r: Vec<String>)
    ensures
        r@.map_values(|s: String| s@) == reparse_paths(*prev, *ev),
{
    let mut r: Vec<String> = Vec::new();
    if !ev.modified {
        proof {
            assert(r@.map_values(|s: String| s@) =~= seq![]);
        }
        return r;
    }
    match prev {
        Some(p) => {
            if same_file_event(p, ev) {
                proof {
                    assert(r@.map_values(|s: String| s@) =~= seq![]);
                }
                return r;
            }
        },
        None => {},
    }
    let mut i: usize = 0;
    while i < ev.paths.len()
        invariant
            i <= ev.paths@.len(),
            r@.map_values(|s: String| s@) == markup_paths(ev.paths@.subrange(0, i as int)),
        decreases ev.paths@.len() - i,
    {
        let ghost before = r@;
        if has_markup_extension(&ev.paths[i]) {
            r.push(ev.paths[i].clone());
        }
        proof {
            assert(ev.paths@.subrange(0, i + 1).drop_last() =~= ev.paths@.subrange(0, i as int));
            assert(r@.map_values(|s: String| s@) =~= markup_paths(ev.paths@.subrange(0, i + 1)));
        }
        i += 1;
    }
    proof {
        assert(ev.paths@.subrange(0, ev.paths@.len() as int) =~= ev.paths@);
    }
    r
}

} // verus!
