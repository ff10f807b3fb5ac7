//! Parsing a whole document.
use vstd::prelude::*;
use crate::document::{Context, Org};
use crate::lexer::{blocks, item_matches, lex, lines_of, split, view_lines, Item, ParseError};
use crate::text::chars_of;
use crate::tree::{build_org, org_matches};

verus! {

/// `items` are the blocks of the lines `ls`, built.
pub open spec fn items_of(items: Seq<Item>, ls: Seq<Seq<char>>) -> bool {
    match blocks(ls, 0) {
        Ok(bs) => items.len() == bs.len() && forall|k: int|
            0 <= k < bs.len() ==> item_matches(#[trigger] items[k], ls, bs[k]),
        Err(_) => false,
    }
}

/// What parsing the text `s` gives: the document built from the blocks of its
/// lines, or the error that grouping its lines into blocks meets.
pub open spec fn parsed(r: Result<Org, ParseError>, s: Seq<char>) -> bool {
    match r {
        Ok(org) => exists|items: Seq<Item>| items_of(items, lines_of(s)) && org_matches(org, items),
        Err(e) => blocks(lines_of(s), 0) == Err::<Seq<(crate::lexer::Block, int, int)>, ParseError>(e),
    }
}

/// Parses a document.
pub fn parse(ctx: &mut Context, content: &str) -> (r: Result<Org, ParseError>)
    ensures
        parsed(r, content@),
        r is Ok <==> blocks(lines_of(content@), 0) is Ok,
{
    let cs = chars_of(content);
    let ls = split(&cs);
    match lex(&ls) {
        Ok(items) => {
            let ghost its = items@;
            let org = build_org(items);
            proof {
                assert(items_of(its, view_lines(ls@)));
            }
            Ok(org)
        },
        Err(e) => Err(e),
    }
}

} // verus!
