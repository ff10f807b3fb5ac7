//! The document model: a tree of sections with their property blocks,
//! drawers, keyword lines, body text and scheduling entries.
use vstd::prelude::*;

verus! {

/// A line and a column, both counted from 1.
#[derive(Clone, Copy, Debug, Default, PartialEq, Eq, Structural)]
pub struct Pos {
    pub line: usize,
    pub col: usize,
}

impl Pos {
    pub fn new(line: usize, col: usize) -> (r: Pos)
        ensures
            r.line == line,
            r.col == col,
    {
        Pos { line, col }
    }
}

/// State handed through a parse.
#[derive(Clone, Debug, Default)]
pub struct Context {}

impl Context {
    pub fn new() -> (r: Context) {
        Context {  }
    }
}

/// The grammar of the markup dialect; `parse` applies it.
#[derive(Clone, Copy, Debug, Default)]
pub struct OrgParser;

/// A parsed document.
#[derive(Debug, Default, PartialEq, Eq)]
pub struct Org {
    pub filename: Option<String>,
    /// The value of a top-level `ID` property, its key compared without case.
    pub id: Option<String>,
    /// The value of a top-level `TITLE` keyword, its key compared without case.
    pub title: Option<String>,
    pub drawers: Vec<Drawer>,
    pub properties: Vec<Properties>,
    pub keywords: Vec<Keyword>,
    pub sections: Vec<Section>,
}

impl Org {
    pub fn new() -> (r: Org)
        ensures
            r.filename is None,
            r.id is None,
            r.title is None,
            r.drawers@.len() == 0,
            r.properties@.len() == 0,
            r.keywords@.len() == 0,
            r.sections@.len() == 0,
    {
        Org {
            filename: None,
            id: None,
            title: None,
            drawers: Vec::new(),
            properties: Vec::new(),
            keywords: Vec::new(),
            sections: Vec::new(),
        }
    }
}

/// A `#+KEY: value` line.
#[derive(Clone, Debug, Default, PartialEq, Eq)]
pub struct Keyword {
    pub key: String,
    pub value: String,
    pub pos: Pos,
}

/// A `:PROPERTIES:` ... `:END:` block.
#[derive(Clone, Debug, Default, PartialEq, Eq)]
pub struct Properties {
    pub pos: Pos,
    pub children: Vec<Property>,
}

/// One `:KEY: value` line of a property block.
#[derive(Clone, Debug, Default, PartialEq, Eq)]
pub struct Property {
    pub key: String,
    pub value: String,
    pub pos: Pos,
}

/// A `:NAME:` ... `:END:` block other than a property block.
#[derive(Clone, Debug, Default, PartialEq, Eq)]
pub struct Drawer {
    pub name: String,
    pub pos: Pos,
    pub children: Vec<Content>,
}

/// A piece of text: a run of body lines, or a fragment of a drawer line.
#[derive(Clone, Debug, Default, PartialEq, Eq)]
pub struct Content {
    pub pos: Pos,
    pub contents: String,
}

/// A heading and everything under it up to the next heading of equal or
/// smaller depth.
#[derive(Debug, Default, PartialEq, Eq)]
pub struct Section {
    pub pos: Pos,
    pub title: String,
    pub drawers: Vec<Drawer>,
    pub properties: Vec<Properties>,
    pub keywords: Vec<Keyword>,
    pub contents: Vec<Content>,
    pub sections: Vec<Section>,
    pub scheduling: Vec<Scheduling>,
}

/// A `SCHEDULED:` or `DEADLINE:` entry: where it stands, the title of its
/// section, and the timestamp as written between the angle brackets.
#[derive(Clone, Debug, PartialEq, Eq)]
pub enum Scheduling {
    Scheduled(Pos, String, String),
    Deadline(Pos, String, String),
}

impl Scheduling {
    pub open spec fn title_view(&self) -> Seq<char> {
        match self {
            Scheduling::Scheduled(_, t, _) => t@,
            Scheduling::Deadline(_, t, _) => t@,
        }
    }

    pub open spec fn timestamp_view(&self) -> Seq<char> {
        match self {
            Scheduling::Scheduled(_, _, d) => d@,
            Scheduling::Deadline(_, _, d) => d@,
        }
    }
}

} // verus!
