use vstd::prelude::*;

pub mod config;
pub mod document;
pub mod engine;
pub mod laws;
pub mod lexer;
pub mod line;
pub mod movable;
pub mod parser;
pub mod reminder;
pub mod same;
pub mod text;
pub mod tree;
pub mod watch;

pub use document::{Content, Context, Drawer, Keyword, Org, OrgParser, Pos, Properties, Property, Scheduling, Section};
pub use lexer::ParseError;
pub use movable::Movable;
pub use parser::parse;
pub use reminder::{get_reminders, get_reminders_at, Reminder};

verus! {

} // verus!
