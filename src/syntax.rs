//! The abstract syntax tree: lists with owned children, and atoms.
use vstd::prelude::*;
use crate::position::SingleLineSpan;

verus! {

/// A node of the abstract syntax tree. Both variants carry the line spans
/// they cover, one per line, since a node may reach over several lines.
#[derive(Debug)]
pub enum Syntax {
    List { children: Vec<Syntax>, position: Vec<SingleLineSpan> },
    Atom { content: String, position: Vec<SingleLineSpan> },
}

} // verus!
