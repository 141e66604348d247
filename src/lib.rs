//! Locates, classifies and contextualises fine-grained structural changes
//! between two versions of a source file.
//!
//! Line positions produced by a line-oriented diff are resolved to nodes of
//! an abstract syntax tree ([`syntax::Syntax`]) or of a concrete parse tree
//! ([`tree::ConcreteTree`]). Sibling sequences are aligned with a four-way
//! edit-distance recurrence, the alignment is applied recursively over whole
//! trees, and each classified node yields a feature record holding its change
//! category and the kinds of its parent and grandparent.
pub mod position;
pub mod tree;
pub mod alignment;
pub mod tree_diff;
pub mod syntax;
pub mod hunk_to_tree;
pub mod classify;
