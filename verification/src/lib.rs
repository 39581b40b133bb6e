//! Writ: the verified core of a markdown editor with live inline rendering.

use vstd::prelude::*;

pub mod acp;
pub mod buffer;
pub mod config;
pub mod cursor;
pub mod cycle;
pub mod demo;
pub mod diff;
pub mod display;
pub mod document;
pub mod editor;
pub mod git;
pub mod github;
pub mod inline;
pub mod keys;
pub mod line;
pub mod lines;
pub mod marker;
pub mod paste;
pub mod render;
pub mod renumber;
pub mod status_bar;
pub mod rope;
pub mod session;
pub mod syntax;
pub mod text;
pub mod tree_walk;
pub mod writd;

verus! {
} // verus!
