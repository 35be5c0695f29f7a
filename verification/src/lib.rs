use vstd::prelude::*;

pub mod canonical;
pub mod cli;
pub mod commands;
pub mod completion;
pub mod display;
pub mod document;
pub mod edits;
pub mod editor;
pub mod ffi;
pub mod headline;
pub mod highlight;
pub mod keymap;
pub mod laws;
pub mod list;
pub mod paths;
pub mod provider;
pub mod rewrite;
pub mod search;
pub mod session;
pub mod status;
pub mod structure;
pub mod text;
pub mod timestamp;
pub mod view;

verus! {

} // verus!
