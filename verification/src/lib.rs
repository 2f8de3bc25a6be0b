//! The logic of a small interactive shell: command-name completion, a
//! tokenizer, command-line interpretation, the prompt's line editor and the
//! shell's settings.
use vstd::prelude::*;

pub mod command;
pub mod completion;
pub mod config;
pub mod editor;
pub mod lexer;
pub mod text;
pub mod trie;

verus! {

} // verus!
