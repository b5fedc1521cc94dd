use vstd::prelude::*;

pub mod cli;
pub mod commands;
pub mod config;
pub mod error;
pub mod frontmatter;
pub mod io;
pub mod list;
pub mod paths;
pub mod resolve;
pub mod search;
pub mod sort;
pub mod text;

verus! {

} // verus!
