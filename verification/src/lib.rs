use vstd::prelude::*;

pub mod bib_parser;
pub mod citation_engine;
pub mod commands;
pub mod formatter;
pub mod models;
pub mod state;
pub mod storage;
pub mod strmap;
pub mod text;

verus! {
} // verus!
