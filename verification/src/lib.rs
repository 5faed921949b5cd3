use vstd::prelude::*;

pub mod text;
pub mod entity;
pub mod fmt;
pub mod formatter;
pub mod git;
pub mod index;
pub mod benchmark;
pub mod cache;
pub mod cochange;
pub mod diff;
pub mod diff_json;
pub mod change_detail;
pub mod grouping;
pub mod hasher;
pub mod inline_diff;
pub mod install;
pub mod markdown_formatter;
pub mod markdown_index;
pub mod matcher;
pub mod output;
pub mod parser;
pub mod query;
pub mod tokens;
pub mod where_cmd;

verus! {

} // verus!
