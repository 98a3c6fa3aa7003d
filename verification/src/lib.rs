use vstd::prelude::*;

pub mod pragma;
pub mod text;
pub mod lines;
pub mod spawn;
pub mod diagnostics;
pub mod errors;
pub mod diff;
pub mod perf;
pub mod json;
pub mod paths;
pub mod config;
pub mod v6_compat;
pub mod tsconfig;
pub mod posix;
pub mod globs;
pub mod order;
pub mod sorting;
pub mod selection;
pub mod pipeline;
pub mod format;
pub mod parse;
pub mod temp_config;
pub mod files;
pub mod subset;
pub mod discovery;
pub mod standalone;
pub mod options;
pub mod laws;

verus! {

} // verus!
