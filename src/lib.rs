use vstd::prelude::*;

pub mod replay;
pub mod error;
pub mod model;
pub mod parse;
pub mod query;
pub mod tree;
