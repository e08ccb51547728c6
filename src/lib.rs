//! A file-discovery library: depth-bounded directory walkers, an adaptive
//! thread-count policy and a composable filter pipeline.
//!
//! The walkers are decision procedures: the caller lists directories and
//! hands each listing to the walker, which decides what is reported, what is
//! descended into and which failures end the walk.
use vstd::prelude::*;

pub mod errors;
pub mod finder;
pub mod cli;

pub use errors::{FindError, FindResult};
pub use finder::Finder;

