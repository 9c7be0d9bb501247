//! A terminal-native Jupyter notebook viewer: the rendering library.
//!
//! Every renderer appends the text it would print to a `String`; the
//! program around the library decides where that text goes.

pub mod cli;
pub mod env;
pub mod ipynb;
pub mod escape;
pub mod numeric;
pub mod render;
pub mod setup;
pub mod strs;
pub mod theme;
pub mod width;

use vstd::prelude::*;

verus! {

} // verus!
