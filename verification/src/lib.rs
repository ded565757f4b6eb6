//! Reducing, scanning and folding the rows of arrays.
//!
//! A [`Uiua`](env::Uiua) environment holds a stack of values, a stack of functions and a
//! [`Runtime`](env::Runtime). [`reduce`](reduce::reduce), [`scan`](scan::scan) and
//! [`fold`](fold::fold) take a function and values off the stacks and put what they give on the
//! stack of values.
pub mod array;
pub mod eco;
pub mod env;
pub mod error;
pub mod fast;
pub mod fold;
pub mod function;
pub mod laws;
pub mod pervade;
pub mod reduce;
pub mod scan;
pub mod value;
