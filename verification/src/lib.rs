//! Generative routines for test graphs in the style of the Stanford GraphBase,
//! over an arena-backed graph whose arcs name their tips by vertex index.
use vstd::prelude::*;

pub mod decimal;
pub mod fields;
pub mod num;
pub mod reserve;
pub mod backend;
pub mod board;
pub mod bounds;
pub mod primitives;

verus! {
} // verus!
