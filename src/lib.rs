//! Evolves keyboard layouts that are cheap to type a body of text on.
//!
//! `xgrams` counts the character sequences of a text, `layout` places characters
//! on key slots and scores a layout against those counts with the tables of
//! `costs`, `score` holds the figures and the tournament that compares them,
//! `ngram` collects movement penalties while typing, and `generation` grows,
//! scores and shrinks a population of layouts.
use vstd::prelude::*;

pub mod costs;
pub mod generation;
pub mod layout;
pub mod ngram;
pub mod score;
pub mod xgrams;

verus! {

} // verus!
