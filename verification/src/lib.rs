use vstd::prelude::*;

pub mod behavior;
pub mod confidence;
pub mod cache;
pub mod controls;
pub mod corpus;
pub mod explorer;
pub mod generation;
pub mod html;
pub mod json;
pub mod numbers;
pub mod punctuation;
pub mod qa;
pub mod radial;
pub mod score;
pub mod session;
pub mod spiral;
pub mod text;
pub mod tokens;
pub mod trie;
pub mod viewer;
pub mod vocab;

verus! {
} // verus!
