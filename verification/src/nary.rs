//! Boolean formulas over the single n-ary NOR connective: the mathematical
//! model ([`model`]), the executable tree with its normalizer and evaluator
//! ([`formula`]), and the laws the normalizer obeys ([`laws`]).

pub mod model;
pub mod formula;
pub mod laws;
