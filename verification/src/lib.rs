//! Boolean-formula normalization and partial evaluation over a single
//! connective (n-ary NOR), with a bitset-backed knowledge base of variable
//! assignments.
//!
//! A caller builds a [`nary::formula::Formula`] from combinators, then either
//! canonicalizes it with `normify` or partially evaluates it against a
//! [`kb::Kb`] with `simplify_formula` / `test_formula`.

pub mod var;
pub mod var_set;
pub mod kb;
pub mod vec_mut_q;
pub mod nary;
