//! Compiler core for an object-oriented security-policy language: builds the type catalog
//! of a parsed policy, orders its inheritance graph parents first, extracts the
//! access-vector rules, and lowers the result to a parenthesized intermediate language.
use vstd::prelude::*;

pub mod ast;
pub mod catalog;
pub mod compile;
pub mod constants;
pub mod diagnose;
pub mod error;
pub mod internal_rep;
pub mod ir;
pub mod resolve;
pub mod rules;
pub mod stuck;

verus! {

} // verus!
