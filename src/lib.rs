//! A CDCL SAT solver for formulas in conjunctive normal form: two watched literals,
//! first-UIP clause learning with backjumping, and reduction of the learned clauses by
//! glue, over a compact clause arena.
use vstd::prelude::*;

pub mod analyze;
pub mod assignment;
pub mod clause;
pub mod dimacs;
pub mod garbage;
pub mod lit;
pub mod litvec;
pub mod normalize;
pub mod propagate;
pub mod rank;
pub mod solver;
pub mod sound;
pub mod trail;
pub mod util;
pub mod varvec;

pub use dimacs::{Dimacs, ParseError};
pub use lit::{Lit, Var};
pub use solver::{Model, Proof, Result, Solver, Stats};
pub use util::{remaining, Remaining};

verus! {

} // verus!
