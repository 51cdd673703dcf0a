//! A conflict-driven clause-learning core for propositional formulas in
//! conjunctive normal form.
//!
//! A formula is built once from a pile of clauses, each a list of literal
//! tokens. A caller then alternates decisions and solve steps until the
//! formula reports that the search has ended. A solve step is one
//! propagation round over the clause store; a round that meets a conflict
//! is followed by conflict analysis, and by a jump back where the learned
//! clause names a level to go back to.
//!
//! The modules, leaves first:
//!
//! - `literal`: packed literals.
//! - `tokens`: the tokens of an input clause.
//! - `ordered_map`, `oracle`: the insertion-ordered maps and the random
//!   source that the solver takes from other crates; their contracts are
//!   stated, not proved.
//! - `registry`: variable names and their indices.
//! - `bindings`: name-to-value bindings and the literals they stand for.
//! - `clause`: clauses under a trail, and resolution.
//! - `state`: the solver's state as mathematical values, and each step of
//!   the search as a function on it.
//! - `invariants`, `entailment`, `laws`: what every step keeps, and what
//!   follows for the search as a whole.
//! - `formula`: the formula itself and the operations on it.

pub mod bindings;
pub mod clause;
pub mod entailment;
pub mod formula;
pub mod invariants;
pub mod laws;
pub mod literal;
pub mod oracle;
pub mod ordered_map;
pub mod registry;
pub mod state;
pub mod tokens;
