//! A coherence checker for a small trait language with negative bounds.
//!
//! A program declares structs, traits and generic impls:
//!
//! ```text
//! struct A;
//! trait TA {}
//! trait TB {}
//! impl<P: TA> T<P> for A {}
//! impl<P: TB - TA> T<P> for A {}
//! ```
//!
//! A bound `TB - TA` asks that a parameter implements `TB` and does not
//! implement `TA`. For every pair of impls the checker decides whether both
//! may apply to one instantiation (they overlap) or cannot (they are
//! disjoint). Both impls are elaborated, each with variables of its own; their
//! traits and targets are unified; the bounds of the variables that
//! unification links are joined; and a joined bound that forbids a trait that
//! it also obliges to, directly or through supertraits, proves the impls
//! disjoint.
//!
//! - [`syntax`]: declarations as they are written, and their models.
//! - [`parser`]: the surface grammar.
//! - [`render`]: text for declarations and elaborated types.
//! - [`concrete`]: elaborated types, trait applications and bounds.
//! - [`unifier`]: substitutions, unification, classes of linked variables.
//! - [`rules`]: the rules of the checker, over the models.
//! - [`env`]: elaboration, supertrait closure and the check of one pair.
//! - [`checker`]: the declaration tables and the sweep over all pairs.
//! - [`errors`]: the errors.
//! - [`laws`]: what holds of every program.
//! - [`symmetry`], [`renaming`]: swapped unification and renamed variables,
//!   on which the symmetry of the verdict rests.
//! - [`closure`]: the depth of supertrait chains.
//! - [`seqs`]: sequences as ordered sets, and sequences of results.

pub mod checker;
pub mod closure;
pub mod concrete;
pub mod env;
pub mod errors;
pub mod laws;
pub mod parser;
pub mod renaming;
pub mod render;
pub mod rules;
pub mod seqs;
pub mod symmetry;
pub mod syntax;
pub mod unifier;
