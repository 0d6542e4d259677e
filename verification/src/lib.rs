//! A model checker for labeled transition systems against formulas of the
//! modal mu-calculus.
//!
//! A system is read with [`lts::Lts::parse`] and a formula with
//! [`mu_calculus::Formula::parse`]. The states that satisfy a closed formula
//! are found by [`naive::eval`], which computes every fixed point from
//! scratch, or by [`improved::eval`], which goes on from where the last
//! computation of a fixed point ended wherever that is sound. What "the
//! states that satisfy a formula" means is said in [`semantics`]; both
//! evaluators are proved to find just these states, and to count the
//! fixed-point iterations that they make. What holds of them in general is
//! collected in [`laws`].

pub mod env;
pub mod error;
pub mod fixpoint;
pub mod improved;
pub mod laws;
pub mod lts;
pub mod modal;
pub mod mu_calculus;
pub mod naive;
pub mod ready;
pub mod semantics;
pub mod sets;
pub mod sweep;
pub mod text;
pub mod work;

pub use crate::error::MyuError;
