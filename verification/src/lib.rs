//! Synthesis of polynomial loop invariants by the template method.
//!
//! A template is a polynomial of bounded degree whose coefficients are
//! unknown linear expressions in parameters. It is carried backward
//! through a program; each loop asks that the template before the loop and
//! the template before its body agree. Matching coefficients turns these
//! demands into linear equations in the parameters, which are solved
//! exactly over the rationals.
//!
//! The modules, from the leaves up:
//!
//! - [`rat`]: exact rationals; [`ring`]: variables and parameters;
//! - [`exps`], [`mon`]: exponent vectors, the monomial order, monomials;
//! - [`coef`], [`linexp`]: coefficients, linear expressions in parameters;
//! - [`terms`], [`poly`], [`temp`]: canonical sums of monomials,
//!   polynomials, templates;
//! - [`laws`], [`subs_laws`]: the laws of the algebra;
//! - [`expr`], [`ideal`], [`constraints`]: programs, ideals of templates,
//!   the backward walk;
//! - [`linearize`], [`linsys`], [`gauss`], [`solve`]: linear equations
//!   and their solution;
//! - [`poly_parse`], [`expr_parse`]: the text form of polynomials and
//!   programs; [`text`]: the text form of values.
//!
//! Numbers are held in 64 bits. Every operation whose exact result cannot
//! be held returns `None`, or the failure `Overflow`; no operation rounds
//! or wraps.
pub mod coef;
pub mod constraints;
pub mod expr;
pub mod expr_parse;
pub mod exps;
pub mod failure;
pub mod gauss;
pub mod ideal;
pub mod laws;
pub mod linearize;
pub mod linexp;
pub mod linsys;
pub mod mon;
pub mod poly;
pub mod poly_parse;
pub mod rat;
pub mod ring;
pub mod solve;
pub mod subs_laws;
pub mod temp;
pub mod terms;
pub mod text;
