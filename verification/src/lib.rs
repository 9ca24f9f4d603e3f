//! A term-rewriting engine for equational algebra.
//!
//! Terms are words: flat symbol sequences in prefix notation, built from
//! variables and operators.  A weight-based reduction ordering orients
//! equations into terminating rewrite rules, unification finds the most
//! general way to make two terms identical, superposition derives the
//! critical terms two rules both rewrite, and Knuth–Bendix completion works
//! a set of axioms into oriented rewrite rules until its queue empties — or
//! reports the axiom it cannot orient, or gives up at an explicit iteration
//! bound.
//!
//! Operator families are supplied by the consumer: anything with an arity,
//! a non-negative weight, and an injective total order index.  Two concrete
//! families, a multiplicative and an additive one, live in `prod` and `sum`.

pub mod completion;
pub mod critical;
pub mod model;
pub mod order;
pub mod prod;
pub mod subst;
pub mod sum;
pub mod unify;
pub mod word;
