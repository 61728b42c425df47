//! The propagation core of a finite-domain constraint solver: constraints are turned into
//! propagation units, which the solver runs to a fixed point; constraints with a negation can be
//! fully reified.

pub mod constraints;
pub mod domains;
pub mod engine;
pub mod propagators;

pub use constraints::{equals, not_equals, register_each, Constraint, NegatableConstraint};
pub use domains::{Domain, DomainId, Literal};
pub use engine::{ConstraintOperationError, Contradiction, Solver};
pub use propagators::{Propagator, ReifiedPropagator, Unit};
