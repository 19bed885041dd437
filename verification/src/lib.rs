//! Measure, refuse outside validity, optimise, verify.
//!
//! The verified core of an engine that answers from measurement: spans of a problem, refusals,
//! values a source may not have reported, the rules a search step breaks, the bookkeeping of a
//! decode, the declarations that constrain a subset search, the validity gate around a law, and
//! the guard that keeps name keyed lookups out of a derivation.
pub mod bits;
pub mod cost;
pub mod decode;
pub mod feasible;
pub mod guards;
pub mod ledger;
pub mod model;
pub mod refusal;
pub mod reported;
pub mod span;
pub mod subset;

pub use cost::{Rules, RULES};
pub use decode::{admit_problem, backtrack, Tally};
pub use feasible::{admit_widths, lay_out, Layout};
pub use guards::forbid_symbols;
pub use ledger::{ask, lists, Citation, Law};
pub use model::{Model, Sense};
pub use refusal::{Answer, Refusal, RefusalKind};
pub use reported::Reported;
pub use span::{first_covering, Span};
pub use subset::{Selection, Solver, Terms, MAX_POOL};
