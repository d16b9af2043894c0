//! Netlists of logic gates: building them from loosely typed records,
//! ordering reusable sub-circuits by dependency, and evaluating them to a
//! fixed point.

pub mod boundary;
pub mod io;
pub mod simul;
pub mod text;
pub mod util;
pub mod vecs;
