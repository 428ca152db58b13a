//! Deep zoom: rendering pixels as small offsets from an orbit computed once.

pub mod orbit;
pub mod perturbation_theory;
