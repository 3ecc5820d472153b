//! The two tree protocols: point functions and interval functions.
pub mod dif;
pub mod dpf;
