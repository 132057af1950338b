//! Julia-set rendering: the escape-count rule, the wavelength-to-colour law,
//! the work of one row task, and the single-writer frame buffer that
//! assembles the pixels of a run whatever order they arrive in.

pub mod escape;
pub mod frame;
pub mod spectrum;
pub mod schedule;
