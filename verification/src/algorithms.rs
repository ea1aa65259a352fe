//! The bundled guessing strategies.

pub mod naive;
