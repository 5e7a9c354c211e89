//! A boolean-circuit engine: named gates composed from other gates by
//! wiring integer-indexed nets, evaluated with verified semantics.
pub mod builder;
pub mod gate;
pub mod lexer;
