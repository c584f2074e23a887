//! A token vault: reversible pseudonymization of free text.
//!
//! Each whitespace-delimited word of the input is replaced by a randomly
//! generated, collision-checked token; a persisted bidirectional mapping
//! allows the substitution to be reversed later.

pub mod codec;
pub mod errors;
pub mod laws;
pub mod store;
pub mod text;
pub mod token;
pub mod vault;
