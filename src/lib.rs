//! A pull-style JSON reader that hands out slices of its input where it can,
//! and a mapping layer from JSON values to Rust values with recoverable
//! diagnostics.
pub mod context;
pub mod cursor;
pub mod error;
pub mod grammar;
pub mod integer;
pub mod mapping;
pub mod number;
pub mod string;
pub mod text;
pub mod value;
