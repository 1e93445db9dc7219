//! Drawing primitives, the built-in font and the test patterns.
pub mod dashboard;
pub mod font5x7;
pub mod patterns;
pub mod primitives;
