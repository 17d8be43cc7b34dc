//! The pages that show a demo.
pub mod source;
pub mod engines;
pub mod source2;
