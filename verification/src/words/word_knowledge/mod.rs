//! The layouts in which the knowledge of one word has been stored, one module
//! for each version.

pub mod v0_2;
pub mod v0_3;
