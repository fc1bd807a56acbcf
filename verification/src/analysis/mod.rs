pub mod frequency;
pub mod stats;
