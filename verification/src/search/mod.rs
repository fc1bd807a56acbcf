pub mod engine;
pub mod index;
pub mod query;
pub mod results;
pub mod scoring;
