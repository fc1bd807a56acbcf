pub mod analysis;
pub mod data;
pub mod lang;
pub mod nlp;
pub mod ontology;
pub mod qa;
pub mod search;
