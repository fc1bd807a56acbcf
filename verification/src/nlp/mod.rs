pub mod pos_tagger;
pub mod stopwords;
pub mod wordnet;
