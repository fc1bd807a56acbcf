pub mod arabic;
pub mod number;
pub mod similarity;
pub mod text;
pub mod transliteration;
