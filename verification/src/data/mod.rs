pub mod loader;
pub mod qac;
pub mod quran;
pub mod table;
