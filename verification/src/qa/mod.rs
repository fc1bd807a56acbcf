pub mod answering;
