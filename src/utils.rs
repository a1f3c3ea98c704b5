pub mod bytesreader;
pub mod ngram;
pub mod laws;
pub mod cli;
