//! Parsing of raw Bib(La)TeX source text into entries, string macros and a
//! preamble, with every piece of text kept exactly as it was written.

pub mod chars;
pub mod formatted;
pub mod grammar;
pub mod laws;
pub mod scanner;
pub mod syntax;
pub mod table;
pub mod text;
