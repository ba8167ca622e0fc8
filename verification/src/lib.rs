//! A small toolkit for reading line-oriented, delimiter-separated text
//! records: a field tokenizer, a record reader with single-record
//! lookahead, a block reader that groups records between blank lines,
//! and a one-shot table builder that checks row widths.

pub mod blocks;
pub mod fields;
pub mod parse;
pub mod text;

