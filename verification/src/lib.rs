//! An Earley chart parser: a grammar table built from a textual rule list, a
//! tokenizer that matches input atoms against the grammar's terminals, a
//! recognizer that builds the chart of dotted items, and an extractor that
//! walks the finished chart to produce one derivation tree.

pub mod grammar;
pub mod parser;
pub mod tokenizer;
