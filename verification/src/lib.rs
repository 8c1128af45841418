//! A parser generator: it reads a grammar file, builds SLR(1) tables for it and
//! writes a parser for the grammar in C.

pub mod action;
pub mod alternatives;
pub mod automaton;
pub mod cli;
pub mod codegen;
pub mod directives;
pub mod driver;
pub mod entries;
pub mod grammar;
pub mod growth;
pub mod language;
pub mod laws;
pub mod lexer;
pub mod machine;
pub mod numbers;
pub mod parser;
pub mod paths;
pub mod precedence;
pub mod report;
pub mod rulebook;
pub mod sets;
pub mod syntax;
pub mod tables;
pub mod text;
pub mod translation;
pub mod usage;
pub mod words;
pub mod written;
