//! Grammar-driven structure-aware generation: grammars are compiled to an
//! intermediate representation, expanded by decisions recorded on a byte
//! tape, and the tape can be decoded back to the same output.

pub mod ids;
pub mod grammar;
pub mod error;
pub mod profile;
pub mod rng;
pub mod tape;
pub mod ast;
pub mod tape_map;
pub mod hooks;
pub mod engine_spec;
pub mod decode;
pub mod generate;
pub mod validate;
pub mod analysis;
pub mod text;
pub mod parse_error;
pub mod tokenizer;
pub mod raw;
pub mod ir_builder;
pub mod ebnf;
pub mod peg;
pub mod antlr;
pub mod stats;
pub mod sql;
pub mod mutation;
pub mod corpus;
pub mod reachability;
pub mod fuzz_target;
pub mod html_target;
pub mod css_target;
pub mod cli;
pub mod readiness;
pub mod recommend;
pub mod sql_gen;
