//! A tape machine language with one interpreter and two code generators.
//!
//! Programs are sequences of four instruction forms over a tape of 65536
//! signed cells. [`parse`] reads program text and [`text`] writes it back;
//! [`machine`] executes a program; [`codegen`] lowers it to a small x86-64
//! instruction set, with or without the register cache of [`cache`], whose
//! encoding is left to the embedding program; [`sim`] gives that instruction
//! set a meaning and relates the generated code to the interpreter.

pub mod op;
pub mod parse;
pub mod machine;
pub mod codegen;
pub mod cache;
pub mod text;
pub mod sim;

