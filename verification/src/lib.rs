//! A tape machine for an eight-symbol language: lexer, peephole optimizer,
//! bracket resolver, interpreter and x86-64 code generator, with the
//! behaviour of each stated as a contract and proved.

pub mod alignment;
pub mod assembler;
pub mod compiler;
pub mod equivalence;
pub mod instructions;
pub mod interpreter;
pub mod jumps;
pub mod layout;
pub mod lexer;
pub mod machine;
pub mod optimizer;
pub mod preservation;
pub mod region;
pub mod rewrites;
pub mod simulation;
pub mod x86_64;
