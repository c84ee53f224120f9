//! A small stack-and-register bytecode machine with its assembler.
//!
//! [`assembler`] turns a list of labelled instructions into bytecode and lists
//! it as text; [`vm`] executes bytecode on a character input and collects the
//! characters it writes. What the two compute is defined in [`encoding`],
//! [`listing`] and [`machine`], over sequences and plain numbers, together
//! with the laws that hold of it. [`decrypter`] is a program for the machine
//! with the proof of what it does, and [`text`] holds the few string
//! operations that the rest builds on.

pub mod assembler;
pub mod decrypter;
pub mod encoding;
pub mod listing;
pub mod machine;
pub mod text;
pub mod vm;
