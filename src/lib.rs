//! A compiler and interpreter for a tape language of eight instruction characters:
//! `>` and `<` move the cursor, `+` and `-` change the cell under it, `.` and `,`
//! write and read a byte, and `[` `]` loop while the cell is nonzero.
//!
//! `Program::parse` turns source text into a tree of `Token`s, merging runs of pointer
//! moves and of value changes; `Program::interpret_with_custom_io` runs the tree on a
//! byte tape; `Program::compile_to_assembly` lowers it to assembly text.

pub mod codegen;
pub mod interpreter;
pub mod io;
pub mod laws;
pub mod parser;
pub mod program;
pub mod text;
pub mod unfolded;

pub use interpreter::RunError;
pub use io::{ByteSink, ByteSource, Reader, VecSink, VecSource, Writer};
pub use program::{Op, ParseError, Program, Token};
