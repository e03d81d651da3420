//! An interpreter for the eight-symbol tape language: a lexer that turns source
//! bytes into tokens, a builder that folds tokens into counted instructions and
//! loop spans, and an executor that runs instructions against a byte tape.

pub mod brackets;
pub mod executor;
pub mod instruction;
pub mod intermediate_representation;
pub mod lexer;
pub mod ranged;
pub mod semantics;
pub mod stream;
pub mod tape;
pub mod text;
pub mod token;

pub use executor::{input_result, output_result, Executor, ExecutorError};
pub use instruction::{Instruction, InstructionIterator, InstructionLoop};
pub use intermediate_representation::{collect_instructions, IRError, IntermediateRepresentation};
pub use lexer::{tokenize, Lexer, TokenIterator};
pub use ranged::Ranged;
pub use stream::{
    decode_decimal, ByteInput, ByteOutput, DecimalError, EndOfInput, InputStream, Never,
    OutputStream,
};
pub use tape::Tape;
pub use text::decimal;
pub use token::{InvalidTokenError, Token};
