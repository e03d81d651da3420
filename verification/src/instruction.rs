//! Instructions: what the builder makes of the tokens, and what the executor runs.

use vstd::prelude::*;
use vstd::string::StringSliceAdditionalSpecFns;
use crate::intermediate_representation::IntermediateRepresentation;

verus! {

/// One step of a program. `P` is the type of a loop's body: a borrowed part of
/// the source text in executable code, its bytes in specifications.
#[derive(Debug, Clone, PartialEq, Eq)]
pub enum Instruction<P> {
    /// Move the data pointer to the right by an amount, around the end of the tape.
    MoveRight(usize),
    /// Move the data pointer to the left by an amount, around the start of the tape.
    MoveLeft(usize),
    /// Add an amount to the byte at the data pointer, wrapping at 256.
    Increment(u8),
    /// Subtract an amount from the byte at the data pointer, wrapping at 256.
    Decrement(u8),
    /// Write the byte at the data pointer to the output.
    Output,
    /// Read one byte of input into the byte at the data pointer.
    Input,
    /// Run the body again and again while the byte at the data pointer is not zero.
    Loop(InstructionLoop<P>),
}

/// The body of a loop: the source text strictly between its two brackets. It is
/// kept as text and built into instructions anew on every pass.
#[derive(Debug, Clone, PartialEq, Eq)]
pub struct InstructionLoop<P>(pub P);

impl<P> InstructionLoop<P> {
    /// A loop whose body is `program`.
    pub fn new(program: P) -> (body: Self)
        ensures
            body.0 == program,
    {
        InstructionLoop(program)
    }
}

impl<'a, P: ?Sized> InstructionLoop<&'a P> {
    /// The source text of the body.
    pub fn program(&self) -> (program: &'a P)
        ensures
            program == self.0,
    {
        self.0
    }
}

impl<'a> View for InstructionLoop<&'a [u8]> {
    type V = InstructionLoop<Seq<u8>>;

    open spec fn view(&self) -> InstructionLoop<Seq<u8>> {
        InstructionLoop(self.0@)
    }
}

impl<'a> View for Instruction<&'a [u8]> {
    type V = Instruction<Seq<u8>>;

    open spec fn view(&self) -> Instruction<Seq<u8>> {
        match *self {
            Instruction::MoveRight(amount) => Instruction::MoveRight(amount),
            Instruction::MoveLeft(amount) => Instruction::MoveLeft(amount),
            Instruction::Increment(amount) => Instruction::Increment(amount),
            Instruction::Decrement(amount) => Instruction::Decrement(amount),
            Instruction::Output => Instruction::Output,
            Instruction::Input => Instruction::Input,
            Instruction::Loop(body) => Instruction::Loop(body@),
        }
    }
}

impl<'a> InstructionLoop<&'a [u8]> {
    /// A builder at the start of the body. Every call gives the same builder:
    /// the body is built anew for each pass of the loop.
    pub fn into_iter(&self) -> (ir: IntermediateRepresentation<'a>)
        ensures
            ir.program() == self.0@,
            ir.position() == 0,
    {
        IntermediateRepresentation::new(self.0)
    }
}

/// A source text that can be built into instructions.
pub trait InstructionIterator<'a> {
    /// The bytes of the source text.
    spec fn program_bytes(&self) -> Seq<u8>;

    /// A builder at the start of this source text.
    fn iter_instruction(&'a self) -> (ir: IntermediateRepresentation<'a>)
        ensures
            ir.program() == self.program_bytes(),
            ir.position() == 0,
    ;
}

impl<'a> InstructionIterator<'a> for [u8] {
    open spec fn program_bytes(&self) -> Seq<u8> {
        self@
    }

    fn iter_instruction(&'a self) -> (ir: IntermediateRepresentation<'a>) {
        IntermediateRepresentation::new(self)
    }
}

impl<'a> InstructionIterator<'a> for str {
    open spec fn program_bytes(&self) -> Seq<u8> {
        self.spec_bytes()
    }

    fn iter_instruction(&'a self) -> (ir: IntermediateRepresentation<'a>) {
        IntermediateRepresentation::new(self.as_bytes())
    }
}

} // verus!
