//! Tokens and instructions as text for a reader.

use vstd::prelude::*;
use crate::instruction::{Instruction, InstructionLoop};
use crate::intermediate_representation::{
    build_next, lemma_build_next_advances, lemma_loop_end_bounds, IRError,
    IntermediateRepresentation,
};
use crate::lexer::{lemma_next_token, next_token};
use crate::token::Token;

verus! {

/// The character for the digit `digit`.
pub open spec fn digit_char(digit: nat) -> char {
    if digit == 0 {
        '0'
    } else if digit == 1 {
        '1'
    } else if digit == 2 {
        '2'
    } else if digit == 3 {
        '3'
    } else if digit == 4 {
        '4'
    } else if digit == 5 {
        '5'
    } else if digit == 6 {
        '6'
    } else if digit == 7 {
        '7'
    } else if digit == 8 {
        '8'
    } else {
        '9'
    }
}

/// The decimal notation of `number`, without leading zeros.
pub open spec fn decimal_text(number: nat) -> Seq<char>
    decreases number,
{
    if number < 10 {
        seq![digit_char(number)]
    } else {
        decimal_text(number / 10) + seq![digit_char(number % 10)]
    }
}

/// The text of one digit.
fn digit_text(digit: usize) -> (text: &'static str)
    requires
        digit < 10,
    ensures
        text@ == seq![digit_char(digit as nat)],
{
    proof {
        reveal_strlit("0");
        reveal_strlit("1");
        reveal_strlit("2");
        reveal_strlit("3");
        reveal_strlit("4");
        reveal_strlit("5");
        reveal_strlit("6");
        reveal_strlit("7");
        reveal_strlit("8");
        reveal_strlit("9");
    }
    let text = if digit == 0 {
        "0"
    } else if digit == 1 {
        "1"
    } else if digit == 2 {
        "2"
    } else if digit == 3 {
        "3"
    } else if digit == 4 {
        "4"
    } else if digit == 5 {
        "5"
    } else if digit == 6 {
        "6"
    } else if digit == 7 {
        "7"
    } else if digit == 8 {
        "8"
    } else {
        "9"
    };
    assert(text@ =~= seq![digit_char(digit as nat)]);
    text
}

/// The decimal notation of `number`.
pub fn decimal(number: usize) -> (text: String)
    ensures
        text@ == decimal_text(number as nat),
    decreases number,
{
    if number < 10 {
        String::from_str(digit_text(number))
    } else {
        let mut text = decimal(number / 10);
        text.append(digit_text(number % 10));
        text
    }
}

impl Token {
    /// The token as a line of text: its symbol, a bar and its name.
    pub open spec fn description(self) -> Seq<char> {
        match self {
            Token::MoveRight => "> | MoveRight"@,
            Token::MoveLeft => "< | MoveLeft"@,
            Token::Increment => "+ | Increment"@,
            Token::Decrement => "- | Decrement"@,
            Token::Output => ". | Output"@,
            Token::Input => ", | Input"@,
            Token::LoopStart => "[ | LoopStart"@,
            Token::LoopEnd => "] | LoopEnd"@,
        }
    }

    /// The token as a line of text: its symbol, a bar and its name.
    pub fn describe(self) -> (text: String)
        ensures
            text@ == self.description(),
    {
        match self {
            Token::MoveRight => String::from_str("> | MoveRight"),
            Token::MoveLeft => String::from_str("< | MoveLeft"),
            Token::Increment => String::from_str("+ | Increment"),
            Token::Decrement => String::from_str("- | Decrement"),
            Token::Output => String::from_str(". | Output"),
            Token::Input => String::from_str(", | Input"),
            Token::LoopStart => String::from_str("[ | LoopStart"),
            Token::LoopEnd => String::from_str("] | LoopEnd"),
        }
    }
}

impl IRError {
    /// The error as a sentence.
    pub open spec fn description(self) -> Seq<char> {
        match self {
            IRError::UnmatchedLoopStart => "unmatched '[' encountered"@,
            IRError::UnmatchedLoopEnd => "unmatched ']' encountered"@,
        }
    }

    /// The error as a sentence.
    pub fn describe(self) -> (text: String)
        ensures
            text@ == self.description(),
    {
        match self {
            IRError::UnmatchedLoopStart => String::from_str("unmatched '[' encountered"),
            IRError::UnmatchedLoopEnd => String::from_str("unmatched ']' encountered"),
        }
    }
}

/// How much text an instruction holds: a loop one more than the length of its
/// body, any other instruction nothing.
pub open spec fn weight(instruction: Instruction<Seq<u8>>) -> nat {
    match instruction {
        Instruction::Loop(body) => body.0.len() + 1,
        _ => 0,
    }
}

/// An instruction that the builder yields from `src` weighs no more than `src`
/// is long.
pub proof fn lemma_built_weighs_less(src: Seq<u8>, from: int)
    requires
        0 <= from,
    ensures
        build_next(src, from) matches Some((Ok(instruction), _)) ==> weight(instruction)
            <= src.len(),
{
    lemma_next_token(src, from);
    match next_token(src, from) {
        Some((at, token)) => {
            lemma_loop_end_bounds(src, at + 1, 1);
        },
        None => {},
    }
}

/// An instruction as text. A move or an arithmetic instruction is a sentence
/// with its amount, `Output` and `Input` are their names, and a loop is a
/// heading, one line for each instruction of its body and a closing line. A
/// loop whose body, or the body of a loop in it, cannot be built has no text
/// but the error of the text.
pub open spec fn description(instruction: Instruction<Seq<u8>>) -> Result<Seq<char>, IRError>
    decreases weight(instruction), 0nat, 0nat,
{
    match instruction {
        Instruction::MoveRight(amount) => Ok(
            "Increment pointer "@ + decimal_text(amount as nat) + " times"@,
        ),
        Instruction::MoveLeft(amount) => Ok(
            "Decrement pointer "@ + decimal_text(amount as nat) + " times"@,
        ),
        Instruction::Increment(amount) => Ok(
            "Increment "@ + decimal_text(amount as nat) + " times"@,
        ),
        Instruction::Decrement(amount) => Ok(
            "Decrement "@ + decimal_text(amount as nat) + " times"@,
        ),
        Instruction::Output => Ok("Output"@),
        Instruction::Input => Ok("Input"@),
        Instruction::Loop(body) => match body_lines(body.0, 0) {
            Ok(lines) => Ok("Start Loop:\n"@ + lines + "End Loop"@),
            Err(error) => Err(error),
        },
    }
}

/// The instructions of `src` from offset `from` on as text, each on a line of
/// its own; the first error where one of them has no text.
pub open spec fn body_lines(src: Seq<u8>, from: int) -> Result<Seq<char>, IRError>
    decreases src.len(), 1nat, src.len() - from,
{
    if from < 0 {
        Ok(Seq::empty())
    } else {
        match build_next(src, from) {
            None => Ok(Seq::empty()),
            Some((Err(error), _)) => Err(error),
            Some((Ok(instruction), behind)) => {
                proof {
                    lemma_built_weighs_less(src, from);
                    lemma_build_next_advances(src, from);
                }
                match description(instruction) {
                    Err(error) => Err(error),
                    Ok(line) => match body_lines(src, behind) {
                        Err(error) => Err(error),
                        Ok(rest) => Ok(line + "\n"@ + rest),
                    },
                }
            },
        }
    }
}

/// What is left to describe of a body of which `written` has been written and
/// whose builder stands at offset `from`: the whole text of the body.
pub open spec fn lines_resume(src: Seq<u8>, written: Seq<char>, from: int) -> Result<
    Seq<char>,
    IRError,
> {
    match body_lines(src, from) {
        Ok(rest) => Ok(written + rest),
        Err(error) => Err(error),
    }
}

/// A sentence with an amount in it.
fn counted_text(before: &str, amount: usize) -> (text: String)
    ensures
        text@ == before@ + decimal_text(amount as nat) + " times"@,
{
    let mut text = String::from_str(before);
    let number = decimal(amount);
    text.append(number.as_str());
    text.append(" times");
    text
}

impl<'a> Instruction<&'a [u8]> {
    /// The instruction as text, or the error of the text of a loop in it.
    pub fn describe(&self) -> (text: Result<String, IRError>)
        ensures
            match description(self@) {
                Ok(expected) => text matches Ok(found) && found@ == expected,
                Err(error) => text == Err::<String, IRError>(error),
            },
        decreases weight(self@), 0nat,
    {
        match self {
            Instruction::MoveRight(amount) => Ok(counted_text("Increment pointer ", *amount)),
            Instruction::MoveLeft(amount) => Ok(counted_text("Decrement pointer ", *amount)),
            Instruction::Increment(amount) => Ok(counted_text("Increment ", *amount as usize)),
            Instruction::Decrement(amount) => Ok(counted_text("Decrement ", *amount as usize)),
            Instruction::Output => Ok(String::from_str("Output")),
            Instruction::Input => Ok(String::from_str("Input")),
            Instruction::Loop(body) => {
                let program = body.program();
                let mut text = String::from_str("Start Loop:\n");
                let ghost heading = text@;
                let mut ir = IntermediateRepresentation::new(program);
                let ghost src = program@;
                assert(heading + Seq::<char>::empty() =~= heading);
                loop
                    invariant
                        src == program@,
                        self@ == Instruction::<Seq<u8>>::Loop(InstructionLoop(src)),
                        heading == "Start Loop:\n"@,
                        ir.program() == src,
                        0 <= ir.position() <= src.len(),
                        text@.len() >= heading.len(),
                        text@.take(heading.len() as int) == heading,
                        lines_resume(src, text@.skip(heading.len() as int), ir.position())
                            == body_lines(src, 0),
                    decreases src.len() - ir.position(),
                {
                    let ghost from = ir.position();
                    let ghost written = text@.skip(heading.len() as int);
                    proof {
                        lemma_build_next_advances(src, from);
                        lemma_built_weighs_less(src, from);
                    }
                    match ir.next() {
                        None => {
                            proof {
                                assert(written + Seq::<char>::empty() =~= written);
                                assert(text@ =~= heading + written);
                            }
                            text.append("End Loop");
                            assert(text@ =~= heading + written + "End Loop"@);
                            return Ok(text);
                        },
                        Some(Err(error)) => {
                            return Err(error);
                        },
                        Some(Ok(instruction)) => {
                            match instruction.describe() {
                                Err(error) => {
                                    return Err(error);
                                },
                                Ok(line) => {
                                    text.append(line.as_str());
                                    text.append("\n");
                                    proof {
                                        let now = text@.skip(heading.len() as int);
                                        assert(now =~= written + (line@ + "\n"@));
                                        assert(text@.take(heading.len() as int) =~= heading);
                                        match body_lines(src, ir.position()) {
                                            Ok(rest) => {
                                                assert(written + (line@ + "\n"@ + rest) =~= now
                                                    + rest);
                                            },
                                            Err(_) => {},
                                        }
                                    }
                                },
                            }
                        },
                    }
                }
            },
        }
    }
}

} // verus!
