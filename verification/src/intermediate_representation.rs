//! The instruction builder: from tokens to instructions.
//!
//! A run of equal move or arithmetic tokens becomes one counted instruction. A
//! `[` becomes a loop whose body is the source text up to the matching `]`; the
//! body is not built here, only carved out. Comments between tokens do not
//! interrupt a run.

use vstd::prelude::*;
use crate::instruction::{Instruction, InstructionLoop};
use crate::lexer::{lemma_next_token, next_token, Lexer, TokenIterator};
use crate::ranged::Ranged;
use crate::token::Token;

verus! {

/// Why a source text cannot be built into instructions.
#[derive(Debug, Clone, Copy, PartialEq, Eq, Structural)]
pub enum IRError {
    /// A `[` has no matching `]` behind it.
    UnmatchedLoopStart,
    /// A `]` stands where an instruction is expected, outside of any loop.
    UnmatchedLoopEnd,
}

/// What the builder yields in one step: an instruction or an error.
pub type Built = Result<Instruction<Seq<u8>>, IRError>;

/// The number of tokens equal to `token` that follow one another in `src` from
/// offset `from` on, before any other token.
pub open spec fn run_length(src: Seq<u8>, from: int, token: Token) -> nat
    decreases src.len() - from,
{
    if from < 0 {
        0
    } else {
        match next_token(src, from) {
            Some((at, found)) => if found == token {
                proof {
                    lemma_next_token(src, from);
                }
                1 + run_length(src, at + 1, token)
            } else {
                0
            },
            None => 0,
        }
    }
}

/// The offset just behind the last token of the run of `token` that starts at
/// offset `from`; `from` itself where no such token comes first.
pub open spec fn run_end(src: Seq<u8>, from: int, token: Token) -> int
    decreases src.len() - from,
{
    if from < 0 {
        from
    } else {
        match next_token(src, from) {
            Some((at, found)) => if found == token {
                proof {
                    lemma_next_token(src, from);
                }
                run_end(src, at + 1, token)
            } else {
                from
            },
            None => from,
        }
    }
}

/// The offset of the `]` that closes the loop in which offset `from` lies
/// `depth` brackets deep: the first `]` behind `from` at which as many `]` as
/// `[` plus `depth` have been seen. `None` where the source ends before it.
pub open spec fn loop_end(src: Seq<u8>, from: int, depth: nat) -> Option<int>
    decreases src.len() - from,
{
    if from < 0 {
        None
    } else {
        match next_token(src, from) {
            Some((at, found)) => {
                proof {
                    lemma_next_token(src, from);
                }
                match found {
                    Token::LoopStart => loop_end(src, at + 1, depth + 1),
                    Token::LoopEnd => if depth <= 1 {
                        Some(at)
                    } else {
                        loop_end(src, at + 1, (depth - 1) as nat)
                    },
                    _ => loop_end(src, at + 1, depth),
                }
            },
            None => None,
        }
    }
}

/// An amount as a move holds it: modulo the range of a machine word.
pub open spec fn word_amount(amount: nat) -> usize {
    (amount % (usize::MAX as nat + 1)) as usize
}

/// An amount as an arithmetic instruction holds it: modulo 256.
pub open spec fn byte_amount(amount: nat) -> u8 {
    (amount % 256) as u8
}

/// An amount that fits a machine word is held as it is.
pub proof fn lemma_word_amount_fits(amount: nat)
    requires
        amount <= usize::MAX,
    ensures
        word_amount(amount) == amount,
{
    vstd::arithmetic::div_mod::lemma_small_mod(amount, usize::MAX as nat + 1);
}

/// One step of the builder at offset `from` of `src`: what it yields and the
/// offset at which it goes on, or `None` where no token is left. After an error
/// nothing is left.
pub open spec fn build_next(src: Seq<u8>, from: int) -> Option<(Built, int)> {
    match next_token(src, from) {
        None => None,
        Some((at, token)) => {
            let amount = 1 + run_length(src, at + 1, token);
            let behind = run_end(src, at + 1, token);
            Some(
                match token {
                    Token::MoveRight => (Ok(Instruction::MoveRight(word_amount(amount))), behind),
                    Token::MoveLeft => (Ok(Instruction::MoveLeft(word_amount(amount))), behind),
                    Token::Increment => (Ok(Instruction::Increment(byte_amount(amount))), behind),
                    Token::Decrement => (Ok(Instruction::Decrement(byte_amount(amount))), behind),
                    Token::Output => (Ok(Instruction::Output), at + 1),
                    Token::Input => (Ok(Instruction::Input), at + 1),
                    Token::LoopStart => match loop_end(src, at + 1, 1) {
                        Some(end) => (
                            Ok(Instruction::Loop(InstructionLoop(src.subrange(at + 1, end)))),
                            end + 1,
                        ),
                        None => (Err(IRError::UnmatchedLoopStart), src.len() as int),
                    },
                    Token::LoopEnd => (Err(IRError::UnmatchedLoopEnd), src.len() as int),
                },
            )
        },
    }
}

/// A run ends in the source, behind where it starts, and is no longer than the
/// bytes it covers.
pub proof fn lemma_run_bounds(src: Seq<u8>, from: int, token: Token)
    requires
        0 <= from <= src.len(),
    ensures
        from <= run_end(src, from, token) <= src.len(),
        run_length(src, from, token) <= run_end(src, from, token) - from,
    decreases src.len() - from,
{
    lemma_next_token(src, from);
    match next_token(src, from) {
        Some((at, found)) => {
            if found == token {
                lemma_run_bounds(src, at + 1, token);
            }
        },
        None => {},
    }
}

/// The `]` that closes a loop lies in the source, at or behind the offset from
/// which it was sought, and is a `]`.
pub proof fn lemma_loop_end_bounds(src: Seq<u8>, from: int, depth: nat)
    requires
        0 <= from,
    ensures
        loop_end(src, from, depth) matches Some(end) ==> from <= end < src.len() && Token::of_byte(
            src[end],
        ) == Some(Token::LoopEnd),
    decreases src.len() - from,
{
    lemma_next_token(src, from);
    match next_token(src, from) {
        Some((at, found)) => {
            match found {
                Token::LoopStart => lemma_loop_end_bounds(src, at + 1, depth + 1),
                Token::LoopEnd => if depth > 1 {
                    lemma_loop_end_bounds(src, at + 1, (depth - 1) as nat)
                },
                _ => lemma_loop_end_bounds(src, at + 1, depth),
            }
        },
        None => {},
    }
}

/// Every step of the builder consumes at least one byte and stays in the source.
pub proof fn lemma_build_next_advances(src: Seq<u8>, from: int)
    requires
        0 <= from,
    ensures
        build_next(src, from) matches Some((_, behind)) ==> from < behind <= src.len(),
{
    lemma_next_token(src, from);
    match next_token(src, from) {
        Some((at, token)) => {
            lemma_run_bounds(src, at + 1, token);
            lemma_loop_end_bounds(src, at + 1, 1);
        },
        None => {},
    }
}

/// Everything the builder yields from offset `from` of `src` on, in order.
pub open spec fn build_from(src: Seq<u8>, from: int) -> Seq<Built>
    decreases src.len() - from,
{
    if from < 0 {
        Seq::empty()
    } else {
        match build_next(src, from) {
            Some((built, behind)) => {
                proof {
                    lemma_build_next_advances(src, from);
                }
                seq![built] + build_from(src, behind)
            },
            None => Seq::empty(),
        }
    }
}

/// Everything the builder yields for the whole of `src`.
pub open spec fn build(src: Seq<u8>) -> Seq<Built> {
    build_from(src, 0)
}

/// What an item of the builder stands for in specifications.
pub open spec fn built_view<'a>(item: Result<Instruction<&'a [u8]>, IRError>) -> Built {
    match item {
        Ok(instruction) => Ok(instruction@),
        Err(error) => Err(error),
    }
}

/// Builds the instructions of a source text, one at a time and from front to back.
#[derive(Debug)]
pub struct IntermediateRepresentation<'a> {
    iter: Lexer<'a>,
}

impl<'a> IntermediateRepresentation<'a> {
    /// The source text that is built.
    pub closed spec fn program(self) -> Seq<u8> {
        self.iter.source()
    }

    /// The offset of the first byte that no instruction has consumed yet.
    pub closed spec fn position(self) -> int {
        self.iter.position()
    }

    /// What is still to come.
    pub open spec fn remaining(self) -> Seq<Built> {
        build_from(self.program(), self.position())
    }

    /// A builder at the start of `program`.
    pub fn new(program: &'a [u8]) -> (ir: Self)
        ensures
            ir.program() == program@,
            ir.position() == 0,
    {
        let iter = program.iter_token();
        IntermediateRepresentation { iter }
    }

    /// Consumes the tokens equal to `token` that follow one another from here
    /// on, and counts them together with the one that was consumed before.
    fn count_run(&mut self, token: Token) -> (amount: usize)
        requires
            1 <= old(self).position() <= old(self).program().len() <= usize::MAX,
        ensures
            final(self).program() == old(self).program(),
            amount == 1 + run_length(old(self).program(), old(self).position(), token),
            final(self).position() == run_end(old(self).program(), old(self).position(), token),
    {
        let mut amount: usize = 1;
        loop
            invariant
                self.iter.source() == old(self).iter.source(),
                1 <= amount <= self.iter.position() <= self.iter.source().len() <= usize::MAX,
                amount + run_length(self.iter.source(), self.iter.position(), token) == 1 + run_length(
                    self.iter.source(),
                    old(self).iter.position(),
                    token,
                ),
                run_end(self.iter.source(), self.iter.position(), token) == run_end(
                    self.iter.source(),
                    old(self).iter.position(),
                    token,
                ),
            ensures
                self.iter.source() == old(self).iter.source(),
                amount == 1 + run_length(self.iter.source(), old(self).iter.position(), token),
                self.iter.position() == run_end(self.iter.source(), old(self).iter.position(), token),
            decreases self.iter.source().len() - self.iter.position(),
        {
            proof {
                lemma_next_token(self.iter.source(), self.iter.position());
            }
            let more = match self.iter.peek() {
                Some((_, found)) => found == token,
                None => false,
            };
            if !more {
                break ;
            }
            self.iter.next();
            amount += 1;
        }
        amount
    }

    /// Consumes the tokens up to and including the `]` that closes the loop
    /// whose `[` was consumed just before, and gives the offset of that `]`;
    /// where there is none, consumes the rest of the source.
    fn seek_loop_end(&mut self) -> (end: Option<usize>)
        requires
            1 <= old(self).position() <= old(self).program().len() <= usize::MAX,
        ensures
            final(self).program() == old(self).program(),
            match loop_end(old(self).program(), old(self).position(), 1) {
                Some(at) => end == Some(at as usize) && final(self).position() == at + 1,
                None => end is None && final(self).position() == old(self).program().len(),
            },
    {
        let mut open: usize = 1;
        loop
            invariant
                self.iter.source() == old(self).iter.source(),
                0 <= old(self).iter.position() <= self.iter.position() <= self.iter.source().len() <= usize::MAX,
                1 <= open <= self.iter.position(),
                loop_end(self.iter.source(), self.iter.position(), open as nat) == loop_end(
                    self.iter.source(),
                    old(self).iter.position(),
                    1,
                ),
            decreases self.iter.source().len() - self.iter.position(),
        {
            proof {
                lemma_next_token(self.iter.source(), self.iter.position());
            }
            match self.iter.next() {
                Some((at, Token::LoopStart)) => {
                    open += 1;
                },
                Some((at, Token::LoopEnd)) => {
                    open -= 1;
                    if open == 0 {
                        return Some(at);
                    }
                },
                Some(_) => {},
                None => {
                    return None;
                },
            }
        }
    }

    /// The next instruction or error, or `None` at the end of the source.
    ///
    /// A run of equal move or arithmetic tokens gives one instruction that
    /// holds their number, for `+` and `-` modulo 256. A `[` gives a loop with
    /// the text up to its matching `]` as body, or `UnmatchedLoopStart` where
    /// none matches. A `]` gives `UnmatchedLoopEnd`. After an error the builder
    /// is at the end of the source.
    pub fn next(&mut self) -> (item: Option<Result<Instruction<&'a [u8]>, IRError>>)
        ensures
            final(self).program() == old(self).program(),
            0 <= old(self).position() <= old(self).program().len() <= usize::MAX,
            match build_next(old(self).program(), old(self).position()) {
                Some((built, behind)) => {
                    &&& item matches Some(found)
                    &&& built_view(found) == built
                    &&& final(self).position() == behind
                },
                None => item is None && final(self).position() == old(self).program().len(),
            },
    {
        let ghost from = self.iter.position();
        let (start, token) = match self.iter.next() {
            Some(found) => found,
            None => {
                return None;
            },
        };
        let ghost src = self.iter.source();
        proof {
            lemma_next_token(src, from);
            lemma_run_bounds(src, start + 1, token);
            lemma_loop_end_bounds(src, start + 1, 1);
        }
        match token {
            Token::MoveRight => {
                let amount = self.count_run(Token::MoveRight);
                proof {
                    lemma_word_amount_fits(amount as nat);
                }
                Some(Ok(Instruction::MoveRight(amount)))
            },
            Token::MoveLeft => {
                let amount = self.count_run(Token::MoveLeft);
                proof {
                    lemma_word_amount_fits(amount as nat);
                }
                Some(Ok(Instruction::MoveLeft(amount)))
            },
            Token::Increment => {
                let amount = self.count_run(Token::Increment);
                Some(Ok(Instruction::Increment((amount % 256) as u8)))
            },
            Token::Decrement => {
                let amount = self.count_run(Token::Decrement);
                Some(Ok(Instruction::Decrement((amount % 256) as u8)))
            },
            Token::Output => Some(Ok(Instruction::Output)),
            Token::Input => Some(Ok(Instruction::Input)),
            Token::LoopStart => {
                match self.seek_loop_end() {
                    Some(end) => {
                        // The body starts one byte behind the `[`.
                        let body = self.iter.text().range(start + 1, end);
                        Some(Ok(Instruction::Loop(InstructionLoop::new(body))))
                    },
                    None => Some(Err(IRError::UnmatchedLoopStart)),
                }
            },
            Token::LoopEnd => {
                self.iter.finish();
                Some(Err(IRError::UnmatchedLoopEnd))
            },
        }
    }
}

/// Everything the builder yields for `program`, in order: the instructions up
/// to the end of the text or to the first error, and that error.
pub fn collect_instructions<'a>(program: &'a [u8]) -> (items: Vec<
    Result<Instruction<&'a [u8]>, IRError>,
>)
    ensures
        items@.len() == build(program@).len(),
        forall|k: int| 0 <= k < items@.len() ==> built_view(#[trigger] items@[k]) == build(program@)[k],
{
    let mut ir = IntermediateRepresentation::new(program);
    let mut items: Vec<Result<Instruction<&'a [u8]>, IRError>> = Vec::new();
    loop
        invariant
            ir.program() == program@,
            0 <= ir.position() <= program@.len(),
            build(program@).len() == items@.len() + build_from(program@, ir.position()).len(),
            forall|k: int|
                0 <= k < items@.len() ==> built_view(#[trigger] items@[k]) == build(program@)[k],
            forall|k: int|
                0 <= k < build_from(program@, ir.position()).len() ==> build(program@)[items@.len()
                    + k] == #[trigger] build_from(program@, ir.position())[k],
        ensures
            items@.len() == build(program@).len(),
            forall|k: int|
                0 <= k < items@.len() ==> built_view(#[trigger] items@[k]) == build(program@)[k],
        decreases program@.len() - ir.position(),
    {
        let ghost before = build_from(program@, ir.position());
        proof {
            lemma_build_next_advances(program@, ir.position());
        }
        match ir.next() {
            Some(item) => {
                proof {
                    let after = build_from(program@, ir.position());
                    assert(before[0] == built_view(item));
                    assert forall|k: int| 0 <= k < after.len() implies build(program@)[items@.len()
                        + 1 + k] == #[trigger] after[k] by {
                        assert(before[k + 1] == after[k]);
                    }
                }
                items.push(item);
            },
            None => {
                break ;
            },
        }
    }
    items
}

/// A run is taken whole: the token that follows a run of `token`, if any, is
/// another token. So a run of equal tokens gives exactly one instruction.
pub proof fn lemma_run_is_whole(src: Seq<u8>, from: int, token: Token)
    requires
        0 <= from,
    ensures
        match next_token(src, run_end(src, from, token)) {
            Some((_, found)) => found != token,
            None => true,
        },
    decreases src.len() - from,
{
    lemma_next_token(src, from);
    match next_token(src, from) {
        Some((at, found)) => {
            if found == token {
                lemma_run_is_whole(src, at + 1, token);
            }
        },
        None => {},
    }
}

/// The text that consists of `count` times the symbol of `token`.
pub open spec fn uniform(token: Token, count: nat) -> Seq<u8> {
    Seq::new(count, |i: int| token.symbol())
}

/// In a text of equal symbols, the run from any offset goes to the end.
pub proof fn lemma_uniform_run(token: Token, count: nat, from: int)
    requires
        0 <= from <= count,
    ensures
        run_length(uniform(token, count), from, token) == count - from,
        run_end(uniform(token, count), from, token) == count,
    decreases count - from,
{
    let src = uniform(token, count);
    Token::lemma_symbol_bijection(token, 0);
    if from < count {
        assert(src[from] == token.symbol());
        assert(next_token(src, from) == Some((from, token)));
        lemma_uniform_run(token, count, from + 1);
    }
}

/// Whether `token` is one of the four that are counted: a move or an
/// arithmetic token.
pub open spec fn is_counted(token: Token) -> bool {
    token == Token::MoveRight || token == Token::MoveLeft || token == Token::Increment || token
        == Token::Decrement
}

/// The instruction for `amount` tokens `token` in a row: a move holds the
/// amount modulo the range of a machine word, an arithmetic instruction holds
/// it modulo 256.
pub open spec fn counted(token: Token, amount: nat) -> Instruction<Seq<u8>> {
    match token {
        Token::MoveRight => Instruction::MoveRight(word_amount(amount)),
        Token::MoveLeft => Instruction::MoveLeft(word_amount(amount)),
        Token::Increment => Instruction::Increment(byte_amount(amount)),
        Token::Decrement => Instruction::Decrement(byte_amount(amount)),
        Token::Output => Instruction::Output,
        _ => Instruction::Input,
    }
}

/// A run of a counted token gives the instruction that holds its length: at a
/// token that is counted, one step of the builder yields the instruction for
/// the whole run and goes on behind it.
pub proof fn lemma_run_folds(src: Seq<u8>, from: int, at: int, token: Token)
    requires
        0 <= from,
        next_token(src, from) == Some((at, token)),
        is_counted(token),
    ensures
        build_next(src, from) == Some(
            (
                Ok::<Instruction<Seq<u8>>, IRError>(
                    counted(token, 1 + run_length(src, at + 1, token)),
                ),
                run_end(src, at + 1, token),
            ),
        ),
{
}

/// A text of `count` equal counted symbols, one at least, gives exactly one
/// instruction, which holds `count`: modulo the range of a machine word for a
/// move, modulo 256 for an arithmetic instruction.
pub proof fn lemma_uniform_folds(token: Token, count: nat)
    requires
        is_counted(token),
        1 <= count,
    ensures
        build(uniform(token, count)) == seq![
            Ok::<Instruction<Seq<u8>>, IRError>(counted(token, count)),
        ],
{
    let src = uniform(token, count);
    Token::lemma_symbol_bijection(token, 0);
    assert(src[0] == token.symbol());
    assert(next_token(src, 0) == Some((0int, token)));
    lemma_uniform_run(token, count, 1);
    lemma_build_next_advances(src, 0);
    assert(next_token(src, count as int) is None);
    assert(build_next(src, count as int) is None);
    assert(build_from(src, count as int) =~= Seq::empty());
    assert(build(src) =~= seq![Ok::<Instruction<Seq<u8>>, IRError>(counted(token, count))]);
}

/// Building is a function of the text alone: two builders that stand at the
/// same offset of equal texts have the same instructions to come. So a loop's
/// body gives the same instructions on every pass.
pub proof fn lemma_rebuilding_is_idempotent(
    first: IntermediateRepresentation,
    second: IntermediateRepresentation,
)
    requires
        first.program() == second.program(),
        first.position() == second.position(),
    ensures
        first.remaining() == second.remaining(),
        build_next(first.program(), first.position()) == build_next(
            second.program(),
            second.position(),
        ),
{
}

} // verus!
