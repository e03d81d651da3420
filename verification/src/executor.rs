//! The executor: a tape, two ports and a budget, and the running of
//! instructions against them.

use vstd::prelude::*;
use crate::instruction::{Instruction, InstructionLoop};
use crate::intermediate_representation::{
    lemma_build_next_advances, IRError, IntermediateRepresentation,
};
use crate::semantics::{
    left_of, lemma_run_from_extends, lemma_run_instruction_extends, run_from, run_instruction,
    run_loop, run_program, Outcome, Status,
};
use crate::stream::{
    lemma_no_call_in_parts, no_read, no_write, InputStream, OutputStream, PortEvent,
};
use crate::tape::{Tape, TapeState};

verus! {

/// Why a run ended before the end of its program.
#[derive(Debug, PartialEq, Eq)]
pub enum ExecutorError<I, O> {
    /// The input port failed, with this error.
    InputError(I),
    /// The output port failed, with this error.
    OutputError(O),
    /// The body of a loop could not be built into instructions.
    IRError(IRError),
    /// A loop was to start one pass more than the budget allows.
    BudgetExhausted,
}

/// The status that stands for what a run returned.
pub open spec fn status_of<IE, OE>(result: Result<(), ExecutorError<IE, OE>>) -> Status<IE, OE> {
    match result {
        Ok(_) => Status::Done,
        Err(error) => Status::Failed(error),
    }
}

/// What `Input` makes of the answer of the input port: a byte goes into the
/// current cell; an error is returned as it is and leaves the tape as it was.
pub fn input_result<IE, OE, const N: usize>(tape: &mut Tape<N>, answer: Result<u8, IE>) -> (result:
    Result<(), ExecutorError<IE, OE>>)
    ensures
        final(tape)@.valid(),
        final(tape)@.cells.len() == N,
        match answer {
            Ok(byte) => result is Ok && final(tape)@ == old(tape)@.store(byte),
            Err(error) => result == Err::<(), ExecutorError<IE, OE>>(
                ExecutorError::InputError(error),
            ) && final(tape)@ == old(tape)@,
        },
{
    proof {
        use_type_invariant(&*tape);
        tape.lemma_valid();
    }
    match answer {
        Ok(byte) => {
            tape.store(byte);
            Ok(())
        },
        Err(error) => Err(ExecutorError::InputError(error)),
    }
}

/// What `Output` makes of the answer of the output port: success is success,
/// and an error is returned as it is.
pub fn output_result<IE, OE>(answer: Result<(), OE>) -> (result: Result<(), ExecutorError<IE, OE>>)
    ensures
        match answer {
            Ok(_) => result is Ok,
            Err(error) => result == Err::<(), ExecutorError<IE, OE>>(
                ExecutorError::OutputError(error),
            ),
        },
{
    match answer {
        Ok(_) => Ok(()),
        Err(error) => Err(ExecutorError::OutputError(error)),
    }
}

/// A loop over `body` that started on `tape0` with `budget0` and has since made
/// the port calls `seen` stands before a pass on `tape` with `budget`: with
/// `more` as the rest of the log, the whole loop is what is still to run, after
/// what has been run.
pub open spec fn loop_resumes<IE, OE>(
    tape0: TapeState,
    body: Seq<u8>,
    budget0: nat,
    seen: Seq<PortEvent<IE, OE>>,
    tape: TapeState,
    budget: nat,
    more: Seq<PortEvent<IE, OE>>,
) -> bool {
    run_loop(tape0, body, budget0, seen + more) == run_loop(tape, body, budget, more).after(
        left_of(budget0, budget),
        seen.len(),
    )
}

/// The same of a program `src` that started at its first byte and stands at
/// offset `from`.
pub open spec fn program_resumes<IE, OE>(
    tape0: TapeState,
    src: Seq<u8>,
    budget0: nat,
    seen: Seq<PortEvent<IE, OE>>,
    tape: TapeState,
    from: int,
    budget: nat,
    more: Seq<PortEvent<IE, OE>>,
) -> bool {
    run_from(tape0, src, 0, budget0, seen + more) == run_from(tape, src, from, budget, more).after(
        left_of(budget0, budget),
        seen.len(),
    )
}

/// Runs programs: it owns the tape, the two ports and a budget of loop passes.
///
/// Every pass of every loop takes one from the budget, and a loop that is to
/// start a pass with none left fails with `BudgetExhausted`. So every run ends.
pub struct Executor<I: InputStream, O: OutputStream, const N: usize> {
    tape: Tape<N>,
    input: I,
    output: O,
    budget: u64,
    log: Ghost<Seq<PortEvent<I::Error, O::Error>>>,
}

impl<I: InputStream, O: OutputStream, const N: usize> Executor<I, O, N> {
    /// What the tape holds.
    pub closed spec fn tape_state(&self) -> TapeState {
        self.tape@
    }

    /// The number of loop passes that may still be started.
    pub closed spec fn budget_left(&self) -> nat {
        self.budget as nat
    }

    /// Every call of a port that this executor has made, in order, with the
    /// port's answer.
    pub closed spec fn log(&self) -> Seq<PortEvent<I::Error, O::Error>> {
        self.log@
    }

    /// The input port.
    pub closed spec fn input_port(&self) -> I {
        self.input
    }

    /// The output port.
    pub closed spec fn output_port(&self) -> O {
        self.output
    }

    /// The port calls that `post` has made and `pre` has not.
    pub open spec fn heard(pre: &Self, post: &Self) -> Seq<PortEvent<I::Error, O::Error>> {
        post.log().skip(pre.log().len() as int)
    }

    /// `post` is what `pre` becomes by a run with the outcome `outcome` that
    /// returned `result`: the log has grown by the run's port calls, the tape
    /// is the run's, the budget is less by the run's passes, and `result` says
    /// how the run ended. A port that the run did not call is as it was.
    pub open spec fn follows(
        pre: &Self,
        post: &Self,
        outcome: Outcome<I::Error, O::Error>,
        result: Result<(), ExecutorError<I::Error, O::Error>>,
    ) -> bool {
        &&& post.log() == pre.log() + Self::heard(pre, post)
        &&& Self::heard(pre, post).len() == outcome.events
        &&& post.tape_state() == outcome.tape
        &&& post.tape_state().valid()
        &&& post.tape_state().cells.len() == N
        &&& post.budget_left() + outcome.passes == pre.budget_left()
        &&& outcome.status == status_of(result)
        &&& no_read(Self::heard(pre, post)) ==> post.input_port() == pre.input_port()
        &&& no_write(Self::heard(pre, post)) ==> post.output_port() == pre.output_port()
    }

    /// An executor with a blank tape and the largest budget there is.
    pub fn new(input: I, output: O) -> (executor: Self)
        requires
            N > 0,
        ensures
            executor.tape_state() == TapeState::blank(N as nat),
            executor.budget_left() == u64::MAX,
            executor.log() == Seq::<PortEvent<I::Error, O::Error>>::empty(),
            executor.input_port() == input,
            executor.output_port() == output,
    {
        Executor { tape: Tape::new(), input, output, budget: u64::MAX, log: Ghost(Seq::empty()) }
    }

    /// An executor with a blank tape that may start `budget` loop passes.
    pub fn with_budget(input: I, output: O, budget: u64) -> (executor: Self)
        requires
            N > 0,
        ensures
            executor.tape_state() == TapeState::blank(N as nat),
            executor.budget_left() == budget,
            executor.log() == Seq::<PortEvent<I::Error, O::Error>>::empty(),
            executor.input_port() == input,
            executor.output_port() == output,
    {
        Executor { tape: Tape::new(), input, output, budget, log: Ghost(Seq::empty()) }
    }

    /// The tape.
    pub fn tape(&self) -> (tape: &Tape<N>)
        ensures
            tape@ == self.tape_state(),
    {
        &self.tape
    }

    /// The input port.
    pub fn input(&self) -> (port: &I)
        ensures
            *port == self.input_port(),
    {
        &self.input
    }

    /// The output port.
    pub fn output(&self) -> (port: &O)
        ensures
            *port == self.output_port(),
    {
        &self.output
    }

    /// The number of loop passes that may still be started.
    pub fn budget(&self) -> (budget: u64)
        ensures
            budget == self.budget_left(),
    {
        self.budget
    }

    /// Writes the current cell to the output port.
    fn put(&mut self) -> (result: Result<(), ExecutorError<I::Error, O::Error>>)
        ensures
            Self::follows(
                old(self),
                final(self),
                run_instruction(
                    old(self).tape_state(),
                    Instruction::Output,
                    old(self).budget_left(),
                    Self::heard(old(self), final(self)),
                ),
                result,
            ),
    {
        let value = self.tape.current();
        let answer = self.output.write(value);
        self.log = Ghost(self.log@.push(PortEvent::Write(value, answer)));
        proof {
            assert(self.log@ =~= old(self).log@ + seq![PortEvent::Write(value, answer)]);
            assert(self.log@.skip(old(self).log@.len() as int) =~= seq![
                PortEvent::Write(value, answer),
            ]);
        }
        output_result(answer)
    }

    /// Reads one byte from the input port into the current cell.
    fn get(&mut self) -> (result: Result<(), ExecutorError<I::Error, O::Error>>)
        ensures
            Self::follows(
                old(self),
                final(self),
                run_instruction(
                    old(self).tape_state(),
                    Instruction::Input,
                    old(self).budget_left(),
                    Self::heard(old(self), final(self)),
                ),
                result,
            ),
    {
        let answer = self.input.read();
        self.log = Ghost(self.log@.push(PortEvent::Read(answer)));
        proof {
            assert(self.log@ =~= old(self).log@ + seq![PortEvent::Read(answer)]);
            assert(self.log@.skip(old(self).log@.len() as int) =~= seq![PortEvent::Read(answer)]);
        }
        input_result(&mut self.tape, answer)
    }

    /// Runs one instruction.
    ///
    /// The moves and the arithmetic change the tape and succeed. `Output` hands
    /// the current cell to the output port and `Input` stores what the input
    /// port gives; where the port fails, its error is returned and the tape is
    /// as it was. A loop builds and runs its body while the current cell is
    /// not zero, and ends at the first error of a port or of the body's text,
    /// or when the budget is spent.
    pub fn execute<'a>(&mut self, instruction: Instruction<&'a [u8]>) -> (result: Result<
        (),
        ExecutorError<I::Error, O::Error>,
    >)
        ensures
            Self::follows(
                old(self),
                final(self),
                run_instruction(
                    old(self).tape_state(),
                    instruction@,
                    old(self).budget_left(),
                    Self::heard(old(self), final(self)),
                ),
                result,
            ),
        decreases old(self).budget_left(), 0nat,
    {
        let ghost silent = Seq::<PortEvent<I::Error, O::Error>>::empty();
        proof {
            assert(self.log@.skip(self.log@.len() as int) =~= silent);
            assert(self.log@ =~= self.log@ + silent);
        }
        match instruction {
            Instruction::MoveRight(amount) => {
                self.tape.move_right(amount);
                Ok(())
            },
            Instruction::MoveLeft(amount) => {
                self.tape.move_left(amount);
                Ok(())
            },
            Instruction::Increment(amount) => {
                self.tape.increment(amount);
                Ok(())
            },
            Instruction::Decrement(amount) => {
                self.tape.decrement(amount);
                Ok(())
            },
            Instruction::Output => self.put(),
            Instruction::Input => self.get(),
            Instruction::Loop(body) => {
                let program = body.program();
                let ghost tape0 = self.tape@;
                let ghost budget0 = self.budget as nat;
                let ghost log0 = self.log@;
                while self.tape.current() != 0
                    invariant
                        silent == Seq::<PortEvent<I::Error, O::Error>>::empty(),
                        instruction@ == Instruction::<Seq<u8>>::Loop(InstructionLoop(program@)),
                        tape0 == old(self).tape@,
                        budget0 == old(self).budget,
                        log0 == old(self).log@,
                        self.budget <= budget0,
                        self.log@ == log0 + self.log@.skip(log0.len() as int),
                        no_read(self.log@.skip(log0.len() as int)) ==> self.input == old(self).input,
                        no_write(self.log@.skip(log0.len() as int)) ==> self.output == old(
                            self,
                        ).output,
                        forall|more: Seq<PortEvent<I::Error, O::Error>>| #[trigger]
                            loop_resumes(
                                tape0,
                                program@,
                                budget0,
                                self.log@.skip(log0.len() as int),
                                self.tape@,
                                self.budget as nat,
                                more,
                            ),
                    decreases self.budget,
                {
                    let ghost seen = self.log@.skip(log0.len() as int);
                    let ghost tape1 = self.tape@;
                    let ghost budget1 = self.budget as nat;
                    let ghost log1 = self.log@;
                    if self.budget == 0 {
                        proof {
                            assert(loop_resumes(tape0, program@, budget0, seen, tape1, budget1, silent));
                            assert(seen + silent =~= seen);
                        }
                        return Err(ExecutorError::BudgetExhausted);
                    }
                    self.budget -= 1;
                    let result = self.run(program);
                    let ghost pass_log = self.log@.skip(log1.len() as int);
                    let ghost pass = run_from::<I::Error, O::Error>(
                        tape1,
                        program@,
                        0,
                        (budget1 - 1) as nat,
                        pass_log,
                    );
                    proof {
                        assert(self.log@.skip(log0.len() as int) =~= seen + pass_log);
                        assert(self.log@ =~= log0 + (seen + pass_log));
                        lemma_no_call_in_parts(seen, pass_log);
                    }
                    match result {
                        Ok(_) => {
                            proof {
                                assert forall|more: Seq<PortEvent<I::Error, O::Error>>| #[trigger]
                                    loop_resumes(
                                        tape0,
                                        program@,
                                        budget0,
                                        seen + pass_log,
                                        self.tape@,
                                        self.budget as nat,
                                        more,
                                    ) by {
                                    assert(loop_resumes(
                                        tape0,
                                        program@,
                                        budget0,
                                        seen,
                                        tape1,
                                        budget1,
                                        pass_log + more,
                                    ));
                                    assert(seen + (pass_log + more) =~= (seen + pass_log) + more);
                                    lemma_run_from_extends(
                                        tape1,
                                        program@,
                                        0,
                                        (budget1 - 1) as nat,
                                        pass_log,
                                        more,
                                    );
                                    assert((pass_log + more).skip(pass.events as int) =~= more);
                                }
                            }
                        },
                        Err(error) => {
                            proof {
                                assert(loop_resumes(
                                    tape0,
                                    program@,
                                    budget0,
                                    seen,
                                    tape1,
                                    budget1,
                                    pass_log,
                                ));
                            }
                            return Err(error);
                        },
                    }
                }
                proof {
                    let seen = self.log@.skip(log0.len() as int);
                    assert(loop_resumes(
                        tape0,
                        program@,
                        budget0,
                        seen,
                        self.tape@,
                        self.budget as nat,
                        silent,
                    ));
                    assert(seen + silent =~= seen);
                }
                Ok(())
            },
        }
    }

    /// Runs the program `program` from its first byte to its end, or to the
    /// first error. Each instruction is built only when the one before it has
    /// run.
    pub fn run<'a>(&mut self, program: &'a [u8]) -> (result: Result<
        (),
        ExecutorError<I::Error, O::Error>,
    >)
        ensures
            Self::follows(
                old(self),
                final(self),
                run_program(
                    old(self).tape_state(),
                    program@,
                    old(self).budget_left(),
                    Self::heard(old(self), final(self)),
                ),
                result,
            ),
        decreases old(self).budget_left(), 1nat,
    {
        let ghost silent = Seq::<PortEvent<I::Error, O::Error>>::empty();
        let ghost tape0 = self.tape@;
        let ghost budget0 = self.budget as nat;
        let ghost log0 = self.log@;
        let mut ir = IntermediateRepresentation::new(program);
        proof {
            use_type_invariant(&self.tape);
            self.tape.lemma_valid();
            assert(self.log@.skip(self.log@.len() as int) =~= silent);
            assert(self.log@ =~= self.log@ + silent);
            assert forall|more: Seq<PortEvent<I::Error, O::Error>>| #[trigger]
                program_resumes(tape0, program@, budget0, silent, tape0, 0, budget0, more) by {
                assert(silent + more =~= more);
            }
        }
        loop
            invariant
                silent == Seq::<PortEvent<I::Error, O::Error>>::empty(),
                tape0 == old(self).tape@,
                budget0 == old(self).budget,
                log0 == old(self).log@,
                ir.program() == program@,
                0 <= ir.position() <= program@.len(),
                self.budget <= budget0,
                self.tape@.valid(),
                self.tape@.cells.len() == N,
                self.log@ == log0 + self.log@.skip(log0.len() as int),
                no_read(self.log@.skip(log0.len() as int)) ==> self.input == old(self).input,
                no_write(self.log@.skip(log0.len() as int)) ==> self.output == old(self).output,
                forall|more: Seq<PortEvent<I::Error, O::Error>>| #[trigger]
                    program_resumes(
                        tape0,
                        program@,
                        budget0,
                        self.log@.skip(log0.len() as int),
                        self.tape@,
                        ir.position(),
                        self.budget as nat,
                        more,
                    ),
            decreases program@.len() - ir.position(),
        {
            let ghost seen = self.log@.skip(log0.len() as int);
            let ghost tape1 = self.tape@;
            let ghost budget1 = self.budget as nat;
            let ghost log1 = self.log@;
            let ghost from = ir.position();
            proof {
                lemma_build_next_advances(program@, from);
                assert(program_resumes(tape0, program@, budget0, seen, tape1, from, budget1, silent));
                assert(seen + silent =~= seen);
            }
            match ir.next() {
                None => {
                    return Ok(());
                },
                Some(Err(error)) => {
                    return Err(ExecutorError::IRError(error));
                },
                Some(Ok(instruction)) => {
                    let result = self.execute(instruction);
                    let ghost step_log = self.log@.skip(log1.len() as int);
                    let ghost step = run_instruction::<I::Error, O::Error>(
                        tape1,
                        instruction@,
                        budget1,
                        step_log,
                    );
                    proof {
                        assert(self.log@.skip(log0.len() as int) =~= seen + step_log);
                        assert(self.log@ =~= log0 + (seen + step_log));
                        lemma_no_call_in_parts(seen, step_log);
                    }
                    match result {
                        Ok(_) => {
                            proof {
                                assert forall|more: Seq<PortEvent<I::Error, O::Error>>| #[trigger]
                                    program_resumes(
                                        tape0,
                                        program@,
                                        budget0,
                                        seen + step_log,
                                        self.tape@,
                                        ir.position(),
                                        self.budget as nat,
                                        more,
                                    ) by {
                                    assert(program_resumes(
                                        tape0,
                                        program@,
                                        budget0,
                                        seen,
                                        tape1,
                                        from,
                                        budget1,
                                        step_log + more,
                                    ));
                                    assert(seen + (step_log + more) =~= (seen + step_log) + more);
                                    lemma_run_instruction_extends(
                                        tape1,
                                        instruction@,
                                        budget1,
                                        step_log,
                                        more,
                                    );
                                    assert((step_log + more).skip(step.events as int) =~= more);
                                }
                            }
                        },
                        Err(error) => {
                            proof {
                                assert(program_resumes(
                                    tape0,
                                    program@,
                                    budget0,
                                    seen,
                                    tape1,
                                    from,
                                    budget1,
                                    step_log,
                                ));
                            }
                            return Err(error);
                        },
                    }
                },
            }
        }
    }
}

} // verus!
