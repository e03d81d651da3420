//! What running a program means.
//!
//! A run is a function of the tape, the program, a budget of loop passes and
//! the answers of the two ports. The answers are given as a log: the port
//! calls of the run in order, each with what the port answered. The run asks
//! the log where the program reads or writes; it ends at the first error.

use vstd::prelude::*;
use crate::instruction::{Instruction, InstructionLoop};
use crate::executor::ExecutorError;
use crate::intermediate_representation::{build_next, lemma_build_next_advances};
use crate::stream::PortEvent;
use crate::tape::{lemma_tape_stays_valid, TapeState};

verus! {

/// How a run ended.
pub enum Status<IE, OE> {
    /// At the end of the program.
    Done,
    /// At an error.
    Failed(ExecutorError<IE, OE>),
    /// Nowhere: the program called a port and the log holds no such call at
    /// that place.
    Unanswered,
}

/// A run's result: the tape it left, how many loop passes it started, how many
/// port calls it made, and how it ended.
pub struct Outcome<IE, OE> {
    /// The tape after the run.
    pub tape: TapeState,
    /// The number of loop passes that were started.
    pub passes: nat,
    /// The number of port calls that were made.
    pub events: nat,
    /// How the run ended.
    pub status: Status<IE, OE>,
}

impl<IE, OE> Outcome<IE, OE> {
    /// A run that ended regularly on `tape` without a pass or a port call.
    pub open spec fn done(tape: TapeState) -> Self {
        Outcome { tape, passes: 0, events: 0, status: Status::Done }
    }

    /// A run that ended at `error` on `tape` without a pass or a port call.
    pub open spec fn failed(tape: TapeState, error: ExecutorError<IE, OE>) -> Self {
        Outcome { tape, passes: 0, events: 0, status: Status::Failed(error) }
    }

    /// A run that found no answer in the log.
    pub open spec fn unanswered(tape: TapeState) -> Self {
        Outcome { tape, passes: 0, events: 0, status: Status::Unanswered }
    }

    /// This result as the later part of a run that before it started `passes`
    /// passes and made `events` port calls.
    pub open spec fn after(self, passes: nat, events: nat) -> Self {
        Outcome { passes: self.passes + passes, events: self.events + events, ..self }
    }
}

/// What is left of `budget` after `passes` passes; nothing where there were
/// more passes than the budget.
pub open spec fn left_of(budget: nat, passes: nat) -> nat {
    if passes <= budget {
        (budget - passes) as nat
    } else {
        0
    }
}

/// The result of a write of the current cell, by the log's first entry.
pub open spec fn run_output<IE, OE>(tape: TapeState, log: Seq<PortEvent<IE, OE>>) -> Outcome<
    IE,
    OE,
> {
    if log.len() == 0 {
        Outcome::unanswered(tape)
    } else {
        match log[0] {
            PortEvent::Write(value, answer) => if value == tape.current() {
                match answer {
                    Ok(_) => Outcome::done(tape).after(0, 1),
                    Err(error) => Outcome::failed(tape, ExecutorError::OutputError(error)).after(
                        0,
                        1,
                    ),
                }
            } else {
                Outcome::unanswered(tape)
            },
            PortEvent::Read(_) => Outcome::unanswered(tape),
        }
    }
}

/// The result of a read into the current cell, by the log's first entry.
pub open spec fn run_input<IE, OE>(tape: TapeState, log: Seq<PortEvent<IE, OE>>) -> Outcome<
    IE,
    OE,
> {
    if log.len() == 0 {
        Outcome::unanswered(tape)
    } else {
        match log[0] {
            PortEvent::Read(answer) => match answer {
                Ok(byte) => Outcome::done(tape.store(byte)).after(0, 1),
                Err(error) => Outcome::failed(tape, ExecutorError::InputError(error)).after(0, 1),
            },
            PortEvent::Write(_, _) => Outcome::unanswered(tape),
        }
    }
}

/// The result of one instruction on `tape`.
pub open spec fn run_instruction<IE, OE>(
    tape: TapeState,
    instruction: Instruction<Seq<u8>>,
    budget: nat,
    log: Seq<PortEvent<IE, OE>>,
) -> Outcome<IE, OE>
    decreases budget, 1nat, 0nat,
{
    match instruction {
        Instruction::MoveRight(amount) => Outcome::done(tape.move_right(amount)),
        Instruction::MoveLeft(amount) => Outcome::done(tape.move_left(amount)),
        Instruction::Increment(amount) => Outcome::done(tape.increment(amount)),
        Instruction::Decrement(amount) => Outcome::done(tape.decrement(amount)),
        Instruction::Output => run_output(tape, log),
        Instruction::Input => run_input(tape, log),
        Instruction::Loop(body) => run_loop(tape, body.0, budget, log),
    }
}

/// The result of a loop with the source text `body`: while the current cell is
/// not zero, one pass over the body, which is built anew for each pass. Each
/// pass takes one from the budget; with none left the loop fails.
pub open spec fn run_loop<IE, OE>(
    tape: TapeState,
    body: Seq<u8>,
    budget: nat,
    log: Seq<PortEvent<IE, OE>>,
) -> Outcome<IE, OE>
    decreases budget, 0nat, 0nat,
{
    if tape.current() == 0 {
        Outcome::done(tape)
    } else if budget == 0 {
        Outcome::failed(tape, ExecutorError::BudgetExhausted)
    } else {
        let pass = run_from::<IE, OE>(tape, body, 0, (budget - 1) as nat, log);
        if pass.status is Done {
            run_loop(
                pass.tape,
                body,
                left_of(budget, pass.passes + 1),
                log.skip(pass.events as int),
            ).after(pass.passes + 1, pass.events)
        } else {
            pass.after(1, 0)
        }
    }
}

/// The result of the program `src` from offset `from` on: its instructions are
/// built one by one and each is run before the next is built, so that an error
/// in the text shows only when the run gets there.
pub open spec fn run_from<IE, OE>(
    tape: TapeState,
    src: Seq<u8>,
    from: int,
    budget: nat,
    log: Seq<PortEvent<IE, OE>>,
) -> Outcome<IE, OE>
    decreases budget, 2nat, src.len() - from,
{
    if from < 0 {
        Outcome::done(tape)
    } else {
        match build_next(src, from) {
            None => Outcome::done(tape),
            Some((Err(error), _)) => Outcome::failed(tape, ExecutorError::IRError(error)),
            Some((Ok(instruction), behind)) => {
                let first = run_instruction(tape, instruction, budget, log);
                if first.status is Done {
                    proof {
                        lemma_build_next_advances(src, from);
                    }
                    run_from(
                        first.tape,
                        src,
                        behind,
                        left_of(budget, first.passes),
                        log.skip(first.events as int),
                    ).after(first.passes, first.events)
                } else {
                    first
                }
            },
        }
    }
}

/// The result of the whole program `src`.
pub open spec fn run_program<IE, OE>(
    tape: TapeState,
    src: Seq<u8>,
    budget: nat,
    log: Seq<PortEvent<IE, OE>>,
) -> Outcome<IE, OE> {
    run_from(tape, src, 0, budget, log)
}

/// A run that found its answers in the log made no more port calls than the
/// log holds, started no more passes than the budget allows, and is the same
/// run whatever the log holds behind those calls.
pub proof fn lemma_run_instruction_extends<IE, OE>(
    tape: TapeState,
    instruction: Instruction<Seq<u8>>,
    budget: nat,
    log: Seq<PortEvent<IE, OE>>,
    more: Seq<PortEvent<IE, OE>>,
)
    requires
        !(run_instruction(tape, instruction, budget, log).status is Unanswered),
    ensures
        run_instruction(tape, instruction, budget, log + more) == run_instruction(
            tape,
            instruction,
            budget,
            log,
        ),
        run_instruction(tape, instruction, budget, log).events <= log.len(),
        run_instruction(tape, instruction, budget, log).passes <= budget,
    decreases budget, 1nat, 0nat,
{
    match instruction {
        Instruction::Output => {
            assert((log + more)[0] == log[0]);
        },
        Instruction::Input => {
            assert((log + more)[0] == log[0]);
        },
        Instruction::Loop(body) => {
            lemma_run_loop_extends(tape, body.0, budget, log, more);
        },
        _ => {},
    }
}

/// The same of a loop.
pub proof fn lemma_run_loop_extends<IE, OE>(
    tape: TapeState,
    body: Seq<u8>,
    budget: nat,
    log: Seq<PortEvent<IE, OE>>,
    more: Seq<PortEvent<IE, OE>>,
)
    requires
        !(run_loop(tape, body, budget, log).status is Unanswered),
    ensures
        run_loop(tape, body, budget, log + more) == run_loop(tape, body, budget, log),
        run_loop(tape, body, budget, log).events <= log.len(),
        run_loop(tape, body, budget, log).passes <= budget,
    decreases budget, 0nat, 0nat,
{
    if tape.current() != 0 && budget != 0 {
        let pass = run_from::<IE, OE>(tape, body, 0, (budget - 1) as nat, log);
        lemma_run_from_extends(tape, body, 0, (budget - 1) as nat, log, more);
        if pass.status is Done {
            let rest_budget = left_of(budget, pass.passes + 1);
            assert((log + more).skip(pass.events as int) =~= log.skip(pass.events as int) + more);
            lemma_run_loop_extends(pass.tape, body, rest_budget, log.skip(pass.events as int), more);
        }
    }
}

/// The same of a program.
pub proof fn lemma_run_from_extends<IE, OE>(
    tape: TapeState,
    src: Seq<u8>,
    from: int,
    budget: nat,
    log: Seq<PortEvent<IE, OE>>,
    more: Seq<PortEvent<IE, OE>>,
)
    requires
        !(run_from(tape, src, from, budget, log).status is Unanswered),
    ensures
        run_from(tape, src, from, budget, log + more) == run_from(tape, src, from, budget, log),
        run_from(tape, src, from, budget, log).events <= log.len(),
        run_from(tape, src, from, budget, log).passes <= budget,
    decreases budget, 2nat, src.len() - from,
{
    if from >= 0 {
        match build_next(src, from) {
            Some((Ok(instruction), behind)) => {
                let first = run_instruction(tape, instruction, budget, log);
                lemma_run_instruction_extends(tape, instruction, budget, log, more);
                if first.status is Done {
                    lemma_build_next_advances(src, from);
                    let rest_budget = left_of(budget, first.passes);
                    assert((log + more).skip(first.events as int) =~= log.skip(
                        first.events as int,
                    ) + more);
                    lemma_run_from_extends(
                        first.tape,
                        src,
                        behind,
                        rest_budget,
                        log.skip(first.events as int),
                        more,
                    );
                }
            },
            _ => {},
        }
    }
}

/// Whether a run ended for want of budget.
pub open spec fn exhausted<IE, OE>(status: Status<IE, OE>) -> bool {
    status matches Status::Failed(ExecutorError::BudgetExhausted)
}

/// The budget only bounds a run: a run that found its answers in the log and
/// did not end for want of budget is the same run with any larger budget.
pub proof fn lemma_run_instruction_with_more_budget<IE, OE>(
    tape: TapeState,
    instruction: Instruction<Seq<u8>>,
    budget: nat,
    extra: nat,
    log: Seq<PortEvent<IE, OE>>,
)
    requires
        !(run_instruction(tape, instruction, budget, log).status is Unanswered),
        !exhausted(run_instruction(tape, instruction, budget, log).status),
    ensures
        run_instruction(tape, instruction, budget + extra, log) == run_instruction(
            tape,
            instruction,
            budget,
            log,
        ),
    decreases budget, 1nat, 0nat,
{
    match instruction {
        Instruction::Loop(body) => {
            lemma_run_loop_with_more_budget(tape, body.0, budget, extra, log);
        },
        _ => {},
    }
}

/// The same of a loop.
pub proof fn lemma_run_loop_with_more_budget<IE, OE>(
    tape: TapeState,
    body: Seq<u8>,
    budget: nat,
    extra: nat,
    log: Seq<PortEvent<IE, OE>>,
)
    requires
        !(run_loop(tape, body, budget, log).status is Unanswered),
        !exhausted(run_loop(tape, body, budget, log).status),
    ensures
        run_loop(tape, body, budget + extra, log) == run_loop(tape, body, budget, log),
    decreases budget, 0nat, 0nat,
{
    if tape.current() != 0 && budget != 0 {
        let pass = run_from::<IE, OE>(tape, body, 0, (budget - 1) as nat, log);
        lemma_run_from_extends(tape, body, 0, (budget - 1) as nat, log, Seq::empty());
        lemma_run_from_with_more_budget(tape, body, 0, (budget - 1) as nat, extra, log);
        assert((budget - 1) as nat + extra == (budget + extra - 1) as nat);
        if pass.status is Done {
            assert(left_of(budget + extra, pass.passes + 1) == left_of(budget, pass.passes + 1)
                + extra);
            lemma_run_loop_with_more_budget(
                pass.tape,
                body,
                left_of(budget, pass.passes + 1),
                extra,
                log.skip(pass.events as int),
            );
        }
    }
}

/// The same of a program.
pub proof fn lemma_run_from_with_more_budget<IE, OE>(
    tape: TapeState,
    src: Seq<u8>,
    from: int,
    budget: nat,
    extra: nat,
    log: Seq<PortEvent<IE, OE>>,
)
    requires
        !(run_from(tape, src, from, budget, log).status is Unanswered),
        !exhausted(run_from(tape, src, from, budget, log).status),
    ensures
        run_from(tape, src, from, budget + extra, log) == run_from(tape, src, from, budget, log),
    decreases budget, 2nat, src.len() - from,
{
    if from >= 0 {
        match build_next(src, from) {
            Some((Ok(instruction), behind)) => {
                let first = run_instruction(tape, instruction, budget, log);
                lemma_run_instruction_extends(tape, instruction, budget, log, Seq::empty());
                lemma_run_instruction_with_more_budget(tape, instruction, budget, extra, log);
                if first.status is Done {
                    lemma_build_next_advances(src, from);
                    assert(left_of(budget + extra, first.passes) == left_of(budget, first.passes)
                        + extra);
                    lemma_run_from_with_more_budget(
                        first.tape,
                        src,
                        behind,
                        left_of(budget, first.passes),
                        extra,
                        log.skip(first.events as int),
                    );
                }
            },
            _ => {},
        }
    }
}

/// A loop on a cell that is zero is skipped, whatever its body holds: an error
/// in the text of a body shows only when the body is run.
pub proof fn lemma_loop_on_zero_is_skipped<IE, OE>(
    tape: TapeState,
    body: Seq<u8>,
    budget: nat,
    log: Seq<PortEvent<IE, OE>>,
)
    requires
        tape.current() == 0,
    ensures
        run_instruction(tape, Instruction::Loop(InstructionLoop(body)), budget, log)
            == Outcome::<IE, OE>::done(tape),
{
}

/// A run leaves the pointer on the tape and the tape as long as it was.
pub proof fn lemma_run_instruction_keeps_tape<IE, OE>(
    tape: TapeState,
    instruction: Instruction<Seq<u8>>,
    budget: nat,
    log: Seq<PortEvent<IE, OE>>,
)
    requires
        tape.valid(),
    ensures
        run_instruction(tape, instruction, budget, log).tape.valid(),
        run_instruction(tape, instruction, budget, log).tape.cells.len() == tape.cells.len(),
    decreases budget, 1nat, 0nat,
{
    match instruction {
        Instruction::MoveRight(amount) => lemma_tape_stays_valid(tape, amount, 0),
        Instruction::MoveLeft(amount) => lemma_tape_stays_valid(tape, amount, 0),
        Instruction::Increment(amount) => lemma_tape_stays_valid(tape, 0, amount),
        Instruction::Decrement(amount) => lemma_tape_stays_valid(tape, 0, amount),
        Instruction::Output => {},
        Instruction::Input => {
            if log.len() > 0 {
                match log[0] {
                    PortEvent::Read(Ok(byte)) => lemma_tape_stays_valid(tape, 0, byte),
                    _ => {},
                }
            }
        },
        Instruction::Loop(body) => lemma_run_loop_keeps_tape(tape, body.0, budget, log),
    }
}

/// The same of a loop.
pub proof fn lemma_run_loop_keeps_tape<IE, OE>(
    tape: TapeState,
    body: Seq<u8>,
    budget: nat,
    log: Seq<PortEvent<IE, OE>>,
)
    requires
        tape.valid(),
    ensures
        run_loop(tape, body, budget, log).tape.valid(),
        run_loop(tape, body, budget, log).tape.cells.len() == tape.cells.len(),
    decreases budget, 0nat, 0nat,
{
    if tape.current() != 0 && budget != 0 {
        let pass = run_from::<IE, OE>(tape, body, 0, (budget - 1) as nat, log);
        lemma_run_from_keeps_tape(tape, body, 0, (budget - 1) as nat, log);
        if pass.status is Done {
            lemma_run_loop_keeps_tape(
                pass.tape,
                body,
                left_of(budget, pass.passes + 1),
                log.skip(pass.events as int),
            );
        }
    }
}

/// The same of a program.
pub proof fn lemma_run_from_keeps_tape<IE, OE>(
    tape: TapeState,
    src: Seq<u8>,
    from: int,
    budget: nat,
    log: Seq<PortEvent<IE, OE>>,
)
    requires
        tape.valid(),
    ensures
        run_from(tape, src, from, budget, log).tape.valid(),
        run_from(tape, src, from, budget, log).tape.cells.len() == tape.cells.len(),
    decreases budget, 2nat, src.len() - from,
{
    if from >= 0 {
        match build_next(src, from) {
            Some((Ok(instruction), behind)) => {
                let first = run_instruction(tape, instruction, budget, log);
                lemma_run_instruction_keeps_tape(tape, instruction, budget, log);
                if first.status is Done {
                    lemma_build_next_advances(src, from);
                    lemma_run_from_keeps_tape(
                        first.tape,
                        src,
                        behind,
                        left_of(budget, first.passes),
                        log.skip(first.events as int),
                    );
                }
            },
            _ => {},
        }
    }
}

} // verus!
