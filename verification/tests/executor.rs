use brainfuck::{
    ByteInput, ByteOutput, EndOfInput, Executor, ExecutorError, IRError, InputStream, Instruction,
    InstructionIterator, InstructionLoop, Never, OutputStream, Tape,
};

type Memory<const N: usize> = Executor<ByteInput, ByteOutput, N>;

fn memory<const N: usize>(input: &[u8]) -> Memory<N> {
    Executor::new(ByteInput::new(input.to_vec()), ByteOutput::new())
}

fn cells<const N: usize>(tape: &Tape<N>) -> Vec<u8> {
    (0..N).map(|index| tape.cell(index).unwrap()).collect()
}

/// An output port that accepts a number of bytes and then fails.
struct Narrow {
    room: usize,
    written: Vec<u8>,
}

impl OutputStream for Narrow {
    type Error = u8;

    fn write(&mut self, value: u8) -> Result<(), u8> {
        if self.written.len() < self.room {
            self.written.push(value);
            Ok(())
        } else {
            Err(value)
        }
    }
}

#[test]
fn new_executor_has_a_blank_tape() {
    let executor = memory::<30000>(b"");
    assert_eq!(executor.tape().pointer(), 0);
    assert_eq!(executor.tape().current(), 0);
    assert!(cells(executor.tape()).iter().all(|&byte| byte == 0));
    assert_eq!(executor.tape().cell(29999), Some(0));
    assert_eq!(executor.tape().cell(30000), None);
    assert_eq!(executor.budget(), u64::MAX);
}

#[test]
fn move_right_wraps_at_the_end_of_the_tape() {
    let mut executor = memory::<10>(b"");
    assert_eq!(executor.execute(Instruction::MoveRight(3)), Ok(()));
    assert_eq!(executor.tape().pointer(), 3);
    assert_eq!(executor.execute(Instruction::MoveRight(7)), Ok(()));
    assert_eq!(executor.tape().pointer(), 0);
    assert_eq!(executor.execute(Instruction::MoveRight(25)), Ok(()));
    assert_eq!(executor.tape().pointer(), 5);
    assert_eq!(executor.execute(Instruction::MoveRight(0)), Ok(()));
    assert_eq!(executor.tape().pointer(), 5);
}

#[test]
fn move_right_by_the_largest_amount_does_not_wrap_in_the_word() {
    let mut executor = memory::<7>(b"");
    assert_eq!(executor.execute(Instruction::MoveRight(5)), Ok(()));
    assert_eq!(executor.execute(Instruction::MoveRight(usize::MAX)), Ok(()));
    let expected = ((5u128 + usize::MAX as u128) % 7) as usize;
    assert_eq!(executor.tape().pointer(), expected);
}

#[test]
fn move_left_inside_the_tape() {
    let mut executor = memory::<10>(b"");
    assert_eq!(executor.execute(Instruction::MoveRight(8)), Ok(()));
    assert_eq!(executor.execute(Instruction::MoveLeft(3)), Ok(()));
    assert_eq!(executor.tape().pointer(), 5);
    assert_eq!(executor.execute(Instruction::MoveLeft(5)), Ok(()));
    assert_eq!(executor.tape().pointer(), 0);
}

#[test]
fn move_left_below_zero_wraps_in_the_word_and_then_in_the_tape() {
    let mut executor = memory::<30000>(b"");
    assert_eq!(executor.execute(Instruction::MoveLeft(1)), Ok(()));
    assert_eq!(executor.tape().pointer(), usize::MAX % 30000);
    if usize::BITS == 64 {
        assert_eq!(executor.tape().pointer(), 21615);
    }
    let mut executor = memory::<16>(b"");
    assert_eq!(executor.execute(Instruction::MoveLeft(1)), Ok(()));
    assert_eq!(executor.tape().pointer(), 15);
}

#[test]
fn increment_and_decrement_wrap_at_256() {
    let mut executor = memory::<4>(b"");
    assert_eq!(executor.execute(Instruction::Increment(200)), Ok(()));
    assert_eq!(executor.tape().current(), 200);
    assert_eq!(executor.execute(Instruction::Increment(100)), Ok(()));
    assert_eq!(executor.tape().current(), 44);
    assert_eq!(executor.execute(Instruction::Decrement(45)), Ok(()));
    assert_eq!(executor.tape().current(), 255);
    assert_eq!(executor.execute(Instruction::Increment(0)), Ok(()));
    assert_eq!(executor.tape().current(), 255);
    assert_eq!(cells(executor.tape()), vec![255, 0, 0, 0]);
}

#[test]
fn output_writes_the_current_cell() {
    let mut executor = memory::<4>(b"");
    assert_eq!(executor.execute(Instruction::Increment(65)), Ok(()));
    assert_eq!(executor.execute(Instruction::Output), Ok(()));
    assert_eq!(executor.execute(Instruction::Increment(1)), Ok(()));
    assert_eq!(executor.execute(Instruction::Output), Ok(()));
    assert_eq!(executor.output().bytes(), &vec![65, 66]);
}

#[test]
fn input_stores_the_byte_read() {
    let mut executor = memory::<4>(&[10, 20]);
    assert_eq!(executor.execute(Instruction::Input), Ok(()));
    assert_eq!(executor.tape().current(), 10);
    assert_eq!(executor.execute(Instruction::MoveRight(1)), Ok(()));
    assert_eq!(executor.execute(Instruction::Input), Ok(()));
    assert_eq!(cells(executor.tape()), vec![10, 20, 0, 0]);
}

#[test]
fn failed_input_is_returned_and_leaves_the_tape() {
    let mut executor = memory::<4>(&[]);
    assert_eq!(executor.execute(Instruction::Increment(5)), Ok(()));
    assert_eq!(
        executor.execute(Instruction::Input),
        Err(ExecutorError::InputError(EndOfInput))
    );
    assert_eq!(cells(executor.tape()), vec![5, 0, 0, 0]);
}

#[test]
fn failed_output_is_returned() {
    let port = Narrow {
        room: 2,
        written: Vec::new(),
    };
    let mut executor: Executor<ByteInput, Narrow, 4> =
        Executor::new(ByteInput::new(Vec::new()), port);
    let result = executor.run(b"+.+.+.+.");
    assert_eq!(result, Err(ExecutorError::OutputError(3)));
    assert_eq!(executor.output().written, vec![1, 2]);
    assert_eq!(executor.tape().current(), 3);
}

#[test]
fn loop_runs_while_the_current_cell_is_not_zero() {
    // Adds cell 0 to cell 1.
    let mut executor = memory::<4>(b"");
    assert_eq!(executor.run(b"+++>++<[->+<]"), Ok(()));
    assert_eq!(cells(executor.tape()), vec![0, 5, 0, 0]);
    assert_eq!(executor.tape().pointer(), 0);
}

#[test]
fn loop_on_a_zero_cell_is_skipped() {
    let mut executor = memory::<4>(b"");
    let body = InstructionLoop::new(b"+.".as_slice());
    assert_eq!(executor.execute(Instruction::Loop(body)), Ok(()));
    assert_eq!(cells(executor.tape()), vec![0, 0, 0, 0]);
    assert_eq!(executor.output().bytes(), &Vec::<u8>::new());
    assert_eq!(executor.budget(), u64::MAX);
}

#[test]
fn broken_body_of_a_loop_that_never_runs_is_no_error() {
    let mut executor = memory::<4>(b"");
    assert_eq!(executor.run(b"[[+]]]>+"), Err(ExecutorError::IRError(IRError::UnmatchedLoopEnd)));
    let mut executor = memory::<4>(b"");
    let body = InstructionLoop::new(b"]]][[[".as_slice());
    assert_eq!(executor.execute(Instruction::Loop(body)), Ok(()));
    let mut executor = memory::<4>(b"");
    assert_eq!(executor.run(b"[ [>] ] ] ]"), Err(ExecutorError::IRError(IRError::UnmatchedLoopEnd)));
    assert_eq!(cells(executor.tape()), vec![0, 0, 0, 0]);
}

#[test]
fn broken_body_fails_when_the_loop_runs() {
    let mut executor = memory::<4>(b"");
    assert_eq!(executor.execute(Instruction::Increment(1)), Ok(()));
    let body = InstructionLoop::new(b"->+]<".as_slice());
    assert_eq!(
        executor.execute(Instruction::Loop(body)),
        Err(ExecutorError::IRError(IRError::UnmatchedLoopEnd))
    );
    // What stood before the error has run.
    assert_eq!(cells(executor.tape()), vec![0, 1, 0, 0]);
    assert_eq!(executor.tape().pointer(), 1);

    let mut executor = memory::<4>(b"");
    assert_eq!(
        executor.run(b"+[>+[-"),
        Err(ExecutorError::IRError(IRError::UnmatchedLoopStart))
    );
}

#[test]
fn moving_loop_ends_when_a_cell_wraps_to_zero() {
    // Every pass moves one cell to the right and adds one there. Cell 0 starts
    // at 1, so it is the first to come to 0: at its 255th visit, which is the
    // pass of number 255 * 4.
    let mut executor: Memory<4> =
        Executor::with_budget(ByteInput::new(Vec::new()), ByteOutput::new(), 2000);
    assert_eq!(executor.run(b"+[>+]"), Ok(()));
    assert_eq!(executor.tape().pointer(), 0);
    assert_eq!(cells(executor.tape()), vec![0, 255, 255, 255]);
    assert_eq!(executor.budget(), 2000 - 255 * 4);
}

#[test]
fn moving_loop_on_the_instruction_stream() {
    let mut executor = memory::<3>(b"");
    for instruction in brainfuck::collect_instructions(b"+[>+]") {
        assert_eq!(executor.execute(instruction.unwrap()), Ok(()));
    }
    assert_eq!(cells(executor.tape()), vec![0, 255, 255]);
    assert_eq!(executor.budget(), u64::MAX - 255 * 3);
}

#[test]
fn budget_bounds_the_passes() {
    let mut executor: Memory<4> =
        Executor::with_budget(ByteInput::new(Vec::new()), ByteOutput::new(), 1019);
    assert_eq!(executor.run(b"+[>+]"), Err(ExecutorError::BudgetExhausted));
    assert_eq!(executor.budget(), 0);

    let mut executor: Memory<4> =
        Executor::with_budget(ByteInput::new(Vec::new()), ByteOutput::new(), 1020);
    assert_eq!(executor.run(b"+[>+]"), Ok(()));
    assert_eq!(executor.budget(), 0);

    let mut executor: Memory<4> =
        Executor::with_budget(ByteInput::new(Vec::new()), ByteOutput::new(), 10);
    assert_eq!(executor.run(b"+[]"), Err(ExecutorError::BudgetExhausted));
    assert_eq!(cells(executor.tape()), vec![1, 0, 0, 0]);
}

#[test]
fn nested_passes_take_from_the_budget() {
    // The outer loop makes 3 passes, the inner one 2 in each of them.
    let mut executor: Memory<4> =
        Executor::with_budget(ByteInput::new(Vec::new()), ByteOutput::new(), 100);
    assert_eq!(executor.run(b"+++[>++[-]<-]"), Ok(()));
    assert_eq!(executor.budget(), 100 - 3 - 3 * 2);
    assert_eq!(cells(executor.tape()), vec![0, 0, 0, 0]);
}

#[test]
fn copies_input_to_output() {
    let mut executor = memory::<8>(b"tape\0rest");
    assert_eq!(executor.run(b",[.,]"), Ok(()));
    assert_eq!(executor.output().bytes(), &b"tape".to_vec());
    let mut rest = Vec::new();
    let mut executor = memory::<8>(b"ab");
    assert_eq!(
        executor.run(b",[.,]"),
        Err(ExecutorError::InputError(EndOfInput))
    );
    rest.extend_from_slice(executor.output().bytes());
    assert_eq!(rest, b"ab".to_vec());
}

#[test]
fn prints_a_greeting() {
    let program = "++++++++[>++++[>++>+++>+++>+<<<<-]>+>+>->>+[<]<-]>>.>---.+++++++..+++.\
                   >>.<-.<.+++.------.--------.>>+.>++.";
    let mut executor = memory::<30000>(b"");
    let mut ir = program.iter_instruction();
    while let Some(instruction) = ir.next() {
        assert_eq!(executor.execute(instruction.unwrap()), Ok(()));
    }
    assert_eq!(executor.output().bytes(), &b"Hello World!\n".to_vec());
}

#[test]
fn ports_of_the_caller_are_used() {
    struct Countdown(u8);
    impl InputStream for Countdown {
        type Error = Never;
        fn read(&mut self) -> Result<u8, Never> {
            self.0 -= 1;
            Ok(self.0)
        }
    }
    let mut executor: Executor<Countdown, ByteOutput, 2> =
        Executor::new(Countdown(4), ByteOutput::new());
    assert_eq!(executor.run(b",[.,]"), Ok(()));
    assert_eq!(executor.output().bytes(), &vec![3, 2, 1]);
    assert_eq!(executor.input().0, 0);
}

#[test]
fn larger_budget_gives_the_same_run() {
    let program = b",[>+++[<.>-]<,]";
    let mut outcomes = Vec::new();
    for budget in [12, 13, 1000, u64::MAX] {
        let mut executor: Memory<5> = Executor::with_budget(
            ByteInput::new(vec![b'a', b'b', b'c', 0]),
            ByteOutput::new(),
            budget,
        );
        assert_eq!(executor.run(program), Ok(()));
        assert_eq!(budget - executor.budget(), 12);
        outcomes.push((
            cells(executor.tape()),
            executor.tape().pointer(),
            executor.output().bytes().clone(),
        ));
    }
    assert_eq!(outcomes[0].2, b"aaabbbccc".to_vec());
    assert!(outcomes.iter().all(|outcome| *outcome == outcomes[0]));
    let mut executor: Memory<5> = Executor::with_budget(
        ByteInput::new(vec![b'a', b'b', b'c', 0]),
        ByteOutput::new(),
        11,
    );
    assert_eq!(executor.run(program), Err(ExecutorError::BudgetExhausted));
}

#[test]
fn pointer_stays_on_the_tape() {
    let mut executor = memory::<3>(b"");
    for amount in [0, 1, 2, 3, 4, 1000, usize::MAX] {
        assert_eq!(executor.execute(Instruction::MoveRight(amount)), Ok(()));
        assert!(executor.tape().pointer() < 3);
        assert_eq!(executor.execute(Instruction::MoveLeft(amount)), Ok(()));
        assert!(executor.tape().pointer() < 3);
    }
}

#[test]
fn answer_of_the_input_port_goes_to_the_tape_or_to_the_caller() {
    let mut tape: Tape<3> = Tape::new();
    tape.move_right(2);
    let stored: Result<(), ExecutorError<&str, Never>> =
        brainfuck::input_result(&mut tape, Ok(77));
    assert_eq!(stored, Ok(()));
    assert_eq!(cells(&tape), vec![0, 0, 77]);
    let failed: Result<(), ExecutorError<&str, Never>> =
        brainfuck::input_result(&mut tape, Err("closed"));
    assert_eq!(failed, Err(ExecutorError::InputError("closed")));
    assert_eq!(cells(&tape), vec![0, 0, 77]);
    assert_eq!(tape.pointer(), 2);
}

#[test]
fn answer_of_the_output_port_goes_to_the_caller() {
    let written: Result<(), ExecutorError<Never, u32>> = brainfuck::output_result(Ok(()));
    assert_eq!(written, Ok(()));
    let failed: Result<(), ExecutorError<Never, u32>> = brainfuck::output_result(Err(28));
    assert_eq!(failed, Err(ExecutorError::OutputError(28)));
}
