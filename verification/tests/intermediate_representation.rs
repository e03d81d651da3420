use brainfuck::{
    collect_instructions, IRError, Instruction, InstructionIterator, InstructionLoop,
    IntermediateRepresentation,
};

#[test]
fn parses_instructions() {
    let program = ">>><<++++-..,[[--->>]][++<]";
    let mut ir = program.iter_instruction();
    assert_eq!(ir.next(), Some(Ok(Instruction::MoveRight(3))));
    assert_eq!(ir.next(), Some(Ok(Instruction::MoveLeft(2))));
    assert_eq!(ir.next(), Some(Ok(Instruction::Increment(4))));
    assert_eq!(ir.next(), Some(Ok(Instruction::Decrement(1))));
    assert_eq!(ir.next(), Some(Ok(Instruction::Output)));
    assert_eq!(ir.next(), Some(Ok(Instruction::Output)));
    assert_eq!(ir.next(), Some(Ok(Instruction::Input)));
    let Some(Ok(Instruction::Loop(instruction_loop))) = ir.next() else {
        panic!("should be a loop");
    };
    assert_eq!(instruction_loop.program(), "[--->>]".as_bytes());
    let Some(Ok(Instruction::Loop(instruction_loop))) = instruction_loop.into_iter().next()
    else {
        panic!("should be a loop");
    };
    assert_eq!(instruction_loop.program(), "--->>".as_bytes());
    let mut inner_instruction_loop = instruction_loop.into_iter();
    assert_eq!(
        inner_instruction_loop.next(),
        Some(Ok(Instruction::Decrement(3)))
    );
    assert_eq!(
        inner_instruction_loop.next(),
        Some(Ok(Instruction::MoveRight(2)))
    );
    let Some(Ok(Instruction::Loop(instruction_loop))) = ir.next() else {
        panic!("should be a loop");
    };
    assert_eq!(instruction_loop.program(), "++<".as_bytes());
    let mut instruction_loop = instruction_loop.into_iter();
    assert_eq!(instruction_loop.next(), Some(Ok(Instruction::Increment(2))));
    assert_eq!(instruction_loop.next(), Some(Ok(Instruction::MoveLeft(1))));
    assert_eq!(ir.next(), None);
}

#[test]
fn amount_wraps_around() {
    let program: String = core::iter::repeat_n('+', 260).collect();
    let mut ir = program.iter_instruction();
    assert_eq!(ir.next(), Some(Ok(Instruction::Increment(4))));
    assert_eq!(ir.next(), None);
}

#[test]
fn errors_on_unmatched_loop_start() {
    let program = "+++[---";
    let mut ir = program.iter_instruction();
    assert_eq!(ir.next(), Some(Ok(Instruction::Increment(3))));
    assert_eq!(ir.next(), Some(Err(IRError::UnmatchedLoopStart)));
}

#[test]
fn errors_on_unmatched_loop_end() {
    let program = "+++]---";
    let mut ir = program.iter_instruction();
    assert_eq!(ir.next(), Some(Ok(Instruction::Increment(3))));
    assert_eq!(ir.next(), Some(Err(IRError::UnmatchedLoopEnd)));
}

#[test]
fn nothing_follows_an_error() {
    let mut ir = "+++]---".iter_instruction();
    assert_eq!(ir.next(), Some(Ok(Instruction::Increment(3))));
    assert_eq!(ir.next(), Some(Err(IRError::UnmatchedLoopEnd)));
    assert_eq!(ir.next(), None);
    let mut ir = "+++[---".iter_instruction();
    assert_eq!(ir.next(), Some(Ok(Instruction::Increment(3))));
    assert_eq!(ir.next(), Some(Err(IRError::UnmatchedLoopStart)));
    assert_eq!(ir.next(), None);
}

#[test]
fn two_hundred_fifty_six_fold_to_zero() {
    let program = vec![b'+'; 256];
    assert_eq!(
        collect_instructions(&program),
        vec![Ok(Instruction::Increment(0))]
    );
    let program = vec![b'-'; 256];
    assert_eq!(
        collect_instructions(&program),
        vec![Ok(Instruction::Decrement(0))]
    );
    let program = vec![b'-'; 255];
    assert_eq!(
        collect_instructions(&program),
        vec![Ok(Instruction::Decrement(255))]
    );
}

#[test]
fn moves_do_not_wrap_at_a_byte() {
    let program = vec![b'>'; 260];
    assert_eq!(
        collect_instructions(&program),
        vec![Ok(Instruction::MoveRight(260))]
    );
    let program = vec![b'<'; 1000];
    assert_eq!(
        collect_instructions(&program),
        vec![Ok(Instruction::MoveLeft(1000))]
    );
}

#[test]
fn run_of_one_is_counted_as_one() {
    assert_eq!(
        collect_instructions(b"+-<>"),
        vec![
            Ok(Instruction::Increment(1)),
            Ok(Instruction::Decrement(1)),
            Ok(Instruction::MoveLeft(1)),
            Ok(Instruction::MoveRight(1)),
        ]
    );
}

#[test]
fn comments_do_not_interrupt_a_run() {
    assert_eq!(
        collect_instructions(b"+ a + b\n+ - c -"),
        vec![Ok(Instruction::Increment(3)), Ok(Instruction::Decrement(2))]
    );
}

#[test]
fn output_and_input_are_not_folded() {
    assert_eq!(
        collect_instructions(b"..,,"),
        vec![
            Ok(Instruction::Output),
            Ok(Instruction::Output),
            Ok(Instruction::Input),
            Ok(Instruction::Input),
        ]
    );
}

#[test]
fn loop_body_is_the_text_between_the_brackets() {
    let program: &[u8] = b"a[b+c[d]e]f";
    let items = collect_instructions(program);
    assert_eq!(
        items,
        vec![Ok(Instruction::Loop(InstructionLoop::new(
            b"b+c[d]e".as_slice()
        )))]
    );
    let mut ir = program.iter_instruction();
    let Some(Ok(Instruction::Loop(body))) = ir.next() else {
        panic!("should be a loop");
    };
    assert_eq!(
        collect_instructions(body.program()),
        vec![
            Ok(Instruction::Increment(1)),
            Ok(Instruction::Loop(InstructionLoop::new(b"d".as_slice()))),
        ]
    );
}

#[test]
fn empty_loop_has_an_empty_body() {
    assert_eq!(
        collect_instructions(b"[]"),
        vec![Ok(Instruction::Loop(InstructionLoop::new(b"".as_slice())))]
    );
}

#[test]
fn empty_program_has_no_instruction() {
    assert_eq!(collect_instructions(b""), vec![]);
    assert_eq!(collect_instructions(b"no symbols here"), vec![]);
    assert_eq!(IntermediateRepresentation::new(b"").next(), None);
}

#[test]
fn unmatched_bracket_inside_a_body_shows_only_when_the_body_is_built() {
    // The first `]` closes the loop; the second stands outside of any loop.
    assert_eq!(
        collect_instructions(b"[+]]"),
        vec![
            Ok(Instruction::Loop(InstructionLoop::new(b"+".as_slice()))),
            Err(IRError::UnmatchedLoopEnd),
        ]
    );
    assert_eq!(
        collect_instructions(b"[[+]"),
        vec![Err(IRError::UnmatchedLoopStart)]
    );
}

#[test]
fn body_is_rebuilt_the_same_on_every_pass() {
    let mut ir = ">>[--->>[+]<.]".iter_instruction();
    assert_eq!(ir.next(), Some(Ok(Instruction::MoveRight(2))));
    let Some(Ok(Instruction::Loop(body))) = ir.next() else {
        panic!("should be a loop");
    };
    let first = collect_instructions(body.program());
    let second = collect_instructions(body.program());
    assert_eq!(first, second);
    let mut pass = body.into_iter();
    for item in &first {
        assert_eq!(pass.next().as_ref(), Some(item));
    }
    assert_eq!(pass.next(), None);
    assert_eq!(
        first,
        vec![
            Ok(Instruction::Decrement(3)),
            Ok(Instruction::MoveRight(2)),
            Ok(Instruction::Loop(InstructionLoop::new(b"+".as_slice()))),
            Ok(Instruction::MoveLeft(1)),
            Ok(Instruction::Output),
        ]
    );
}

/// Builds `program` and every loop body in it, and says whether a body held an error.
fn some_body_fails(program: &[u8], is_body: bool) -> bool {
    for item in collect_instructions(program) {
        match item {
            Ok(Instruction::Loop(body)) => {
                if some_body_fails(body.program(), true) {
                    return true;
                }
            }
            Ok(_) => {}
            Err(_) => {
                if is_body {
                    return true;
                }
            }
        }
    }
    false
}

#[test]
fn carved_bodies_build_without_error() {
    let programs: [&[u8]; 8] = [
        b"[]",
        b"[[[]]]",
        b"+[>[-]<[->+<]]]",
        b"][[+]-[.[,]]",
        b"[a[b]c[d[e]f]g]h[",
        b"[[]][][[][]]]]][[",
        b">>[--->>[+]<.]",
        b"++++++++[>++++[>++>+++>+++>+<<<<-]>+>+>->>+[<]<-]",
    ];
    for program in programs {
        assert!(!some_body_fails(program, false));
    }
}
