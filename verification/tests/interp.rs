use brainfuck::compile::{compile, Instruction};
use brainfuck::interp::{add_to_cell, interpret, Effect, Machine, Outcome};
use brainfuck::optimize::optimize;
use brainfuck::parse::Expr;
use brainfuck::{run, build};
use brainfuck::parse::ParseError;

#[test]
fn fresh_machine() {
    let m = Machine::new();
    assert_eq!(0, m.ip);
    assert_eq!(0, m.pos);
    assert_eq!(vec![0u8; 512], m.tape);
}

#[test]
fn cell_arithmetic_wraps() {
    assert_eq!(0, add_to_cell(255, 1));
    assert_eq!(255, add_to_cell(0, -1));
    assert_eq!(3, add_to_cell(0, 3));
    assert_eq!(44, add_to_cell(200, 100));
    assert_eq!(156, add_to_cell(0, -100));
    assert_eq!(7, add_to_cell(7, 256));
    assert_eq!(7, add_to_cell(7, -512));
    assert_eq!(254, add_to_cell(255, i32::MAX));
    assert_eq!(255, add_to_cell(255, i32::MIN));
}

#[test]
fn add_wraps_in_a_run() {
    let up = interpret(&[Instruction::Add(255), Instruction::Add(1)], &[], 10);
    assert_eq!(Outcome::Halted, up.outcome);
    assert_eq!(0, up.machine.tape[0]);
    let down = interpret(&[Instruction::Add(-1)], &[], 10);
    assert_eq!(255, down.machine.tape[0]);
}

#[test]
fn loop_that_decrements_outputs_once() {
    let tree = vec![
        Expr::Add(1),
        Expr::Loop(vec![Expr::Output, Expr::Add(-1)]),
    ];
    let plain = interpret(&compile(&tree, 0), &[], 1000);
    assert_eq!(Outcome::Halted, plain.outcome);
    assert_eq!(vec![1u8], plain.output);
    let better = interpret(&compile(&optimize(&tree), 0), &[], 1000);
    assert_eq!(Outcome::Halted, better.outcome);
    assert_eq!(vec![1u8], better.output);
}

#[test]
fn loop_that_only_outputs_never_ends() {
    let tree = vec![Expr::Add(1), Expr::Loop(vec![Expr::Output])];
    let run = interpret(&compile(&tree, 0), &[], 10);
    assert_eq!(Outcome::OutOfSteps, run.outcome);
    assert_eq!(vec![1u8, 1, 1], run.output);
    assert_eq!(1, run.machine.tape[0]);
}

#[test]
fn three_adds_leave_three() {
    let tree = vec![Expr::Add(1), Expr::Add(1), Expr::Add(1)];
    let better = optimize(&tree);
    assert_eq!(vec![Expr::Add(3)], better);
    let run = interpret(&compile(&better, 0), &[], 100);
    assert_eq!(Outcome::Halted, run.outcome);
    assert_eq!(3, run.machine.tape[0]);
    assert_eq!(1, run.machine.ip);
    assert_eq!(0, run.consumed);
    assert!(run.output.is_empty());
}

#[test]
fn empty_loop_on_zero_cell_is_skipped() {
    let code = compile(&[Expr::Loop(vec![])], 0);
    assert_eq!(vec![Instruction::JmpEq(2), Instruction::JmpNEq(0)], code);
    let mut m = Machine::new();
    assert_eq!(Effect::Stepped, m.step(&code, None));
    assert_eq!(2, m.ip);
    assert_eq!(Effect::Halted, m.step(&code, None));
    assert_eq!(2, m.ip);
    let run = interpret(&code, &[], 100);
    assert_eq!(Outcome::Halted, run.outcome);
    assert_eq!(2, run.machine.ip);
}

#[test]
fn empty_loop_on_nonzero_cell_spins() {
    let code = compile(&[Expr::Add(1), Expr::Loop(vec![])], 0);
    let mut m = Machine::new();
    assert_eq!(Effect::Stepped, m.step(&code, None));
    assert_eq!(Effect::Stepped, m.step(&code, None));
    assert_eq!(2, m.ip);
    assert_eq!(Effect::Stepped, m.step(&code, None));
    assert_eq!(1, m.ip);
    assert_eq!(Effect::Stepped, m.step(&code, None));
    assert_eq!(2, m.ip);
    assert_eq!(Outcome::OutOfSteps, interpret(&code, &[], 1000).outcome);
}

#[test]
fn input_on_exhausted_stream_is_fatal() {
    let run = interpret(&[Instruction::Input], &[], 100);
    assert_eq!(Outcome::InputExhausted, run.outcome);
    assert!(run.output.is_empty());
    assert_eq!(0, run.machine.ip);
    let run = interpret(
        &[
            Instruction::Input,
            Instruction::Output,
            Instruction::Input,
            Instruction::Output,
        ],
        &[65],
        100,
    );
    assert_eq!(Outcome::InputExhausted, run.outcome);
    assert_eq!(vec![65u8], run.output);
    assert_eq!(1, run.consumed);
    assert_eq!(2, run.machine.ip);
    assert_eq!(
        Outcome::InputExhausted,
        interpret(&[Instruction::Input], &[], 0).outcome
    );
}

#[test]
fn input_is_read_byte_by_byte() {
    let code = build(",[.,]").unwrap();
    let run = interpret(&code, b"abc", 1000);
    assert_eq!(Outcome::InputExhausted, run.outcome);
    assert_eq!(b"abc".to_vec(), run.output);
    assert_eq!(3, run.consumed);
    let run = interpret(&code, &[7, 0, 9], 1000);
    assert_eq!(Outcome::Halted, run.outcome);
    assert_eq!(vec![7u8], run.output);
    assert_eq!(2, run.consumed);
}

#[test]
fn step_effects() {
    let code = vec![
        Instruction::Add(72),
        Instruction::Output,
        Instruction::Input,
        Instruction::Move(1),
    ];
    let mut m = Machine::new();
    assert_eq!(Effect::Stepped, m.step(&code, Some(9)));
    assert_eq!(Effect::Output(72), m.step(&code, Some(9)));
    assert_eq!(Effect::NeedInput, m.step(&code, None));
    assert_eq!(2, m.ip);
    assert_eq!(72, m.tape[0]);
    assert_eq!(Effect::Consumed, m.step(&code, Some(9)));
    assert_eq!(9, m.tape[0]);
    assert_eq!(Effect::Stepped, m.step(&code, None));
    assert_eq!(1, m.pos);
    assert_eq!(Effect::Halted, m.step(&code, Some(1)));
    assert_eq!(4, m.ip);
    assert_eq!(512, m.tape.len());
}

#[test]
fn jumps_go_to_their_targets() {
    let code = vec![
        Instruction::JmpNEq(7),
        Instruction::JmpEq(3),
        Instruction::Output,
        Instruction::Add(1),
        Instruction::JmpEq(0),
        Instruction::JmpNEq(9),
    ];
    let mut m = Machine::new();
    m.step(&code, None);
    assert_eq!(1, m.ip);
    m.step(&code, None);
    assert_eq!(3, m.ip);
    m.step(&code, None);
    m.step(&code, None);
    assert_eq!(5, m.ip);
    m.step(&code, None);
    assert_eq!(9, m.ip);
    assert_eq!(Effect::Halted, m.step(&code, None));
}

#[test]
fn tape_grows_in_blocks_and_keeps_its_cells() {
    let mut m = Machine::new();
    m.tape[0] = 11;
    m.tape[511] = 22;
    m.pos = 511;
    m.reserve();
    assert_eq!(512, m.tape.len());
    m.pos = 512;
    m.reserve();
    assert_eq!(522, m.tape.len());
    m.pos = 540;
    m.reserve();
    assert_eq!(542, m.tape.len());
    m.pos = 541;
    m.reserve();
    assert_eq!(542, m.tape.len());
    m.pos = 542;
    m.reserve();
    assert_eq!(552, m.tape.len());
    m.pos = -1;
    m.reserve();
    assert_eq!(552, m.tape.len());
    m.pos = 542;
    assert_eq!(11, m.tape[0]);
    assert_eq!(22, m.tape[511]);
    assert!(m.tape[512..].iter().all(|&c| c == 0));
    assert_eq!(542, m.pos);
}

#[test]
fn access_beyond_the_tape_grows_it() {
    let code = vec![
        Instruction::Add(5),
        Instruction::Move(600),
        Instruction::Add(7),
        Instruction::Move(-600),
        Instruction::Output,
    ];
    let run = interpret(&code, &[], 100);
    assert_eq!(Outcome::Halted, run.outcome);
    assert_eq!(vec![5u8], run.output);
    assert_eq!(602, run.machine.tape.len());
    assert_eq!(5, run.machine.tape[0]);
    assert_eq!(7, run.machine.tape[600]);
    assert_eq!(0, run.machine.pos);
}

#[test]
fn moves_do_not_touch_the_tape() {
    let code = vec![Instruction::Move(100_000), Instruction::Move(-100_000)];
    let run = interpret(&code, &[], 100);
    assert_eq!(Outcome::Halted, run.outcome);
    assert_eq!(512, run.machine.tape.len());
    assert_eq!(0, run.machine.pos);
}

#[test]
fn position_wraps_around() {
    let mut m = Machine::new();
    let code = vec![
        Instruction::Move(-1),
        Instruction::Move(3),
        Instruction::Move(i32::MAX),
        Instruction::Move(i32::MIN),
    ];
    m.step(&code, None);
    assert_eq!(-1, m.pos);
    m.step(&code, None);
    assert_eq!(2, m.pos);
    m.step(&code, None);
    assert_eq!(i32::MIN + 1, m.pos);
    m.step(&code, None);
    assert_eq!(1, m.pos);
    assert_eq!(512, m.tape.len());
}

#[test]
fn access_left_of_the_tape_is_fatal() {
    let code = vec![Instruction::Add(1), Instruction::Move(-1), Instruction::Output];
    let mut m = Machine::new();
    m.step(&code, None);
    m.step(&code, None);
    assert_eq!(Effect::OutOfBounds, m.step(&code, None));
    assert_eq!(Effect::OutOfBounds, m.step(&code, Some(1)));
    assert_eq!(2, m.ip);
    assert_eq!(-1, m.pos);
    assert_eq!(512, m.tape.len());
    let run = interpret(&code, &[], 100);
    assert_eq!(Outcome::OutOfBounds, run.outcome);
    assert!(run.output.is_empty());
    for ins in [
        Instruction::Add(1),
        Instruction::Output,
        Instruction::Input,
        Instruction::JmpEq(0),
        Instruction::JmpNEq(0),
    ] {
        let run = interpret(&[Instruction::Move(-3), ins], &[5], 100);
        assert_eq!(Outcome::OutOfBounds, run.outcome);
        assert_eq!(1, run.machine.ip);
        assert_eq!(0, run.consumed);
    }
    assert_eq!(
        Outcome::OutOfSteps,
        interpret(&[Instruction::Move(-1), Instruction::Input], &[], 0).outcome
    );
    assert_eq!(
        Outcome::OutOfBounds,
        interpret(&[Instruction::Move(-1), Instruction::Input], &[], 1).outcome
    );
}

#[test]
fn a_visit_left_of_the_tape_is_harmless() {
    let code = vec![
        Instruction::Move(-5),
        Instruction::Move(5),
        Instruction::Add(2),
        Instruction::Output,
    ];
    let run = interpret(&code, &[], 100);
    assert_eq!(Outcome::Halted, run.outcome);
    assert_eq!(vec![2u8], run.output);
}

#[test]
fn step_limit() {
    let code = vec![Instruction::Add(1), Instruction::Add(1), Instruction::Output];
    let run = interpret(&code, &[], 2);
    assert_eq!(Outcome::OutOfSteps, run.outcome);
    assert_eq!(2, run.machine.ip);
    assert!(run.output.is_empty());
    let run = interpret(&code, &[], 3);
    assert_eq!(Outcome::Halted, run.outcome);
    assert_eq!(vec![2u8], run.output);
    assert_eq!(Outcome::Halted, interpret(&[], &[], 0).outcome);
    assert_eq!(Outcome::OutOfSteps, interpret(&code, &[], 0).outcome);
}

#[test]
fn optimized_and_plain_programs_output_the_same() {
    let sources = [
        "++++++++[>++++[>++>+++>+++>+<<<<-]>+>+>->>+[<]<-]>>.>---.+++++++..+++.>>.<-.<.+++.------.--------.>>+.>++.",
        ",[>+<-]>.",
        "+>+-<[.-]",
        "<+>><[-]",
        ",>,<[->+<]>.",
        "+++[>+++[>+<-]<-]>>.",
    ];
    let inputs: [&[u8]; 3] = [&[], &[3], &[200, 100, 7]];
    for source in sources {
        let tokens = brainfuck::lex::tokenize(source);
        let tree = brainfuck::parse::parse(&tokens).unwrap();
        let plain = compile(&tree, 0);
        let better = compile(&optimize(&tree), 0);
        assert!(better.len() <= plain.len());
        for input in inputs {
            let a = interpret(&plain, input, 1_000_000);
            let b = interpret(&better, input, 1_000_000);
            assert_ne!(Outcome::OutOfSteps, a.outcome);
            assert_ne!(Outcome::OutOfSteps, b.outcome);
            assert_eq!(a.outcome, b.outcome);
            assert_eq!(a.output, b.output);
            assert_eq!(a.consumed, b.consumed);
        }
    }
}

#[test]
fn optimizing_can_remove_a_failing_access() {
    let tree = vec![
        Expr::Move(-1),
        Expr::Add(1),
        Expr::Add(-1),
        Expr::Move(1),
        Expr::Output,
    ];
    let plain = interpret(&compile(&tree, 0), &[], 100);
    assert_eq!(Outcome::OutOfBounds, plain.outcome);
    assert!(plain.output.is_empty());
    let better = optimize(&tree);
    assert_eq!(vec![Expr::Move(-1), Expr::Move(1), Expr::Output], better);
    let better = interpret(&compile(&better, 0), &[], 100);
    assert_eq!(Outcome::Halted, better.outcome);
    assert_eq!(vec![0u8], better.output);
}

#[test]
fn hello_world() {
    let source = "++++++++[>++++[>++>+++>+++>+<<<<-]>+>+>->>+[<]<-]>>.>---.+++++++..+++.>>.<-.<.+++.------.--------.>>+.>++.";
    let run = run(source, &[], 100_000).unwrap();
    assert_eq!(Outcome::Halted, run.outcome);
    assert_eq!(b"Hello World!\n".to_vec(), run.output);
}

#[test]
fn build_optimizes() {
    assert_eq!(
        Ok(vec![
            Instruction::Add(3),
            Instruction::JmpEq(5),
            Instruction::Move(2),
            Instruction::Add(-1),
            Instruction::JmpNEq(1),
            Instruction::Output,
        ]),
        build("+++ [ >> +-- ] <> .")
    );
    assert_eq!(Ok(vec![]), build("just words"));
}

#[test]
fn unbalanced_sources_are_refused() {
    assert_eq!(Err(ParseError::UnmatchedBracket), build("+[").map(|_| ()));
    assert_eq!(Err(ParseError::UnmatchedBracket), build("]+[").map(|_| ()));
    assert!(run("[[]", &[], 10).is_err());
}
