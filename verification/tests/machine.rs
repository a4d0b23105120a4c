use bfrs::collect::{CollectedAstNode, Execute};
use bfrs::machine::{wrap_add, Action, Fetched, Machine};
use bfrs::pipeline::compile;
use std::collections::VecDeque;

struct Outcome {
    output: Vec<u8>,
    last: Action,
    steps: usize,
    tape: Vec<u8>,
    pointer: isize,
}

fn run_machine(mut machine: Machine, input: &[u8], limit: usize) -> Outcome {
    let mut input = input.iter();
    let mut output = Vec::new();
    let mut steps = 0;
    let mut last = Action::Continue;
    while steps < limit {
        last = machine.step();
        steps += 1;
        match last {
            Action::Continue => {}
            Action::Output(byte) => output.push(byte),
            Action::Input => match input.next() {
                Some(byte) => assert!(machine.feed(*byte)),
                None => break,
            },
            Action::Halt | Action::OutOfRange => break,
        }
    }
    Outcome { output, last, steps, tape: machine.state().clone(), pointer: machine.pointer() }
}

fn run(source: &str, tape: Vec<u8>, input: &[u8]) -> Outcome {
    let program = compile(source.as_bytes(), 64, 0).unwrap();
    run_machine(program.execute(tape, 0), input, 1_000_000)
}

#[test]
fn end_to_end_counts_down_from_the_input() {
    let outcome = run(",[.-]", vec![0; 2048], &[3]);
    assert_eq!(outcome.output, vec![3, 2, 1]);
    assert_eq!(outcome.last, Action::Halt);
    assert_eq!(outcome.tape[0], 0);
}

#[test]
fn group_at_a_zero_cell_changes_nothing() {
    let program = compile(b"[+>.,<]", 64, 0).unwrap();
    let mut machine = program.execute(vec![0, 9, 9], 0);
    assert_eq!(machine.step(), Action::Continue);
    assert_eq!(machine.state(), &vec![0, 9, 9]);
    assert_eq!(machine.pointer(), 0);
    assert_eq!(machine.fetch(), Fetched::End);
    assert_eq!(machine.step(), Action::Halt);
    assert_eq!(machine.state(), &vec![0, 9, 9]);
    assert_eq!(machine.pointer(), 0);
}

#[test]
fn clear_cell_takes_as_many_rounds_as_the_cell_holds() {
    for value in 1..=255u8 {
        let program = compile(b"[-]", 64, 0).unwrap();
        let mut machine = program.execute(vec![7, value, 7], 1);
        let mut rounds = 0usize;
        assert_eq!(machine.step(), Action::Continue);
        loop {
            assert_eq!(machine.fetch(), Fetched::ModifyData(-1));
            assert_eq!(machine.step(), Action::Continue);
            rounds += 1;
            assert_eq!(machine.fetch(), Fetched::End);
            assert_eq!(machine.step(), Action::Continue);
            if machine.fetch() == Fetched::End {
                break;
            }
        }
        assert_eq!(rounds, value as usize);
        assert_eq!(machine.state(), &vec![7, 0, 7]);
        assert_eq!(machine.pointer(), 1);
        assert_eq!(machine.step(), Action::Halt);
    }
}

#[test]
fn clear_cell_step_count() {
    let outcome = run("[-]", vec![5], &[]);
    assert_eq!(outcome.steps, 1 + 2 * 5 + 1);
    assert_eq!(outcome.last, Action::Halt);
    assert_eq!(outcome.tape, vec![0]);
    assert_eq!(outcome.pointer, 0);
}

#[test]
fn top_level_runs_once_even_at_a_zero_cell() {
    let outcome = run("+.", vec![0; 4], &[]);
    assert_eq!(outcome.output, vec![1]);
    assert_eq!(outcome.last, Action::Halt);
}

#[test]
fn empty_program_halts_at_once() {
    let outcome = run("", vec![0; 4], &[]);
    assert_eq!(outcome.steps, 1);
    assert_eq!(outcome.last, Action::Halt);
    assert_eq!(outcome.tape, vec![0; 4]);
}

#[test]
fn cells_wrap_around() {
    assert_eq!(run("-", vec![0], &[]).tape, vec![255]);
    assert_eq!(run("+", vec![255], &[]).tape, vec![0]);
    assert_eq!(run("++++", vec![254], &[]).tape, vec![2]);
}

#[test]
fn wrap_add_is_addition_modulo_256() {
    assert_eq!(wrap_add(0, 0), 0);
    assert_eq!(wrap_add(250, 10), 4);
    assert_eq!(wrap_add(3, -5), 254);
    assert_eq!(wrap_add(7, 256), 7);
    assert_eq!(wrap_add(7, -256), 7);
    assert_eq!(wrap_add(7, 1000), 239);
    assert_eq!(wrap_add(7, -1000), 31);
    assert_eq!(wrap_add(0, isize::MAX), 255);
    assert_eq!(wrap_add(0, isize::MIN), 0);
}

#[test]
fn pointer_below_the_tape_is_out_of_range() {
    let outcome = run("<+", vec![0; 4], &[]);
    assert_eq!(outcome.last, Action::OutOfRange);
    assert_eq!(outcome.tape, vec![0; 4]);
    assert_eq!(outcome.pointer, -1);
}

#[test]
fn pointer_above_the_tape_is_out_of_range() {
    let outcome = run(">>.", vec![0; 2], &[]);
    assert_eq!(outcome.last, Action::OutOfRange);
    assert_eq!(outcome.output, Vec::<u8>::new());
}

#[test]
fn pointer_may_leave_the_tape_while_no_cell_is_used() {
    let outcome = run("<+->+", vec![0; 2], &[]);
    assert_eq!(outcome.last, Action::Halt);
    assert_eq!(outcome.tape, vec![1, 0]);
    let outcome = run("<,>+", vec![0; 2], &[1]);
    assert_eq!(outcome.last, Action::OutOfRange);
    let program = VecDeque::from(vec![
        CollectedAstNode::ModifyPointer { offset: -3 },
        CollectedAstNode::ModifyPointer { offset: 4 },
        CollectedAstNode::ModifyData { new_data: 2 },
    ]);
    let outcome = run_machine(program.execute(vec![0; 2], 0), &[], 100);
    assert_eq!(outcome.last, Action::Halt);
    assert_eq!(outcome.tape, vec![0, 2]);
}

#[test]
fn pointer_that_cannot_be_held_is_out_of_range() {
    let program = VecDeque::from(vec![CollectedAstNode::ModifyPointer { offset: isize::MAX }]);
    let outcome = run_machine(program.execute(vec![0; 2], 1), &[], 100);
    assert_eq!(outcome.last, Action::OutOfRange);
    assert_eq!(outcome.pointer, 1);
}

#[test]
fn group_end_outside_the_tape_is_out_of_range() {
    let outcome = run("+[>]", vec![0; 1], &[]);
    assert_eq!(outcome.last, Action::OutOfRange);
}

#[test]
fn modify_data_offset_writes_beside_the_pointer() {
    let program = VecDeque::from(vec![
        CollectedAstNode::ModifyDataOffset { new_data: 3, offset: 2 },
        CollectedAstNode::ModifyDataOffset { new_data: -1, offset: -1 },
    ]);
    let mut machine = program.execute(vec![0, 0, 0, 0], 1);
    assert_eq!(machine.fetch(), Fetched::ModifyDataOffset(3, 2));
    assert_eq!(machine.step(), Action::Continue);
    assert_eq!(machine.step(), Action::Continue);
    assert_eq!(machine.step(), Action::Halt);
    assert_eq!(machine.state(), &vec![255, 0, 0, 3]);
    assert_eq!(machine.pointer(), 1);
}

#[test]
fn modify_data_offset_outside_the_tape_is_out_of_range() {
    let program =
        VecDeque::from(vec![CollectedAstNode::ModifyDataOffset { new_data: 3, offset: 5 }]);
    let outcome = run_machine(program.execute(vec![0; 4], 1), &[], 100);
    assert_eq!(outcome.last, Action::OutOfRange);
    let program = VecDeque::from(vec![CollectedAstNode::ModifyDataOffset {
        new_data: 3,
        offset: isize::MAX,
    }]);
    let outcome = run_machine(program.execute(vec![0; 4], isize::MAX), &[], 100);
    assert_eq!(outcome.last, Action::OutOfRange);
}

#[test]
fn input_waits_until_it_is_fed() {
    let program = compile(b",.", 64, 0).unwrap();
    let mut machine = program.execute(vec![0; 2], 0);
    assert_eq!(machine.step(), Action::Input);
    assert_eq!(machine.step(), Action::Input);
    assert_eq!(machine.state(), &vec![0, 0]);
    assert!(machine.feed(65));
    assert_eq!(machine.state(), &vec![65, 0]);
    assert_eq!(machine.step(), Action::Output(65));
    assert_eq!(machine.step(), Action::Halt);
}

#[test]
fn feed_is_refused_where_no_input_waits() {
    let program = compile(b"+,", 64, 0).unwrap();
    let mut machine = program.execute(vec![0; 2], 0);
    assert!(!machine.feed(9));
    assert_eq!(machine.state(), &vec![0, 0]);
    assert_eq!(machine.step(), Action::Continue);
    assert!(machine.feed(9));
    assert_eq!(machine.state(), &vec![9, 0]);
    assert!(!machine.feed(9));
    assert_eq!(machine.step(), Action::Halt);
}

#[test]
fn feed_is_refused_outside_the_tape() {
    let program = compile(b"<,", 64, 0).unwrap();
    let mut machine = program.execute(vec![0; 2], 0);
    assert_eq!(machine.step(), Action::Continue);
    assert_eq!(machine.step(), Action::OutOfRange);
    assert!(!machine.feed(9));
    assert_eq!(machine.state(), &vec![0, 0]);
}

#[test]
fn halted_machine_stays_halted() {
    let program = compile(b"+", 64, 0).unwrap();
    let mut machine = program.execute(vec![0], 0);
    assert_eq!(machine.step(), Action::Continue);
    assert_eq!(machine.step(), Action::Halt);
    assert_eq!(machine.step(), Action::Halt);
    assert_eq!(machine.state(), &vec![1]);
}

#[test]
fn nested_loops_multiply() {
    let outcome = run("+++[>++++[>++<-]<-]>>.", vec![0; 8], &[]);
    assert_eq!(outcome.output, vec![24]);
    assert_eq!(outcome.last, Action::Halt);
    assert_eq!(outcome.tape[..3], [0, 0, 24]);
    assert_eq!(outcome.pointer, 2);
}

#[test]
fn echo_until_zero() {
    let outcome = run(",[.,]", vec![0; 2], &[104, 105, 0]);
    assert_eq!(outcome.output, vec![104, 105]);
    assert_eq!(outcome.last, Action::Halt);
}

#[test]
fn a_group_node_runs_its_body_once() {
    let body = CollectedAstNode::Group {
        contents: VecDeque::from(vec![
            CollectedAstNode::ModifyData { new_data: 2 },
            CollectedAstNode::Output,
        ]),
    };
    let outcome = run_machine(body.execute(vec![0], 0), &[], 100);
    assert_eq!(outcome.output, vec![2]);
    assert_eq!(outcome.last, Action::Halt);
}

#[test]
fn machine_new_starts_at_the_first_instruction() {
    let program = VecDeque::from(vec![CollectedAstNode::Output]);
    let mut machine = Machine::new(program, vec![42], 0);
    assert_eq!(machine.fetch(), Fetched::Output);
    assert_eq!(machine.step(), Action::Output(42));
    assert_eq!(machine.fetch(), Fetched::End);
}
