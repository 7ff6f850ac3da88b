use brainfuck::machine::{Fault, Machine, TAPE_LEN};
use brainfuck::syntax::{Operation, Program};

const FUEL: u64 = 1_000_000;

fn output_of(source: &str, input: Vec<u8>) -> Vec<u8> {
    let program = Program::parse(source).unwrap();
    let machine = program.run(input, FUEL).expect("program should run");
    machine.output().clone()
}

#[test]
fn hello_world() {
    let source = "++++++++[>++++[>++>+++>+++>+<<<<-]>+>+>->>+[<]<-]>>.>---.+++++++..+++.>>.<-.<.+++.------.--------.>>+.>++.";
    assert_eq!(output_of(source, Vec::new()), b"Hello World!\n".to_vec());
}

#[test]
fn read_then_write_once() {
    let program = Program::new(vec![Operation::ReadByte, Operation::WriteByte]);
    let machine = program.run(vec![0x41], FUEL).unwrap();
    assert_eq!(machine.output().clone(), vec![0x41]);
    assert_eq!(machine.cells()[0], 0x41);
    assert_eq!(machine.pointer(), 0);
}

#[test]
fn loop_on_zero_is_skipped() {
    assert_eq!(output_of("[+.]>+.", Vec::new()), vec![1]);
    let machine = Program::parse("[+]").unwrap().run(Vec::new(), 0).unwrap();
    assert_eq!(machine.cells()[0], 0);
}

#[test]
fn loop_runs_until_zero() {
    assert_eq!(output_of("+++[>++<-]>.", Vec::new()), vec![6]);
}

#[test]
fn increment_wraps_to_zero() {
    let source = format!("{}.+.", "+".repeat(255));
    assert_eq!(output_of(&source, Vec::new()), vec![255, 0]);
}

#[test]
fn decrement_wraps_to_255() {
    assert_eq!(output_of("-.", Vec::new()), vec![255]);
}

#[test]
fn increments_256_times_unchanged() {
    let source = format!("+++{}.", "+".repeat(256));
    assert_eq!(output_of(&source, Vec::new()), vec![3]);
}

#[test]
fn fresh_machine() {
    let machine = Machine::new(vec![1, 2]);
    assert_eq!(machine.cells().len(), TAPE_LEN);
    assert!(machine.cells().iter().all(|c| *c == 0));
    assert_eq!(machine.pointer(), 0);
    assert!(machine.output().is_empty());
}

#[test]
fn reads_input_in_order() {
    assert_eq!(output_of(",>,<.>.", vec![7, 9]), vec![7, 9]);
}

#[test]
fn end_of_input_is_a_fault() {
    let program = Program::parse(",.,").unwrap();
    assert_eq!(program.run(vec![5], FUEL).err(), Some(Fault::EndOfInput));
    assert_eq!(program.run(Vec::new(), FUEL).err(), Some(Fault::EndOfInput));
}

#[test]
fn pointer_below_zero_is_a_fault_on_access() {
    let program = Program::parse("<+").unwrap();
    assert_eq!(program.run(Vec::new(), FUEL).err(), Some(Fault::PointerOutOfRange));
}

#[test]
fn pointer_wraps_at_full_width() {
    let machine = Program::parse("<").unwrap().run(Vec::new(), FUEL).unwrap();
    assert_eq!(machine.pointer(), usize::MAX);
    assert_eq!(output_of("<>+.", Vec::new()), vec![1]);
}

#[test]
fn pointer_past_tape_end_is_a_fault() {
    let source = format!("{}+", ">".repeat(TAPE_LEN));
    let program = Program::parse(&source).unwrap();
    assert_eq!(program.run(Vec::new(), FUEL).err(), Some(Fault::PointerOutOfRange));
    let last = format!("{}+.", ">".repeat(TAPE_LEN - 1));
    assert_eq!(output_of(&last, Vec::new()), vec![1]);
}

#[test]
fn endless_loop_runs_out_of_fuel() {
    let program = Program::parse("+[]").unwrap();
    assert_eq!(program.run(Vec::new(), 100).err(), Some(Fault::OutOfFuel));
}

#[test]
fn fuel_bounds_loop_passes() {
    let program = Program::parse("+++[-]").unwrap();
    assert_eq!(program.run(Vec::new(), 2).err(), Some(Fault::OutOfFuel));
    let machine = program.run(Vec::new(), 3).unwrap();
    assert_eq!(machine.cells()[0], 0);
}

#[test]
fn execute_continues_on_same_machine() {
    let mut machine = Machine::new(vec![3]);
    let first = Program::parse(",").unwrap();
    let second = Program::parse("[->+<]>.").unwrap();
    assert_eq!(machine.execute(&first.ops, FUEL), Ok(()));
    assert_eq!(machine.execute(&second.ops, FUEL), Ok(()));
    assert_eq!(machine.output().clone(), vec![3]);
    assert_eq!(machine.pointer(), 1);
}
