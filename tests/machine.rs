use intcode::fault::Fault;
use intcode::machine::{InputType, Machine, Stop};

fn run_program(program: Vec<i64>) -> Machine {
    let (_, mut m) = Machine::new(program);
    m.execute().unwrap();
    m
}

#[test]
fn it_handles_test_cases() {
    let m = run_program(vec![1, 9, 10, 3, 2, 3, 11, 0, 99, 30, 40, 50]);
    assert!(*m.memory() == vec![3500, 9, 10, 70, 2, 3, 11, 0, 99, 30, 40, 50]);

    let m = run_program(vec![1, 0, 0, 0, 99]);
    assert!(*m.memory() == vec![2, 0, 0, 0, 99]);

    let m = run_program(vec![2, 3, 0, 3, 99]);
    assert!(*m.memory() == vec![2, 3, 0, 6, 99]);

    let m = run_program(vec![2, 4, 4, 5, 99, 0]);
    assert!(*m.memory() == vec![2, 4, 4, 5, 99, 9801]);

    let m = run_program(vec![1, 1, 1, 4, 99, 5, 6, 0, 99]);
    assert!(*m.memory() == vec![30, 1, 1, 4, 2, 5, 6, 0, 99]);
}

#[test]
fn it_handles_input_instr_opcode_3() {
    let (_, mut m) = Machine::new(vec![3, 0, 99]);
    m.set_input_string("50".to_string());
    m.execute().unwrap();
    assert_eq!(*m.memory(), vec![50, 0, 99]);
}

#[test]
fn it_supports_large_numbers() {
    let (rx, mut m) = Machine::new(vec![104, 1125899906842624, 99]);
    m.execute().unwrap();

    assert_eq!(rx.recv().unwrap(), 1125899906842624);
}

#[test]
fn large_number_is_the_only_output() {
    let m = run_program(vec![104, 1125899906842624, 99]);
    assert_eq!(*m.get_output(), vec![1125899906842624]);
}

#[test]
fn immediate_mode_multiply() {
    let m = run_program(vec![1002, 4, 3, 4, 33]);
    assert_eq!(*m.memory(), vec![1002, 4, 3, 4, 99]);
}

#[test]
fn negative_operands_in_immediate_mode() {
    let m = run_program(vec![1101, 100, -1, 4, 0]);
    assert_eq!(*m.memory(), vec![1101, 100, -1, 4, 99]);
}

fn outputs_for(program: &[i64], input: i64) -> Vec<i64> {
    let (_, mut m) = Machine::new(program.to_vec());
    m.set_input(InputType::Value(input));
    m.execute().unwrap();
    m.get_output().clone()
}

#[test]
fn equals_eight_in_position_mode() {
    let p = [3, 9, 8, 9, 10, 9, 4, 9, 99, -1, 8];
    assert_eq!(outputs_for(&p, 8), vec![1]);
    assert_eq!(outputs_for(&p, 7), vec![0]);
    assert_eq!(outputs_for(&p, -8), vec![0]);
}

#[test]
fn less_than_eight_in_position_mode() {
    let p = [3, 9, 7, 9, 10, 9, 4, 9, 99, -1, 8];
    assert_eq!(outputs_for(&p, 7), vec![1]);
    assert_eq!(outputs_for(&p, 8), vec![0]);
}

#[test]
fn equals_and_less_than_in_immediate_mode() {
    let eq = [3, 3, 1108, -1, 8, 3, 4, 3, 99];
    assert_eq!(outputs_for(&eq, 8), vec![1]);
    assert_eq!(outputs_for(&eq, 9), vec![0]);
    let lt = [3, 3, 1107, -1, 8, 3, 4, 3, 99];
    assert_eq!(outputs_for(&lt, 3), vec![1]);
    assert_eq!(outputs_for(&lt, 8), vec![0]);
}

#[test]
fn jumps_test_for_zero() {
    let pos = [3, 12, 6, 12, 15, 1, 13, 14, 13, 4, 13, 99, -1, 0, 1, 9];
    assert_eq!(outputs_for(&pos, 0), vec![0]);
    assert_eq!(outputs_for(&pos, 5), vec![1]);
    let imm = [3, 3, 1105, -1, 9, 1101, 0, 0, 12, 4, 12, 99, 1];
    assert_eq!(outputs_for(&imm, 0), vec![0]);
    assert_eq!(outputs_for(&imm, -3), vec![1]);
}

#[test]
fn compares_with_eight_using_every_opcode() {
    let p = [
        3, 21, 1008, 21, 8, 20, 1005, 20, 22, 107, 8, 21, 20, 1006, 20, 31, 1106, 0, 36, 98, 0, 0,
        1002, 21, 125, 20, 4, 20, 1105, 1, 46, 104, 999, 1105, 1, 46, 1101, 1000, 1, 20, 4, 20,
        1105, 1, 46, 98, 99,
    ];
    assert_eq!(outputs_for(&p, 7), vec![999]);
    assert_eq!(outputs_for(&p, 8), vec![1000]);
    assert_eq!(outputs_for(&p, 9), vec![1001]);
}

#[test]
fn text_input_reads_tokens_in_order() {
    let (_, mut m) = Machine::new(vec![3, 0, 3, 1, 99]);
    m.set_input_string(" 12\n  -7 \n".to_string());
    m.execute().unwrap();
    assert_eq!(*m.memory(), vec![12, -7, 3, 1, 99]);
}

#[test]
fn sources_are_read_front_first() {
    let (_, mut m) = Machine::new(vec![3, 0, 3, 1, 3, 2, 99]);
    m.set_input_string("5".to_string());
    m.set_input(InputType::Value(6));
    m.set_input_string("\n7\n".to_string());
    m.execute().unwrap();
    assert_eq!(*m.memory(), vec![5, 6, 7, 1, 3, 2, 99]);
}

#[test]
fn channel_source_feeds_input() {
    let (rx, mut a) = Machine::new(vec![104, 41, 104, 42, 99]);
    a.execute().unwrap();
    let (_, mut b) = Machine::new(vec![3, 0, 3, 1, 99]);
    b.set_input(InputType::IntReceiver(rx));
    b.execute().unwrap();
    assert_eq!(*b.memory(), vec![41, 42, 3, 1, 99]);
}

#[test]
fn closed_channel_is_a_fault() {
    let (rx, mut a) = Machine::new(vec![99]);
    a.execute().unwrap();
    let (_, mut b) = Machine::new(vec![3, 0, 99]);
    b.set_input(InputType::IntReceiver(rx));
    assert_eq!(b.execute(), Err(Fault::ChannelClosed));
}

#[test]
fn missing_input_is_exhausted() {
    let (_, mut m) = Machine::new(vec![3, 0, 99]);
    assert_eq!(m.execute(), Err(Fault::InputExhausted));
    let (_, mut m) = Machine::new(vec![3, 0, 3, 0, 99]);
    m.set_input_string("1 ".to_string());
    assert_eq!(m.execute(), Err(Fault::InputExhausted));
    assert_eq!(*m.memory(), vec![1, 0, 3, 0, 99]);
}

#[test]
fn malformed_text_is_a_fault() {
    let (_, mut m) = Machine::new(vec![3, 0, 99]);
    m.set_input_string("5x".to_string());
    assert_eq!(m.execute(), Err(Fault::MalformedInput));
    let (_, mut m) = Machine::new(vec![3, 0, 99]);
    m.set_input_string("9223372036854775808".to_string());
    assert_eq!(m.execute(), Err(Fault::MalformedInput));
    let (_, mut m) = Machine::new(vec![3, 0, 99]);
    m.set_input_string("-9223372036854775808".to_string());
    m.execute().unwrap();
    assert_eq!(m.peek(0), Ok(i64::MIN));
}

#[test]
fn out_of_bounds_access_is_a_memory_fault() {
    let (_, mut m) = Machine::new(vec![1, 100, 0, 0, 99]);
    assert_eq!(m.execute(), Err(Fault::MemoryFault));
    let (_, mut m) = Machine::new(vec![1105, 1, -1]);
    assert_eq!(m.execute(), Err(Fault::MemoryFault));
    let (_, mut m) = Machine::new(vec![1101, 1, 1, 7, 99]);
    assert_eq!(m.execute(), Err(Fault::MemoryFault));
    let (_, m) = Machine::new(vec![99]);
    assert_eq!(m.peek(1), Err(Fault::MemoryFault));
    assert_eq!(m.peek(-1), Err(Fault::MemoryFault));
}

#[test]
fn unknown_opcode_is_invalid() {
    let (_, mut m) = Machine::new(vec![98]);
    assert_eq!(m.execute(), Err(Fault::InvalidOpcode));
    let (_, mut m) = Machine::new(vec![10199]);
    assert_eq!(m.execute(), Err(Fault::InvalidOpcode));
    let (_, mut m) = Machine::new(vec![201, 0, 0, 0, 99]);
    assert_eq!(m.execute(), Err(Fault::InvalidOpcode));
    let (_, mut m) = Machine::new(vec![-1]);
    assert_eq!(m.execute(), Err(Fault::InvalidOpcode));
}

#[test]
fn overflow_is_a_fault() {
    let (_, mut m) = Machine::new(vec![1101, i64::MAX, 1, 0, 99]);
    assert_eq!(m.execute(), Err(Fault::Overflow));
    let (_, mut m) = Machine::new(vec![1102, i64::MAX, 2, 0, 99]);
    assert_eq!(m.execute(), Err(Fault::Overflow));
}

#[test]
fn bounded_run_stops_and_resumes() {
    let (_, mut m) = Machine::new(vec![1105, 1, 0]);
    assert_eq!(m.run(100), Ok(Stop::OutOfSteps));
    assert_eq!(m.program_counter(), 0);

    let (_, mut m) = Machine::new(vec![3, 0, 4, 0, 99]);
    assert_eq!(m.run(10), Ok(Stop::NeedsInput));
    m.set_input(InputType::Value(17));
    assert_eq!(m.run(10), Ok(Stop::Halted));
    assert_eq!(*m.get_output(), vec![17]);
}

#[test]
fn halting_closes_the_output_channel() {
    let (rx, mut m) = Machine::new(vec![4, 0, 99]);
    m.execute().unwrap();
    assert_eq!(rx.recv(), Ok(4));
    assert!(rx.recv().is_err());
}

#[test]
fn noun_and_verb_overwrite_cells_one_and_two() {
    let (_, mut m) = Machine::new(vec![1, 0, 0, 0, 99, 7, 8]);
    m.set_noun(5);
    m.set_verb(6);
    m.execute().unwrap();
    assert_eq!(m.output(), 15);
}

#[test]
fn extended_memory_is_zero_filled() {
    let (_, m) = Machine::new_extended(vec![1, 2]);
    assert_eq!(m.memory().len(), 2048);
    assert_eq!(m.peek(1), Ok(2));
    assert_eq!(m.peek(2047), Ok(0));
    let (_, m) = Machine::new_extended(vec![]);
    assert_eq!(m.memory().len(), 0);
}
