use intcode::fault::Fault;
use intcode::pipeline::{run_feedback_loop, run_line};

#[test]
fn line_of_amplifiers() {
    let program = vec![3, 15, 3, 16, 1002, 16, 10, 16, 1, 16, 15, 15, 4, 15, 99, 0, 0];
    assert_eq!(run_line(&program, &vec![4, 3, 2, 1, 0]), Ok(Some(43210)));
    let program = vec![
        3, 23, 3, 24, 1002, 24, 10, 24, 1002, 23, -1, 23, 101, 5, 23, 23, 1, 24, 23, 23, 4, 23, 99,
        0, 0,
    ];
    assert_eq!(run_line(&program, &vec![0, 1, 2, 3, 4]), Ok(Some(54321)));
}

#[test]
fn feedback_ring_of_amplifiers() {
    let program = vec![
        3, 26, 1001, 26, -4, 26, 3, 27, 1002, 27, 2, 27, 1, 27, 26, 27, 4, 27, 1001, 28, -1, 28,
        1005, 28, 6, 99, 0, 0, 5,
    ];
    assert_eq!(run_feedback_loop(&program, &vec![9, 8, 7, 6, 5]), Ok(Some(139629729)));
}

#[test]
fn feedback_ring_second_example() {
    let program = vec![
        3, 52, 1001, 52, -5, 52, 3, 53, 1, 52, 56, 54, 1007, 54, 5, 55, 1005, 55, 26, 1001, 54, -5,
        54, 1105, 1, 12, 1, 53, 54, 53, 1008, 54, 0, 55, 1001, 55, 1, 55, 2, 53, 55, 53, 4, 53,
        1001, 56, -1, 56, 1005, 56, 6, 99, 0, 0, 0, 0, 10,
    ];
    assert_eq!(run_feedback_loop(&program, &vec![9, 7, 8, 5, 6]), Ok(Some(18216)));
}

#[test]
fn feedback_ring_that_cannot_go_on() {
    assert_eq!(run_feedback_loop(&vec![3, 0, 3, 0, 99], &vec![1, 2]), Err(Fault::InputExhausted));
}

#[test]
fn line_reports_the_first_fault() {
    assert_eq!(run_line(&vec![98], &vec![1, 2]), Err(Fault::InvalidOpcode));
    assert_eq!(run_line(&vec![3, 0, 99], &vec![1]), Ok(None));
}
