use intcode::search::{find_noun_verb, max_feedback_signal, max_line_signal};

#[test]
fn best_phase_order_for_a_line() {
    let program = vec![3, 15, 3, 16, 1002, 16, 10, 16, 1, 16, 15, 15, 4, 15, 99, 0, 0];
    assert_eq!(max_line_signal(&program, &vec![0, 1, 2, 3, 4]), Ok(Some(43210)));
    let program = vec![
        3, 31, 3, 32, 1002, 32, 10, 32, 1001, 31, -2, 31, 1007, 31, 0, 33, 1002, 33, 7, 33, 1, 33,
        31, 31, 1, 32, 31, 31, 4, 31, 99, 0, 0, 0,
    ];
    assert_eq!(max_line_signal(&program, &vec![0, 1, 2, 3, 4]), Ok(Some(65210)));
}

#[test]
fn best_phase_order_for_a_ring() {
    let program = vec![
        3, 26, 1001, 26, -4, 26, 3, 27, 1002, 27, 2, 27, 1, 27, 26, 27, 4, 27, 1001, 28, -1, 28,
        1005, 28, 6, 99, 0, 0, 5,
    ];
    assert_eq!(max_feedback_signal(&program, &vec![5, 6, 7, 8, 9]), Ok(Some(139629729)));
}

#[test]
fn noun_and_verb_search() {
    assert_eq!(find_noun_verb(&vec![1, 0, 0, 0, 99], 2), Some((0, 0)));
    assert_eq!(find_noun_verb(&vec![1, 0, 0, 0, 99], 100), Some((0, 4)));
    assert_eq!(find_noun_verb(&vec![1, 0, 0, 0, 99], -5), None);
}
