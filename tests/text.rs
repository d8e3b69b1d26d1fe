use intcode::fault::Fault;
use intcode::fuel::total_fuel;
use intcode::text::{integers, TextCursor};

#[test]
fn program_image_is_read() {
    let text: Vec<char> = "1,9,10,3,\n2,-3,11\n".chars().collect();
    assert_eq!(integers(&text), Ok(vec![1, 9, 10, 3, 2, -3, 11]));
    let bad: Vec<char> = "1,x".chars().collect();
    assert_eq!(integers(&bad), Err(Fault::MalformedInput));
}

#[test]
fn cursor_hands_out_tokens() {
    let mut c = TextCursor::new(" 4\n+5 x ");
    assert_eq!(c.next_token(), Some(Ok(4)));
    assert_eq!(c.next_token(), Some(Ok(5)));
    assert_eq!(c.next_token(), Some(Err(Fault::MalformedInput)));
    assert_eq!(c.next_token(), None);
}

#[test]
fn fuel_for_all_modules() {
    assert_eq!(total_fuel(&vec![12, 14, 1969, 100756]), 2 + 2 + 966 + 50346);
    assert_eq!(total_fuel(&vec![]), 0);
}
