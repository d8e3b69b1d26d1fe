use intcode::wires::{closest_crossing, parse_wire, trace, Direction};

fn wire(s: &str) -> Vec<(Direction, u32)> {
    parse_wire(&s.chars().collect()).unwrap()
}

#[test]
fn parses_moves() {
    assert_eq!(
        wire("R8,U5,L5,D3"),
        vec![(Direction::Right, 8), (Direction::Up, 5), (Direction::Left, 5), (Direction::Down, 3)]
    );
    assert!(parse_wire(&"R8,X5".chars().collect()).is_none());
    assert!(parse_wire(&"R-1".chars().collect()).is_none());
}

#[test]
fn traces_cells() {
    assert_eq!(
        trace(&wire("R2,U1")).unwrap(),
        vec![(1, 0), (2, 0), (2, 1)]
    );
}

#[test]
fn fewest_combined_steps_to_a_crossing() {
    assert_eq!(closest_crossing(&wire("R8,U5,L5,D3"), &wire("U7,R6,D4,L4")), Some(30));
    assert_eq!(
        closest_crossing(
            &wire("R75,D30,R83,U83,L12,D49,R71,U7,L72"),
            &wire("U62,R66,U55,R34,D71,R55,D58,R83")
        ),
        Some(610)
    );
    assert_eq!(closest_crossing(&wire("R2"), &wire("L2")), None);
}
