use intcode::orbits::{get_orbits, orbit_count, transfers};

fn chars(s: &str) -> Vec<char> {
    s.chars().collect()
}

#[test]
fn it_solves_provided_example_data() {
    let example = "COM)B\nB)C\nC)D\nD)E\nE)F\nB)G\nG)H\nD)I\nE)J\nJ)K\nK)L\n";
    let orbits = get_orbits(&chars(example)).unwrap();
    assert_eq!(orbits.len(), 11);
    assert_eq!(orbit_count(&orbits), Some(42));
}

#[test]
fn transfers_between_you_and_santa() {
    let example = "COM)B\nB)C\nC)D\nD)E\nE)F\nB)G\nG)H\nD)I\nE)J\nJ)K\nK)L\nK)YOU\nI)SAN\n";
    let orbits = get_orbits(&chars(example)).unwrap();
    assert_eq!(transfers(&orbits, &chars("YOU"), &chars("SAN")), Some(4));
}

#[test]
fn malformed_orbit_line() {
    assert!(get_orbits(&chars("COM)B\nBC\n")).is_none());
    assert_eq!(get_orbits(&chars("A)B\r\n")).unwrap(), vec![(chars("A"), chars("B"))]);
    assert_eq!(get_orbits(&chars("")).unwrap().len(), 0);
}

#[test]
fn cyclic_orbits_have_no_count() {
    let orbits = get_orbits(&chars("A)B\nB)A\n")).unwrap();
    assert_eq!(orbit_count(&orbits), None);
}
