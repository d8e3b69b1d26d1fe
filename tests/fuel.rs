use intcode::fuel::{compute_additional_fuel, compute_fuel};

#[test]
fn main_it_solves_provided_example_data() {
    assert_eq!(compute_fuel(12), 2);
    assert_eq!(compute_fuel(14), 2);
    assert_eq!(compute_fuel(1969), 654);
    assert_eq!(compute_fuel(100756), 33583);
}

#[test]
fn it_handles_additional_fuel() {
    assert_eq!(compute_fuel(12) + compute_additional_fuel(compute_fuel(12)), 2);
    assert_eq!(compute_fuel(14) + compute_additional_fuel(compute_fuel(14)), 2);
    assert_eq!(compute_fuel(1969) + compute_additional_fuel(compute_fuel(1969)), 966);
    assert_eq!(compute_fuel(100756) + compute_additional_fuel(compute_fuel(100756)), 50346);
}

#[test]
fn fuel_of_small_masses_is_not_positive() {
    assert_eq!(compute_fuel(2), -2);
    assert_eq!(compute_fuel(6), 0);
    assert_eq!(compute_additional_fuel(0), 0);
    assert_eq!(compute_additional_fuel(-5), 0);
}

#[test]
fn fuel_rounds_toward_zero_for_negative_mass() {
    assert_eq!(compute_fuel(-4), -3);
}
