use vstd::prelude::*;

verus! {

/// Rust's division of integers, which rounds toward zero.
pub open spec fn div_toward_zero(a: int, b: int) -> int {
    if a >= 0 {
        a / b
    } else {
        -((-a) / b)
    }
}

/// Fuel for a mass: a third of it, rounded toward zero, less two.
pub open spec fn fuel_spec(mass: int) -> int {
    div_toward_zero(mass, 3) - 2
}

/// Fuel for fuel: each amount of fuel needs fuel of its own, until that is not positive.
pub open spec fn additional_fuel_spec(fuel: int) -> int
    decreases fuel,
{
    let f = fuel_spec(fuel);
    if f > 0 && f < fuel {
        f + additional_fuel_spec(f)
    } else {
        0
    }
}

proof fn lemma_additional_fuel_bound(fuel: int)
    requires
        fuel >= 0,
    ensures
        0 <= additional_fuel_spec(fuel) <= fuel,
    decreases fuel,
{
    let f = fuel_spec(fuel);
    if f > 0 && f < fuel {
        lemma_additional_fuel_bound(f);
    }
}

/// The fuel a module of the given mass needs.
pub fn compute_fuel(mass: i32) -> (r: i32)
    ensures
        r == fuel_spec(mass as int),
{
    (mass / 3) - 2
}

/// The fuel needed to carry `initial_fuel`, counted again for each added amount.
pub fn compute_additional_fuel(initial_fuel: i32) -> (r: i32)
    ensures
        r == additional_fuel_spec(initial_fuel as int),
    decreases initial_fuel,
{
    let result = compute_fuel(initial_fuel);
    if result > 0 {
        proof {
            lemma_additional_fuel_bound(result as int);
        }
        result + compute_additional_fuel(result)
    } else {
        0
    }
}

/// The fuel for a module of the given mass, its fuel's own fuel included.
pub open spec fn module_fuel(mass: int) -> int {
    fuel_spec(mass) + additional_fuel_spec(fuel_spec(mass))
}

/// The fuel for all the modules.
pub open spec fn total_fuel_spec(masses: Seq<i32>) -> int
    decreases masses.len(),
{
    if masses.len() == 0 {
        0
    } else {
        total_fuel_spec(masses.drop_last()) + module_fuel(masses.last() as int)
    }
}

/// The fuel for all the modules, each counted with the fuel its fuel needs.
pub fn total_fuel(masses: &Vec<i32>) -> (r: i64)
    requires
        masses.len() < 0x1_0000_0000,
    ensures
        r == total_fuel_spec(masses@),
{
    let mut total: i64 = 0;
    let mut i: usize = 0;
    while i < masses.len()
        invariant
            masses.len() < 0x1_0000_0000,
            i <= masses.len(),
            total == total_fuel_spec(masses@.take(i as int)),
            -0x8000_0000 * i <= total <= 0x8000_0000 * i,
        decreases masses.len() - i,
    {
        let m = masses[i];
        let f = compute_fuel(m);
        let extra = compute_additional_fuel(f);
        proof {
            if f >= 0 {
                lemma_additional_fuel_bound(f as int);
            }
            assert(masses@.take(i + 1).drop_last() =~= masses@.take(i as int));
            assert(0x8000_0000 * (i + 1) == 0x8000_0000 * i + 0x8000_0000) by (nonlinear_arith);
            assert(0x8000_0000 * i <= 0x8000_0000 * 0x1_0000_0000) by (nonlinear_arith)
                requires
                    i < 0x1_0000_0000,
            ;
        }
        total = total + f as i64 + extra as i64;
        i = i + 1;
    }
    assert(masses@.take(masses.len() as int) =~= masses@);
    total
}

} // verus!
