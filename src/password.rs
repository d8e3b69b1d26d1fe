use vstd::prelude::*;
use vstd::seq_lib::lemma_seq_contains_after_push;

verus! {

/// The decimal digits of `n`, least significant first.
pub open spec fn digits_of(n: nat) -> Seq<u8>
    decreases n,
{
    if n < 10 {
        seq![n as u8]
    } else {
        seq![(n % 10) as u8] + digits_of(n / 10)
    }
}

/// The magnitude of a value, whose digits the checks below read.
pub open spec fn magnitude(val: i32) -> nat {
    if val >= 0 {
        val as nat
    } else {
        (-val) as nat
    }
}

/// Two neighbouring digits are equal.
pub open spec fn has_adjacent_pair(d: Seq<u8>) -> bool {
    exists|i: int| 0 <= i < d.len() - 1 && #[trigger] d[i] == d[i + 1]
}

/// Read most significant first, the digits never decrease.
pub open spec fn never_decreasing(d: Seq<u8>) -> bool {
    forall|i: int| 0 <= i < d.len() - 1 ==> #[trigger] d[i] >= d[i + 1]
}

/// How often `x` occurs in `d`.
pub open spec fn count_of(d: Seq<u8>, x: u8) -> nat
    decreases d.len(),
{
    if d.len() == 0 {
        0
    } else {
        count_of(d.drop_last(), x) + if d.last() == x {
            1nat
        } else {
            0nat
        }
    }
}

/// Some digit occurs exactly twice.
pub open spec fn some_digit_twice(d: Seq<u8>) -> bool {
    exists|x: u8| x < 10 && #[trigger] count_of(d, x) == 2
}

/// The digits of `val`'s magnitude, least significant first.
fn digits(val: i32) -> (r: Vec<u8>)
    ensures
        r@ == digits_of(magnitude(val)),
        r.len() >= 1,
        forall|i: int| 0 <= i < r.len() ==> #[trigger] r@[i] < 10,
{
    let mut n: u64 = if val >= 0 {
        val as u64
    } else {
        (-(val as i64)) as u64
    };
    let ghost whole = n as nat;
    let mut ds: Vec<u8> = Vec::new();
    ds.push((n % 10) as u8);
    n = n / 10;
    assert(ds@ + (if n > 0 {
        digits_of(n as nat)
    } else {
        Seq::empty()
    }) =~= digits_of(whole));
    while n > 0
        invariant
            whole == magnitude(val),
            ds.len() >= 1,
            forall|i: int| 0 <= i < ds.len() ==> #[trigger] ds@[i] < 10,
            ds@ + (if n > 0 {
                digits_of(n as nat)
            } else {
                Seq::empty()
            }) == digits_of(whole),
        decreases n,
    {
        let ghost before = ds@;
        let ghost m = n;
        ds.push((n % 10) as u8);
        n = n / 10;
        assert(ds@ + (if n > 0 {
            digits_of(n as nat)
        } else {
            Seq::empty()
        }) =~= before + digits_of(m as nat));
    }
    assert(ds@ + Seq::<u8>::empty() =~= ds@);
    ds
}

/// Whether two neighbouring decimal digits of `val` are equal.
pub fn has_adjacent_equal_digits(val: i32) -> (r: bool)
    ensures
        r == has_adjacent_pair(digits_of(magnitude(val))),
{
    let d = digits(val);
    let mut i: usize = 0;
    while i + 1 < d.len()
        invariant
            i + 1 <= d.len(),
            d@ == digits_of(magnitude(val)),
            forall|j: int| 0 <= j < i ==> #[trigger] d@[j] != d@[j + 1],
        decreases d.len() - i,
    {
        if d[i] == d[i + 1] {
            return true;
        }
        i = i + 1;
    }
    false
}

/// Whether the decimal digits of `val`, read left to right, never decrease.
pub fn digits_do_not_decrease(val: i32) -> (r: bool)
    ensures
        r == never_decreasing(digits_of(magnitude(val))),
{
    let d = digits(val);
    let mut i: usize = 0;
    while i + 1 < d.len()
        invariant
            i + 1 <= d.len(),
            d@ == digits_of(magnitude(val)),
            forall|j: int| 0 <= j < i ==> #[trigger] d@[j] >= d@[j + 1],
        decreases d.len() - i,
    {
        if d[i] < d[i + 1] {
            return false;
        }
        i = i + 1;
    }
    true
}

/// Whether some decimal digit occurs in `val` exactly twice.
pub fn digit_counts_exactly_two(val: i32) -> (r: bool)
    ensures
        r == some_digit_twice(digits_of(magnitude(val))),
{
    let d = digits(val);
    let mut x: u8 = 0;
    while x < 10
        invariant
            x <= 10,
            d@ == digits_of(magnitude(val)),
            forall|y: u8| y < x ==> count_of(d@, y) != 2,
        decreases 10 - x,
    {
        let mut count: usize = 0;
        let mut i: usize = 0;
        while i < d.len()
            invariant
                i <= d.len(),
                count == count_of(d@.take(i as int), x),
                count <= i,
            decreases d.len() - i,
        {
            assert(d@.take(i + 1).drop_last() =~= d@.take(i as int));
            if d[i] == x {
                count = count + 1;
            }
            i = i + 1;
        }
        assert(d@.take(d.len() as int) =~= d@);
        if count == 2 {
            return true;
        }
        x = x + 1;
    }
    assert forall|y: u8| y < 10 implies #[trigger] count_of(d@, y) != 2 by {}
    false
}

/// A password candidate: some digit repeats next to itself, digits never
/// decrease, and some digit occurs exactly twice.
pub open spec fn is_valid_password(val: i32) -> bool {
    let d = digits_of(magnitude(val));
    has_adjacent_pair(d) && never_decreasing(d) && some_digit_twice(d)
}

/// The candidates in `lo..=hi`, in increasing order.
pub fn valid_passwords(lo: i32, hi: i32) -> (r: Vec<i32>)
    ensures
        forall|x: i32| r@.contains(x) <==> lo <= x <= hi && is_valid_password(x),
        forall|i: int, j: int| 0 <= i < j < r.len() ==> r@[i] < r@[j],
{
    let mut found: Vec<i32> = Vec::new();
    let mut i: i64 = lo as i64;
    while i <= hi as i64
        invariant
            lo as i64 <= i,
            i <= hi as i64 + 1 || i == lo as i64,
            forall|x: i32| #[trigger] found@.contains(x) <==> lo <= x < i && is_valid_password(x),
            forall|a: int, b: int| 0 <= a < b < found.len() ==> found@[a] < found@[b],
            forall|a: int| 0 <= a < found.len() ==> found@[a] < i,
        decreases hi as i64 + 1 - i,
    {
        let v = i as i32;
        let ghost before = found@;
        let ok = has_adjacent_equal_digits(v) && digits_do_not_decrease(v) && digit_counts_exactly_two(
            v,
        );
        if ok {
            found.push(v);
        }
        proof {
            assert forall|x: i32| #[trigger] found@.contains(x) <==> lo <= x < i + 1 && is_valid_password(x) by {
                assert(before.contains(x) <==> lo <= x < i && is_valid_password(x));
                assert(ok == is_valid_password(v));
                if ok {
                    lemma_seq_contains_after_push(before, v, x);
                }
            }
        }
        i = i + 1;
    }
    assert forall|x: i32| found@.contains(x) <==> lo <= x <= hi && is_valid_password(x) by {
        assert(found@.contains(x) <==> lo <= x < i && is_valid_password(x));
    }
    found
}

} // verus!
