use crate::fault::Fault;
use crate::machine::{all_values, queued_values, Machine, MAX_CAPACITY};
use crate::pipeline::{
    copy_of, initial, last_of, line_output, ring_signal, run_feedback_loop, run_line,
};
use crate::semantics::{run_spec, Status};
use itertools::Itertools;
use vstd::prelude::*;

verus! {

/// `p` holds the items of `items` in some order.
pub open spec fn is_ordering(p: Seq<i64>, items: Seq<i64>) -> bool {
    p.to_multiset() == items.to_multiset()
}

/// Relies on itertools::Itertools::permutations, asked for permutations as long
/// as the input: each ordering of the items by position comes out, and nothing else.
#[verifier::external_body]
fn orderings(items: &Vec<i64>) -> (r: Vec<Vec<i64>>)
    ensures
        forall|i: int| 0 <= i < r.len() ==> is_ordering(#[trigger] r@[i]@, items@),
        forall|p: Seq<i64>|
            is_ordering(p, items@) ==> exists|i: int| 0 <= i < r.len() && #[trigger] r@[i]@ == p,
{
    items.iter().cloned().permutations(items.len()).collect()
}

/// What a line of machines in the order `p` ends with.
pub open spec fn line_signal(program: Seq<i64>, p: Seq<i64>) -> Result<Option<i64>, Fault> {
    match line_output(program, p, (p.len() - 1) as nat) {
        Ok(out) => Ok(last_of(out)),
        Err(f) => Err(f),
    }
}

/// A signal, if there is one, is at most `best`.
pub open spec fn bounded_by(signal: Result<Option<i64>, Fault>, best: Option<i64>) -> bool {
    match signal {
        Ok(Some(x)) => best is Some && x <= best->Some_0,
        _ => true,
    }
}

/// Over every order of `phase_values`, the largest last value that a line of
/// machines produces. A fault in any order is returned; orders whose last
/// machine produced nothing do not count, and if none produced anything the
/// result is `None`.
pub fn max_line_signal(program: &Vec<i64>, phase_values: &Vec<i64>) -> (r: Result<Option<i64>, Fault>)
    requires
        program.len() <= MAX_CAPACITY,
        phase_values.len() > 0,
    ensures
        r matches Err(f) ==> exists|p: Seq<i64>|
            is_ordering(p, phase_values@) && #[trigger] line_signal(program@, p) == Err::<
                Option<i64>,
                Fault,
            >(f),
        r is Ok ==> forall|p: Seq<i64>|
            is_ordering(p, phase_values@) ==> (#[trigger] line_signal(program@, p)) is Ok,
        r matches Ok(Some(b)) ==> exists|p: Seq<i64>|
            is_ordering(p, phase_values@) && #[trigger] line_signal(program@, p) == Ok::<
                Option<i64>,
                Fault,
            >(Some(b)),
        r matches Ok(best) ==> forall|p: Seq<i64>|
            is_ordering(p, phase_values@) ==> bounded_by(#[trigger] line_signal(program@, p), best),
{
    let all = orderings(phase_values);
    let mut best: Option<i64> = None;
    let mut i: usize = 0;
    while i < all.len()
        invariant
            i <= all.len(),
            program.len() <= MAX_CAPACITY,
            phase_values.len() > 0,
            forall|k: int| 0 <= k < all.len() ==> is_ordering(#[trigger] all@[k]@, phase_values@),
            forall|k: int| 0 <= k < i ==> (#[trigger] line_signal(program@, all@[k]@)) is Ok,
            best matches Some(b) ==> exists|k: int|
                0 <= k < i && #[trigger] line_signal(program@, all@[k]@) == Ok::<Option<i64>, Fault>(Some(b)),
            forall|k: int|
                0 <= k < i ==> bounded_by(#[trigger] line_signal(program@, all@[k]@), best),
        decreases all.len() - i,
    {
        let p = &all[i];
        proof {
            p@.to_multiset_ensures();
            phase_values@.to_multiset_ensures();
        }
        let res = run_line(program, p);
        assert(res == line_signal(program@, all@[i as int]@));
        match res {
            Ok(Some(x)) => {
                let ghost old_best = best;
                match best {
                    Some(b) => {
                        if x > b {
                            best = Some(x);
                        }
                    },
                    None => {
                        best = Some(x);
                    },
                }
                proof {
                    if best != old_best {
                        assert(line_signal(program@, all@[i as int]@) == Ok::<Option<i64>, Fault>(
                            Some(best->Some_0),
                        ));
                    } else {
                        let k = choose|k: int|
                            0 <= k < i && #[trigger] line_signal(program@, all@[k]@) == Ok::<
                                Option<i64>,
                                Fault,
                            >(Some(best->Some_0));
                        assert(0 <= k < i + 1);
                    }
                }
            },
            Ok(None) => {},
            Err(f) => {
                assert(is_ordering(all@[i as int]@, phase_values@));
                return Err(f);
            },
        }
        i = i + 1;
    }
    proof {
        assert forall|p: Seq<i64>| is_ordering(p, phase_values@) implies (#[trigger] line_signal(program@, p)) is Ok by {
            let k = choose|k: int| 0 <= k < all.len() && #[trigger] all@[k]@ == p;
        }
    }
    Ok(best)
}

/// Over every order of `phase_values`, the largest last value that a ring of
/// machines produces. A fault in any order is returned; orders whose last
/// machine produced nothing do not count, and if none produced anything the
/// result is `None`.
pub fn max_feedback_signal(program: &Vec<i64>, phase_values: &Vec<i64>) -> (r: Result<Option<i64>, Fault>)
    requires
        program.len() <= MAX_CAPACITY,
        phase_values.len() > 0,
    ensures
        r matches Err(f) ==> exists|p: Seq<i64>|
            is_ordering(p, phase_values@) && #[trigger] ring_signal(program@, p) == Err::<
                Option<i64>,
                Fault,
            >(f),
        r is Ok ==> forall|p: Seq<i64>|
            is_ordering(p, phase_values@) ==> (#[trigger] ring_signal(program@, p)) is Ok,
        r matches Ok(Some(b)) ==> exists|p: Seq<i64>|
            is_ordering(p, phase_values@) && #[trigger] ring_signal(program@, p) == Ok::<
                Option<i64>,
                Fault,
            >(Some(b)),
        r matches Ok(best) ==> forall|p: Seq<i64>|
            is_ordering(p, phase_values@) ==> bounded_by(#[trigger] ring_signal(program@, p), best),
{
    let all = orderings(phase_values);
    let mut best: Option<i64> = None;
    let mut i: usize = 0;
    while i < all.len()
        invariant
            i <= all.len(),
            program.len() <= MAX_CAPACITY,
            phase_values.len() > 0,
            forall|k: int| 0 <= k < all.len() ==> is_ordering(#[trigger] all@[k]@, phase_values@),
            forall|k: int| 0 <= k < i ==> (#[trigger] ring_signal(program@, all@[k]@)) is Ok,
            best matches Some(b) ==> exists|k: int|
                0 <= k < i && #[trigger] ring_signal(program@, all@[k]@) == Ok::<Option<i64>, Fault>(Some(b)),
            forall|k: int|
                0 <= k < i ==> bounded_by(#[trigger] ring_signal(program@, all@[k]@), best),
        decreases all.len() - i,
    {
        let p = &all[i];
        proof {
            p@.to_multiset_ensures();
            phase_values@.to_multiset_ensures();
        }
        let res = run_feedback_loop(program, p);
        assert(res == ring_signal(program@, all@[i as int]@));
        match res {
            Ok(Some(x)) => {
                let ghost old_best = best;
                match best {
                    Some(b) => {
                        if x > b {
                            best = Some(x);
                        }
                    },
                    None => {
                        best = Some(x);
                    },
                }
                proof {
                    if best != old_best {
                        assert(ring_signal(program@, all@[i as int]@) == Ok::<Option<i64>, Fault>(
                            Some(best->Some_0),
                        ));
                    } else {
                        let k = choose|k: int|
                            0 <= k < i && #[trigger] ring_signal(program@, all@[k]@) == Ok::<
                                Option<i64>,
                                Fault,
                            >(Some(best->Some_0));
                        assert(0 <= k < i + 1);
                    }
                }
            },
            Ok(None) => {},
            Err(f) => {
                assert(is_ordering(all@[i as int]@, phase_values@));
                return Err(f);
            },
        }
        i = i + 1;
    }
    proof {
        assert forall|p: Seq<i64>| is_ordering(p, phase_values@) implies (#[trigger] ring_signal(program@, p)) is Ok by {
            let k = choose|k: int| 0 <= k < all.len() && #[trigger] all@[k]@ == p;
        }
    }
    Ok(best)
}

/// What cell 0 holds once the program, with `noun` in cell 1 and `verb` in
/// cell 2, has run to its halt without input; `None` if it does not halt.
pub open spec fn result_cell(program: Seq<i64>, noun: i64, verb: i64) -> Option<i64> {
    let res = run_spec(initial(program.update(1, noun).update(2, verb)), Seq::empty(), u64::MAX as nat);
    if res.2 is Halted && res.0.memory.len() > 0 {
        Some(res.0.memory[0])
    } else {
        None
    }
}

/// The first pair, nouns outer and verbs inner, both in `0..99`, for which the
/// program leaves `target` in cell 0.
pub fn find_noun_verb(program: &Vec<i64>, target: i64) -> (r: Option<(i64, i64)>)
    requires
        2 < program.len() <= MAX_CAPACITY,
    ensures
        r matches Some((noun, verb)) ==> 0 <= noun < 99 && 0 <= verb < 99 && result_cell(
            program@,
            noun,
            verb,
        ) == Some(target) && forall|n: i64, v: i64|
            0 <= n < 99 && 0 <= v < 99 && (n < noun || (n == noun && v < verb)) ==> #[trigger] result_cell(
                program@,
                n,
                v,
            ) != Some(target),
        r is None ==> forall|n: i64, v: i64|
            0 <= n < 99 && 0 <= v < 99 ==> #[trigger] result_cell(program@, n, v) != Some(target),
{
    let mut noun: i64 = 0;
    while noun < 99
        invariant
            0 <= noun <= 99,
            2 < program.len() <= MAX_CAPACITY,
            forall|n: i64, v: i64|
                0 <= n < noun && 0 <= v < 99 ==> #[trigger] result_cell(program@, n, v) != Some(target),
        decreases 99 - noun,
    {
        let mut verb: i64 = 0;
        while verb < 99
            invariant
                0 <= noun < 99,
                0 <= verb <= 99,
                2 < program.len() <= MAX_CAPACITY,
                forall|n: i64, v: i64|
                    0 <= n < 99 && 0 <= v < 99 && (n < noun || (n == noun && v < verb)) ==> #[trigger] result_cell(
                        program@,
                        n,
                        v,
                    ) != Some(target),
            decreases 99 - verb,
        {
            if cell_zero_after(program, noun, verb) == Some(target) {
                return Some((noun, verb));
            }
            verb = verb + 1;
        }
        noun = noun + 1;
    }
    None
}

/// Runs the program with `noun` and `verb` in place and reads cell 0 if it halted.
fn cell_zero_after(program: &Vec<i64>, noun: i64, verb: i64) -> (r: Option<i64>)
    requires
        2 < program.len() <= MAX_CAPACITY,
    ensures
        r == result_cell(program@, noun, verb),
{
    let (_, mut m) = Machine::new(copy_of(program));
    m.set_noun(noun);
    m.set_verb(verb);
    let ghost s0 = m.snapshot();
    let ghost q0 = m.sources();
    let result = m.execute();
    proof {
        assert(s0 == initial(program@.update(1, noun).update(2, verb)));
        assert(queued_values(q0) =~= Seq::<i64>::empty());
        assert(m.received() + queued_values(m.sources()) == Seq::<i64>::empty() + Seq::<i64>::empty());
        assert(m.received() =~= Seq::<i64>::empty());
        assert(m.received().subrange(0, 0) =~= Seq::<i64>::empty());
        assert(crate::machine::inputs_since(Seq::<i64>::empty(), m.received()) =~= Seq::<i64>::empty());
    }
    match result {
        Ok(()) => {
            if m.memory().len() > 0 {
                Some(m.output())
            } else {
                None
            }
        },
        Err(_) => None,
    }
}

} // verus!
