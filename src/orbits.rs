use vstd::prelude::*;

verus! {

/// The first index at or after `i` where `s` holds `c`, or the length of `s`.
pub open spec fn next_index(s: Seq<char>, c: char, i: int) -> int
    decreases s.len() - i,
{
    if 0 <= i < s.len() {
        if s[i] == c {
            i
        } else {
            next_index(s, c, i + 1)
        }
    } else {
        s.len() as int
    }
}

/// A line without the carriage return that may end it.
pub open spec fn strip_cr(l: Seq<char>) -> Seq<char> {
    if l.len() > 0 && l.last() == '\r' {
        l.drop_last()
    } else {
        l
    }
}

/// The lines of `s` from index `start` on, as Rust's `str::lines` cuts them.
pub open spec fn lines_from(s: Seq<char>, start: int) -> Seq<Seq<char>>
    decreases s.len() + 1 - start,
{
    if 0 <= start < s.len() {
        let e = next_index(s, '\n', start);
        let e = if e < start {
            start
        } else if e > s.len() {
            s.len() as int
        } else {
            e
        };
        seq![strip_cr(s.subrange(start, e))] + lines_from(s, e + 1)
    } else {
        Seq::empty()
    }
}

/// A line `A)B`: `B` orbits `A`. What follows a second `)` is ignored.
pub open spec fn orbit_of_line(l: Seq<char>) -> Option<(Seq<char>, Seq<char>)> {
    let a = next_index(l, ')', 0);
    if a < l.len() {
        let b = next_index(l, ')', a + 1);
        Some((l.subrange(0, a), l.subrange(a + 1, b)))
    } else {
        None
    }
}

/// The orbits as pairs of names: the centre, then the object orbiting it.
pub open spec fn orbit_view(o: Seq<(Vec<char>, Vec<char>)>) -> Seq<(Seq<char>, Seq<char>)> {
    o.map_values(|p: (Vec<char>, Vec<char>)| (p.0@, p.1@))
}

proof fn lemma_next_index_bounds(s: Seq<char>, c: char, i: int)
    requires
        0 <= i,
    ensures
        next_index(s, c, i) <= s.len(),
        i <= s.len() ==> i <= next_index(s, c, i),
        next_index(s, c, i) < s.len() ==> s[next_index(s, c, i)] == c,
    decreases s.len() - i,
{
    if 0 <= i < s.len() && s[i] != c {
        lemma_next_index_bounds(s, c, i + 1);
    }
}

/// Scans `s` from `i` for `c`.
fn find_char(s: &Vec<char>, c: char, i: usize, end: usize) -> (r: usize)
    requires
        i <= end <= s.len(),
    ensures
        r == next_index(s@.subrange(0, end as int), c, i as int),
{
    let ghost t = s@.subrange(0, end as int);
    let mut k = i;
    while k < end && s[k] != c
        invariant
            i <= k <= end <= s.len(),
            t == s@.subrange(0, end as int),
            next_index(t, c, i as int) == next_index(t, c, k as int),
        decreases end - k,
    {
        assert(t[k as int] == s@[k as int]);
        k = k + 1;
    }
    if k < end {
        assert(t[k as int] == s@[k as int]);
    }
    k
}

fn copy_range(s: &Vec<char>, a: usize, b: usize) -> (r: Vec<char>)
    requires
        a <= b <= s.len(),
    ensures
        r@ == s@.subrange(a as int, b as int),
{
    let mut r: Vec<char> = Vec::new();
    let mut k = a;
    while k < b
        invariant
            a <= k <= b <= s.len(),
            r@ == s@.subrange(a as int, k as int),
        decreases b - k,
    {
        r.push(s[k]);
        assert(r@ =~= s@.subrange(a as int, k + 1));
        k = k + 1;
    }
    r
}

/// Reads one `A)B` line held in `s[start..end]`.
fn parse_line(s: &Vec<char>, start: usize, end: usize) -> (r: Option<(Vec<char>, Vec<char>)>)
    requires
        start <= end <= s.len(),
    ensures
        match orbit_of_line(s@.subrange(start as int, end as int)) {
            Some((a, b)) => r is Some && r->Some_0.0@ == a && r->Some_0.1@ == b,
            None => r is None,
        },
{
    let ghost l = s@.subrange(start as int, end as int);
    let ghost t = s@.subrange(0, end as int);
    proof {
        lemma_shifted_index(s@, end as int, start as int, ')', start as int);
    }
    let a = find_char(s, ')', start, end);
    if a == end {
        proof {
            lemma_next_index_bounds(t, ')', start as int);
        }
        return None;
    }
    proof {
        lemma_next_index_bounds(t, ')', start as int);
        lemma_shifted_index(s@, end as int, start as int, ')', a + 1);
        lemma_next_index_bounds(t, ')', a + 1);
    }
    let b = find_char(s, ')', a + 1, end);
    let centre = copy_range(s, start, a);
    let orbiter = copy_range(s, a + 1, b);
    assert(l.subrange(0, a - start) =~= s@.subrange(start as int, a as int));
    assert(l.subrange(a - start + 1, b - start) =~= s@.subrange(a + 1, b as int));
    Some((centre, orbiter))
}

/// Searching the prefix `s[..end]` from `i`, or the window `s[start..end]` from
/// `i - start`, finds the same place, shifted by `start`.
proof fn lemma_shifted_index(s: Seq<char>, end: int, start: int, c: char, i: int)
    requires
        0 <= start <= i <= end <= s.len(),
    ensures
        next_index(s.subrange(0, end), c, i) == next_index(s.subrange(start, end), c, i - start)
            + start,
    decreases end - i,
{
    if i < end {
        assert(s.subrange(0, end)[i] == s.subrange(start, end)[i - start]);
        lemma_shifted_index(s, end, start, c, i + 1);
    }
}

/// Reads one orbit per line of `input`; `None` if a line has no `)`.
pub fn get_orbits(input: &Vec<char>) -> (r: Option<Vec<(Vec<char>, Vec<char>)>>)
    ensures
        match r {
            Some(v) => orbit_view(v@).len() == lines_from(input@, 0).len() && forall|i: int|
                0 <= i < v.len() ==> orbit_of_line(#[trigger] lines_from(input@, 0)[i]) == Some(
                    orbit_view(v@)[i],
                ),
            None => exists|i: int|
                0 <= i < lines_from(input@, 0).len() && #[trigger] orbit_of_line(
                    lines_from(input@, 0)[i],
                ) is None,
        },
{
    let n = input.len();
    let mut orbits: Vec<(Vec<char>, Vec<char>)> = Vec::new();
    let mut start: usize = 0;
    let ghost mut done: Seq<Seq<char>> = Seq::empty();
    assert(lines_from(input@, 0) =~= done + lines_from(input@, 0));
    while start < n
        invariant
            n == input.len(),
            start <= n + 1,
            lines_from(input@, 0) == done + lines_from(input@, start as int),
            orbits.len() == done.len(),
            forall|i: int|
                0 <= i < done.len() ==> orbit_of_line(#[trigger] done[i]) == Some(
                    orbit_view(orbits@)[i],
                ),
        decreases n + 1 - start,
    {
        let e = find_char(input, '\n', start, n);
        assert(input@.subrange(0, n as int) =~= input@);
        proof {
            lemma_next_index_bounds(input@, '\n', start as int);
        }
        let mut line_end = e;
        if line_end > start && input[line_end - 1] == '\r' {
            line_end = line_end - 1;
        }
        let ghost line = strip_cr(input@.subrange(start as int, e as int));
        assert(input@.subrange(start as int, line_end as int) =~= line);
        let ghost rest = lines_from(input@, e + 1);
        assert(lines_from(input@, start as int) == seq![line] + rest);
        assert(done + (seq![line] + rest) =~= done.push(line) + rest);
        match parse_line(input, start, line_end) {
            Some(pair) => {
                let ghost before = orbits@;
                orbits.push(pair);
                proof {
                    assert forall|i: int| 0 <= i < done.len() + 1 implies orbit_of_line(
                        #[trigger] done.push(line)[i],
                    ) == Some(orbit_view(orbits@)[i]) by {
                        if i < done.len() {
                            assert(orbits@[i] == before[i]);
                        }
                    }
                    done = done.push(line);
                }
            },
            None => {
                assert((done.push(line) + rest)[done.len() as int] == line);
                return None;
            },
        }
        if e < n {
            start = e + 1;
        } else {
            assert(lines_from(input@, n as int) =~= rest);
            start = n;
        }
    }
    assert(lines_from(input@, start as int) =~= Seq::<Seq<char>>::empty());
    assert(done + Seq::<Seq<char>>::empty() =~= done);
    Some(orbits)
}

/// The centre that `name` orbits: the last orbit listing `name` as the orbiter decides.
pub open spec fn parent_of(o: Seq<(Seq<char>, Seq<char>)>, name: Seq<char>) -> Option<Seq<char>>
    decreases o.len(),
{
    if o.len() == 0 {
        None
    } else if o.last().1 == name {
        Some(o.last().0)
    } else {
        parent_of(o.drop_last(), name)
    }
}

/// How many centres `name` orbits, directly and indirectly, found within `fuel`
/// steps toward the object that orbits nothing; `None` past that.
pub open spec fn depth(o: Seq<(Seq<char>, Seq<char>)>, name: Seq<char>, fuel: nat) -> Option<nat>
    decreases fuel,
{
    if fuel == 0 {
        None
    } else {
        match parent_of(o, name) {
            None => Some(0),
            Some(p) => match depth(o, p, (fuel - 1) as nat) {
                Some(d) => Some(d + 1),
                None => None,
            },
        }
    }
}

/// The sum of the depths of the orbiters of the first `k` orbits, each searched
/// with one step more than there are orbits; `None` if a chain is longer (a cycle).
pub open spec fn total_depth(o: Seq<(Seq<char>, Seq<char>)>, k: int) -> Option<nat>
    decreases k,
{
    if k <= 0 {
        Some(0)
    } else {
        match (total_depth(o, k - 1), depth(o, o[k - 1].1, (o.len() + 1) as nat)) {
            (Some(a), Some(b)) => Some(a + b),
            _ => None,
        }
    }
}

/// The objects from `name` toward the one that orbits nothing, `name` first and
/// that last one left out.
pub open spec fn path(o: Seq<(Seq<char>, Seq<char>)>, name: Seq<char>, fuel: nat) -> Option<
    Seq<Seq<char>>,
>
    decreases fuel,
{
    if fuel == 0 {
        None
    } else {
        match parent_of(o, name) {
            None => Some(Seq::empty()),
            Some(p) => match path(o, p, (fuel - 1) as nat) {
                Some(rest) => Some(seq![name] + rest),
                None => None,
            },
        }
    }
}

/// How many entries of `xs` do not occur in `ys`.
pub open spec fn missing_from(xs: Seq<Seq<char>>, ys: Seq<Seq<char>>) -> nat {
    xs.filter(|x: Seq<char>| !ys.contains(x)).len()
}

/// The orbital transfers from the object `a` orbits to the object `b` orbits:
/// the objects on one path and not the other, less `a` and `b` themselves.
pub open spec fn transfers_spec(o: Seq<(Seq<char>, Seq<char>)>, a: Seq<char>, b: Seq<char>) -> Option<nat> {
    let fuel = (o.len() + 1) as nat;
    match (path(o, a, fuel), path(o, b, fuel)) {
        (Some(pa), Some(pb)) => {
            let d = missing_from(pa, pb) + missing_from(pb, pa);
            if d >= 2 {
                Some((d - 2) as nat)
            } else {
                None
            }
        },
        _ => None,
    }
}

fn same_name(a: &Vec<char>, b: &Vec<char>) -> (r: bool)
    ensures
        r == (a@ == b@),
{
    if a.len() != b.len() {
        return false;
    }
    let mut i: usize = 0;
    while i < a.len()
        invariant
            a.len() == b.len(),
            i <= a.len(),
            forall|j: int| 0 <= j < i ==> a@[j] == b@[j],
        decreases a.len() - i,
    {
        if a[i] != b[i] {
            return false;
        }
        i = i + 1;
    }
    assert(a@ =~= b@);
    true
}

/// The index of the orbit that gives `name` its centre.
fn parent_index(o: &Vec<(Vec<char>, Vec<char>)>, name: &Vec<char>) -> (r: Option<usize>)
    ensures
        match parent_of(orbit_view(o@), name@) {
            None => r is None,
            Some(p) => r is Some && r->Some_0 < o.len() && o@[r->Some_0 as int].0@ == p,
        },
{
    let ghost v = orbit_view(o@);
    let mut i = o.len();
    assert(v.take(i as int) =~= v);
    while i > 0
        invariant
            i <= o.len(),
            v == orbit_view(o@),
            parent_of(v, name@) == parent_of(v.take(i as int), name@),
        decreases i,
    {
        assert(v.take(i as int).drop_last() =~= v.take(i - 1));
        assert(v.take(i as int).last() == v[i - 1]);
        if same_name(&o[i - 1].1, name) {
            return Some(i - 1);
        }
        i = i - 1;
    }
    None
}

proof fn lemma_depth_bound(o: Seq<(Seq<char>, Seq<char>)>, name: Seq<char>, fuel: nat)
    ensures
        depth(o, name, fuel) matches Some(d) ==> d < fuel,
    decreases fuel,
{
    if fuel > 0 {
        if let Some(p) = parent_of(o, name) {
            lemma_depth_bound(o, p, (fuel - 1) as nat);
        }
    }
}

/// The number of centres `name` orbits, directly or not; `None` on a cycle.
fn depth_of(o: &Vec<(Vec<char>, Vec<char>)>, name: &Vec<char>) -> (r: Option<u64>)
    requires
        o.len() < 0x1_0000_0000,
    ensures
        match depth(orbit_view(o@), name@, (o.len() + 1) as nat) {
            Some(d) => r == Some(d as u64),
            None => r is None,
        },
{
    let ghost v = orbit_view(o@);
    let ghost fuel = (o.len() + 1) as nat;
    let mut cur: &Vec<char> = name;
    let mut k: u64 = 0;
    while k <= o.len() as u64
        invariant
            o.len() < 0x1_0000_0000,
            v == orbit_view(o@),
            fuel == o.len() + 1,
            k <= fuel,
            depth(v, name@, fuel) == (match depth(v, cur@, (fuel - k) as nat) {
                Some(d) => Some((d + k) as nat),
                None => None::<nat>,
            }),
        decreases fuel - k,
    {
        match parent_index(o, cur) {
            None => {
                return Some(k);
            },
            Some(i) => {
                cur = &o[i].0;
                k = k + 1;
            },
        }
    }
    None
}

/// The number of direct and indirect orbits: for each orbit, how many centres
/// its orbiter has. `None` when the orbits form a cycle.
pub fn orbit_count(orbits: &Vec<(Vec<char>, Vec<char>)>) -> (r: Option<u64>)
    requires
        orbits.len() < 0x1_0000_0000,
    ensures
        match total_depth(orbit_view(orbits@), orbits.len() as int) {
            Some(t) => r == Some(t as u64),
            None => r is None,
        },
{
    let ghost v = orbit_view(orbits@);
    let mut total: u64 = 0;
    let mut k: usize = 0;
    while k < orbits.len()
        invariant
            orbits.len() < 0x1_0000_0000,
            v == orbit_view(orbits@),
            k <= orbits.len(),
            total_depth(v, k as int) == Some(total as nat),
            total <= k * (orbits.len() + 1),
        decreases orbits.len() - k,
    {
        let d = match depth_of(orbits, &orbits[k].1) {
            Some(d) => d,
            None => {
                proof {
                    lemma_total_depth_none(v, k + 1, orbits.len() as int);
                }
                return None;
            },
        };
        proof {
            lemma_depth_bound(v, v[k as int].1, (orbits.len() + 1) as nat);
            assert((k + 1) * (orbits.len() + 1) == k * (orbits.len() + 1) + orbits.len() + 1)
                by (nonlinear_arith);
            assert(k * (orbits.len() + 1) <= 0xffff_ffff * 0x1_0000_0000) by (nonlinear_arith)
                requires
                    k < 0x1_0000_0000,
                    orbits.len() + 1 <= 0x1_0000_0000,
            ;
        }
        total = total + d;
        k = k + 1;
    }
    Some(total)
}

proof fn lemma_total_depth_none(o: Seq<(Seq<char>, Seq<char>)>, k: int, m: int)
    requires
        0 < k <= m,
        total_depth(o, k) is None,
    ensures
        total_depth(o, m) is None,
    decreases m - k,
{
    if k < m {
        lemma_total_depth_none(o, k, m - 1);
    }
}

pub open spec fn names_view(v: Seq<Vec<char>>) -> Seq<Seq<char>> {
    v.map_values(|n: Vec<char>| n@)
}

fn copy_name(a: &Vec<char>) -> (r: Vec<char>)
    ensures
        r@ == a@,
{
    copy_range(a, 0, a.len())
}

/// The objects from `name` toward the one that orbits nothing; `None` on a cycle.
fn path_of(o: &Vec<(Vec<char>, Vec<char>)>, name: &Vec<char>) -> (r: Option<Vec<Vec<char>>>)
    requires
        o.len() < 0x1_0000_0000,
    ensures
        match path(orbit_view(o@), name@, (o.len() + 1) as nat) {
            Some(p) => r is Some && names_view(r->Some_0@) == p && p.len() <= o.len() + 1,
            None => r is None,
        },
{
    let ghost v = orbit_view(o@);
    let ghost fuel = (o.len() + 1) as nat;
    let mut cur: &Vec<char> = name;
    let mut walked: Vec<Vec<char>> = Vec::new();
    let mut k: u64 = 0;
    assert(names_view(walked@) + Seq::<Seq<char>>::empty() =~= Seq::<Seq<char>>::empty());
    while k <= o.len() as u64
        invariant
            o.len() < 0x1_0000_0000,
            v == orbit_view(o@),
            fuel == o.len() + 1,
            k <= fuel,
            walked.len() == k,
            path(v, name@, fuel) == (match path(v, cur@, (fuel - k) as nat) {
                Some(rest) => Some(names_view(walked@) + rest),
                None => None::<Seq<Seq<char>>>,
            }),
        decreases fuel - k,
    {
        match parent_index(o, cur) {
            None => {
                assert(names_view(walked@) + Seq::<Seq<char>>::empty() =~= names_view(walked@));
                return Some(walked);
            },
            Some(i) => {
                let ghost before = names_view(walked@);
                walked.push(copy_name(cur));
                proof {
                    assert(names_view(walked@) =~= before.push(cur@));
                    assert forall|rest: Seq<Seq<char>>| before + (seq![cur@] + rest) =~= names_view(walked@) + rest by {}
                }
                cur = &o[i].0;
                k = k + 1;
            },
        }
    }
    None
}

fn contains_name(ys: &Vec<Vec<char>>, x: &Vec<char>) -> (r: bool)
    ensures
        r == names_view(ys@).contains(x@),
{
    let mut i: usize = 0;
    while i < ys.len()
        invariant
            i <= ys.len(),
            forall|j: int| 0 <= j < i ==> ys@[j]@ != x@,
        decreases ys.len() - i,
    {
        if same_name(&ys[i], x) {
            assert(names_view(ys@)[i as int] == x@);
            return true;
        }
        i = i + 1;
    }
    assert forall|j: int| 0 <= j < names_view(ys@).len() implies names_view(ys@)[j] != x@ by {
        assert(names_view(ys@)[j] == ys@[j]@);
    }
    false
}

fn count_missing(xs: &Vec<Vec<char>>, ys: &Vec<Vec<char>>) -> (r: u64)
    ensures
        r == missing_from(names_view(xs@), names_view(ys@)),
        r <= xs.len(),
{
    let ghost xv = names_view(xs@);
    let ghost yv = names_view(ys@);
    let ghost pred = |x: Seq<char>| !yv.contains(x);
    let mut n: u64 = 0;
    let mut i: usize = 0;
    while i < xs.len()
        invariant
            i <= xs.len(),
            xv == names_view(xs@),
            yv == names_view(ys@),
            pred == (|x: Seq<char>| !yv.contains(x)),
            n == xv.take(i as int).filter(pred).len(),
            n <= i,
        decreases xs.len() - i,
    {
        proof {
            xv.take(i as int).lemma_filter_push(xv[i as int], pred);
            assert(xv.take(i + 1) =~= xv.take(i as int).push(xv[i as int]));
        }
        if !contains_name(ys, &xs[i]) {
            n = n + 1;
        }
        i = i + 1;
    }
    assert(xv.take(xs.len() as int) =~= xv);
    n
}

/// The orbital transfers needed to move from the object `from` orbits to the one
/// `to` orbits. `None` on a cycle, or when `from` or `to` lies on the other's path
/// so that fewer than two objects differ.
pub fn transfers(orbits: &Vec<(Vec<char>, Vec<char>)>, from: &Vec<char>, to: &Vec<char>) -> (r:
    Option<u64>)
    requires
        orbits.len() < 0x1_0000_0000,
    ensures
        match transfers_spec(orbit_view(orbits@), from@, to@) {
            Some(t) => r == Some(t as u64),
            None => r is None,
        },
{
    let pa = match path_of(orbits, from) {
        Some(p) => p,
        None => {
            return None;
        },
    };
    let pb = match path_of(orbits, to) {
        Some(p) => p,
        None => {
            return None;
        },
    };
    let a = count_missing(&pa, &pb);
    let b = count_missing(&pb, &pa);
    if a + b >= 2 {
        Some(a + b - 2)
    } else {
        None
    }
}

} // verus!
