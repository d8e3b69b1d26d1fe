use crate::text::{item_bounds, items_from, parse_int, parse_int_spec};
use vstd::hash_map::HashMapWithView;
use vstd::prelude::*;
use vstd::std_specs::hash::axiom_u64_obeys_hash_table_key_model;

verus! {

/// A direction a wire runs in from where it stands.
#[derive(Clone, Copy, Debug, PartialEq, Eq, Structural)]
pub enum Direction {
    Right,
    Left,
    Up,
    Down,
}

/// The unit step in a direction: right and up increase x and y.
pub open spec fn step_of(d: Direction) -> (int, int) {
    match d {
        Direction::Right => (1, 0),
        Direction::Left => (-1, 0),
        Direction::Up => (0, 1),
        Direction::Down => (0, -1),
    }
}

/// Coordinates stay within `[-GRID, GRID)`.
pub const GRID: i64 = 0x8000_0000;

pub open spec fn in_grid(c: (int, int)) -> bool {
    -GRID <= c.0 < GRID && -GRID <= c.1 < GRID
}

/// The number that stands for a cell of the grid.
pub open spec fn key_of(c: (int, int)) -> int {
    (c.0 + GRID) * 0x1_0000_0000 + (c.1 + GRID)
}

/// Where a wire laid from the origin by `moves` ends.
pub open spec fn end_of(moves: Seq<(Direction, u32)>) -> (int, int)
    decreases moves.len(),
{
    if moves.len() == 0 {
        (0, 0)
    } else {
        let e = end_of(moves.drop_last());
        let d = step_of(moves.last().0);
        let n = moves.last().1 as int;
        (e.0 + n * d.0, e.1 + n * d.1)
    }
}

/// The cells `count` unit steps in direction `d` pass from `start`, in order.
pub open spec fn segment(start: (int, int), d: Direction, count: nat) -> Seq<(int, int)> {
    Seq::new(count, |k: int| (start.0 + (k + 1) * step_of(d).0, start.1 + (k + 1) * step_of(d).1))
}

/// The cells a wire laid from the origin by `moves` passes, one per unit step.
pub open spec fn cells_of(moves: Seq<(Direction, u32)>) -> Seq<(int, int)>
    decreases moves.len(),
{
    if moves.len() == 0 {
        Seq::empty()
    } else {
        cells_of(moves.drop_last()) + segment(
            end_of(moves.drop_last()),
            moves.last().0,
            moves.last().1 as nat,
        )
    }
}

/// For the key of each cell passed, the count of distinct cells passed up to
/// its first visit.
pub open spec fn first_visits(cs: Seq<(int, int)>) -> Map<u64, u64>
    decreases cs.len(),
{
    if cs.len() == 0 {
        Map::empty()
    } else {
        let m = first_visits(cs.drop_last());
        let k = key_of(cs.last()) as u64;
        if m.contains_key(k) {
            m
        } else {
            m.insert(k, (m.len() + 1) as u64)
        }
    }
}

/// The combined steps to a cell both wires pass, other than the origin.
pub open spec fn crossing_cost(a: Map<u64, u64>, b: Map<u64, u64>, k: u64) -> Option<int> {
    if k != key_of((0, 0)) && a.contains_key(k) && b.contains_key(k) {
        Some(a[k] + b[k])
    } else {
        None
    }
}

/// A move written as a direction letter and a distance, such as `R8`.
pub open spec fn move_of(item: Seq<char>) -> Option<(Direction, u32)> {
    if item.len() == 0 {
        None
    } else {
        let d = if item[0] == 'R' {
            Some(Direction::Right)
        } else if item[0] == 'L' {
            Some(Direction::Left)
        } else if item[0] == 'U' {
            Some(Direction::Up)
        } else if item[0] == 'D' {
            Some(Direction::Down)
        } else {
            None
        };
        match (d, parse_int_spec(item.drop_first())) {
            (Some(d), Some(n)) => if 0 <= n <= u32::MAX {
                Some((d, n as u32))
            } else {
                None
            },
            _ => None,
        }
    }
}

/// Reads a wire written as moves separated by commas, such as `R8,U5,L5`;
/// `None` if a move is malformed.
pub fn parse_wire(line: &Vec<char>) -> (r: Option<Vec<(Direction, u32)>>)
    ensures
        match r {
            Some(v) => v.len() == items_from(line@, 0).len() && forall|k: int|
                0 <= k < v.len() ==> move_of(#[trigger] items_from(line@, 0)[k]) == Some(v@[k]),
            None => exists|k: int|
                0 <= k < items_from(line@, 0).len() && #[trigger] move_of(items_from(line@, 0)[k])
                    is None,
        },
{
    let bounds = item_bounds(line);
    let mut moves: Vec<(Direction, u32)> = Vec::new();
    for k in 0..bounds.len()
        invariant
            bounds.len() == items_from(line@, 0).len(),
            forall|j: int|
                0 <= j < bounds.len() ==> (#[trigger] bounds@[j]).0 < bounds@[j].1 <= line.len()
                    && line@.subrange(bounds@[j].0 as int, bounds@[j].1 as int) == items_from(
                    line@,
                    0,
                )[j],
            moves.len() == k,
            forall|j: int| 0 <= j < k ==> move_of(#[trigger] items_from(line@, 0)[j]) == Some(moves@[j]),
    {
        let (a, b) = bounds[k];
        let ghost item = items_from(line@, 0)[k as int];
        assert(bounds@[k as int].0 < bounds@[k as int].1);
        assert(item[0] == line@[a as int]);
        assert(item.drop_first() =~= line@.subrange(a + 1, b as int));
        let c = line[a];
        let d = if c == 'R' {
            Direction::Right
        } else if c == 'L' {
            Direction::Left
        } else if c == 'U' {
            Direction::Up
        } else if c == 'D' {
            Direction::Down
        } else {
            return None;
        };
        let n = match parse_int(line, a + 1, b) {
            Some(n) => n,
            None => {
                return None;
            },
        };
        if n < 0 || n > u32::MAX as i64 {
            return None;
        }
        moves.push((d, n as u32));
    }
    Some(moves)
}

proof fn lemma_cells_prefix(moves: Seq<(Direction, u32)>, a: int, b: int)
    requires
        0 <= a <= b <= moves.len(),
    ensures
        cells_of(moves.take(b)).len() >= cells_of(moves.take(a)).len(),
        cells_of(moves.take(b)).subrange(0, cells_of(moves.take(a)).len() as int) == cells_of(
            moves.take(a),
        ),
    decreases b - a,
{
    if a < b {
        lemma_cells_prefix(moves, a, b - 1);
        assert(moves.take(b).drop_last() =~= moves.take(b - 1));
        let p = cells_of(moves.take(b - 1));
        let q = cells_of(moves.take(b));
        assert(q == p + segment(end_of(moves.take(b - 1)), moves[b - 1].0, moves[b - 1].1 as nat));
        assert(q.subrange(0, p.len() as int) =~= p);
        assert(q.subrange(0, cells_of(moves.take(a)).len() as int) =~= p.subrange(
            0,
            cells_of(moves.take(a)).len() as int,
        ));
    } else {
        assert(cells_of(moves.take(b)).subrange(0, cells_of(moves.take(a)).len() as int) =~= cells_of(
            moves.take(a),
        ));
    }
}

/// The cells the wire passes, in order; `None` if it leaves the grid.
pub fn trace(moves: &Vec<(Direction, u32)>) -> (r: Option<Vec<(i64, i64)>>)
    ensures
        match r {
            Some(v) => v@.map_values(|c: (i64, i64)| (c.0 as int, c.1 as int)) == cells_of(moves@)
                && forall|j: int| 0 <= j < v.len() ==> in_grid(#[trigger] cells_of(moves@)[j]),
            None => exists|j: int|
                0 <= j < cells_of(moves@).len() && !in_grid(#[trigger] cells_of(moves@)[j]),
        },
{
    let mut out: Vec<(i64, i64)> = Vec::new();
    let mut x: i64 = 0;
    let mut y: i64 = 0;
    let ghost view = |c: (i64, i64)| (c.0 as int, c.1 as int);
    assert(out@.map_values(view) =~= cells_of(moves@.take(0)));
    for i in 0..moves.len()
        invariant
            view == (|c: (i64, i64)| (c.0 as int, c.1 as int)),
            out@.map_values(view) == cells_of(moves@.take(i as int)),
            (x as int, y as int) == end_of(moves@.take(i as int)),
            in_grid((x as int, y as int)),
            forall|j: int| 0 <= j < out.len() ==> in_grid(#[trigger] out@.map_values(view)[j]),
    {
        let (d, n) = moves[i];
        let ghost start = (x as int, y as int);
        let ghost base = out@.map_values(view);
        let (dx, dy): (i64, i64) = match d {
            Direction::Right => (1, 0),
            Direction::Left => (-1, 0),
            Direction::Up => (0, 1),
            Direction::Down => (0, -1),
        };
        assert((dx as int, dy as int) == step_of(d));
        let mut j: u32 = 0;
        while j < n
            invariant
                view == (|c: (i64, i64)| (c.0 as int, c.1 as int)),
                i < moves.len(),
                moves@[i as int] == (d, n),
                base == cells_of(moves@.take(i as int)),
                start == end_of(moves@.take(i as int)),
                j <= n,
                (dx as int, dy as int) == step_of(d),
                out@.map_values(view) == base + segment(start, d, j as nat),
                x == start.0 + j * dx,
                y == start.1 + j * dy,
                in_grid((x as int, y as int)),
                forall|k: int| 0 <= k < out.len() ==> in_grid(#[trigger] out@.map_values(view)[k]),
            decreases n - j,
        {
            proof {
                assert((j + 1) * dx == j * dx + dx) by (nonlinear_arith);
                assert((j + 1) * dy == j * dy + dy) by (nonlinear_arith);
            }
            let nx = x + dx;
            let ny = y + dy;
            assert(segment(start, d, n as nat)[j as int] == (nx as int, ny as int));
            assert(segment(start, d, (j + 1) as nat) =~= segment(start, d, j as nat).push(
                (nx as int, ny as int),
            ));
            if nx < -GRID || nx >= GRID || ny < -GRID || ny >= GRID {
                proof {
                    let whole = cells_of(moves@);
                    let upto = cells_of(moves@.take(i + 1));
                    assert(moves@.take(i + 1).drop_last() =~= moves@.take(i as int));
                    assert(upto == base + segment(start, d, n as nat));
                    lemma_cells_prefix(moves@, i + 1, moves.len() as int);
                    assert(moves@.take(moves.len() as int) =~= moves@);
                    let at = base.len() + j;
                    assert(upto[at] == whole[at]);
                    assert(!in_grid(whole[at]));
                }
                return None;
            }
            let ghost before = out@;
            out.push((nx, ny));
            x = nx;
            y = ny;
            proof {
                assert(out@.map_values(view) =~= before.map_values(view).push((nx as int, ny as int)));
                assert(out@.map_values(view) =~= base + segment(start, d, (j + 1) as nat));
            }
            j = j + 1;
        }
        proof {
            assert(moves@.take(i + 1).drop_last() =~= moves@.take(i as int));
            assert(moves@.take(i + 1).last() == (d, n));
        }
    }
    assert(moves@.take(moves.len() as int) =~= moves@);
    Some(out)
}

pub open spec fn all_in_grid(cs: Seq<(int, int)>) -> bool {
    forall|j: int| 0 <= j < cs.len() ==> in_grid(#[trigger] cs[j])
}

proof fn lemma_first_visits_keys(cs: Seq<(int, int)>)
    ensures
        first_visits(cs).dom().finite(),
        forall|j: int| 0 <= j < cs.len() ==> first_visits(cs).contains_key(#[trigger] key_of(cs[j]) as u64),
        forall|k: u64| first_visits(cs).contains_key(k) ==> exists|j: int|
            0 <= j < cs.len() && #[trigger] key_of(cs[j]) as u64 == k,
    decreases cs.len(),
{
    if cs.len() > 0 {
        let p = cs.drop_last();
        lemma_first_visits_keys(p);
        assert forall|j: int| 0 <= j < cs.len() implies first_visits(cs).contains_key(
            #[trigger] key_of(cs[j]) as u64,
        ) by {
            if j < p.len() {
                assert(cs[j] == p[j]);
            }
        }
        assert forall|k: u64| first_visits(cs).contains_key(k) implies exists|j: int|
            0 <= j < cs.len() && #[trigger] key_of(cs[j]) as u64 == k by {
            if first_visits(p).contains_key(k) {
                let j = choose|j: int| 0 <= j < p.len() && #[trigger] key_of(p[j]) as u64 == k;
                assert(cs[j] == p[j]);
            } else {
                assert(key_of(cs[cs.len() - 1]) as u64 == k);
            }
        }
    }
}

fn cell_key(c: (i64, i64)) -> (r: u64)
    requires
        in_grid((c.0 as int, c.1 as int)),
    ensures
        r == key_of((c.0 as int, c.1 as int)) as u64,
        r as int == key_of((c.0 as int, c.1 as int)),
{
    let hi = (c.0 + GRID) as u64;
    let lo = (c.1 + GRID) as u64;
    assert(hi * 0x1_0000_0000 + lo <= u64::MAX) by (nonlinear_arith)
        requires
            hi < 0x1_0000_0000,
            lo < 0x1_0000_0000,
    ;
    hi * 0x1_0000_0000 + lo
}

fn first_visit_map(cells: &Vec<(i64, i64)>) -> (r: HashMapWithView<u64, u64>)
    requires
        all_in_grid(cells@.map_values(|c: (i64, i64)| (c.0 as int, c.1 as int))),
    ensures
        r@ == first_visits(cells@.map_values(|c: (i64, i64)| (c.0 as int, c.1 as int))),
{
    broadcast use axiom_u64_obeys_hash_table_key_model;

    let ghost cv = cells@.map_values(|c: (i64, i64)| (c.0 as int, c.1 as int));
    let mut m: HashMapWithView<u64, u64> = HashMapWithView::new();
    assert(cv.take(0) =~= Seq::<(int, int)>::empty());
    for i in 0..cells.len()
        invariant
            cv == cells@.map_values(|c: (i64, i64)| (c.0 as int, c.1 as int)),
            all_in_grid(cv),
            m@ == first_visits(cv.take(i as int)),
            m@.dom().finite(),
            m@.len() <= i,
    {
        assert(cv[i as int] == (cells@[i as int].0 as int, cells@[i as int].1 as int));
        let k = cell_key(cells[i]);
        assert(cv.take(i + 1).drop_last() =~= cv.take(i as int));
        assert(cv.take(i + 1).last() == cv[i as int]);
        if !m.contains_key(&k) {
            let l = m.len();
            m.insert(k, l as u64 + 1);
        }
    }
    assert(cv.take(cells.len() as int) =~= cv);
    m
}

/// Of the cells both wires pass, other than the origin, the least combined
/// count of steps to reach it, where each wire counts the distinct cells it has
/// passed up to its first visit. `None` if the wires never cross or one leaves
/// the grid.
pub fn closest_crossing(a: &Vec<(Direction, u32)>, b: &Vec<(Direction, u32)>) -> (r: Option<u128>)
    ensures
        !(all_in_grid(cells_of(a@)) && all_in_grid(cells_of(b@))) ==> r is None,
        all_in_grid(cells_of(a@)) && all_in_grid(cells_of(b@)) ==> ({
            let fa = first_visits(cells_of(a@));
            let fb = first_visits(cells_of(b@));
            match r {
                Some(best) => (exists|k: u64| #[trigger] crossing_cost(fa, fb, k) == Some(
                    best as int,
                )) && forall|k: u64|
                    (#[trigger] crossing_cost(fa, fb, k)) is Some ==> best <= crossing_cost(
                        fa,
                        fb,
                        k,
                    )->Some_0,
                None => forall|k: u64| (#[trigger] crossing_cost(fa, fb, k)) is None,
            }
        }),
{
    let ca = match trace(a) {
        Some(c) => c,
        None => {
            return None;
        },
    };
    let cb = match trace(b) {
        Some(c) => c,
        None => {
            return None;
        },
    };
    let ghost va = ca@.map_values(|c: (i64, i64)| (c.0 as int, c.1 as int));
    let ghost vb = cb@.map_values(|c: (i64, i64)| (c.0 as int, c.1 as int));
    assert(all_in_grid(va));
    assert(all_in_grid(vb));
    let ma = first_visit_map(&ca);
    let mb = first_visit_map(&cb);
    let ghost fa = ma@;
    let ghost fb = mb@;
    proof {
        lemma_first_visits_keys(va);
        lemma_first_visits_keys(vb);
    }
    let origin = cell_key((0, 0));
    let mut best: Option<u128> = None;
    for j in 0..cb.len()
        invariant
            fa == ma@,
            fb == mb@,
            vb == cb@.map_values(|c: (i64, i64)| (c.0 as int, c.1 as int)),
            all_in_grid(vb),
            origin == key_of((0, 0)),
            forall|i: int| 0 <= i < vb.len() ==> fb.contains_key(#[trigger] key_of(vb[i]) as u64),
            best matches Some(x) ==> exists|k: u64| #[trigger] crossing_cost(fa, fb, k) == Some(x as int),
            forall|i: int|
                0 <= i < j ==> (#[trigger] crossing_cost(fa, fb, key_of(vb[i]) as u64)) is Some
                    ==> best is Some && best->Some_0 <= crossing_cost(fa, fb, key_of(vb[i]) as u64)->Some_0,
    {
        assert(vb[j as int] == (cb@[j as int].0 as int, cb@[j as int].1 as int));
        let k = cell_key(cb[j]);
        if k != origin {
            match ma.get(&k) {
                Some(x) => {
                    let y = match mb.get(&k) {
                        Some(y) => *y,
                        None => {
                            assert(fb.contains_key(key_of(vb[j as int]) as u64));
                            0
                        },
                    };
                    let cost = *x as u128 + y as u128;
                    assert(crossing_cost(fa, fb, k) == Some(cost as int));
                    match best {
                        Some(b0) => {
                            if cost < b0 {
                                best = Some(cost);
                            }
                        },
                        None => {
                            best = Some(cost);
                        },
                    }
                },
                None => {},
            }
        }
    }
    proof {
        assert forall|k: u64| (#[trigger] crossing_cost(fa, fb, k)) is Some implies best is Some
            && best->Some_0 <= crossing_cost(fa, fb, k)->Some_0 by {
            let i = choose|i: int| 0 <= i < vb.len() && #[trigger] key_of(vb[i]) as u64 == k;
            assert(crossing_cost(fa, fb, key_of(vb[i]) as u64) is Some);
        }
    }
    best
}

} // verus!
