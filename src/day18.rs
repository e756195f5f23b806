use vstd::prelude::*;
use vstd::string::StringSliceAdditionalSpecFns;
use crate::lattice::{lattice_distances, lattice_shortest_paths, MAX_LATTICE};
use crate::text::{int_views, opt_int, parse_lines, parsed_lines};

verus! {

/// The falling bytes' positions: the first two numbers of each line.
pub open spec fn byte_positions(s: Seq<u8>) -> Option<Seq<(int, int)>> {
    match parsed_lines(s) {
        Some(rs) => if forall|i: int| 0 <= i < rs.len() ==> (#[trigger] rs[i]).len() >= 2 {
            Some(Seq::new(rs.len(), |i: int| (rs[i][0], rs[i][1])))
        } else {
            None
        },
        None => None,
    }
}

/// Which cells of a `side` by `side` memory are still free (1) once the
/// first `k` bytes have fallen, and which are taken (0); bytes outside the
/// memory change nothing.
pub open spec fn free_after(cs: Seq<(int, int)>, k: int, side: int) -> Seq<u8> {
    Seq::new(
        (side * side) as nat,
        |v: int|
            if exists|i: int| 0 <= i < k && i < cs.len() && #[trigger] cs[i] == (v % side, v / side) {
                0u8
            } else {
                1u8
            },
    )
}

/// The fewest steps from the top left corner to the bottom right one once
/// `k` bytes have fallen; `None` where a corner is taken or no path is left.
pub open spec fn steps_after(cs: Seq<(int, int)>, k: int, side: int) -> Option<int> {
    let free = free_after(cs, k, side);
    let last = side * side - 1;
    if free[0] == 0 || free[last] == 0 {
        None
    } else {
        match lattice_distances(free, side, side, 0)[last] {
            Some(d) => Some(d as int),
            None => None,
        }
    }
}

/// Whether a side length is one the memory can have.
pub open spec fn side_ok(side: int) -> bool {
    1 <= side && side * side <= MAX_LATTICE
}

/// The first byte, from the `j`-th on (counting from one), after whose fall
/// no path is left.
pub open spec fn first_cut(cs: Seq<(int, int)>, side: int, j: int) -> Option<(int, int)>
    decreases cs.len() + 1 - j,
{
    if j < 1 || j > cs.len() {
        None
    } else if steps_after(cs, j, side) is None {
        Some(cs[j - 1])
    } else {
        first_cut(cs, side, j + 1)
    }
}

/// Reads the falling bytes' positions.
fn parse_positions(input: &str) -> (r: Option<Vec<(i64, i64)>>)
    ensures
        match r {
            Some(v) => byte_positions(input.spec_bytes()) == Some(
                v@.map_values(|p: (i64, i64)| (p.0 as int, p.1 as int)),
            ),
            None => byte_positions(input.spec_bytes()) is None,
        },
{
    let rows = match parse_lines(input.as_bytes()) {
        Some(v) => v,
        None => {
            return None;
        },
    };
    let ghost rs = int_views(rows@);
    let mut out: Vec<(i64, i64)> = Vec::new();
    let mut i: usize = 0;
    while i < rows.len()
        invariant
            i <= rows@.len(),
            rs == int_views(rows@),
            parsed_lines(input.spec_bytes()) == Some(rs),
            out@.len() == i,
            forall|k: int| 0 <= k < i ==> (#[trigger] rs[k]).len() >= 2 && out@[k].0 == rs[k][0]
                && out@[k].1 == rs[k][1],
        decreases rows@.len() - i,
    {
        proof {
            assert(rs[i as int] == rows@[i as int]@.map_values(|y: i64| y as int));
        }
        if rows[i].len() < 2 {
            return None;
        }
        out.push((rows[i][0], rows[i][1]));
        i = i + 1;
    }
    proof {
        assert(Seq::new(rs.len(), |k: int| (rs[k][0], rs[k][1])) =~= out@.map_values(
            |p: (i64, i64)| (p.0 as int, p.1 as int),
        ));
    }
    Some(out)
}

proof fn lemma_split_index(v: int, side: int)
    requires
        side >= 1,
        v >= 0,
    ensures
        v == (v / side) * side + v % side,
        0 <= v % side < side,
{
    assert(v == (v / side) * side + v % side && 0 <= v % side < side) by (nonlinear_arith)
        requires
            side >= 1,
    ;
}

proof fn lemma_join_index(x: int, y: int, side: int)
    requires
        side >= 1,
        0 <= x < side,
        0 <= y,
    ensures
        (y * side + x) % side == x,
        (y * side + x) / side == y,
{
    vstd::arithmetic::div_mod::lemma_fundamental_div_mod_converse(y * side + x, side, y, x);
}

/// The free cells once the first `k` bytes have fallen.
fn free_cells(cs: &Vec<(i64, i64)>, k: usize, side: usize) -> (r: Vec<u8>)
    requires
        1 <= side,
        side * side <= MAX_LATTICE,
    ensures
        r@ == free_after(cs@.map_values(|p: (i64, i64)| (p.0 as int, p.1 as int)), k as int, side as int),
{
    let ghost ps = cs@.map_values(|p: (i64, i64)| (p.0 as int, p.1 as int));
    proof {
        assert(side <= 10000) by (nonlinear_arith)
            requires
                1 <= side,
                side * side <= 100000000,
        ;
    }
    let n = side * side;
    let mut free: Vec<u8> = Vec::new();
    let mut v: usize = 0;
    while v < n
        invariant
            v <= n,
            free@.len() == v,
            forall|u: int| 0 <= u < v ==> #[trigger] free@[u] == 1,
        decreases n - v,
    {
        free.push(1);
        v = v + 1;
    }
    let m = if k < cs.len() { k } else { cs.len() };
    let mut i: usize = 0;
    while i < m
        invariant
            1 <= side <= 10000,
            n == side * side,
            n <= MAX_LATTICE,
            m <= cs@.len(),
            m <= k,
            (m < k ==> m == cs@.len()),
            i <= m,
            ps == cs@.map_values(|p: (i64, i64)| (p.0 as int, p.1 as int)),
            free@.len() == n,
            forall|u: int|
                0 <= u < n ==> ((#[trigger] free@[u] == 1) == !exists|j: int|
                    0 <= j < i && #[trigger] ps[j] == (u % (side as int), u / (side as int))),
            forall|u: int| 0 <= u < n ==> #[trigger] free@[u] == 0 || free@[u] == 1,
        decreases m - i,
    {
        let (x, y) = cs[i];
        let ghost before = free@;
        if 0 <= x && x < side as i64 && 0 <= y && y < side as i64 {
            proof {
                assert(0 <= y * side <= y * side + x < n) by (nonlinear_arith)
                    requires
                        0 <= x < side,
                        0 <= y < side,
                        n == side * side,
                ;
            }
            let u0 = (y as usize) * side + (x as usize);
            proof {
                lemma_join_index(x as int, y as int, side as int);
            }
            free.set(u0, 0);
            proof {
                assert forall|u: int| 0 <= u < n implies ((#[trigger] free@[u] == 1) == !exists|j: int|
                    0 <= j < i + 1 && #[trigger] ps[j] == (u % (side as int), u / (side as int))) by {
                    assert(ps[i as int] == (x as int, y as int));
                    if u != u0 {
                        lemma_split_index(u, side as int);
                        if ps[i as int] == (u % (side as int), u / (side as int)) {
                            assert(u == y * side + x);
                        }
                        assert(free@[u] == before[u]);
                    }
                }
            }
        } else {
            proof {
                assert forall|u: int| 0 <= u < n implies ((#[trigger] free@[u] == 1) == !exists|j: int|
                    0 <= j < i + 1 && #[trigger] ps[j] == (u % (side as int), u / (side as int))) by {
                    assert(ps[i as int] == (x as int, y as int));
                    lemma_split_index(u, side as int);
                    assert(u / (side as int) < side) by (nonlinear_arith)
                        requires
                            0 <= u < n,
                            n == side * side,
                            side >= 1,
                    ;
                    assert(ps[i as int] != (u % (side as int), u / (side as int)));
                    assert(free@[u] == before[u]);
                    if exists|j: int| 0 <= j < i + 1 && #[trigger] ps[j] == (u % (side as int), u / (side as int)) {
                        let j = choose|j: int| 0 <= j < i + 1 && #[trigger] ps[j] == (u % (side as int), u / (side as int));
                        assert(j < i);
                    }
                }
            }
        }
        i = i + 1;
    }
    proof {
        assert(free@ =~= free_after(ps, k as int, side as int));
    }
    free
}

/// The fewest steps across the memory once `k` bytes have fallen.
fn steps_with(cs: &Vec<(i64, i64)>, k: usize, side: usize) -> (r: Option<i64>)
    requires
        1 <= side,
        side * side <= MAX_LATTICE,
    ensures
        opt_int(r) == steps_after(cs@.map_values(|p: (i64, i64)| (p.0 as int, p.1 as int)), k as int, side as int),
{
    let free = free_cells(cs, k, side);
    proof {
        assert(side * side >= 1) by (nonlinear_arith)
            requires
                1 <= side,
        ;
    }
    let last = side * side - 1;
    if free[0] == 0 || free[last] == 0 {
        return None;
    }
    proof {
        assert(side <= MAX_LATTICE) by (nonlinear_arith)
            requires
                1 <= side,
                side * side <= MAX_LATTICE,
        ;
    }
    let d = lattice_shortest_paths(&free, side, side, 0);
    d[last]
}

/// The side of a memory whose largest coordinate is `size`, where it is one
/// the memory can have.
fn side_of(size: i64) -> (r: Option<usize>)
    ensures
        match r {
            Some(side) => side == size + 1 && side_ok(side as int),
            None => !side_ok(size + 1),
        },
{
    if size < 0 || size >= 10000 {
        proof {
            if size >= 10000 {
                assert((size + 1) * (size + 1) > MAX_LATTICE) by (nonlinear_arith)
                    requires
                        size >= 10000,
                ;
            }
        }
        return None;
    }
    let side = (size + 1) as usize;
    proof {
        assert(side * side <= 100000000) by (nonlinear_arith)
            requires
                1 <= side <= 10000,
        ;
    }
    Some(side)
}

/// The fewest steps from `(0, 0)` to `(size, size)` once the first `fallen`
/// bytes of the input have fallen; `None` where a line holds no position,
/// the memory is too large, or no path is left.
pub fn part_1(input: &str, size: i64, fallen: usize) -> (r: Option<i64>)
    ensures
        opt_int(r) == match byte_positions(input.spec_bytes()) {
            Some(cs) => if side_ok(size + 1) {
                steps_after(cs, fallen as int, size + 1)
            } else {
                None
            },
            None => None,
        },
{
    let cs = match parse_positions(input) {
        Some(v) => v,
        None => {
            return None;
        },
    };
    match side_of(size) {
        Some(side) => steps_with(&cs, fallen, side),
        None => None,
    }
}

/// The position of the first byte after whose fall no path is left from
/// `(0, 0)` to `(size, size)`; `None` where there is none, a line holds no
/// position, or the memory is too large.
pub fn part_2(input: &str, size: i64) -> (r: Option<(i64, i64)>)
    ensures
        match r {
            Some((x, y)) => match byte_positions(input.spec_bytes()) {
                Some(cs) => side_ok(size + 1) && first_cut(cs, size + 1, 1) == Some((x as int, y as int)),
                None => false,
            },
            None => match byte_positions(input.spec_bytes()) {
                Some(cs) => !side_ok(size + 1) || first_cut(cs, size + 1, 1) is None,
                None => true,
            },
        },
{
    let cs = match parse_positions(input) {
        Some(v) => v,
        None => {
            return None;
        },
    };
    let ghost ps = cs@.map_values(|p: (i64, i64)| (p.0 as int, p.1 as int));
    let side = match side_of(size) {
        Some(s) => s,
        None => {
            return None;
        },
    };
    let n = cs.len();
    let mut i: usize = 0;
    while i < n
        invariant
            0 <= i <= n,
            n == cs@.len(),
            ps == cs@.map_values(|p: (i64, i64)| (p.0 as int, p.1 as int)),
            byte_positions(input.spec_bytes()) == Some(ps),
            side == size + 1,
            side_ok(side as int),
            first_cut(ps, side as int, 1) == first_cut(ps, side as int, i + 1),
        decreases n - i,
    {
        if steps_with(&cs, i + 1, side).is_none() {
            return Some(cs[i]);
        }
        i = i + 1;
    }
    None
}

} // verus!
