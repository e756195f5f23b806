use vstd::prelude::*;
use vstd::string::StringSliceAdditionalSpecFns;
use crate::text::{fits_i64, int_views, opt_int, parse_lines, parsed_lines};
use crate::vector::Vector2d;
use crate::graph::{lemma_distance_is_least, reachable, WeightedGraph};

verus! {

/// How many seconds the robots move before the safety factor is taken.
pub const SECONDS: i64 = 100;

/// The robots: position then velocity, the first four numbers of each line.
pub open spec fn robots(s: Seq<u8>) -> Option<Seq<(int, int, int, int)>> {
    match parsed_lines(s) {
        Some(rs) => if forall|i: int| 0 <= i < rs.len() ==> (#[trigger] rs[i]).len() >= 4 {
            Some(Seq::new(rs.len(), |i: int| (rs[i][0], rs[i][1], rs[i][2], rs[i][3])))
        } else {
            None
        },
        None => None,
    }
}

/// A robot's quadrant after `SECONDS` seconds on a `bx` by `by` floor that
/// wraps round: `None` for a robot on a middle line, else
/// `x / (bx / 2 + 1) + 2 * (y / (by / 2 + 1))`.
pub open spec fn quadrant(r: (int, int, int, int), bx: int, by: int) -> Option<int> {
    let x = (r.0 + SECONDS * r.2) % bx;
    let y = (r.1 + SECONDS * r.3) % by;
    if x == bx / 2 || y == by / 2 {
        None
    } else {
        Some(x / (bx / 2 + 1) + 2 * (y / (by / 2 + 1)))
    }
}

/// How many of the first `n` robots end in quadrant `k`.
pub open spec fn in_quadrant(rs: Seq<(int, int, int, int)>, bx: int, by: int, k: int, n: int) -> int
    decreases n,
{
    if n <= 0 {
        0
    } else {
        in_quadrant(rs, bx, by, k, n - 1) + if quadrant(rs[n - 1], bx, by) == Some(k) {
            1int
        } else {
            0int
        }
    }
}

/// Whether every robot's numbers stay in the `i64` range while it moves.
pub open spec fn moves_fit(rs: Seq<(int, int, int, int)>) -> bool {
    forall|i: int|
        0 <= i < rs.len() ==> fits_i64(SECONDS * (#[trigger] rs[i]).2) && fits_i64(SECONDS * rs[i].3)
            && fits_i64(rs[i].0 + SECONDS * rs[i].2) && fits_i64(rs[i].1 + SECONDS * rs[i].3)
}

/// The safety factor: the product of the robots in each quadrant, where the
/// floor has sides of at least one, every quadrant is one of four, and the
/// numbers fit; else `None`.
pub open spec fn safety_factor(rs: Seq<(int, int, int, int)>, bx: int, by: int) -> Option<int> {
    if bx <= 0 || by <= 0 || !moves_fit(rs) {
        None
    } else if exists|i: int| 0 <= i < rs.len() && #[trigger] quadrant(rs[i], bx, by) is Some
        && !(0 <= quadrant(rs[i], bx, by)->0 < 4) {
        None
    } else {
        let n = rs.len() as int;
        let p = in_quadrant(rs, bx, by, 0, n) * in_quadrant(rs, bx, by, 1, n) * in_quadrant(rs, bx, by, 2, n)
            * in_quadrant(rs, bx, by, 3, n);
        if fits_i64(p) {
            Some(p)
        } else {
            None
        }
    }
}

proof fn lemma_in_quadrant_bound(rs: Seq<(int, int, int, int)>, bx: int, by: int, k: int, n: int)
    requires
        n >= 0,
    ensures
        0 <= in_quadrant(rs, bx, by, k, n) <= n,
    decreases n,
{
    if n > 0 {
        lemma_in_quadrant_bound(rs, bx, by, k, n - 1);
    }
}

/// Where a robot stands after `t` seconds on a `bx` by `by` floor.
pub open spec fn position_after(r: (int, int, int, int), bx: int, by: int, t: int) -> (int, int) {
    ((r.0 + t * r.2) % bx, (r.1 + t * r.3) % by)
}

/// Reads the robots: position then velocity on each line.
pub fn parse_robots(input: &str) -> (r: Option<Vec<(i64, i64, i64, i64)>>)
    ensures
        match r {
            Some(v) => robots(input.spec_bytes()) == Some(
                v@.map_values(|q: (i64, i64, i64, i64)| (q.0 as int, q.1 as int, q.2 as int, q.3 as int)),
            ),
            None => robots(input.spec_bytes()) is None,
        },
{
    let rows = match parse_lines(input.as_bytes()) {
        Some(v) => v,
        None => {
            return None;
        },
    };
    let ghost ls = int_views(rows@);
    let mut out: Vec<(i64, i64, i64, i64)> = Vec::new();
    let mut k: usize = 0;
    while k < rows.len()
        invariant
            k <= rows@.len(),
            ls == int_views(rows@),
            parsed_lines(input.spec_bytes()) == Some(ls),
            out@.len() == k,
            forall|i: int| 0 <= i < k ==> (#[trigger] ls[i]).len() >= 4 && out@[i].0 == ls[i][0]
                && out@[i].1 == ls[i][1] && out@[i].2 == ls[i][2] && out@[i].3 == ls[i][3],
        decreases rows@.len() - k,
    {
        proof {
            assert(ls[k as int] == rows@[k as int]@.map_values(|y: i64| y as int));
        }
        if rows[k].len() < 4 {
            return None;
        }
        out.push((rows[k][0], rows[k][1], rows[k][2], rows[k][3]));
        k = k + 1;
    }
    proof {
        assert(Seq::new(ls.len(), |i: int| (ls[i][0], ls[i][1], ls[i][2], ls[i][3])) =~= out@.map_values(
            |q: (i64, i64, i64, i64)| (q.0 as int, q.1 as int, q.2 as int, q.3 as int),
        ));
    }
    Some(out)
}

/// Where each robot stands after `t` seconds on a floor of `bounds`;
/// `None` where a side is not positive or a number leaves the `i64` range.
pub fn positions_after(rs: &Vec<(i64, i64, i64, i64)>, bounds: Vector2d, t: i64) -> (r: Option<Vec<(i64, i64)>>)
    ensures
        match r {
            Some(ps) => bounds.0 > 0 && bounds.1 > 0 && ps@.len() == rs@.len() && forall|i: int|
                0 <= i < rs@.len() ==> (ps@[i].0 as int, ps@[i].1 as int) == #[trigger] position_after(
                    (rs@[i].0 as int, rs@[i].1 as int, rs@[i].2 as int, rs@[i].3 as int),
                    bounds.0 as int,
                    bounds.1 as int,
                    t as int,
                ),
            None => bounds.0 <= 0 || bounds.1 <= 0 || exists|i: int|
                0 <= i < rs@.len() && !(fits_i64(t * (#[trigger] rs@[i]).2) && fits_i64(rs@[i].0 + t * rs@[i].2)
                    && fits_i64(t * rs@[i].3) && fits_i64(rs@[i].1 + t * rs@[i].3)),
        },
{
    let bx = bounds.0 as i64;
    let by = bounds.1 as i64;
    if bx <= 0 || by <= 0 {
        return None;
    }
    let mut out: Vec<(i64, i64)> = Vec::new();
    let mut i: usize = 0;
    while i < rs.len()
        invariant
            i <= rs@.len(),
            bx == bounds.0,
            by == bounds.1,
            bx > 0,
            by > 0,
            out@.len() == i,
            forall|k: int|
                0 <= k < i ==> (out@[k].0 as int, out@[k].1 as int) == #[trigger] position_after(
                    (rs@[k].0 as int, rs@[k].1 as int, rs@[k].2 as int, rs@[k].3 as int),
                    bx as int,
                    by as int,
                    t as int,
                ),
        decreases rs@.len() - i,
    {
        let (px, py, vx, vy) = rs[i];
        proof {
            assert(rs@[i as int] == (px, py, vx, vy));
        }
        let x = match t.checked_mul(vx) {
            Some(m) => match px.checked_add(m) {
                Some(v) => v.checked_rem_euclid(bx).unwrap(),
                None => {
                    return None;
                },
            },
            None => {
                return None;
            },
        };
        let y = match t.checked_mul(vy) {
            Some(m) => match py.checked_add(m) {
                Some(v) => v.checked_rem_euclid(by).unwrap(),
                None => {
                    return None;
                },
            },
            None => {
                return None;
            },
        };
        out.push((x, y));
        i = i + 1;
    }
    Some(out)
}

/// The most robots that `find_connected` takes.
pub const MAX_ROBOTS: usize = 60000;

/// Whether robots `i` and `j` stand on touching cells, diagonals included.
pub open spec fn touching(ps: Seq<(int, int)>, i: int, j: int) -> bool {
    i != j && -1 <= ps[i].0 - ps[j].0 <= 1 && -1 <= ps[i].1 - ps[j].1 <= 1
}

/// The edges between touching robots among the first `k` pairs, pair `k`
/// being robots `k / n` and `k % n`.
pub open spec fn touch_edges_upto(ps: Seq<(int, int)>, k: int) -> Seq<(int, int, int)>
    decreases k,
{
    if k <= 0 {
        Seq::empty()
    } else {
        let n = ps.len() as int;
        let i = (k - 1) / n;
        let j = (k - 1) % n;
        touch_edges_upto(ps, k - 1) + if touching(ps, i, j) {
            seq![(i, j, 1int)]
        } else {
            Seq::empty()
        }
    }
}

/// The graph of touching robots.
pub open spec fn touch_edges(ps: Seq<(int, int)>) -> Seq<(int, int, int)> {
    touch_edges_upto(ps, (ps.len() * ps.len()) as int)
}

/// Marks the robots connected to robot `start` through touching robots;
/// `None` where there are more than `MAX_ROBOTS` robots.
pub fn find_connected(ps: &Vec<(i64, i64)>, start: usize) -> (r: Option<Vec<bool>>)
    requires
        start < ps@.len(),
    ensures
        match r {
            Some(marks) => marks@.len() == ps@.len() && forall|i: int|
                0 <= i < ps@.len() ==> (#[trigger] marks@[i] <==> reachable(
                    touch_edges(ps@.map_values(|p: (i64, i64)| (p.0 as int, p.1 as int))),
                    start as int,
                    i,
                )),
            None => ps@.len() > MAX_ROBOTS,
        },
{
    let n = ps.len();
    if n > MAX_ROBOTS {
        return None;
    }
    let ghost pv = ps@.map_values(|p: (i64, i64)| (p.0 as int, p.1 as int));
    let mut gr = WeightedGraph::new();
    let mut k: usize = 0;
    while k < n
        invariant
            k <= n,
            n <= MAX_ROBOTS,
            gr.wf(),
            gr.node_count() == k,
            gr.edges() == Seq::<(int, int, int)>::empty(),
            gr.total_weight() == 0,
        decreases n - k,
    {
        gr.add_node();
        k = k + 1;
    }
    let mut i: usize = 0;
    while i < n
        invariant
            n == ps@.len(),
            n <= MAX_ROBOTS,
            pv == ps@.map_values(|p: (i64, i64)| (p.0 as int, p.1 as int)),
            i <= n,
            gr.wf(),
            gr.node_count() == n,
            gr.edges() == touch_edges_upto(pv, i * n),
            gr.edges().len() <= i * n,
            gr.total_weight() <= i * n,
        decreases n - i,
    {
        let mut j: usize = 0;
        while j < n
            invariant
                n == ps@.len(),
                n <= MAX_ROBOTS,
                pv == ps@.map_values(|p: (i64, i64)| (p.0 as int, p.1 as int)),
                i < n,
                j <= n,
                gr.wf(),
                gr.node_count() == n,
                gr.edges() == touch_edges_upto(pv, i * n + j),
                gr.edges().len() <= i * n + j,
                gr.total_weight() <= i * n + j,
            decreases n - j,
        {
            proof {
                assert(i * n + j < n * n) by (nonlinear_arith)
                    requires
                        i < n,
                        j < n,
                ;
                assert(n * n <= 3600000000) by (nonlinear_arith)
                    requires
                        n <= 60000,
                ;
                vstd::arithmetic::div_mod::lemma_fundamental_div_mod_converse(i * n + j, n as int, i as int, j as int);
            }
            let (xi, yi) = ps[i];
            let (xj, yj) = ps[j];
            let near = i != j && (xi as i128) - (xj as i128) >= -1 && (xi as i128) - (xj as i128) <= 1
                && (yi as i128) - (yj as i128) >= -1 && (yi as i128) - (yj as i128) <= 1;
            let ghost before = gr.edges();
            if near {
                gr.add_edge(i as u32, j as u32, 1);
            }
            proof {
                assert(gr.edges() =~= touch_edges_upto(pv, i * n + j + 1));
            }
            j = j + 1;
        }
        proof {
            assert(i * n + n == (i + 1) * n) by (nonlinear_arith);
        }
        i = i + 1;
    }
    let d = gr.shortest_paths(start as u32);
    let ghost edges = touch_edges(pv);
    let mut marks: Vec<bool> = Vec::new();
    let mut q: usize = 0;
    while q < n
        invariant
            n == ps@.len(),
            q <= n,
            d@.len() == n,
            gr.wf(),
            gr.node_count() == n,
            edges == gr.edges(),
            start < n,
            crate::graph::shortest_distances(edges, n as nat, start as int, d@),
            marks@.len() == q,
            forall|v: int| 0 <= v < q ==> (#[trigger] marks@[v] <==> reachable(edges, start as int, v)),
        decreases n - q,
    {
        proof {
            gr.lemma_edges_ok();
            if reachable(edges, start as int, q as int) {
                let p = choose|p: Seq<int>| crate::graph::is_walk(edges, p, start as int, q as int);
                lemma_distance_is_least(edges, n as nat, start as int, d@, q as int, p);
            }
        }
        marks.push(d[q].is_some());
        q = q + 1;
    }
    Some(marks)
}

/// The safety factor of the robots in the input after `SECONDS` seconds on
/// a floor of `bounds`; `None` where a line does not hold a robot, or as
/// `safety_factor` says.
pub fn part_1(input: &str, bounds: Vector2d) -> (r: Option<i64>)
    ensures
        opt_int(r) == match robots(input.spec_bytes()) {
            Some(rs) => safety_factor(rs, bounds.0 as int, bounds.1 as int),
            None => None,
        },
{
    let rows = match parse_lines(input.as_bytes()) {
        Some(v) => v,
        None => {
            return None;
        },
    };
    let ghost ls = int_views(rows@);
    let ghost rs = Seq::new(ls.len(), |i: int| (ls[i][0], ls[i][1], ls[i][2], ls[i][3]));
    let mut k: usize = 0;
    while k < rows.len()
        invariant
            k <= rows@.len(),
            ls == int_views(rows@),
            parsed_lines(input.spec_bytes()) == Some(ls),
            forall|i: int| 0 <= i < k ==> (#[trigger] ls[i]).len() >= 4,
        decreases rows@.len() - k,
    {
        proof {
            assert(ls[k as int] == rows@[k as int]@.map_values(|y: i64| y as int));
        }
        if rows[k].len() < 4 {
            return None;
        }
        k = k + 1;
    }
    proof {
        assert(robots(input.spec_bytes()) == Some(rs));
    }
    let bx = bounds.0 as i64;
    let by = bounds.1 as i64;
    if bx <= 0 || by <= 0 {
        return None;
    }
    let mut counts: [u64; 4] = [0, 0, 0, 0];
    let n = rows.len();
    let mut i: usize = 0;
    while i < n
        invariant
            n == rows@.len(),
            i <= n,
            ls == int_views(rows@),
            rs == Seq::new(ls.len(), |i: int| (ls[i][0], ls[i][1], ls[i][2], ls[i][3])),
            forall|j: int| 0 <= j < n ==> (#[trigger] ls[j]).len() >= 4,
            robots(input.spec_bytes()) == Some(rs),
            bx == bounds.0,
            by == bounds.1,
            bx > 0,
            by > 0,
            forall|j: int| 0 <= j < i ==> fits_i64(SECONDS * (#[trigger] rs[j]).2) && fits_i64(SECONDS * rs[j].3)
                && fits_i64(rs[j].0 + SECONDS * rs[j].2) && fits_i64(rs[j].1 + SECONDS * rs[j].3),
            forall|j: int| 0 <= j < i ==> (#[trigger] quadrant(rs[j], bx as int, by as int)) is Some
                ==> 0 <= quadrant(rs[j], bx as int, by as int)->0 < 4,
            forall|q: int| 0 <= q < 4 ==> counts@[q] == in_quadrant(rs, bx as int, by as int, q, i as int),
            forall|q: int| 0 <= q < 4 ==> counts@[q] <= i,
        decreases n - i,
    {
        let row = &rows[i];
        proof {
            assert(ls[i as int] == row@.map_values(|y: i64| y as int));
            assert(rs[i as int] == (row@[0] as int, row@[1] as int, row@[2] as int, row@[3] as int));
            if !moves_fit(rs) || exists|j: int| 0 <= j < rs.len() && #[trigger] quadrant(rs[j], bx as int, by as int) is Some
                && !(0 <= quadrant(rs[j], bx as int, by as int)->0 < 4) {
                assert(safety_factor(rs, bx as int, by as int) is None);
            }
        }
        let mx = match row[2].checked_mul(SECONDS) {
            Some(v) => v,
            None => {
                proof {
                    assert(!moves_fit(rs));
                }
                return None;
            },
        };
        let my = match row[3].checked_mul(SECONDS) {
            Some(v) => v,
            None => {
                proof {
                    assert(!moves_fit(rs));
                }
                return None;
            },
        };
        let tx = match row[0].checked_add(mx) {
            Some(v) => v,
            None => {
                proof {
                    assert(!moves_fit(rs));
                }
                return None;
            },
        };
        let ty = match row[1].checked_add(my) {
            Some(v) => v,
            None => {
                proof {
                    assert(!moves_fit(rs));
                }
                return None;
            },
        };
        let x = tx.checked_rem_euclid(bx).unwrap();
        let y = ty.checked_rem_euclid(by).unwrap();
        let before = counts;
        if x != bx / 2 && y != by / 2 {
            let q = x / (bx / 2 + 1) + 2 * (y / (by / 2 + 1));
            proof {
                assert(quadrant(rs[i as int], bx as int, by as int) == Some(q as int));
            }
            if q < 0 || q >= 4 {
                proof {
                    assert(safety_factor(rs, bx as int, by as int) is None);
                }
                return None;
            }
            let qi = q as usize;
            counts = [
                if qi == 0 { before[0] + 1 } else { before[0] },
                if qi == 1 { before[1] + 1 } else { before[1] },
                if qi == 2 { before[2] + 1 } else { before[2] },
                if qi == 3 { before[3] + 1 } else { before[3] },
            ];
        }
        i = i + 1;
    }
    proof {
        assert(moves_fit(rs));
        let nn = rs.len() as int;
        assert(forall|q: int| 0 <= q < 4 ==> counts@[q] == #[trigger] in_quadrant(rs, bx as int, by as int, q, nn));
    }
    let c0 = counts[0] as u128;
    let c1 = counts[1] as u128;
    let c2 = counts[2] as u128;
    let c3 = counts[3] as u128;
    if c0 == 0 || c1 == 0 || c2 == 0 || c3 == 0 {
        proof {
            assert(c0 * c1 * c2 * c3 == 0) by (nonlinear_arith)
                requires
                    c0 == 0 || c1 == 0 || c2 == 0 || c3 == 0,
            ;
        }
        return Some(0);
    }
    proof {
        assert(c0 * c1 <= 340282366920938463463374607431768211455) by (nonlinear_arith)
            requires
                c0 <= 18446744073709551615,
                c1 <= 18446744073709551615,
        ;
    }
    let p01 = c0 * c1;
    if p01 > i64::MAX as u128 {
        proof {
            assert(c0 * c1 * c2 * c3 >= c0 * c1) by (nonlinear_arith)
                requires
                    c0 * c1 >= 0,
                    c2 >= 1,
                    c3 >= 1,
            ;
        }
        return None;
    }
    proof {
        assert(p01 * c2 <= 170141183460469231731687303715884105727) by (nonlinear_arith)
            requires
                p01 <= 9223372036854775807,
                c2 <= 18446744073709551615,
        ;
    }
    let p012 = p01 * c2;
    if p012 > i64::MAX as u128 {
        proof {
            assert(p012 * c3 >= p012) by (nonlinear_arith)
                requires
                    p012 >= 0,
                    c3 >= 1,
            ;
        }
        return None;
    }
    proof {
        assert(p012 * c3 <= 170141183460469231731687303715884105727) by (nonlinear_arith)
            requires
                p012 <= 9223372036854775807,
                c3 <= 18446744073709551615,
        ;
    }
    let product = p012 * c3;
    if product > i64::MAX as u128 {
        return None;
    }
    Some(product as i64)
}

} // verus!
