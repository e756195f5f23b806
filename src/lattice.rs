use vstd::prelude::*;
use crate::graph::{edges_ok, lemma_shortest_distances_unique, shortest_distances, WeightedGraph};
use crate::vector::{spec_direction, Vector2d};

verus! {

/// The most cells a lattice may have, so that its graph stays small.
pub const MAX_LATTICE: usize = 100000000;

/// Whether `(x, y)` is an open cell of a `w` by `h` lattice: one whose
/// label (row-major) is not zero.
pub open spec fn open_cell(labels: Seq<u8>, w: int, h: int, x: int, y: int) -> bool {
    0 <= x < w && 0 <= y < h && labels[y * w + x] != 0
}

/// The unit step out of cell `v` in direction `k`, where both ends are open
/// and carry the same label.
pub open spec fn step_edge(labels: Seq<u8>, w: int, h: int, v: int, k: int) -> Seq<(int, int, int)> {
    let x = v % w;
    let y = v / w;
    let nx = x + spec_direction(k).0;
    let ny = y + spec_direction(k).1;
    if open_cell(labels, w, h, x, y) && open_cell(labels, w, h, nx, ny) && labels[y * w + x] == labels[ny
        * w + nx] {
        seq![(v, ny * w + nx, 1int)]
    } else {
        Seq::empty()
    }
}

/// The steps out of cell `v`, in the order of the directions.
pub open spec fn cell_steps(labels: Seq<u8>, w: int, h: int, v: int) -> Seq<(int, int, int)> {
    step_edge(labels, w, h, v, 0) + step_edge(labels, w, h, v, 1) + step_edge(labels, w, h, v, 2)
        + step_edge(labels, w, h, v, 3)
}

/// The steps out of the cells before `v`.
pub open spec fn lattice_edges_upto(labels: Seq<u8>, w: int, h: int, v: int) -> Seq<(int, int, int)>
    decreases v,
{
    if v <= 0 {
        Seq::empty()
    } else {
        lattice_edges_upto(labels, w, h, v - 1) + cell_steps(labels, w, h, v - 1)
    }
}

/// The graph of a lattice: a node per cell, an edge of weight one for each
/// step between orthogonal open neighbours with the same label.
pub open spec fn lattice_edges(labels: Seq<u8>, w: int, h: int) -> Seq<(int, int, int)> {
    lattice_edges_upto(labels, w, h, w * h)
}

/// The distances over a lattice from cell `s`.
pub open spec fn lattice_distances(labels: Seq<u8>, w: int, h: int, s: int) -> Seq<Option<i64>> {
    choose|d: Seq<Option<i64>>| #[trigger] shortest_distances(lattice_edges(labels, w, h), (w * h) as nat, s, d)
}

proof fn lemma_coords(c: int, w: int, h: int)
    requires
        0 <= c < w * h,
        w >= 0,
        h >= 0,
    ensures
        w >= 1,
        0 <= c % w < w,
        0 <= c / w < h,
{
    if w == 0 {
        assert(w * h == 0);
    }
    assert(0 <= c % w < w) by (nonlinear_arith)
        requires
            w >= 1,
    ;
    assert(0 <= c / w < h) by (nonlinear_arith)
        requires
            0 <= c < w * h,
            w >= 1,
    ;
}

proof fn lemma_index(x: int, y: int, w: int, h: int)
    requires
        0 <= x < w,
        0 <= y < h,
    ensures
        0 <= y * w + x < w * h,
{
    assert(0 <= y * w + x < w * h) by (nonlinear_arith)
        requires
            0 <= x < w,
            0 <= y < h,
    ;
}

/// The label of `(x, y)`, where it is a cell.
fn cell_label(labels: &Vec<u8>, w: usize, h: usize, x: i64, y: i64) -> (r: Option<u8>)
    requires
        labels@.len() == w * h,
        w * h <= MAX_LATTICE,
        w <= MAX_LATTICE,
        h <= MAX_LATTICE,
    ensures
        r == if 0 <= x < w && 0 <= y < h {
            Some(labels@[y * w + x])
        } else {
            None
        },
{
    if x < 0 || y < 0 || x >= w as i64 || y >= h as i64 {
        return None;
    }
    proof {
        lemma_index(x as int, y as int, w as int, h as int);
    }
    Some(labels[(y as usize) * w + (x as usize)])
}

/// Adds the steps out of cell `v`.
fn add_cell_steps(labels: &Vec<u8>, w: usize, h: usize, gr: &mut WeightedGraph, v: usize)
    requires
        labels@.len() == w * h,
        w * h <= MAX_LATTICE,
        w <= MAX_LATTICE,
        h <= MAX_LATTICE,
        v < w * h,
        old(gr).wf(),
        old(gr).node_count() == w * h,
        old(gr).edges() == lattice_edges_upto(labels@, w as int, h as int, v as int),
        old(gr).edges().len() <= 4 * v,
        old(gr).total_weight() <= 4 * v,
    ensures
        final(gr).wf(),
        final(gr).node_count() == w * h,
        final(gr).edges() == lattice_edges_upto(labels@, w as int, h as int, v + 1),
        final(gr).edges().len() <= 4 * (v + 1),
        final(gr).total_weight() <= 4 * (v + 1),
{
    proof {
        lemma_coords(v as int, w as int, h as int);
    }
    let x = (v % w) as i64;
    let y = (v / w) as i64;
    let ghost before = gr.edges();
    let here = cell_label(labels, w, h, x, y);
    let mut k: usize = 0;
    while k < 4
        invariant
            labels@.len() == w * h,
            w * h <= MAX_LATTICE,
            w <= MAX_LATTICE,
            h <= MAX_LATTICE,
        w <= MAX_LATTICE,
        h <= MAX_LATTICE,
            v < w * h,
            x == v % w,
            y == v / w,
            0 <= x < w,
            0 <= y < h,
            here == Some(labels@[y * w + x]),
            k <= 4,
            gr.wf(),
            gr.node_count() == w * h,
            gr.edges().len() <= 4 * v + k,
            gr.total_weight() <= 4 * v + k,
            gr.edges() == before + (if k == 0 {
                Seq::empty()
            } else if k == 1 {
                step_edge(labels@, w as int, h as int, v as int, 0)
            } else if k == 2 {
                step_edge(labels@, w as int, h as int, v as int, 0) + step_edge(labels@, w as int, h as int, v as int, 1)
            } else if k == 3 {
                step_edge(labels@, w as int, h as int, v as int, 0) + step_edge(labels@, w as int, h as int, v as int, 1)
                    + step_edge(labels@, w as int, h as int, v as int, 2)
            } else {
                cell_steps(labels@, w as int, h as int, v as int)
            }),
        decreases 4 - k,
    {
        let dir = Vector2d::direction(k);
        let nx = x + dir.0 as i64;
        let ny = y + dir.1 as i64;
        let ghost mid = gr.edges();
        let there = cell_label(labels, w, h, nx, ny);
        if here != Some(0u8) && there == here {
            proof {
                lemma_index(nx as int, ny as int, w as int, h as int);
            }
            let target = (ny as usize) * w + (nx as usize);
            gr.add_edge(v as u32, target as u32, 1);
            proof {
                assert(gr.edges() =~= mid + step_edge(labels@, w as int, h as int, v as int, k as int));
            }
        } else {
            proof {
                assert(gr.edges() =~= mid + step_edge(labels@, w as int, h as int, v as int, k as int));
            }
        }
        k = k + 1;
    }
    proof {
        assert(lattice_edges_upto(labels@, w as int, h as int, v + 1) == before + cell_steps(
            labels@,
            w as int,
            h as int,
            v as int,
        ));
    }
}

/// The graph of the lattice: a node per cell, row by row, and an edge of
/// weight one for each step between orthogonal open neighbours with the
/// same label.
pub fn build_lattice(labels: &Vec<u8>, w: usize, h: usize) -> (r: WeightedGraph)
    requires
        labels@.len() == w * h,
        w * h <= MAX_LATTICE,
        w <= MAX_LATTICE,
        h <= MAX_LATTICE,
    ensures
        r.wf(),
        r.node_count() == w * h,
        r.edges() == lattice_edges(labels@, w as int, h as int),
{
    let n = w * h;
    let mut gr = WeightedGraph::new();
    let mut i: usize = 0;
    while i < n
        invariant
            n == w * h,
            n <= MAX_LATTICE,
            i <= n,
            gr.wf(),
            gr.node_count() == i,
            gr.edges() == Seq::<(int, int, int)>::empty(),
            gr.total_weight() == 0,
        decreases n - i,
    {
        gr.add_node();
        i = i + 1;
    }
    let mut v: usize = 0;
    while v < n
        invariant
            labels@.len() == w * h,
            n == w * h,
            n <= MAX_LATTICE,
            w <= MAX_LATTICE,
            h <= MAX_LATTICE,
            v <= n,
            gr.wf(),
            gr.node_count() == n,
            gr.edges() == lattice_edges_upto(labels@, w as int, h as int, v as int),
            gr.edges().len() <= 4 * v,
            gr.total_weight() <= 4 * v,
        decreases n - v,
    {
        add_cell_steps(labels, w, h, &mut gr, v);
        v = v + 1;
    }
    gr
}

/// The distances over the lattice from cell `s`.
pub fn lattice_shortest_paths(labels: &Vec<u8>, w: usize, h: usize, s: usize) -> (r: Vec<Option<i64>>)
    requires
        labels@.len() == w * h,
        w * h <= MAX_LATTICE,
        w <= MAX_LATTICE,
        h <= MAX_LATTICE,
        s < w * h,
    ensures
        r@ == lattice_distances(labels@, w as int, h as int, s as int),
        r@.len() == w * h,
{
    let gr = build_lattice(labels, w, h);
    let d = gr.shortest_paths(s as u32);
    proof {
        let n = (w * h) as nat;
        let dd = lattice_distances(labels@, w as int, h as int, s as int);
        assert(shortest_distances(lattice_edges(labels@, w as int, h as int), n, s as int, d@));
        assert(shortest_distances(lattice_edges(labels@, w as int, h as int), n, s as int, dd));
        gr.lemma_edges_ok();
        lemma_shortest_distances_unique(lattice_edges(labels@, w as int, h as int), n, s as int, d@, dd);
    }
    d
}

} // verus!
