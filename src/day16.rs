use vstd::prelude::*;
use vstd::string::StringSliceAdditionalSpecFns;
use crate::graph::{
    edges_ok, lemma_shortest_distances_unique, on_shortest_path, shortest_distances, WeightedGraph,
};
use crate::grid::{lemma_rectangular_unique, rectangular, Grid, GridView};
use crate::text::opt_int;
use crate::vector::{spec_direction, Vector2d};

verus! {

/// A wall cell.
pub const WALL: u8 = 35;

/// The start cell.
pub const START: u8 = 83;

/// The end cell.
pub const END: u8 = 69;

/// The cost of one step forward.
pub const STEP_COST: i64 = 1;

/// The cost of a quarter turn in place.
pub const TURN_COST: i64 = 1000;

/// The most cells a maze may have, so that its graph stays small.
pub const MAX_CELLS: usize = 100000000;

/// The node of cell `c` (row-major index) facing direction `k`.
pub open spec fn node_of(c: int, k: int) -> int {
    4 * c + k
}

/// The number of cells of the grid.
pub open spec fn cell_count(g: GridView) -> int {
    (g.width * g.height) as int
}

/// Whether `(x, y)` is a cell of the grid that is not a wall.
pub open spec fn open_cell(g: GridView, x: int, y: int) -> bool {
    g.in_bounds(x, y) && g.cell(x, y) != WALL
}

/// The edges out of node `v`, in the order they are added: a step forward,
/// where the next cell is open, then the two quarter turns. A wall cell's
/// nodes have no edge.
pub open spec fn node_edges(g: GridView, v: int) -> Seq<(int, int, int)> {
    let w = g.width as int;
    let c = v / 4;
    let k = v % 4;
    let x = c % w;
    let y = c / w;
    if !open_cell(g, x, y) {
        Seq::empty()
    } else {
        let nx = x + spec_direction(k).0;
        let ny = y + spec_direction(k).1;
        let mv = if open_cell(g, nx, ny) {
            seq![(v, node_of(ny * w + nx, k), STEP_COST as int)]
        } else {
            Seq::empty()
        };
        mv + seq![
            (v, node_of(c, (k + 1) % 4), TURN_COST as int),
            (v, node_of(c, (k + 3) % 4), TURN_COST as int),
        ]
    }
}

/// The edges out of the nodes before `v`.
pub open spec fn maze_edges_upto(g: GridView, v: int) -> Seq<(int, int, int)>
    decreases v,
{
    if v <= 0 {
        Seq::empty()
    } else {
        maze_edges_upto(g, v - 1) + node_edges(g, v - 1)
    }
}

/// The edges of the maze graph: four nodes per cell, one per facing.
pub open spec fn maze_edges(g: GridView) -> Seq<(int, int, int)> {
    maze_edges_upto(g, 4 * cell_count(g))
}

/// The first cell, in row-major order from index `i`, holding `b`.
pub open spec fn first_cell_from(g: GridView, b: u8, i: int) -> Option<int>
    decreases cell_count(g) - i,
{
    if i < 0 || i >= cell_count(g) {
        None
    } else if g.cell(i % (g.width as int), i / (g.width as int)) == b {
        Some(i)
    } else {
        first_cell_from(g, b, i + 1)
    }
}

/// The distances of the maze graph from the start cell facing east.
pub open spec fn maze_distances(g: GridView, s: int) -> Seq<Option<i64>> {
    choose|d: Seq<Option<i64>>|
        #[trigger] shortest_distances(maze_edges(g), (4 * cell_count(g)) as nat, node_of(s, 0), d)
}

/// The smaller of a best-so-far and another candidate.
pub open spec fn min_opt(a: Option<int>, b: Option<i64>) -> Option<int> {
    match (a, b) {
        (Some(x), Some(y)) => Some(if (y as int) < x {
            y as int
        } else {
            x
        }),
        (None, Some(y)) => Some(y as int),
        (a, None) => a,
    }
}

/// The least distance among the first `k` facings of cell `e`.
pub open spec fn best_upto(d: Seq<Option<i64>>, e: int, k: int) -> Option<int>
    decreases k,
{
    if k <= 0 {
        None
    } else {
        min_opt(best_upto(d, e, k - 1), d[node_of(e, k - 1)])
    }
}

/// The lowest score from the start, facing east, to the end cell in any
/// facing; `None` where the grid is too large, lacks a start or an end, or
/// the end cannot be reached.
pub open spec fn lowest_score(g: GridView) -> Option<int> {
    if cell_count(g) > MAX_CELLS {
        None
    } else {
        match (first_cell_from(g, START, 0), first_cell_from(g, END, 0)) {
            (Some(s), Some(e)) => best_upto(maze_distances(g, s), e, 4),
            _ => None,
        }
    }
}

/// The end nodes whose distance is `b`, among the first `k` facings of cell `e`.
pub open spec fn end_goals(d: Seq<Option<i64>>, e: int, b: int, k: int) -> Seq<u32>
    decreases k,
{
    if k <= 0 {
        Seq::empty()
    } else {
        end_goals(d, e, b, k - 1) + if d[node_of(e, k - 1)] == Some(b as i64) {
            seq![node_of(e, k - 1) as u32]
        } else {
            Seq::<u32>::empty()
        }
    }
}

/// Whether some facing of cell `c` lies on a shortest path to a goal.
pub open spec fn seat_cell(
    edges: Seq<(int, int, int)>,
    d: Seq<Option<i64>>,
    goals: Seq<u32>,
    c: int,
) -> bool {
    on_shortest_path(edges, d, goals, node_of(c, 0)) || on_shortest_path(edges, d, goals, node_of(c, 1))
        || on_shortest_path(edges, d, goals, node_of(c, 2)) || on_shortest_path(
        edges,
        d,
        goals,
        node_of(c, 3),
    )
}

/// How many of the first `c` cells lie on a shortest path to a goal.
pub open spec fn seat_cells(
    edges: Seq<(int, int, int)>,
    d: Seq<Option<i64>>,
    goals: Seq<u32>,
    c: int,
) -> int
    decreases c,
{
    if c <= 0 {
        0
    } else {
        seat_cells(edges, d, goals, c - 1) + if seat_cell(edges, d, goals, c - 1) {
            1int
        } else {
            0int
        }
    }
}

/// How many cells lie on some lowest-score path from the start to the end;
/// `None` where there is no such path, as for `lowest_score`.
pub open spec fn seat_count(g: GridView) -> Option<int> {
    if cell_count(g) > MAX_CELLS {
        None
    } else {
        match (first_cell_from(g, START, 0), first_cell_from(g, END, 0)) {
            (Some(s), Some(e)) => {
                let d = maze_distances(g, s);
                match best_upto(d, e, 4) {
                    Some(b) => Some(seat_cells(maze_edges(g), d, end_goals(d, e, b, 4), cell_count(g))),
                    None => None,
                }
            },
            _ => None,
        }
    }
}

/// The first cell holding `b` is a cell of the grid.
pub proof fn lemma_first_cell_in_grid(g: GridView, b: u8, j: int)
    requires
        first_cell_from(g, b, 0) == Some(j),
    ensures
        0 <= j < cell_count(g),
{
    lemma_first_cell_bound(g, b, 0, j);
}

proof fn lemma_first_cell_bound(g: GridView, b: u8, i: int, j: int)
    requires
        first_cell_from(g, b, i) == Some(j),
    ensures
        0 <= i <= j < cell_count(g),
        g.cell(j % (g.width as int), j / (g.width as int)) == b,
    decreases cell_count(g) - i,
{
    if 0 <= i < cell_count(g) && g.cell(i % (g.width as int), i / (g.width as int)) != b {
        lemma_first_cell_bound(g, b, i + 1, j);
    }
}

proof fn lemma_cell_coords(c: int, w: int, h: int)
    requires
        0 <= c < w * h,
        w >= 0,
        h >= 0,
    ensures
        w >= 1,
        0 <= c % w < w,
        0 <= c / w < h,
        (c / w) * w + c % w == c,
{
    if w == 0 {
        assert(w * h == 0);
    }
    assert(0 <= c % w < w && (c / w) * w + c % w == c) by (nonlinear_arith)
        requires
            w >= 1,
    ;
    assert(0 <= c / w < h) by (nonlinear_arith)
        requires
            0 <= c < w * h,
            w >= 1,
    ;
}

proof fn lemma_cell_index_bound(x: int, y: int, w: int, h: int)
    requires
        0 <= x < w,
        0 <= y < h,
    ensures
        0 <= y * w + x < w * h,
{
    assert(0 <= y * w + x < w * h) by (nonlinear_arith)
        requires
            0 <= x < w,
            0 <= y < h,
    ;
}

/// Adds the edges out of node `v`.
fn add_node_edges(g: &Grid, gr: &mut WeightedGraph, v: usize)
    requires
        g.wf(),
        cell_count(g@) <= MAX_CELLS,
        v < 4 * cell_count(g@),
        old(gr).wf(),
        old(gr).node_count() == 4 * cell_count(g@),
        old(gr).edges() == maze_edges_upto(g@, v as int),
        old(gr).edges().len() <= 3 * v,
        old(gr).total_weight() <= 2001 * v,
    ensures
        final(gr).wf(),
        final(gr).node_count() == 4 * cell_count(g@),
        final(gr).edges() == maze_edges_upto(g@, v + 1),
        final(gr).edges().len() <= 3 * (v + 1),
        final(gr).total_weight() <= 2001 * (v + 1),
{
    let w = g.width;
    let c = v / 4;
    let k = v % 4;
    proof {
        lemma_cell_coords(c as int, w as int, g.height as int);
    }
    let x = c % w;
    let y = c / w;
    let here = g.get(Vector2d(x as i32, y as i32));
    let ghost before = gr.edges();
    proof {
        assert(maze_edges_upto(g@, v + 1) == before + node_edges(g@, v as int));
    }
    let open = match here {
        Some(b) => b != WALL,
        None => false,
    };
    if !open {
        proof {
            assert(node_edges(g@, v as int) =~= Seq::empty());
            assert(before + Seq::empty() =~= before);
        }
        return;
    }
    let dir = Vector2d::direction(k);
    let nx: i64 = x as i64 + dir.0 as i64;
    let ny: i64 = y as i64 + dir.1 as i64;
    let next = g.get(Vector2d(nx as i32, ny as i32));
    let moves = match next {
        Some(b) => b != WALL,
        None => false,
    };
    if moves {
        proof {
            lemma_cell_index_bound(nx as int, ny as int, w as int, g.height as int);
        }
        let target = 4 * ((ny as usize) * w + (nx as usize)) + k;
        gr.add_edge(v as u32, target as u32, STEP_COST);
    }
    gr.add_edge(v as u32, (4 * c + (k + 1) % 4) as u32, TURN_COST);
    gr.add_edge(v as u32, (4 * c + (k + 3) % 4) as u32, TURN_COST);
    proof {
        assert(gr.edges() =~= before + node_edges(g@, v as int));
    }
}

/// The graph of a maze: four nodes per cell, one per facing; a step forward
/// costs one and a quarter turn a thousand.
pub fn build_maze(g: &Grid) -> (r: WeightedGraph)
    requires
        g.wf(),
        cell_count(g@) <= MAX_CELLS,
    ensures
        r.wf(),
        r.node_count() == 4 * cell_count(g@),
        r.edges() == maze_edges(g@),
{
    let cells = g.width * g.height;
    let n = 4 * cells;
    let mut gr = WeightedGraph::new();
    let mut i: usize = 0;
    while i < n
        invariant
            n == 4 * cell_count(g@),
            n <= 4 * MAX_CELLS,
            i <= n,
            gr.wf(),
            gr.node_count() == i,
            gr.edges() == Seq::<(int, int, int)>::empty(),
            gr.total_weight() == 0,
        decreases n - i,
    {
        gr.add_node();
        i = i + 1;
    }
    let mut v: usize = 0;
    while v < n
        invariant
            g.wf(),
            cell_count(g@) <= MAX_CELLS,
            n == 4 * cell_count(g@),
            v <= n,
            gr.wf(),
            gr.node_count() == n,
            gr.edges() == maze_edges_upto(g@, v as int),
            gr.edges().len() <= 3 * v,
            gr.total_weight() <= 2001 * v,
        decreases n - v,
    {
        add_node_edges(g, &mut gr, v);
        v = v + 1;
    }
    gr
}

/// The first cell, in row-major order, holding `b`.
pub fn find_cell(g: &Grid, b: u8) -> (r: Option<usize>)
    requires
        g.wf(),
        cell_count(g@) <= MAX_CELLS,
    ensures
        match r {
            Some(i) => first_cell_from(g@, b, 0) == Some(i as int),
            None => first_cell_from(g@, b, 0) is None,
        },
{
    let w = g.width;
    let cells = g.width * g.height;
    let mut i: usize = 0;
    while i < cells
        invariant
            g.wf(),
            w == g.width,
            cells == cell_count(g@),
            i <= cells,
            first_cell_from(g@, b, 0) == first_cell_from(g@, b, i as int),
        decreases cells - i,
    {
        proof {
            lemma_cell_coords(i as int, w as int, g.height as int);
        }
        let here = g.get(Vector2d((i % w) as i32, (i / w) as i32));
        if here == Some(b) {
            return Some(i);
        }
        i = i + 1;
    }
    None
}

/// How many of the first `c` cells have a facing with a distance.
pub open spec fn reached_cells(d: Seq<Option<i64>>, c: int) -> int
    decreases c,
{
    if c <= 0 {
        0
    } else {
        reached_cells(d, c - 1) + if d[node_of(c - 1, 0)] is Some || d[node_of(c - 1, 1)] is Some
            || d[node_of(c - 1, 2)] is Some || d[node_of(c - 1, 3)] is Some {
            1int
        } else {
            0int
        }
    }
}

/// How many cells the start reaches, in some facing.
pub open spec fn reached_cell_count(g: GridView) -> int {
    let d = maze_distances(g, first_cell_from(g, START, 0)->0);
    reached_cells(d, cell_count(g))
}

proof fn lemma_best_is_some_facing(d: Seq<Option<i64>>, e: int, k: int)
    requires
        0 <= k <= 4,
        best_upto(d, e, k) is Some,
    ensures
        exists|j: int| 0 <= j < k && #[trigger] d[node_of(e, j)] == Some(best_upto(d, e, k)->0 as i64),
        fits_best(best_upto(d, e, k)->0),
    decreases k,
{
    if k > 0 {
        if best_upto(d, e, k - 1) is Some {
            lemma_best_is_some_facing(d, e, k - 1);
        }
    }
}

/// A value that came from an `i64`.
pub open spec fn fits_best(b: int) -> bool {
    i64::MIN <= b <= i64::MAX
}

proof fn lemma_end_goals_hold(d: Seq<Option<i64>>, e: int, b: int, k: int, j: int)
    requires
        0 <= j < k <= 4,
        d[node_of(e, j)] == Some(b as i64),
    ensures
        exists|i: int| 0 <= i < end_goals(d, e, b, k).len() && end_goals(d, e, b, k)[i] == node_of(e, j) as u32,
    decreases k,
{
    let prev = end_goals(d, e, b, k - 1);
    if j < k - 1 {
        lemma_end_goals_hold(d, e, b, k - 1, j);
        let i = choose|i: int| 0 <= i < prev.len() && prev[i] == node_of(e, j) as u32;
        assert(end_goals(d, e, b, k)[i] == prev[i]);
    } else {
        assert(end_goals(d, e, b, k)[prev.len() as int] == node_of(e, j) as u32);
    }
}

proof fn lemma_seat_cells_at_least(
    edges: Seq<(int, int, int)>,
    d: Seq<Option<i64>>,
    goals: Seq<u32>,
    c: int,
    e: int,
)
    requires
        0 <= e < c,
        seat_cell(edges, d, goals, e),
    ensures
        seat_cells(edges, d, goals, c) >= 1,
    decreases c,
{
    if e < c - 1 {
        lemma_seat_cells_at_least(edges, d, goals, c - 1, e);
    }
    lemma_seat_cells_nonneg(edges, d, goals, c - 1);
}

proof fn lemma_seat_cells_nonneg(edges: Seq<(int, int, int)>, d: Seq<Option<i64>>, goals: Seq<u32>, c: int)
    ensures
        seat_cells(edges, d, goals, c) >= 0,
    decreases c,
{
    if c > 0 {
        lemma_seat_cells_nonneg(edges, d, goals, c - 1);
    }
}

proof fn lemma_on_path_has_distance(
    edges: Seq<(int, int, int)>,
    d: Seq<Option<i64>>,
    goals: Seq<u32>,
    v: int,
)
    requires
        on_shortest_path(edges, d, goals, v),
        forall|i: int| 0 <= i < goals.len() ==> d[#[trigger] goals[i] as int] is Some,
    ensures
        d[v] is Some,
{
    let (p, i) = choose|p: Seq<int>, i: int|
        0 <= i < goals.len() && crate::graph::is_walk(edges, p, v, goals[i] as int) && forall|k: int|
            0 <= k < p.len() ==> crate::graph::tight(edges, d, #[trigger] p[k]);
    if p.len() > 0 {
        assert(crate::graph::tight(edges, d, p[0]));
    }
}

proof fn lemma_seats_within_reached(
    edges: Seq<(int, int, int)>,
    d: Seq<Option<i64>>,
    goals: Seq<u32>,
    c: int,
)
    requires
        forall|i: int| 0 <= i < goals.len() ==> d[#[trigger] goals[i] as int] is Some,
    ensures
        seat_cells(edges, d, goals, c) <= reached_cells(d, c),
    decreases c,
{
    if c > 0 {
        lemma_seats_within_reached(edges, d, goals, c - 1);
        if seat_cell(edges, d, goals, c - 1) {
            if on_shortest_path(edges, d, goals, node_of(c - 1, 0)) {
                lemma_on_path_has_distance(edges, d, goals, node_of(c - 1, 0));
            } else if on_shortest_path(edges, d, goals, node_of(c - 1, 1)) {
                lemma_on_path_has_distance(edges, d, goals, node_of(c - 1, 1));
            } else if on_shortest_path(edges, d, goals, node_of(c - 1, 2)) {
                lemma_on_path_has_distance(edges, d, goals, node_of(c - 1, 2));
            } else {
                lemma_on_path_has_distance(edges, d, goals, node_of(c - 1, 3));
            }
        }
    }
}

/// The number of cells on lowest-score paths is at least one, the end
/// cell's, and at most the number of cells that the start reaches.
pub proof fn lemma_seat_count_bounds(g: GridView)
    requires
        seat_count(g) is Some,
    ensures
        1 <= seat_count(g)->0 <= reached_cell_count(g),
{
    let s = first_cell_from(g, START, 0)->0;
    let e = first_cell_from(g, END, 0)->0;
    lemma_first_cell_bound(g, END, 0, e);
    assert(cell_count(g) <= MAX_CELLS);
    let d = maze_distances(g, s);
    let b = best_upto(d, e, 4)->0;
    let goals = end_goals(d, e, b, 4);
    let edges = maze_edges(g);
    lemma_best_is_some_facing(d, e, 4);
    let j = choose|j: int| 0 <= j < 4 && #[trigger] d[node_of(e, j)] == Some(b as i64);
    lemma_end_goals_hold(d, e, b, 4, j);
    let i = choose|i: int| 0 <= i < goals.len() && goals[i] == node_of(e, j) as u32;
    assert(0 <= node_of(e, j) < 4 * cell_count(g));
    assert(crate::graph::is_walk(edges, Seq::<int>::empty(), node_of(e, j), goals[i] as int));
    assert(on_shortest_path(edges, d, goals, node_of(e, j)));
    assert(seat_cell(edges, d, goals, e));
    lemma_seat_cells_at_least(edges, d, goals, cell_count(g), e);
    lemma_goals_have_distance(d, e, b, 4);
    lemma_seats_within_reached(edges, d, goals, cell_count(g));
}

proof fn lemma_goals_have_distance(d: Seq<Option<i64>>, e: int, b: int, k: int)
    requires
        0 <= k <= 4,
        0 <= e,
        4 * e + 4 <= u32::MAX,
    ensures
        forall|i: int|
            0 <= i < end_goals(d, e, b, k).len() ==> d[#[trigger] end_goals(d, e, b, k)[i] as int] is Some,
    decreases k,
{
    if k > 0 {
        lemma_goals_have_distance(d, e, b, k - 1);
        let prev = end_goals(d, e, b, k - 1);
        assert forall|i: int| 0 <= i < end_goals(d, e, b, k).len() implies d[#[trigger] end_goals(
            d,
            e,
            b,
            k,
        )[i] as int] is Some by {
            if i < prev.len() {
                assert(end_goals(d, e, b, k)[i] == prev[i]);
            } else {
                assert(end_goals(d, e, b, k)[i] == node_of(e, k - 1) as u32);
            }
        }
    }
}

/// The least distance among the four facings of cell `e`.
fn best_at(d: &Vec<Option<i64>>, e: usize) -> (r: Option<i64>)
    requires
        4 * e + 3 < d@.len(),
    ensures
        opt_int(r) == best_upto(d@, e as int, 4),
{
    let n = d.len();
    let mut best: Option<i64> = None;
    let mut k: usize = 0;
    while k < 4
        invariant
            k <= 4,
            n == d@.len(),
            4 * e + 3 < d@.len(),
            opt_int(best) == best_upto(d@, e as int, k as int),
        decreases 4 - k,
    {
        match (best, d[4 * e + k]) {
            (Some(x), Some(y)) => if y < x {
                best = Some(y);
            },
            (None, Some(y)) => best = Some(y),
            _ => {},
        }
        k = k + 1;
    }
    best
}

/// The size of the grid, where it is small enough for a maze.
fn maze_size(g: &Grid) -> (r: Option<usize>)
    ensures
        match r {
            Some(n) => n == cell_count(g@) && n <= MAX_CELLS,
            None => cell_count(g@) > MAX_CELLS,
        },
{
    match g.width.checked_mul(g.height) {
        Some(n) => if n <= MAX_CELLS {
            Some(n)
        } else {
            None
        },
        None => None,
    }
}

/// The distances of the maze from its start, with the start and end cells.
fn solve_maze(g: &Grid) -> (r: Option<(WeightedGraph, Vec<Option<i64>>, usize)>)
    requires
        g.wf(),
    ensures
        match r {
            Some((gr, d, e)) => {
                &&& cell_count(g@) <= MAX_CELLS
                &&& first_cell_from(g@, START, 0) is Some
                &&& first_cell_from(g@, END, 0) == Some(e as int)
                &&& d@ == maze_distances(g@, first_cell_from(g@, START, 0)->0)
                &&& gr.wf()
                &&& gr.edges() == maze_edges(g@)
                &&& gr.node_count() == 4 * cell_count(g@)
                &&& d@.len() == 4 * cell_count(g@)
                &&& 4 * e + 3 < d@.len()
            },
            None => cell_count(g@) > MAX_CELLS || first_cell_from(g@, START, 0) is None
                || first_cell_from(g@, END, 0) is None,
        },
{
    let cells = match maze_size(g) {
        Some(n) => n,
        None => {
            return None;
        },
    };
    let s = match find_cell(g, START) {
        Some(i) => i,
        None => {
            return None;
        },
    };
    let e = match find_cell(g, END) {
        Some(i) => i,
        None => {
            return None;
        },
    };
    proof {
        lemma_first_cell_bound(g@, START, 0, s as int);
        lemma_first_cell_bound(g@, END, 0, e as int);
    }
    let gr = build_maze(g);
    let d = gr.shortest_paths((4 * s) as u32);
    proof {
        let n = (4 * cell_count(g@)) as nat;
        let dd = maze_distances(g@, s as int);
        assert(shortest_distances(maze_edges(g@), n, node_of(s as int, 0), d@));
        assert(shortest_distances(maze_edges(g@), n, node_of(s as int, 0), dd));
        gr.lemma_edges_ok();
        lemma_shortest_distances_unique(maze_edges(g@), n, node_of(s as int, 0), d@, dd);
    }
    Some((gr, d, e))
}

/// The lowest score of a path through the maze from `S`, facing east, to
/// `E`: a step forward costs one, a quarter turn a thousand.
pub fn lowest_score_of(g: &Grid) -> (r: Option<i64>)
    requires
        g.wf(),
    ensures
        opt_int(r) == lowest_score(g@),
{
    match solve_maze(g) {
        Some((_gr, d, e)) => best_at(&d, e),
        None => None,
    }
}

/// How many cells lie on at least one lowest-score path through the maze.
pub fn seat_count_of(g: &Grid) -> (r: Option<i64>)
    requires
        g.wf(),
    ensures
        opt_int(r) == seat_count(g@),
{
    let (gr, d, e) = match solve_maze(g) {
        Some(t) => t,
        None => {
            return None;
        },
    };
    let best = match best_at(&d, e) {
        Some(b) => b,
        None => {
            return None;
        },
    };
    let mut goals: Vec<u32> = Vec::new();
    let mut k: usize = 0;
    while k < 4
        invariant
            k <= 4,
            4 * e + 3 < d@.len(),
            d@.len() == gr.node_count(),
            gr.node_count() < u32::MAX,
            goals@ == end_goals(d@, e as int, best as int, k as int),
            forall|i: int| 0 <= i < goals@.len() ==> #[trigger] goals@[i] < gr.node_count(),
        decreases 4 - k,
    {
        if d[4 * e + k] == Some(best) {
            goals.push((4 * e + k) as u32);
        }
        k = k + 1;
    }
    let marked = gr.trace_back(&d, &goals);
    let mlen = marked.len();
    let cells = d.len() / 4;
    let mut count: u64 = 0;
    let mut c: usize = 0;
    while c < cells
        invariant
            c <= cells,
            cells == cell_count(g@),
            marked@.len() == 4 * cells,
            mlen == marked@.len(),
            count == seat_cells(gr.edges(), d@, goals@, c as int),
            count <= c,
            forall|v: int|
                0 <= v < 4 * cells ==> (#[trigger] marked@[v] <==> on_shortest_path(
                    gr.edges(),
                    d@,
                    goals@,
                    v,
                )),
        decreases cells - c,
    {
        if marked[4 * c] || marked[4 * c + 1] || marked[4 * c + 2] || marked[4 * c + 3] {
            count = count + 1;
        }
        c = c + 1;
    }
    Some(count as i64)
}

/// The lowest score of the maze written in the input; `None` where the text
/// is no grid, the grid is too large, or has no path from `S` to `E`.
pub fn part_1(input: &str) -> (r: Option<i64>)
    ensures
        input.spec_bytes().len() >= i32::MAX ==> r is None,
        (forall|w: nat, h: nat| !rectangular(input.spec_bytes(), w, h)) ==> r is None,
        input.spec_bytes().len() < i32::MAX ==> forall|g: Grid|
            g.wf() && g.text@ == input.spec_bytes() ==> opt_int(r) == lowest_score(g@),
{
    match Grid::new(input) {
        Ok(g) => {
            let r = lowest_score_of(&g);
            proof {
                assert forall|g2: Grid| g2.wf() && g2.text@ == input.spec_bytes() implies opt_int(r)
                    == lowest_score(g2@) by {
                    lemma_rectangular_unique(g.text@, g.width as nat, g.height as nat, g2.width as nat, g2.height as nat);
                    assert(g2@ == g@);
                }
            }
            r
        },
        Err(err) => {
            proof {
                if input.spec_bytes().len() < i32::MAX {
                    assert forall|g2: Grid| g2.wf() && g2.text@ == input.spec_bytes() implies false by {
                        assert(g2.height * (g2.width + 1) >= g2.width + 1) by (nonlinear_arith)
                            requires
                                g2.height >= 1,
                        ;
                        assert(rectangular(g2.text@, g2.width as nat, g2.height as nat));
                    }
                }
            }
            None
        },
    }
}

/// How many cells of the maze written in the input lie on at least one
/// lowest-score path; `None` where `part_1` gives `None`.
pub fn part_2(input: &str) -> (r: Option<i64>)
    ensures
        input.spec_bytes().len() >= i32::MAX ==> r is None,
        (forall|w: nat, h: nat| !rectangular(input.spec_bytes(), w, h)) ==> r is None,
        input.spec_bytes().len() < i32::MAX ==> forall|g: Grid|
            g.wf() && g.text@ == input.spec_bytes() ==> opt_int(r) == seat_count(g@),
{
    match Grid::new(input) {
        Ok(g) => {
            let r = seat_count_of(&g);
            proof {
                assert forall|g2: Grid| g2.wf() && g2.text@ == input.spec_bytes() implies opt_int(r)
                    == seat_count(g2@) by {
                    lemma_rectangular_unique(g.text@, g.width as nat, g.height as nat, g2.width as nat, g2.height as nat);
                    assert(g2@ == g@);
                }
            }
            r
        },
        Err(err) => {
            proof {
                if input.spec_bytes().len() < i32::MAX {
                    assert forall|g2: Grid| g2.wf() && g2.text@ == input.spec_bytes() implies false by {
                        assert(g2.height * (g2.width + 1) >= g2.width + 1) by (nonlinear_arith)
                            requires
                                g2.height >= 1,
                        ;
                        assert(rectangular(g2.text@, g2.width as nat, g2.height as nat));
                    }
                }
            }
            None
        },
    }
}

} // verus!
