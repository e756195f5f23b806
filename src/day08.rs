use vstd::prelude::*;
use vstd::string::StringSliceAdditionalSpecFns;
use crate::grid::{Grid, GridView};

verus! {

/// An empty cell.
pub const EMPTY: u8 = 46;

/// The most cells a map may have, so that every pair of cells can be tried.
pub const MAX_MAP: usize = 1000000;

/// The column of cell `c`.
pub open spec fn col(g: GridView, c: int) -> int {
    c % (g.width as int)
}

/// The row of cell `c`.
pub open spec fn row(g: GridView, c: int) -> int {
    c / (g.width as int)
}

/// The number of cells.
pub open spec fn cells(g: GridView) -> int {
    (g.width * g.height) as int
}

/// Whether cells `a` and `b` are two antennas of the same frequency.
pub open spec fn antenna_pair(g: GridView, a: int, b: int) -> bool {
    &&& 0 <= a < cells(g)
    &&& 0 <= b < cells(g)
    &&& a != b
    &&& g.cell(col(g, a), row(g, a)) != EMPTY
    &&& g.cell(col(g, a), row(g, a)) == g.cell(col(g, b), row(g, b))
}

/// Whether the pair of cells with index `j` (`a = j / n`, `b = j % n`)
/// puts an antinode at cell `p`: beyond `b`, as far from it as `a` is.
pub open spec fn makes_antinode(g: GridView, j: int, p: int) -> bool {
    let a = j / cells(g);
    let b = j % cells(g);
    antenna_pair(g, a, b) && col(g, p) == 2 * col(g, b) - col(g, a) && row(g, p) == 2 * row(g, b) - row(g, a)
}

/// Whether the pair with index `j` has cell `p` on its line, `t` steps of
/// `b - a` from `a`.
pub open spec fn on_line(g: GridView, j: int, t: int, p: int) -> bool {
    let a = j / cells(g);
    let b = j % cells(g);
    antenna_pair(g, a, b) && col(g, p) == col(g, a) + t * (col(g, b) - col(g, a)) && row(g, p) == row(g, a)
        + t * (row(g, b) - row(g, a))
}

/// How far along a line a cell of the map can lie: no more than the sum of
/// its sides, in steps of at least one cell.
pub open spec fn reach(g: GridView) -> int {
    (g.width + g.height) as int
}

/// Whether some pair among the first `j` puts an antinode at `p`.
pub open spec fn antinode_within(g: GridView, j: int, p: int) -> bool {
    exists|i: int| 0 <= i < j && #[trigger] makes_antinode(g, i, p)
}

/// Whether some pair among the first `j` has `p` on its line.
pub open spec fn line_within(g: GridView, j: int, p: int) -> bool {
    exists|i: int, t: int| 0 <= i < j && -reach(g) <= t <= reach(g) && #[trigger] on_line(g, i, t, p)
}

/// How many of the first `c` cells meet `f`.
pub open spec fn count_cells(f: spec_fn(int) -> bool, c: int) -> int
    decreases c,
{
    if c <= 0 {
        0
    } else {
        count_cells(f, c - 1) + if f(c - 1) {
            1int
        } else {
            0int
        }
    }
}

/// The number of cells holding an antinode.
pub open spec fn antinode_count(g: GridView) -> int {
    count_cells(|p: int| antinode_within(g, cells(g) * cells(g), p), cells(g))
}

/// The number of cells on a line through two antennas of one frequency.
pub open spec fn line_count(g: GridView) -> int {
    count_cells(|p: int| line_within(g, cells(g) * cells(g), p), cells(g))
}

/// Counts the cells that `marks` holds.
fn count_marks(marks: &Vec<bool>, f: Ghost<spec_fn(int) -> bool>) -> (r: i64)
    requires
        marks@.len() < i32::MAX,
        forall|c: int| 0 <= c < marks@.len() ==> (#[trigger] marks@[c] <==> (f@)(c)),
    ensures
        r == count_cells(f@, marks@.len() as int),
{
    let mut count: i64 = 0;
    let mut c: usize = 0;
    while c < marks.len()
        invariant
            c <= marks@.len(),
            marks@.len() < i32::MAX,
            forall|k: int| 0 <= k < marks@.len() ==> (#[trigger] marks@[k] <==> (f@)(k)),
            count == count_cells(f@, c as int),
            0 <= count <= c,
        decreases marks@.len() - c,
    {
        if marks[c] {
            count = count + 1;
        }
        c = c + 1;
    }
    count
}

proof fn lemma_pair_index(a: int, b: int, n: int)
    requires
        0 <= a,
        0 <= b < n,
    ensures
        (a * n + b) / n == a,
        (a * n + b) % n == b,
{
    vstd::arithmetic::div_mod::lemma_fundamental_div_mod_converse(a * n + b, n, a, b);
}

proof fn lemma_cell_index(g: GridView, x: int, y: int)
    requires
        0 <= x < g.width,
        0 <= y < g.height,
    ensures
        col(g, y * g.width + x) == x,
        row(g, y * g.width + x) == y,
        0 <= y * g.width + x < cells(g),
{
    vstd::arithmetic::div_mod::lemma_fundamental_div_mod_converse(y * g.width + x, g.width as int, y, x);
    assert(0 <= y * g.width + x < cells(g)) by (nonlinear_arith)
        requires
            0 <= x < g.width,
            0 <= y < g.height,
    ;
}

proof fn lemma_cell_split(g: GridView, c: int)
    requires
        0 <= c < cells(g),
    ensures
        c == row(g, c) * g.width + col(g, c),
        0 <= col(g, c) < g.width,
        0 <= row(g, c) < g.height,
{
    assert(g.width >= 1) by (nonlinear_arith)
        requires
            0 <= c < g.width * g.height,
    ;
    vstd::arithmetic::div_mod::lemma_fundamental_div_mod(c, g.width as int);
    assert(0 <= col(g, c) < g.width) by (nonlinear_arith)
        requires
            g.width >= 1,
    ;
    assert(0 <= row(g, c) < g.height) by (nonlinear_arith)
        requires
            0 <= c < g.width * g.height,
            g.width >= 1,
            row(g, c) == c / (g.width as int),
    ;
}

/// The cell at `(x, y)`, given that it lies in the map.
fn cell_index(g: &Grid, x: i64, y: i64) -> (r: usize)
    requires
        g.wf(),
        0 <= x < g.width,
        0 <= y < g.height,
    ensures
        r == y * g.width + x,
        col(g@, r as int) == x,
        row(g@, r as int) == y,
        r < cells(g@),
{
    proof {
        g.lemma_cells_fit();
        lemma_cell_index(g@, x as int, y as int);
        assert(0 <= y * g.width <= y * g.width + x) by (nonlinear_arith)
            requires
                0 <= x,
                0 <= y,
        ;
    }
    (y as usize) * g.width + (x as usize)
}

/// Marks every cell where a pair of antennas puts an antinode.
fn mark_antinodes(g: &Grid) -> (r: Vec<bool>)
    requires
        g.wf(),
        cells(g@) <= MAX_MAP,
    ensures
        r@.len() == cells(g@),
        forall|p: int| 0 <= p < cells(g@) ==> (#[trigger] r@[p] <==> antinode_within(g@, cells(g@) * cells(g@), p)),
{
    let n = g.cell_count();
    let w = g.width;
    let mut marks: Vec<bool> = crate::day06::no_marks_for(n);
    let mut a: usize = 0;
    while a < n
        invariant
            g.wf(),
            n == cells(g@),
            n <= MAX_MAP,
            w == g.width,
            a <= n,
            marks@.len() == n,
            forall|p: int| 0 <= p < n ==> (#[trigger] marks@[p] <==> antinode_within(g@, a * n, p)),
        decreases n - a,
    {
        proof {
            lemma_cell_split(g@, a as int);
        }
        let ax = (a % w) as i64;
        let ay = (a / w) as i64;
        let fa = g.get_at(ax, ay);
        let mut b: usize = 0;
        while b < n
            invariant
                g.wf(),
                n == cells(g@),
                n <= MAX_MAP,
                w == g.width,
                a < n,
                b <= n,
                ax == col(g@, a as int),
                ay == row(g@, a as int),
                0 <= ax < w,
                0 <= ay < g.height,
                fa == Some(g@.cell(ax as int, ay as int)),
                marks@.len() == n,
                forall|p: int| 0 <= p < n ==> (#[trigger] marks@[p] <==> antinode_within(g@, a * n + b, p)),
            decreases n - b,
        {
            proof {
                lemma_cell_split(g@, b as int);
                lemma_pair_index(a as int, b as int, n as int);
            }
            let bx = (b % w) as i64;
            let by = (b / w) as i64;
            let fb = g.get_at(bx, by);
            let ghost j = a * n + b;
            let ghost before = marks@;
            if a != b && fa != Some(EMPTY) && fa == fb {
                let px = 2 * bx - ax;
                let py = 2 * by - ay;
                if 0 <= px && px < w as i64 && 0 <= py && py < g.height as i64 {
                    let p = cell_index(g, px, py);
                    marks.set(p, true);
                    proof {
                        assert(makes_antinode(g@, j, p as int));
                        assert forall|q: int| 0 <= q < n implies (#[trigger] marks@[q] <==> antinode_within(g@, j + 1, q)) by {
                            if antinode_within(g@, j + 1, q) && !antinode_within(g@, j, q) {
                                lemma_cell_split(g@, q);
                                assert(makes_antinode(g@, j, q));
                                assert(q == p);
                            }
                            if q != p && before[q] {
                                let i = choose|i: int| 0 <= i < j && #[trigger] makes_antinode(g@, i, q);
                                assert(0 <= i < j + 1);
                            }
                        }
                    }
                } else {
                    proof {
                        assert forall|q: int| 0 <= q < n implies (#[trigger] marks@[q] <==> antinode_within(g@, j + 1, q)) by {
                            if antinode_within(g@, j + 1, q) && !antinode_within(g@, j, q) {
                                lemma_cell_split(g@, q);
                                assert(makes_antinode(g@, j, q));
                            }
                            if before[q] {
                                let i = choose|i: int| 0 <= i < j && #[trigger] makes_antinode(g@, i, q);
                                assert(0 <= i < j + 1);
                            }
                        }
                    }
                }
            } else {
                proof {
                    assert forall|q: int| 0 <= q < n implies (#[trigger] marks@[q] <==> antinode_within(g@, j + 1, q)) by {
                        if antinode_within(g@, j + 1, q) && !antinode_within(g@, j, q) {
                            assert(makes_antinode(g@, j, q));
                        }
                        if before[q] {
                            let i = choose|i: int| 0 <= i < j && #[trigger] makes_antinode(g@, i, q);
                            assert(0 <= i < j + 1);
                        }
                    }
                }
            }
            b = b + 1;
        }
        proof {
            assert(a * n + n == (a + 1) * n) by (nonlinear_arith);
        }
        a = a + 1;
    }
    marks
}

/// Marks every cell on a line through two antennas of one frequency.
fn mark_lines(g: &Grid) -> (r: Vec<bool>)
    requires
        g.wf(),
        cells(g@) <= MAX_MAP,
    ensures
        r@.len() == cells(g@),
        forall|p: int| 0 <= p < cells(g@) ==> (#[trigger] r@[p] <==> line_within(g@, cells(g@) * cells(g@), p)),
{
    let n = g.cell_count();
    let w = g.width;
    let mut marks: Vec<bool> = crate::day06::no_marks_for(n);
    let mut a: usize = 0;
    while a < n
        invariant
            g.wf(),
            n == cells(g@),
            n <= MAX_MAP,
            w == g.width,
            a <= n,
            marks@.len() == n,
            forall|p: int| 0 <= p < n ==> (#[trigger] marks@[p] <==> line_within(g@, a * n, p)),
        decreases n - a,
    {
        proof {
            lemma_cell_split(g@, a as int);
            assert(w <= n && g.height <= n) by (nonlinear_arith)
                requires
                    0 <= a < n,
                    n == w * g.height,
            ;
        }
        let ax = (a % w) as i64;
        let ay = (a / w) as i64;
        let fa = g.get_at(ax, ay);
        let reach_len: i64 = (g.width + g.height) as i64;
        let mut b: usize = 0;
        while b < n
            invariant
                g.wf(),
                n == cells(g@),
                n <= MAX_MAP,
                w == g.width,
                w <= n,
                g.height <= n,
                reach_len == reach(g@),
                a < n,
                b <= n,
                ax == col(g@, a as int),
                ay == row(g@, a as int),
                0 <= ax < w,
                0 <= ay < g.height,
                fa == Some(g@.cell(ax as int, ay as int)),
                marks@.len() == n,
                forall|p: int| 0 <= p < n ==> (#[trigger] marks@[p] <==> line_within(g@, a * n + b, p)),
            decreases n - b,
        {
            proof {
                lemma_cell_split(g@, b as int);
                lemma_pair_index(a as int, b as int, n as int);
            }
            let bx = (b % w) as i64;
            let by = (b / w) as i64;
            let fb = g.get_at(bx, by);
            let ghost j = a * n + b;
            if a != b && fa != Some(EMPTY) && fa == fb {
                let dx = bx - ax;
                let dy = by - ay;
                let mut t: i64 = -reach_len;
                while t <= reach_len
                    invariant
                        g.wf(),
                        n == cells(g@),
                        n <= MAX_MAP,
                        w == g.width,
                        w <= n,
                        g.height <= n,
                        reach_len == reach(g@),
                        j == a * n + b,
                        j / (n as int) == a,
                        j % (n as int) == b,
                        antenna_pair(g@, a as int, b as int),
                        ax == col(g@, a as int),
                        ay == row(g@, a as int),
                        dx == col(g@, b as int) - ax,
                        dy == row(g@, b as int) - ay,
                        -w < dx < w,
                        -(g.height as int) < dy < g.height,
                        -reach_len <= t <= reach_len + 1,
                        marks@.len() == n,
                        forall|p: int|
                            0 <= p < n ==> (#[trigger] marks@[p] <==> (line_within(g@, j, p) || exists|u: int|
                                -reach_len <= u < t && #[trigger] on_line(g@, j, u, p))),
                    decreases reach_len + 1 - t,
                {
                    proof {
                        assert(-4000000000000 <= t * dx <= 4000000000000 && -4000000000000 <= t * dy <= 4000000000000) by (nonlinear_arith)
                            requires
                                -2000000 <= t <= 2000001,
                                -1000000 < dx < 1000000,
                                -1000000 < dy < 1000000,
                        ;
                    }
                    let px = ax + t * dx;
                    let py = ay + t * dy;
                    let ghost before = marks@;
                    if 0 <= px && px < w as i64 && 0 <= py && py < g.height as i64 {
                        let p = cell_index(g, px, py);
                        marks.set(p, true);
                        proof {
                            assert(on_line(g@, j, t as int, p as int));
                            assert forall|q: int| 0 <= q < n implies (#[trigger] marks@[q] <==> (line_within(g@, j, q) || exists|u: int|
                                -reach_len <= u < t + 1 && #[trigger] on_line(g@, j, u, q))) by {
                                if exists|u: int| -reach_len <= u < t + 1 && #[trigger] on_line(g@, j, u, q) {
                                    let u = choose|u: int| -reach_len <= u < t + 1 && #[trigger] on_line(g@, j, u, q);
                                    if u == t {
                                        lemma_cell_split(g@, q);
                                        assert(q == p);
                                    }
                                }
                                if q != p && before[q] && !line_within(g@, j, q) {
                                    let u = choose|u: int| -reach_len <= u < t && #[trigger] on_line(g@, j, u, q);
                                    assert(-reach_len <= u < t + 1);
                                }
                            }
                        }
                    } else {
                        proof {
                            assert forall|q: int| 0 <= q < n implies (#[trigger] marks@[q] <==> (line_within(g@, j, q) || exists|u: int|
                                -reach_len <= u < t + 1 && #[trigger] on_line(g@, j, u, q))) by {
                                if exists|u: int| -reach_len <= u < t + 1 && #[trigger] on_line(g@, j, u, q) {
                                    let u = choose|u: int| -reach_len <= u < t + 1 && #[trigger] on_line(g@, j, u, q);
                                    if u == t {
                                        lemma_cell_split(g@, q);
                                    }
                                }
                                if before[q] && !line_within(g@, j, q) {
                                    let u = choose|u: int| -reach_len <= u < t && #[trigger] on_line(g@, j, u, q);
                                    assert(-reach_len <= u < t + 1);
                                }
                            }
                        }
                    }
                    t = t + 1;
                }
                proof {
                    assert forall|q: int| 0 <= q < n implies (#[trigger] marks@[q] <==> line_within(g@, j + 1, q)) by {
                        if line_within(g@, j + 1, q) && !line_within(g@, j, q) {
                            let (i, u) = choose|i: int, u: int| 0 <= i < j + 1 && -reach(g@) <= u <= reach(g@) && #[trigger] on_line(g@, i, u, q);
                            assert(i == j);
                        }
                        if line_within(g@, j, q) {
                            let (i, u) = choose|i: int, u: int| 0 <= i < j && -reach(g@) <= u <= reach(g@) && #[trigger] on_line(g@, i, u, q);
                            assert(0 <= i < j + 1);
                        }
                        if exists|u: int| -reach_len <= u < t && #[trigger] on_line(g@, j, u, q) {
                            let u = choose|u: int| -reach_len <= u < t && #[trigger] on_line(g@, j, u, q);
                            assert(0 <= j < j + 1);
                        }
                    }
                }
            } else {
                proof {
                    assert forall|q: int| 0 <= q < n implies (#[trigger] marks@[q] <==> line_within(g@, j + 1, q)) by {
                        if line_within(g@, j + 1, q) && !line_within(g@, j, q) {
                            let (i, u) = choose|i: int, u: int| 0 <= i < j + 1 && -reach(g@) <= u <= reach(g@) && #[trigger] on_line(g@, i, u, q);
                            assert(i == j);
                        }
                        if line_within(g@, j, q) {
                            let (i, u) = choose|i: int, u: int| 0 <= i < j && -reach(g@) <= u <= reach(g@) && #[trigger] on_line(g@, i, u, q);
                            assert(0 <= i < j + 1);
                        }
                    }
                }
            }
            b = b + 1;
        }
        proof {
            assert(a * n + n == (a + 1) * n) by (nonlinear_arith);
        }
        a = a + 1;
    }
    marks
}

/// The number of cells holding an antinode: beyond either antenna of a
/// pair of one frequency, as far again; `None` where the text is no grid
/// or the map has more than `MAX_MAP` cells.
pub fn part_1(input: &str) -> (r: Option<i64>)
    ensures
        r is Some ==> exists|g: Grid| g.wf() && g.text@ == input.spec_bytes() && cells(g@) <= MAX_MAP
            && r->0 == antinode_count(g@),
        r is None ==> forall|g: Grid|
            #[trigger] g.wf() && g.text@ == input.spec_bytes() ==> cells(g@) > MAX_MAP,
{
    let g = match Grid::new(input) {
        Ok(g) => g,
        Err(_) => {
            return None;
        },
    };
    proof {
        assert forall|g2: Grid| #[trigger] g2.wf() && g2.text@ == input.spec_bytes() implies g2@ == g@ by {
            crate::grid::lemma_rectangular_unique(g.text@, g.width as nat, g.height as nat, g2.width as nat, g2.height as nat);
        }
    }
    if g.cell_count() > MAX_MAP {
        return None;
    }
    let marks = mark_antinodes(&g);
    let ghost n = cells(g@);
    Some(count_marks(&marks, Ghost(|p: int| antinode_within(g@, n * n, p))))
}

/// The number of cells on a line through two antennas of one frequency;
/// `None` as for `part_1`.
pub fn part_2(input: &str) -> (r: Option<i64>)
    ensures
        r is Some ==> exists|g: Grid| g.wf() && g.text@ == input.spec_bytes() && cells(g@) <= MAX_MAP
            && r->0 == line_count(g@),
        r is None ==> forall|g: Grid|
            #[trigger] g.wf() && g.text@ == input.spec_bytes() ==> cells(g@) > MAX_MAP,
{
    let g = match Grid::new(input) {
        Ok(g) => g,
        Err(_) => {
            return None;
        },
    };
    proof {
        assert forall|g2: Grid| #[trigger] g2.wf() && g2.text@ == input.spec_bytes() implies g2@ == g@ by {
            crate::grid::lemma_rectangular_unique(g.text@, g.width as nat, g.height as nat, g2.width as nat, g2.height as nat);
        }
    }
    if g.cell_count() > MAX_MAP {
        return None;
    }
    let marks = mark_lines(&g);
    let ghost n = cells(g@);
    Some(count_marks(&marks, Ghost(|p: int| line_within(g@, n * n, p))))
}

} // verus!
