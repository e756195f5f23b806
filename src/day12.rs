use vstd::prelude::*;
use vstd::string::StringSliceAdditionalSpecFns;
use crate::grid::{Grid, GridView};
use crate::lattice::{lattice_distances, lattice_shortest_paths, MAX_LATTICE};
use crate::text::{checked_sum, opt_int, sum_checked};
use crate::vector::spec_direction;

verus! {

/// The plant of every cell, row-major; cells with the same plant that
/// touch orthogonally form a region.
pub open spec fn plants(g: GridView) -> Seq<u8> {
    Seq::new((g.width * g.height) as nat, |v: int| g.cell(v % (g.width as int), v / (g.width as int)))
}

/// Whether `(x, y)` is a cell that the region with distances `d` holds.
pub open spec fn ins(g: GridView, d: Seq<Option<i64>>, x: int, y: int) -> bool {
    0 <= x < g.width && 0 <= y < g.height && d[y * g.width + x] is Some
}

/// Whether cell `u` of the region has a fence on side `k`: the neighbour
/// there lies outside the region.
pub open spec fn fence(g: GridView, d: Seq<Option<i64>>, u: int, k: int) -> bool {
    let x = u % (g.width as int);
    let y = u / (g.width as int);
    ins(g, d, x, y) && !ins(g, d, x + spec_direction(k).0, y + spec_direction(k).1)
}

/// Whether the fence of cell `u` on side `k` ends a straight side: the next
/// cell along the side, turning the side's direction a quarter, has no
/// fence on that side.
pub open spec fn side_end(g: GridView, d: Seq<Option<i64>>, u: int, k: int) -> bool {
    let x = u % (g.width as int);
    let y = u / (g.width as int);
    let (dx, dy) = spec_direction(k);
    let (rx, ry) = (-dy, dx);
    fence(g, d, u, k) && !(ins(g, d, x + rx, y + ry) && !ins(g, d, x + rx + dx, y + ry + dy))
}

/// What cell `u` adds: 1 where it is in the region (`what == 0`), its
/// fences (`what == 1`), or the sides that end at it (`what == 2`).
pub open spec fn cell_share(g: GridView, d: Seq<Option<i64>>, u: int, what: int) -> int {
    if what == 0 {
        if ins(g, d, u % (g.width as int), u / (g.width as int)) {
            1
        } else {
            0
        }
    } else if what == 1 {
        (if fence(g, d, u, 0) { 1int } else { 0int }) + (if fence(g, d, u, 1) { 1int } else { 0int }) + (
        if fence(g, d, u, 2) { 1int } else { 0int }) + (if fence(g, d, u, 3) { 1int } else { 0int })
    } else {
        (if side_end(g, d, u, 0) { 1int } else { 0int }) + (if side_end(g, d, u, 1) { 1int } else { 0int })
            + (if side_end(g, d, u, 2) { 1int } else { 0int }) + (if side_end(g, d, u, 3) { 1int } else { 0int })
    }
}

/// The sum of `cell_share` over the first `c` cells.
pub open spec fn region_sum(g: GridView, d: Seq<Option<i64>>, c: int, what: int) -> int
    decreases c,
{
    if c <= 0 {
        0
    } else {
        region_sum(g, d, c - 1, what) + cell_share(g, d, c - 1, what)
    }
}

/// The region of cell `v`, as its distances over the plant lattice.
pub open spec fn region_of(g: GridView, v: int) -> Seq<Option<i64>> {
    lattice_distances(plants(g), g.width as int, g.height as int, v)
}

/// The cells covered once the cells before `v` have been visited in order,
/// each one not yet covered adding its whole region.
pub open spec fn covered(g: GridView, v: int) -> Seq<bool>
    decreases v,
{
    if v <= 0 {
        Seq::new((g.width * g.height) as nat, |u: int| false)
    } else {
        let c = covered(g, v - 1);
        if c[v - 1] {
            c
        } else {
            Seq::new(c.len(), |u: int| c[u] || region_of(g, v - 1)[u] is Some)
        }
    }
}

/// The fencing price of each region, counted at its first cell: its area
/// times its perimeter (`what == 1`) or its number of sides (`what == 2`).
pub open spec fn prices(g: GridView, what: int) -> Seq<int> {
    let n = (g.width * g.height) as int;
    Seq::new(
        n as nat,
        |v: int|
            if covered(g, v)[v] {
                0
            } else {
                region_sum(g, region_of(g, v), n, 0) * region_sum(g, region_of(g, v), n, what)
            },
    )
}

/// Whether `(x, y)` is a cell that the region with distances `d` holds.
fn inside(g: &Grid, d: &Vec<Option<i64>>, x: i64, y: i64) -> (r: bool)
    requires
        g.wf(),
        d@.len() == g.width * g.height,
    ensures
        r == ins(g@, d@, x as int, y as int),
{
    if x < 0 || y < 0 || x >= g.width as i64 || y >= g.height as i64 {
        return false;
    }
    proof {
        g.lemma_cells_fit();
        assert(0 <= y * g.width <= y * g.width + x < g.width * g.height) by (nonlinear_arith)
            requires
                0 <= x < g.width,
                0 <= y < g.height,
        ;
    }
    d[(y as usize) * g.width + (x as usize)].is_some()
}

/// What cell `u` adds, as `cell_share` says.
fn share(g: &Grid, d: &Vec<Option<i64>>, u: usize, what: u8) -> (r: i64)
    requires
        g.wf(),
        d@.len() == g.width * g.height,
        u < g.width * g.height,
    ensures
        r == cell_share(g@, d@, u as int, what as int),
        0 <= r <= 4,
{
    let w = g.width;
    proof {
        g.lemma_cells_fit();
        assert(w >= 1) by (nonlinear_arith)
            requires
                0 <= u < w * g.height,
        ;
        assert((u as int) % (w as int) < w && (u as int) / (w as int) <= u) by (nonlinear_arith)
            requires
                0 <= u < w * g.height,
                w >= 1,
        ;
    }
    let x = (u % w) as i64;
    let y = (u / w) as i64;
    if what == 0 {
        return if inside(g, d, x, y) { 1 } else { 0 };
    }
    let mut total: i64 = 0;
    let mut k: usize = 0;
    let here = inside(g, d, x, y);
    while k < 4
        invariant
            g.wf(),
            d@.len() == g.width * g.height,
            w == g.width,
            x == (u as int) % (w as int),
            y == (u as int) / (w as int),
            0 <= x < i32::MAX,
            0 <= y < i32::MAX,
            here == ins(g@, d@, x as int, y as int),
            what != 0,
            k <= 4,
            0 <= total <= k,
            total == (if what == 1 {
                (if k > 0 && fence(g@, d@, u as int, 0) { 1int } else { 0int }) + (if k > 1 && fence(g@, d@, u as int, 1) { 1int } else { 0int })
                    + (if k > 2 && fence(g@, d@, u as int, 2) { 1int } else { 0int }) + (if k > 3 && fence(g@, d@, u as int, 3) { 1int } else { 0int })
            } else {
                (if k > 0 && side_end(g@, d@, u as int, 0) { 1int } else { 0int }) + (if k > 1 && side_end(g@, d@, u as int, 1) { 1int } else { 0int })
                    + (if k > 2 && side_end(g@, d@, u as int, 2) { 1int } else { 0int }) + (if k > 3 && side_end(g@, d@, u as int, 3) { 1int } else { 0int })
            }),
        decreases 4 - k,
    {
        let dir = crate::vector::Vector2d::direction(k);
        let dx = dir.0 as i64;
        let dy = dir.1 as i64;
        let is_fence = here && !inside(g, d, x + dx, y + dy);
        let counts = if what == 1 {
            is_fence
        } else {
            is_fence && !(inside(g, d, x - dy, y + dx) && !inside(g, d, x - dy + dx, y + dx + dy))
        };
        if counts {
            total = total + 1;
        }
        k = k + 1;
    }
    total
}

/// The sum of `cell_share` over all cells.
fn region_total(g: &Grid, d: &Vec<Option<i64>>, what: u8) -> (r: i64)
    requires
        g.wf(),
        d@.len() == g.width * g.height,
    ensures
        r == region_sum(g@, d@, (g.width * g.height) as int, what as int),
        0 <= r <= 4 * g.width * g.height,
{
    let n = g.cell_count();
    let mut total: i64 = 0;
    let mut u: usize = 0;
    while u < n
        invariant
            g.wf(),
            d@.len() == g.width * g.height,
            n == g.width * g.height,
            n < i32::MAX,
            u <= n,
            total == region_sum(g@, d@, u as int, what as int),
            0 <= total <= 4 * u,
        decreases n - u,
    {
        total = total + share(g, d, u, what);
        u = u + 1;
    }
    proof {
        assert(4 * g.width * g.height == 4 * n) by (nonlinear_arith)
            requires
                n == g.width * g.height,
        ;
    }
    total
}

/// The plant of every cell.
fn plant_labels(g: &Grid) -> (r: Vec<u8>)
    requires
        g.wf(),
    ensures
        r@ == plants(g@),
{
    let n = g.cell_count();
    let w = g.width;
    let mut out: Vec<u8> = Vec::new();
    let mut c: usize = 0;
    while c < n
        invariant
            g.wf(),
            w == g.width,
            n == g.width * g.height,
            c <= n,
            out@.len() == c,
            forall|v: int| 0 <= v < c ==> out@[v] == g@.cell(v % (w as int), v / (w as int)),
        decreases n - c,
    {
        proof {
            assert(w >= 1) by (nonlinear_arith)
                requires
                    0 <= c < w * g.height,
            ;
            assert((c as int) % (w as int) < w && (c as int) / (w as int) < g.height) by (nonlinear_arith)
                requires
                    0 <= c < w * g.height,
                    w >= 1,
            ;
        }
        let b = g.get_at((c % w) as i64, (c / w) as i64);
        out.push(b.unwrap());
        c = c + 1;
    }
    proof {
        assert(out@ =~= plants(g@));
    }
    out
}

/// The total fencing price: each region's area times its perimeter
/// (`what == 1`) or its number of sides (`what == 2`); `None` where the grid
/// has more than `MAX_LATTICE` cells or the total leaves the `i64` range.
pub fn fencing_price(g: &Grid, what: u8) -> (r: Option<i64>)
    requires
        g.wf(),
        what == 1 || what == 2,
    ensures
        g.width * g.height <= MAX_LATTICE ==> opt_int(r) == checked_sum(prices(g@, what as int)),
        g.width * g.height > MAX_LATTICE ==> r is None,
{
    let n = g.cell_count();
    if n > MAX_LATTICE {
        return None;
    }
    if n == 0 {
        proof {
            assert(prices(g@, what as int) =~= Seq::<int>::empty());
        }
        return Some(0);
    }
    proof {
        assert(g.width <= MAX_LATTICE && g.height <= MAX_LATTICE) by (nonlinear_arith)
            requires
                0 < g.width * g.height <= MAX_LATTICE,
        ;
    }
    let labels = plant_labels(g);
    let ghost ps = prices(g@, what as int);
    let mut marks: Vec<bool> = crate::day06::no_marks_for(n);
    proof {
        assert(marks@ =~= covered(g@, 0));
    }
    let mut out: Vec<i64> = Vec::new();
    let mut v: usize = 0;
    while v < n
        invariant
            g.wf(),
            n == g.width * g.height,
            n <= MAX_LATTICE,
            g.width <= MAX_LATTICE,
            g.height <= MAX_LATTICE,
            labels@ == plants(g@),
            ps == prices(g@, what as int),
            v <= n,
            marks@ == covered(g@, v as int),
            out@.len() == v,
            forall|k: int| 0 <= k < v ==> out@[k] == ps[k],
        decreases n - v,
    {
        proof {
            lemma_covered_len(g@, v as int);
        }
        if marks[v] {
            out.push(0);
        } else {
            let d = lattice_shortest_paths(&labels, g.width, g.height, v);
            let area = region_total(g, &d, 0);
            let other = region_total(g, &d, what);
            proof {
                assert(4 * g.width * g.height == 4 * n) by (nonlinear_arith)
                    requires
                        n == g.width * g.height,
                ;
                assert(0 <= area * other <= 400000000 * 400000000) by (nonlinear_arith)
                    requires
                        0 <= area <= 400000000,
                        0 <= other <= 400000000,
                ;
            }
            out.push(area * other);
            let mut next: Vec<bool> = Vec::new();
            let mut u: usize = 0;
            while u < n
                invariant
                    n == g.width * g.height,
                    marks@.len() == n,
                    d@.len() == n,
                    u <= n,
                    next@.len() == u,
                    forall|q: int| 0 <= q < u ==> next@[q] == (marks@[q] || d@[q] is Some),
                decreases n - u,
            {
                next.push(marks[u] || d[u].is_some());
                u = u + 1;
            }
            marks = next;
            proof {
                assert(marks@ =~= covered(g@, v + 1));
            }
        }
        v = v + 1;
    }
    proof {
        assert(out@.map_values(|x: i64| x as int) =~= ps);
    }
    sum_checked(&out)
}

proof fn lemma_covered_len(g: GridView, v: int)
    ensures
        covered(g, v).len() == g.width * g.height,
    decreases v,
{
    if v > 0 {
        lemma_covered_len(g, v - 1);
    }
}

/// The total price of fencing every region by its perimeter, in the garden
/// of the input; `None` where the text is no grid, or as `fencing_price`
/// says.
pub fn part_1(input: &str) -> (r: Option<i64>)
    ensures
        r is Some ==> exists|g: Grid|
            g.wf() && g.text@ == input.spec_bytes() && g.width * g.height <= MAX_LATTICE
                && checked_sum(prices(g@, 1)) == Some(r->0 as int),
        r is None ==> forall|g: Grid|
            #[trigger] g.wf() && g.text@ == input.spec_bytes() ==> (g.width * g.height > MAX_LATTICE
                || checked_sum(prices(g@, 1)) is None),
{
    match Grid::new(input) {
        Ok(g) => {
            let r = fencing_price(&g, 1);
            proof {
                assert forall|g2: Grid| #[trigger] g2.wf() && g2.text@ == input.spec_bytes() implies g2@ == g@ by {
                    crate::grid::lemma_rectangular_unique(
                        g.text@,
                        g.width as nat,
                        g.height as nat,
                        g2.width as nat,
                        g2.height as nat,
                    );
                }
            }
            r
        },
        Err(_) => None,
    }
}

/// The total price of fencing every region by its number of sides; `None`
/// as for `part_1`.
pub fn part_2(input: &str) -> (r: Option<i64>)
    ensures
        r is Some ==> exists|g: Grid|
            g.wf() && g.text@ == input.spec_bytes() && g.width * g.height <= MAX_LATTICE
                && checked_sum(prices(g@, 2)) == Some(r->0 as int),
        r is None ==> forall|g: Grid|
            #[trigger] g.wf() && g.text@ == input.spec_bytes() ==> (g.width * g.height > MAX_LATTICE
                || checked_sum(prices(g@, 2)) is None),
{
    match Grid::new(input) {
        Ok(g) => {
            let r = fencing_price(&g, 2);
            proof {
                assert forall|g2: Grid| #[trigger] g2.wf() && g2.text@ == input.spec_bytes() implies g2@ == g@ by {
                    crate::grid::lemma_rectangular_unique(
                        g.text@,
                        g.width as nat,
                        g.height as nat,
                        g2.width as nat,
                        g2.height as nat,
                    );
                }
            }
            r
        },
        Err(_) => None,
    }
}

} // verus!
