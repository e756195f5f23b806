use vstd::prelude::*;
use vstd::string::StringSliceAdditionalSpecFns;
use crate::grid::{Grid, GridView};
use crate::text::opt_int;

verus! {

/// The letters searched for, in order: `XMAS`.
pub open spec fn xmas_letter(i: int) -> u8 {
    if i == 0 {
        88
    } else if i == 1 {
        77
    } else if i == 2 {
        65
    } else {
        83
    }
}

/// The eight directions, as `(dx, dy)`: every step to a touching cell.
pub open spec fn direction8(k: int) -> (int, int) {
    let a = if k < 4 { k } else { k + 1 };
    (a / 3 - 1, a % 3 - 1)
}

/// The four diagonal directions.
pub open spec fn diagonal(k: int) -> (int, int) {
    (if k < 2 { -1 } else { 1 }, if k % 2 == 0 { -1 } else { 1 })
}

/// The byte at `(x, y)`, where that is a cell.
pub open spec fn at(g: GridView, x: int, y: int) -> Option<u8> {
    if g.in_bounds(x, y) {
        Some(g.cell(x, y))
    } else {
        None
    }
}

/// Whether `XMAS` is written from `(x, y)` in direction `(dx, dy)`.
pub open spec fn xmas_at(g: GridView, x: int, y: int, dx: int, dy: int) -> bool {
    forall|i: int| 0 <= i < 4 ==> #[trigger] at(g, x + i * dx, y + i * dy) == Some(xmas_letter(i))
}

/// Whether `M`, `A`, `S` are written through `(x, y)` along `(dx, dy)`, with
/// the `A` at `(x, y)`.
pub open spec fn mas_through(g: GridView, x: int, y: int, dx: int, dy: int) -> bool {
    at(g, x - dx, y - dy) == Some(77u8) && at(g, x, y) == Some(65u8) && at(g, x + dx, y + dy) == Some(
        83u8,
    )
}

/// The cell with row-major index `c`.
pub open spec fn cell_x(g: GridView, c: int) -> int {
    c % (g.width as int)
}

/// The row of the cell with row-major index `c`.
pub open spec fn cell_y(g: GridView, c: int) -> int {
    c / (g.width as int)
}

/// How many of the first `j` (cell, direction) pairs start an `XMAS`; pair
/// `j` is cell `j / 8` with direction `j % 8`.
pub open spec fn xmas_count(g: GridView, j: int) -> int
    decreases j,
{
    if j <= 0 {
        0
    } else {
        let c = (j - 1) / 8;
        let k = (j - 1) % 8;
        xmas_count(g, j - 1) + if xmas_at(
            g,
            cell_x(g, c),
            cell_y(g, c),
            direction8(k).0,
            direction8(k).1,
        ) {
            1int
        } else {
            0int
        }
    }
}

/// How many diagonals among the first `k` have `MAS` through `(x, y)`.
pub open spec fn mas_count(g: GridView, x: int, y: int, k: int) -> int
    decreases k,
{
    if k <= 0 {
        0
    } else {
        mas_count(g, x, y, k - 1) + if mas_through(g, x, y, diagonal(k - 1).0, diagonal(k - 1).1) {
            1int
        } else {
            0int
        }
    }
}

/// How many of the first `c` cells are the centre of two `MAS` that cross.
pub open spec fn cross_count(g: GridView, c: int) -> int
    decreases c,
{
    if c <= 0 {
        0
    } else {
        cross_count(g, c - 1) + if mas_count(g, cell_x(g, c - 1), cell_y(g, c - 1), 4) >= 2 {
            1int
        } else {
            0int
        }
    }
}

/// The direction with index `k` among the eight.
fn direction_vector(k: usize) -> (r: (i64, i64))
    requires
        k < 8,
    ensures
        (r.0 as int, r.1 as int) == direction8(k as int),
{
    let a: i64 = if k < 4 { k as i64 } else { k as i64 + 1 };
    (a / 3 - 1, a % 3 - 1)
}

/// The diagonal with index `k` among the four.
fn diagonal_vector(k: usize) -> (r: (i64, i64))
    requires
        k < 4,
    ensures
        (r.0 as int, r.1 as int) == diagonal(k as int),
{
    (if k < 2 { -1 } else { 1 }, if k % 2 == 0 { -1 } else { 1 })
}

impl Grid {
    /// Whether `XMAS` is written from `(x, y)` in direction `(dx, dy)`.
    pub fn has_xmas(&self, x: i64, y: i64, dx: i64, dy: i64) -> (r: bool)
        requires
            self.wf(),
            -1 <= dx <= 1,
            -1 <= dy <= 1,
            0 <= x < i32::MAX,
            0 <= y < i32::MAX,
        ensures
            r == xmas_at(self@, x as int, y as int, dx as int, dy as int),
    {
        let letters: [u8; 4] = [88, 77, 65, 83];
        let mut i: i64 = 0;
        while i < 4
            invariant
                self.wf(),
                0 <= i <= 4,
                -1 <= dx <= 1,
                -1 <= dy <= 1,
                0 <= x < i32::MAX,
                0 <= y < i32::MAX,
                forall|k: int| 0 <= k < 4 ==> letters@[k] == xmas_letter(k),
                forall|k: int|
                    0 <= k < i ==> #[trigger] at(self@, x + k * dx, y + k * dy) == Some(
                        xmas_letter(k),
                    ),
            decreases 4 - i,
        {
            proof {
                assert(-4 <= i * dx <= 4 && -4 <= i * dy <= 4) by (nonlinear_arith)
                    requires
                        0 <= i <= 4,
                        -1 <= dx <= 1,
                        -1 <= dy <= 1,
                ;
            }
            let b = self.get_at(x + i * dx, y + i * dy);
            if b != Some(letters[i as usize]) {
                proof {
                    assert(at(self@, x + i * dx, y + i * dy) != Some(xmas_letter(i as int)));
                }
                return false;
            }
            i = i + 1;
        }
        true
    }

    /// Whether `M`, `A`, `S` are written through `(x, y)` along `(dx, dy)`.
    pub fn has_cross_mas(&self, x: i64, y: i64, dx: i64, dy: i64) -> (r: bool)
        requires
            self.wf(),
            -1 <= dx <= 1,
            -1 <= dy <= 1,
            0 <= x < i32::MAX,
            0 <= y < i32::MAX,
        ensures
            r == mas_through(self@, x as int, y as int, dx as int, dy as int),
    {
        self.get_at(x - dx, y - dy) == Some(77u8) && self.get_at(x, y) == Some(65u8) && self.get_at(
            x + dx,
            y + dy,
        ) == Some(83u8)
    }
}

/// How many times `XMAS` is written in the grid, in any of the eight
/// directions.
pub fn count_xmas(g: &Grid) -> (r: i64)
    requires
        g.wf(),
    ensures
        r == xmas_count(g@, 8 * (g.width * g.height)),
{
    let cells = g.cell_count();
    let w = g.width;
    let n: u64 = 8 * (cells as u64);
    let mut count: i64 = 0;
    let mut j: u64 = 0;
    while j < n
        invariant
            g.wf(),
            w == g.width,
            cells == g.width * g.height,
            cells < i32::MAX,
            n == 8 * cells,
            j <= n,
            count == xmas_count(g@, j as int),
            0 <= count <= j,
        decreases n - j,
    {
        let c = (j / 8) as usize;
        let k = (j % 8) as usize;
        proof {
            assert(w >= 1) by (nonlinear_arith)
                requires
                    c < cells,
                    cells == w * g.height,
            ;
            assert((c as int) % (w as int) < w && (c as int) / (w as int) <= c) by (nonlinear_arith)
                requires
                    w >= 1,
                    c >= 0,
            ;
        }
        let (dx, dy) = direction_vector(k);
        if g.has_xmas((c % w) as i64, (c / w) as i64, dx, dy) {
            count = count + 1;
        }
        j = j + 1;
    }
    count
}

/// How many cells are the centre of two `MAS` that cross on the diagonals.
pub fn count_cross_mas(g: &Grid) -> (r: i64)
    requires
        g.wf(),
    ensures
        r == cross_count(g@, g.width * g.height),
{
    let cells = g.cell_count();
    let w = g.width;
    let mut count: i64 = 0;
    let mut c: usize = 0;
    while c < cells
        invariant
            g.wf(),
            w == g.width,
            cells == g.width * g.height,
            cells < i32::MAX,
            c <= cells,
            count == cross_count(g@, c as int),
            0 <= count <= c,
        decreases cells - c,
    {
        proof {
            assert(w >= 1) by (nonlinear_arith)
                requires
                    c < cells,
                    cells == w * g.height,
            ;
            assert((c as int) % (w as int) < w && (c as int) / (w as int) <= c) by (nonlinear_arith)
                requires
                    w >= 1,
                    c >= 0,
            ;
        }
        let x = (c % w) as i64;
        let y = (c / w) as i64;
        let mut found: i64 = 0;
        let mut k: usize = 0;
        while k < 4
            invariant
                g.wf(),
                k <= 4,
                0 <= x < i32::MAX,
                0 <= y < i32::MAX,
                found == mas_count(g@, x as int, y as int, k as int),
                0 <= found <= k,
            decreases 4 - k,
        {
            let (dx, dy) = diagonal_vector(k);
            if g.has_cross_mas(x, y, dx, dy) {
                found = found + 1;
            }
            k = k + 1;
        }
        if found >= 2 {
            count = count + 1;
        }
        c = c + 1;
    }
    count
}

/// How many times `XMAS` is written in the grid of the input; `None` where
/// the text is no grid.
pub fn part_1(input: &str) -> (r: Option<i64>)
    ensures
        match r {
            Some(n) => exists|g: Grid|
                g.wf() && g.text@ == input.spec_bytes() && n == xmas_count(
                    g@,
                    8 * (g.width * g.height),
                ),
            None => !exists|g: Grid| g.wf() && g.text@ == input.spec_bytes(),
        },
{
    match Grid::new(input) {
        Ok(g) => Some(count_xmas(&g)),
        Err(_) => None,
    }
}

/// How many cells are the centre of two crossing `MAS` in the grid of the
/// input; `None` where the text is no grid.
pub fn part_2(input: &str) -> (r: Option<i64>)
    ensures
        match r {
            Some(n) => exists|g: Grid|
                g.wf() && g.text@ == input.spec_bytes() && n == cross_count(g@, g.width * g.height),
            None => !exists|g: Grid| g.wf() && g.text@ == input.spec_bytes(),
        },
{
    match Grid::new(input) {
        Ok(g) => Some(count_cross_mas(&g)),
        Err(_) => None,
    }
}

} // verus!
