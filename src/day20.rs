use vstd::prelude::*;
use vstd::string::StringSliceAdditionalSpecFns;
use crate::day16::{first_cell_from, find_cell, START, WALL};
use crate::grid::{Grid, GridView};
use crate::lattice::{lattice_distances, lattice_shortest_paths, MAX_LATTICE};

verus! {

/// The longest cheat this solver takes.
pub const MAX_CHEAT: i64 = 1000;

/// The track: every cell that is not a wall (1), row-major; walls are 0.
pub open spec fn track(g: GridView) -> Seq<u8> {
    Seq::new(
        (g.width * g.height) as nat,
        |v: int| if g.cell(v % (g.width as int), v / (g.width as int)) != WALL { 1u8 } else { 0u8 },
    )
}

/// The offsets a cheat of up to `ct` moves may jump: offset `o` is
/// `(o % (2ct + 1) - ct, o / (2ct + 1) - ct)`.
pub open spec fn offset(ct: int, o: int) -> (int, int) {
    (o % (2 * ct + 1) - ct, o / (2 * ct + 1) - ct)
}

/// `|x| + |y|`.
pub open spec fn taxicab(p: (int, int)) -> int {
    (if p.0 < 0 { -p.0 } else { p.0 }) + (if p.1 < 0 { -p.1 } else { p.1 })
}

/// Whether jumping from cell `a` by offset `o`, through walls, in at most
/// `ct` moves lands on the track and saves at least `min_saving` (and at
/// least one) of the distance from the start.
pub open spec fn good_cheat(g: GridView, d: Seq<Option<i64>>, ct: int, min_saving: int, a: int, o: int) -> bool {
    let w = g.width as int;
    let h = g.height as int;
    let (dx, dy) = offset(ct, o);
    let bx = a % w + dx;
    let by = a / w + dy;
    let b = by * w + bx;
    &&& taxicab((dx, dy)) <= ct
    &&& 0 <= bx < w
    &&& 0 <= by < h
    &&& track(g)[a] != 0
    &&& track(g)[b] != 0
    &&& d[a] is Some
    &&& d[b] is Some
    &&& d[b]->0 - d[a]->0 - taxicab((dx, dy)) > 0
    &&& d[b]->0 - d[a]->0 - taxicab((dx, dy)) >= min_saving
}

/// How many of the first `j` (cell, offset) pairs are good cheats; pair `j`
/// is cell `j / (2ct + 1)^2` with offset `j % (2ct + 1)^2`.
pub open spec fn cheats_upto(g: GridView, d: Seq<Option<i64>>, ct: int, min_saving: int, j: int) -> int
    decreases j,
{
    if j <= 0 {
        0
    } else {
        let k = (2 * ct + 1) * (2 * ct + 1);
        cheats_upto(g, d, ct, min_saving, j - 1) + if good_cheat(
            g,
            d,
            ct,
            min_saving,
            (j - 1) / k,
            (j - 1) % k,
        ) {
            1int
        } else {
            0int
        }
    }
}

/// The number of good cheats over a grid, `None` where it has no start, is
/// too large, or the cheat length is negative or over `MAX_CHEAT`.
pub open spec fn cheat_count(g: GridView, ct: int, min_saving: int) -> Option<int> {
    if ct < 0 || ct > MAX_CHEAT || g.width * g.height > MAX_LATTICE {
        None
    } else {
        match first_cell_from(g, START, 0) {
            Some(s) => {
                let d = lattice_distances(track(g), g.width as int, g.height as int, s);
                let k = (2 * ct + 1) * (2 * ct + 1);
                Some(cheats_upto(g, d, ct, min_saving, g.width * g.height * k))
            },
            None => None,
        }
    }
}

/// The track cells of the grid.
fn track_of(g: &Grid) -> (r: Vec<u8>)
    requires
        g.wf(),
    ensures
        r@ == track(g@),
{
    let cells = g.cell_count();
    let w = g.width;
    let mut free: Vec<u8> = Vec::new();
    let mut c: usize = 0;
    while c < cells
        invariant
            g.wf(),
            w == g.width,
            cells == g.width * g.height,
            c <= cells,
            free@.len() == c,
            forall|v: int| 0 <= v < c ==> free@[v] == (if g@.cell(v % (w as int), v / (w as int)) != WALL {
                1u8
            } else {
                0u8
            }),
        decreases cells - c,
    {
        proof {
            assert(w >= 1) by (nonlinear_arith)
                requires
                    c < cells,
                    cells == w * g.height,
            ;
            assert((c as int) % (w as int) < w && (c as int) / (w as int) < g.height) by (nonlinear_arith)
                requires
                    w >= 1,
                    0 <= c < cells,
                    cells == w * g.height,
            ;
        }
        let b = g.get_at((c % w) as i64, (c / w) as i64);
        free.push(if b != Some(WALL) { 1 } else { 0 });
        c = c + 1;
    }
    proof {
        assert(free@ =~= track(g@));
    }
    free
}

/// Whether the jump from cell `a` by offset `o` is a good cheat.
fn is_good_cheat(
    g: &Grid,
    free: &Vec<u8>,
    d: &Vec<Option<i64>>,
    ct: i64,
    min_saving: i64,
    a: usize,
    o: u64,
) -> (r: bool)
    requires
        g.wf(),
        free@ == track(g@),
        d@.len() == g.width * g.height,
        0 <= ct <= MAX_CHEAT,
        a < g.width * g.height,
        o < (2 * ct + 1) * (2 * ct + 1),
    ensures
        r == good_cheat(g@, d@, ct as int, min_saving as int, a as int, o as int),
{
    let w = g.width;
    let h = g.height;
    let span = (2 * ct + 1) as u64;
    proof {
        assert((o as int) / (span as int) < span) by (nonlinear_arith)
            requires
                0 <= o < span * span,
                span >= 1,
        ;
        assert((o as int) % (span as int) < span) by (nonlinear_arith)
            requires
                span >= 1,
        ;
    }
    let dx: i64 = (o % span) as i64 - ct;
    let dy: i64 = (o / span) as i64 - ct;
    proof {
        assert(w >= 1) by (nonlinear_arith)
            requires
                a < w * h,
        ;
        assert((a as int) % (w as int) < w && (a as int) / (w as int) < h) by (nonlinear_arith)
            requires
                w >= 1,
                0 <= a < w * h,
        ;
    }
    let ax = (a % w) as i64;
    let ay = (a / w) as i64;
    let jump: i64 = (if dx < 0 { -dx } else { dx }) + (if dy < 0 { -dy } else { dy });
    if jump > ct {
        return false;
    }
    let bx = ax + dx;
    let by = ay + dy;
    if bx < 0 || by < 0 || bx >= w as i64 || by >= h as i64 {
        return false;
    }
    proof {
        g.lemma_cells_fit();
        assert(0 <= by * w <= by * w + bx < w * h) by (nonlinear_arith)
            requires
                0 <= bx < w,
                0 <= by < h,
        ;
    }
    let b = (by as usize) * w + (bx as usize);
    if free[a] == 0 || free[b] == 0 {
        return false;
    }
    match (d[a], d[b]) {
        (Some(da), Some(db)) => {
            let saving: i128 = db as i128 - da as i128 - jump as i128;
            saving > 0 && saving >= min_saving as i128
        },
        _ => false,
    }
}

/// The number of cheats of up to `ct` moves, through walls from one track
/// cell to another, that save at least `min_saving` moves on the way from
/// the start; `None` as `cheat_count` says.
pub fn count_cheats(g: &Grid, ct: i64, min_saving: i64) -> (r: Option<i64>)
    requires
        g.wf(),
    ensures
        match r {
            Some(n) => cheat_count(g@, ct as int, min_saving as int) == Some(n as int),
            None => cheat_count(g@, ct as int, min_saving as int) is None,
        },
{
    if ct < 0 || ct > MAX_CHEAT {
        return None;
    }
    let cells = g.cell_count();
    if cells > MAX_LATTICE {
        return None;
    }
    let s = match find_cell(g, START) {
        Some(s) => s,
        None => {
            return None;
        },
    };
    proof {
        crate::day16::lemma_first_cell_in_grid(g@, START, s as int);
    }
    let free = track_of(g);
    proof {
        assert(g.width <= MAX_LATTICE && g.height <= MAX_LATTICE) by (nonlinear_arith)
            requires
                1 <= g.width * g.height <= MAX_LATTICE,
        ;
    }
    let d = lattice_shortest_paths(&free, g.width, g.height, s);
    let span = (2 * ct + 1) as u64;
    proof {
        assert(1 <= span * span <= 4004001) by (nonlinear_arith)
            requires
                1 <= span <= 2001,
        ;
    }
    let k = span * span;
    proof {
        assert(cells * k <= 2147483647 * 4004001) by (nonlinear_arith)
            requires
                0 <= cells < 2147483647,
                1 <= k <= 4004001,
        ;
    }
    let n = (cells as u64) * k;
    let mut count: i64 = 0;
    let mut j: u64 = 0;
    while j < n
        invariant
            g.wf(),
            free@ == track(g@),
            d@.len() == g.width * g.height,
            0 <= ct <= MAX_CHEAT,
            span == 2 * ct + 1,
            k == span * span,
            cells == g.width * g.height,
            cells < i32::MAX,
            n == cells * k,
            n <= 2147483647 * 4004001,
            k >= 1,
            j <= n,
            count == cheats_upto(g@, d@, ct as int, min_saving as int, j as int),
            0 <= count <= j,
        decreases n - j,
    {
        proof {
            assert((j as int) / (k as int) < cells && (j as int) % (k as int) < k) by (nonlinear_arith)
                requires
                    0 <= j < n,
                    n == cells * k,
                    k >= 1,
            ;
        }
        if is_good_cheat(g, &free, &d, ct, min_saving, (j / k) as usize, j % k) {
            count = count + 1;
        }
        j = j + 1;
    }
    Some(count)
}

/// The number of cheats of up to `cheat_time` moves in the racetrack of the
/// input that save at least `min_saving` moves; `None` where the text is no
/// grid or as `cheat_count` says.
pub fn part_1(input: &str, cheat_time: i64, min_saving: i64) -> (r: Option<i64>)
    ensures
        r is Some ==> exists|g: Grid|
            g.wf() && g.text@ == input.spec_bytes() && cheat_count(g@, cheat_time as int, min_saving as int)
                == Some(r->0 as int),
        r is None ==> forall|g: Grid|
            #[trigger] g.wf() && g.text@ == input.spec_bytes() ==> cheat_count(
                g@,
                cheat_time as int,
                min_saving as int,
            ) is None,
{
    match Grid::new(input) {
        Ok(g) => {
            let r = count_cheats(&g, cheat_time, min_saving);
            proof {
                assert forall|g2: Grid| #[trigger] g2.wf() && g2.text@ == input.spec_bytes() implies g2@ == g@ by {
                    crate::grid::lemma_rectangular_unique(
                        g.text@,
                        g.width as nat,
                        g.height as nat,
                        g2.width as nat,
                        g2.height as nat,
                    );
                }
            }
            r
        },
        Err(_) => None,
    }
}

} // verus!
