use vstd::prelude::*;
use vstd::string::StringSliceAdditionalSpecFns;
use crate::day04::at;
use crate::day16::{first_cell_from, find_cell, lemma_first_cell_in_grid};
use crate::grid::{Grid, GridView};
use crate::vector::Vector2d;

verus! {

/// An obstruction.
pub const OBSTACLE: u8 = 35;

/// The guard's starting cell, facing up.
pub const GUARD: u8 = 94;

/// The guard's heading `d`: up, right, down, left; a right turn adds one.
pub open spec fn heading(d: int) -> (int, int) {
    if d == 0 {
        (0, -1)
    } else if d == 1 {
        (1, 0)
    } else if d == 2 {
        (0, 1)
    } else {
        (-1, 0)
    }
}

/// Whether the guard cannot step onto `(x, y)`: an obstruction of the map,
/// or the one added at `extra`.
pub open spec fn blocked(g: GridView, extra: Option<(int, int)>, x: int, y: int) -> bool {
    at(g, x, y) == Some(OBSTACLE) || extra == Some((x, y))
}

/// The guard's next position and heading: she turns right, up to three
/// times, until the cell ahead is free, and steps onto it; `None` where all
/// four cells around her are blocked.
pub open spec fn guard_step(g: GridView, extra: Option<(int, int)>, s: (int, int, int)) -> Option<(int, int, int)> {
    turn_from(g, extra, s, 0)
}

/// The step after `r` right turns have been tried.
pub open spec fn turn_from(g: GridView, extra: Option<(int, int)>, s: (int, int, int), r: int) -> Option<(int, int, int)>
    decreases 4 - r,
{
    if r >= 4 || r < 0 {
        None
    } else {
        let d = (s.2 + r) % 4;
        let nx = s.0 + heading(d).0;
        let ny = s.1 + heading(d).1;
        if !blocked(g, extra, nx, ny) {
            Some((nx, ny, d))
        } else {
            turn_from(g, extra, s, r + 1)
        }
    }
}

/// The guard's state after `k` steps from `s`; `None` where she gets boxed in.
pub open spec fn walk(g: GridView, extra: Option<(int, int)>, s: (int, int, int), k: nat) -> Option<(int, int, int)>
    decreases k,
{
    if k == 0 {
        Some(s)
    } else {
        match walk(g, extra, s, (k - 1) as nat) {
            Some(t) => if g.in_bounds(t.0, t.1) {
                guard_step(g, extra, t)
            } else {
                Some(t)
            },
            None => None,
        }
    }
}

/// The number of steps after which the guard first stands outside the map,
/// looking no further than `limit` steps.
pub open spec fn exit_step(g: GridView, extra: Option<(int, int)>, s: (int, int, int), k: nat, limit: nat) -> Option<nat>
    decreases limit + 1 - k,
{
    if k > limit {
        None
    } else {
        match walk(g, extra, s, k) {
            Some(t) => if !g.in_bounds(t.0, t.1) {
                Some(k)
            } else {
                exit_step(g, extra, s, k + 1, limit)
            },
            None => None,
        }
    }
}

/// How many steps a walk is followed before it is taken to go round forever:
/// one more than the guard's states, four headings per cell.
pub open spec fn step_limit(g: GridView) -> nat {
    (4 * g.width * g.height + 1) as nat
}

/// Whether a state puts the guard on `(x, y)`.
pub open spec fn stands_at(t: Option<(int, int, int)>, x: int, y: int) -> bool {
    match t {
        Some((a, b, _)) => a == x && b == y,
        None => false,
    }
}

/// Whether the guard stood on cell `(x, y)` within her first `k` steps.
pub open spec fn visited_within(g: GridView, extra: Option<(int, int)>, s: (int, int, int), k: nat, x: int, y: int) -> bool {
    exists|i: nat| i < k && stands_at(#[trigger] walk(g, extra, s, i), x, y)
}

/// How many of the first `c` cells the guard stood on within `k` steps.
pub open spec fn count_visited(g: GridView, ex: Option<(int, int)>, s: (int, int, int), k: nat, c: int) -> int
    decreases c,
{
    if c <= 0 {
        0
    } else {
        count_visited(g, ex, s, k, c - 1) + if visited_within(
            g,
            ex,
            s,
            k,
            (c - 1) % (g.width as int),
            (c - 1) / (g.width as int),
        ) {
            1int
        } else {
            0int
        }
    }
}

/// The guard's start: the first `^`, facing up.
pub open spec fn guard_start(g: GridView) -> Option<(int, int, int)> {
    match first_cell_from(g, GUARD, 0) {
        Some(c) => Some((c % (g.width as int), c / (g.width as int), 0)),
        None => None,
    }
}

/// How many cells the guard stands on before she leaves the map; `None`
/// where the map is too large, has no guard, or she never leaves.
pub open spec fn patrol_cells(g: GridView) -> Option<int> {
    if g.width * g.height > crate::day16::MAX_CELLS {
        None
    } else {
        match guard_start(g) {
            Some(s) => match exit_step(g, None, s, 0, step_limit(g)) {
                Some(k) => Some(count_visited(g, None, s, k, (g.width * g.height) as int)),
                None => None,
            },
            None => None,
        }
    }
}

/// How many of the first `c` cells would, with an obstruction added there,
/// keep the guard from ever leaving.
pub open spec fn count_loops(g: GridView, s: (int, int, int), c: int) -> int
    decreases c,
{
    if c <= 0 {
        0
    } else {
        count_loops(g, s, c - 1) + if exit_step(
            g,
            Some(((c - 1) % (g.width as int), (c - 1) / (g.width as int))),
            s,
            0,
            step_limit(g),
        ) is None {
            1int
        } else {
            0int
        }
    }
}

/// How many cells would trap the guard with an obstruction added there;
/// `None` where the map is too large or has no guard.
pub open spec fn loop_cells(g: GridView) -> Option<int> {
    if g.width * g.height > crate::day16::MAX_CELLS {
        None
    } else {
        match guard_start(g) {
            Some(s) => Some(count_loops(g, s, (g.width * g.height) as int)),
            None => None,
        }
    }
}

/// An added obstruction, as a pair of integers.
pub open spec fn extra_pos(e: Option<(i64, i64)>) -> Option<(int, int)> {
    match e {
        Some((x, y)) => Some((x as int, y as int)),
        None => None,
    }
}

/// The guard's state as integers.
pub open spec fn state_of(t: (i64, i64, usize)) -> (int, int, int) {
    (t.0 as int, t.1 as int, t.2 as int)
}

/// The step of heading `d`.
fn heading_vector(d: usize) -> (r: (i64, i64))
    requires
        d < 4,
    ensures
        (r.0 as int, r.1 as int) == heading(d as int),
{
    if d == 0 {
        (0, -1)
    } else if d == 1 {
        (1, 0)
    } else if d == 2 {
        (0, 1)
    } else {
        (-1, 0)
    }
}

/// The guard's next state, as `guard_step` says.
fn step_guard(g: &Grid, extra: Option<(i64, i64)>, t: (i64, i64, usize)) -> (r: Option<(i64, i64, usize)>)
    requires
        g.wf(),
        g@.in_bounds(t.0 as int, t.1 as int),
        t.2 < 4,
    ensures
        match r {
            Some(u) => guard_step(g@, extra_pos(extra), state_of(t)) == Some(state_of(u)) && u.2 < 4
                && -1 <= u.0 <= g.width && -1 <= u.1 <= g.height,
            None => guard_step(g@, extra_pos(extra), state_of(t)) is None,
        },
{
    let mut r: usize = 0;
    while r < 4
        invariant
            g.wf(),
            g@.in_bounds(t.0 as int, t.1 as int),
            t.2 < 4,
            r <= 4,
            guard_step(g@, extra_pos(extra), state_of(t)) == turn_from(g@, extra_pos(extra), state_of(t), r as int),
        decreases 4 - r,
    {
        let d = (t.2 + r) % 4;
        let (dx, dy) = heading_vector(d);
        let nx = t.0 + dx;
        let ny = t.1 + dy;
        let hit_extra = match extra {
            Some((ex, ey)) => ex == nx && ey == ny,
            None => false,
        };
        if !hit_extra && g.get_at(nx, ny) != Some(OBSTACLE) {
            return Some((nx, ny, d));
        }
        r = r + 1;
    }
    None
}

/// Follows the guard from `start`, facing up, until she leaves the map;
/// where `marks` is given, marks each cell she stands on. `Some` with the
/// number of steps taken where she leaves within `step_limit`, else `None`.
fn patrol(g: &Grid, start: (i64, i64), extra: Option<(i64, i64)>, marks: &mut Vec<bool>) -> (r: Option<u64>)
    requires
        g.wf(),
        g@.in_bounds(start.0 as int, start.1 as int),
        old(marks)@.len() == g.width * g.height,
        forall|c: int| 0 <= c < g.width * g.height ==> !(#[trigger] old(marks)@[c]),
    ensures
        final(marks)@.len() == g.width * g.height,
        match r {
            Some(k) => exit_step(g@, extra_pos(extra), (start.0 as int, start.1 as int, 0), 0, step_limit(g@))
                == Some(k as nat),
            None => exit_step(g@, extra_pos(extra), (start.0 as int, start.1 as int, 0), 0, step_limit(g@)) is None,
        },
        r is Some ==> forall|c: int|
            0 <= c < g.width * g.height ==> (#[trigger] final(marks)@[c] <==> visited_within(
                g@,
                extra_pos(extra),
                (start.0 as int, start.1 as int, 0),
                r->0 as nat,
                c % (g.width as int),
                c / (g.width as int),
            )),
{
    let ghost s0 = (start.0 as int, start.1 as int, 0int);
    let ghost ex = extra_pos(extra);
    proof {
        g.lemma_cells_fit();
    }
    let w = g.width;
    let cells = g.cell_count() as u64;
    let limit: u64 = 4 * cells + 1;
    proof {
        assert(4 * g.width * g.height == 4 * (g.width * g.height)) by (nonlinear_arith);
    }
    let mut cur: (i64, i64, usize) = (start.0, start.1, 0);
    let mut k: u64 = 0;
    while k <= limit
        invariant
            g.wf(),
            w == g.width,
            g.width * g.height < i32::MAX,
            limit == step_limit(g@),
            limit < 10000000000,
            s0 == (start.0 as int, start.1 as int, 0int),
            ex == extra_pos(extra),
            marks@.len() == g.width * g.height,
            walk(g@, ex, s0, k as nat) == Some(state_of(cur)),
            cur.2 < 4,
            -1 <= cur.0 <= g.width,
            -1 <= cur.1 <= g.height,
            exit_step(g@, ex, s0, 0, limit as nat) == exit_step(g@, ex, s0, k as nat, limit as nat),
            forall|c: int|
                0 <= c < g.width * g.height ==> (#[trigger] marks@[c] <==> visited_within(
                    g@,
                    ex,
                    s0,
                    k as nat,
                    c % (g.width as int),
                    c / (g.width as int),
                )),
        decreases limit + 1 - k,
    {
        if cur.0 < 0 || cur.1 < 0 || cur.0 >= g.width as i64 || cur.1 >= g.height as i64 {
            proof {
                assert(!g@.in_bounds(state_of(cur).0, state_of(cur).1));
                assert(exit_step(g@, ex, s0, k as nat, limit as nat) == Some(k as nat));
            }
            return Some(k);
        }
        let ghost before = marks@;
        proof {
            assert(0 <= cur.1 * w <= cur.1 * w + cur.0 < g.width * g.height) by (nonlinear_arith)
                requires
                    0 <= cur.0 < w,
                    0 <= cur.1 < g.height,
                    w == g.width,
            ;
        }
        let cell = (cur.1 as usize) * w + (cur.0 as usize);
        marks.set(cell, true);
        proof {
            assert forall|c: int| 0 <= c < g.width * g.height implies (#[trigger] marks@[c] <==> visited_within(
                g@,
                ex,
                s0,
                (k + 1) as nat,
                c % (g.width as int),
                c / (g.width as int),
            )) by {
                let cx = c % (g.width as int);
                let cy = c / (g.width as int);
                assert(c == cy * (g.width as int) + cx && 0 <= cx < g.width) by (nonlinear_arith)
                    requires
                        g.width >= 1,
                        c >= 0,
                        cx == c % (g.width as int),
                        cy == c / (g.width as int),
                ;
                if visited_within(g@, ex, s0, (k + 1) as nat, cx, cy) {
                    let i = choose|i: nat| i < k + 1 && stands_at(#[trigger] walk(g@, ex, s0, i), cx, cy);
                    if i < k {
                        assert(visited_within(g@, ex, s0, k as nat, cx, cy));
                    } else {
                        assert(cx == cur.0 && cy == cur.1);
                    }
                }
                if c == cell {
                    assert(stands_at(walk(g@, ex, s0, k as nat), cx, cy)) by {
                        assert(cx == cur.0 && cy == cur.1) by (nonlinear_arith)
                            requires
                                c == cur.1 * (g.width as int) + cur.0,
                                0 <= cur.0 < g.width,
                                cx == c % (g.width as int),
                                cy == c / (g.width as int),
                                c == cy * (g.width as int) + cx,
                                0 <= cx < g.width,
                        ;
                    }
                } else if visited_within(g@, ex, s0, k as nat, cx, cy) {
                    let i = choose|i: nat| i < k && stands_at(#[trigger] walk(g@, ex, s0, i), cx, cy);
                    assert(i < k + 1);
                }
                if c != cell {
                    assert(marks@[c] == before[c]);
                    if stands_at(walk(g@, ex, s0, k as nat), cx, cy) {
                        assert(c == cur.1 * (g.width as int) + cur.0);
                    }
                }
            }
        }
        match step_guard(g, extra, cur) {
            Some(next) => {
                cur = next;
            },
            None => {
                proof {
                    assert(walk(g@, ex, s0, (k + 1) as nat) is None);
                    assert(exit_step(g@, ex, s0, (k + 1) as nat, limit as nat) is None);
                    assert(exit_step(g@, ex, s0, k as nat, limit as nat) is None);
                }
                return None;
            },
        }
        k = k + 1;
    }
    None
}

/// Whether the guard, with an obstruction added at `extra`, never leaves
/// the map: she does not within `step_limit` steps, or gets boxed in.
pub fn gets_stuck(g: &Grid, start: (i64, i64), extra: (i64, i64)) -> (r: bool)
    requires
        g.wf(),
        g@.in_bounds(start.0 as int, start.1 as int),
    ensures
        r == exit_step(
            g@,
            Some((extra.0 as int, extra.1 as int)),
            (start.0 as int, start.1 as int, 0),
            0,
            step_limit(g@),
        ) is None,
{
    let mut marks: Vec<bool> = Vec::new();
    let cells = g.cell_count();
    let mut c: usize = 0;
    while c < cells
        invariant
            c <= cells,
            marks@.len() == c,
            forall|j: int| 0 <= j < c ==> !(#[trigger] marks@[j]),
        decreases cells - c,
    {
        marks.push(false);
        c = c + 1;
    }
    patrol(g, start, Some(extra), &mut marks).is_none()
}

/// The guard's starting cell.
fn find_guard(g: &Grid) -> (r: Option<(i64, i64)>)
    requires
        g.wf(),
        g.width * g.height <= crate::day16::MAX_CELLS,
    ensures
        match r {
            Some(p) => guard_start(g@) == Some((p.0 as int, p.1 as int, 0int)) && g@.in_bounds(
                p.0 as int,
                p.1 as int,
            ),
            None => guard_start(g@) is None,
        },
{
    match find_cell(g, GUARD) {
        Some(c) => {
            proof {
                lemma_first_cell_in_grid(g@, GUARD, c as int);
                assert((c as int) % (g.width as int) < g.width && (c as int) / (g.width as int) < g.height) by (nonlinear_arith)
                    requires
                        0 <= c < g.width * g.height,
                ;
            }
            Some(((c % g.width) as i64, (c / g.width) as i64))
        },
        None => None,
    }
}

/// Cleared marks, one per cell.
pub(crate) fn no_marks_for(n: usize) -> (r: Vec<bool>)
    ensures
        r@.len() == n,
        forall|c: int| 0 <= c < n ==> !(#[trigger] r@[c]),
{
    let mut marks: Vec<bool> = Vec::new();
    let mut c: usize = 0;
    while c < n
        invariant
            c <= n,
            marks@.len() == c,
            forall|j: int| 0 <= j < c ==> !(#[trigger] marks@[j]),
        decreases n - c,
    {
        marks.push(false);
        c = c + 1;
    }
    marks
}

/// The number of cells the guard stands on before she leaves the map of the
/// input; `None` where the text is no grid, or as `patrol_cells` says.
pub fn part_1(input: &str) -> (r: Option<i64>)
    ensures
        r is Some ==> exists|g: Grid|
            g.wf() && g.text@ == input.spec_bytes() && patrol_cells(g@) == Some(r->0 as int),
        r is None ==> forall|g: Grid|
            #[trigger] g.wf() && g.text@ == input.spec_bytes() ==> patrol_cells(g@) is None,
{
    let g = match Grid::new(input) {
        Ok(g) => g,
        Err(_) => {
            return None;
        },
    };
    proof {
        assert forall|g2: Grid| #[trigger] g2.wf() && g2.text@ == input.spec_bytes() implies g2@ == g@ by {
            crate::grid::lemma_rectangular_unique(g.text@, g.width as nat, g.height as nat, g2.width as nat, g2.height as nat);
        }
    }
    let cells = g.cell_count();
    if cells > crate::day16::MAX_CELLS {
        return None;
    }
    let start = match find_guard(&g) {
        Some(p) => p,
        None => {
            return None;
        },
    };
    let mut marks = no_marks_for(cells);
    let steps = match patrol(&g, start, None, &mut marks) {
        Some(k) => k,
        None => {
            return None;
        },
    };
    let ghost s0 = (start.0 as int, start.1 as int, 0int);
    let mut count: i64 = 0;
    let mut c: usize = 0;
    while c < cells
        invariant
            g.wf(),
            cells == g.width * g.height,
            cells < i32::MAX,
            marks@.len() == cells,
            c <= cells,
            forall|j: int|
                0 <= j < cells ==> (#[trigger] marks@[j] <==> visited_within(
                    g@,
                    None,
                    s0,
                    steps as nat,
                    j % (g.width as int),
                    j / (g.width as int),
                )),
            count == count_visited(g@, None, s0, steps as nat, c as int),
            0 <= count <= c,
        decreases cells - c,
    {
        if marks[c] {
            count = count + 1;
        }
        c = c + 1;
    }
    Some(count)
}

/// The number of cells where an added obstruction would keep the guard from
/// ever leaving; `None` where the text is no grid, or as `loop_cells` says.
pub fn part_2(input: &str) -> (r: Option<i64>)
    ensures
        r is Some ==> exists|g: Grid|
            g.wf() && g.text@ == input.spec_bytes() && loop_cells(g@) == Some(r->0 as int),
        r is None ==> forall|g: Grid|
            #[trigger] g.wf() && g.text@ == input.spec_bytes() ==> loop_cells(g@) is None,
{
    let g = match Grid::new(input) {
        Ok(g) => g,
        Err(_) => {
            return None;
        },
    };
    proof {
        assert forall|g2: Grid| #[trigger] g2.wf() && g2.text@ == input.spec_bytes() implies g2@ == g@ by {
            crate::grid::lemma_rectangular_unique(g.text@, g.width as nat, g.height as nat, g2.width as nat, g2.height as nat);
        }
    }
    let cells = g.cell_count();
    if cells > crate::day16::MAX_CELLS {
        return None;
    }
    let start = match find_guard(&g) {
        Some(p) => p,
        None => {
            return None;
        },
    };
    let ghost s0 = (start.0 as int, start.1 as int, 0int);
    let w = g.width;
    let mut count: i64 = 0;
    let mut c: usize = 0;
    while c < cells
        invariant
            g.wf(),
            w == g.width,
            cells == g.width * g.height,
            cells < i32::MAX,
            g@.in_bounds(start.0 as int, start.1 as int),
            s0 == (start.0 as int, start.1 as int, 0int),
            c <= cells,
            count == count_loops(g@, s0, c as int),
            0 <= count <= c,
        decreases cells - c,
    {
        proof {
            assert((c as int) % (w as int) < w && (c as int) / (w as int) <= c) by (nonlinear_arith)
                requires
                    0 <= c < w * g.height,
            ;
        }
        if gets_stuck(&g, start, ((c % w) as i64, (c / w) as i64)) {
            count = count + 1;
        }
        c = c + 1;
    }
    Some(count)
}

} // verus!
