use vstd::prelude::*;
use vstd::string::StringSliceAdditionalSpecFns;
use crate::grid::{Grid, GridView};
use crate::day04::at;
use crate::vector::spec_direction;

verus! {

/// The height of a trailhead: `0`.
pub const TRAILHEAD: u8 = 48;

/// The height of a peak: `9`.
pub const PEAK: u8 = 57;

/// `4` to the power `n`.
pub open spec fn pow4(n: int) -> int
    decreases n,
{
    if n <= 0 {
        1
    } else {
        4 * pow4(n - 1)
    }
}

/// The peaks reached from `(x, y)` by a trail that starts there at height
/// `h` and climbs one at each orthogonal step.
pub open spec fn peaks_from(g: GridView, x: int, y: int, h: int) -> Set<(int, int)>
    decreases PEAK - h,
{
    if at(g, x, y) != Some(h as u8) || h < TRAILHEAD || h > PEAK {
        Set::empty()
    } else if h == PEAK {
        set![(x, y)]
    } else {
        peaks_from(g, x + 1, y, h + 1).union(peaks_from(g, x, y - 1, h + 1)).union(
            peaks_from(g, x - 1, y, h + 1),
        ).union(peaks_from(g, x, y + 1, h + 1))
    }
}

/// The number of trails from `(x, y)` at height `h` up to a peak.
pub open spec fn trails_from(g: GridView, x: int, y: int, h: int) -> int
    decreases PEAK - h,
{
    if at(g, x, y) != Some(h as u8) || h < TRAILHEAD || h > PEAK {
        0
    } else if h == PEAK {
        1
    } else {
        trails_from(g, x + 1, y, h + 1) + trails_from(g, x, y - 1, h + 1) + trails_from(
            g,
            x - 1,
            y,
            h + 1,
        ) + trails_from(g, x, y + 1, h + 1)
    }
}

/// The sum, over the trailheads among the first `c` cells, of the number
/// of peaks each reaches.
pub open spec fn score_total(g: GridView, c: int) -> int
    decreases c,
{
    if c <= 0 {
        0
    } else {
        let x = (c - 1) % (g.width as int);
        let y = (c - 1) / (g.width as int);
        score_total(g, c - 1) + peaks_from(g, x, y, TRAILHEAD as int).len()
    }
}

/// The sum, over the trailheads among the first `c` cells, of the number
/// of trails from each.
pub open spec fn rating_total(g: GridView, c: int) -> int
    decreases c,
{
    if c <= 0 {
        0
    } else {
        let x = (c - 1) % (g.width as int);
        let y = (c - 1) / (g.width as int);
        rating_total(g, c - 1) + trails_from(g, x, y, TRAILHEAD as int)
    }
}

proof fn lemma_peaks_bound(g: GridView, x: int, y: int, h: int)
    ensures
        peaks_from(g, x, y, h).finite(),
        peaks_from(g, x, y, h).len() <= pow4(PEAK - h),
    decreases PEAK - h,
{
    if at(g, x, y) != Some(h as u8) || h < TRAILHEAD || h > PEAK {
        assert(pow4(PEAK - h) >= 1) by {
            lemma_pow4_positive(PEAK - h);
        }
    } else if h == PEAK {
    } else {
        let a = peaks_from(g, x + 1, y, h + 1);
        let b = peaks_from(g, x, y - 1, h + 1);
        let c = peaks_from(g, x - 1, y, h + 1);
        let d = peaks_from(g, x, y + 1, h + 1);
        lemma_peaks_bound(g, x + 1, y, h + 1);
        lemma_peaks_bound(g, x, y - 1, h + 1);
        lemma_peaks_bound(g, x - 1, y, h + 1);
        lemma_peaks_bound(g, x, y + 1, h + 1);
        vstd::set_lib::lemma_len_union(a, b);
        vstd::set_lib::lemma_len_union(a.union(b), c);
        vstd::set_lib::lemma_len_union(a.union(b).union(c), d);
    }
}

proof fn lemma_trails_bound(g: GridView, x: int, y: int, h: int)
    ensures
        0 <= trails_from(g, x, y, h) <= pow4(PEAK - h),
    decreases PEAK - h,
{
    lemma_pow4_positive(PEAK - h);
    if at(g, x, y) == Some(h as u8) && TRAILHEAD <= h < PEAK {
        lemma_trails_bound(g, x + 1, y, h + 1);
        lemma_trails_bound(g, x, y - 1, h + 1);
        lemma_trails_bound(g, x - 1, y, h + 1);
        lemma_trails_bound(g, x, y + 1, h + 1);
    }
}

proof fn lemma_pow4_positive(n: int)
    ensures
        pow4(n) >= 1,
    decreases n,
{
    if n > 0 {
        lemma_pow4_positive(n - 1);
    }
}

/// Whether `v` holds `p`.
fn holds(v: &Vec<(i64, i64)>, p: (i64, i64)) -> (r: bool)
    ensures
        r == v@.contains(p),
{
    let mut i: usize = 0;
    while i < v.len()
        invariant
            i <= v@.len(),
            forall|k: int| 0 <= k < i ==> v@[k] != p,
        decreases v@.len() - i,
    {
        if v[i].0 == p.0 && v[i].1 == p.1 {
            return true;
        }
        i = i + 1;
    }
    false
}

/// The view of a list of points as pairs of integers.
pub open spec fn points(v: Seq<(i64, i64)>) -> Set<(int, int)> {
    Set::new(|p: (int, int)| exists|i: int| 0 <= i < v.len() && v[i].0 == p.0 && v[i].1 == p.1)
}

/// Adds to `reached` every peak reached from `(x, y)` at height `h`.
fn collect_peaks(g: &Grid, x: i64, y: i64, h: u8, reached: &mut Vec<(i64, i64)>)
    requires
        g.wf(),
        -1 <= x <= i32::MAX,
        -1 <= y <= i32::MAX,
        TRAILHEAD <= h <= PEAK,
        old(reached)@.no_duplicates(),
    ensures
        final(reached)@.no_duplicates(),
        points(final(reached)@) == points(old(reached)@).union(
            peaks_from(g@, x as int, y as int, h as int),
        ),
    decreases PEAK - h,
{
    let ghost start = reached@;
    if g.get_at(x, y) != Some(h) {
        proof {
            assert(points(reached@) =~= points(start).union(peaks_from(g@, x as int, y as int, h as int)));
        }
        return;
    }
    if h == PEAK {
        if !holds(reached, (x, y)) {
            reached.push((x, y));
            proof {
                assert forall|i: int, j: int|
                    0 <= i < reached@.len() && 0 <= j < reached@.len() && i != j implies reached@[i]
                    != reached@[j] by {
                    if i < start.len() && j < start.len() {
                    } else if i == start.len() {
                        assert(!start.contains((x, y)));
                        assert(reached@[j] == start[j]);
                    } else {
                        assert(reached@[i] == start[i]);
                    }
                }
                assert(points(reached@) =~= points(start).union(set![(x as int, y as int)])) by {
                    assert forall|p: (int, int)| points(reached@).contains(p) implies points(start).union(set![(x as int, y as int)]).contains(p) by {
                        let i = choose|i: int| 0 <= i < reached@.len() && reached@[i].0 == p.0 && reached@[i].1 == p.1;
                        if i < start.len() {
                            assert(start[i] == reached@[i]);
                        }
                    }
                    assert forall|p: (int, int)| points(start).union(set![(x as int, y as int)]).contains(p) implies points(reached@).contains(p) by {
                        if points(start).contains(p) {
                            let i = choose|i: int| 0 <= i < start.len() && start[i].0 == p.0 && start[i].1 == p.1;
                            assert(reached@[i] == start[i]);
                        } else {
                            assert(reached@[start.len() as int] == (x, y));
                        }
                    }
                }
            }
        } else {
            proof {
                let i = choose|i: int| 0 <= i < start.len() && start[i] == (x, y);
                assert(points(reached@) =~= points(start).union(set![(x as int, y as int)])) by {
                    assert(points(start).contains((x as int, y as int)));
                }
            }
        }
        return;
    }
    let ghost s0 = points(reached@);
    collect_peaks(g, x + 1, y, h + 1, reached);
    collect_peaks(g, x, y - 1, h + 1, reached);
    collect_peaks(g, x - 1, y, h + 1, reached);
    collect_peaks(g, x, y + 1, h + 1, reached);
    proof {
        assert(points(reached@) =~= points(start).union(peaks_from(g@, x as int, y as int, h as int)));
    }
}

/// The number of trails from `(x, y)` at height `h` up to a peak.
fn count_trails(g: &Grid, x: i64, y: i64, h: u8) -> (r: i64)
    requires
        g.wf(),
        -1 <= x <= i32::MAX,
        -1 <= y <= i32::MAX,
        TRAILHEAD <= h <= PEAK,
    ensures
        r == trails_from(g@, x as int, y as int, h as int),
    decreases PEAK - h,
{
    if g.get_at(x, y) != Some(h) {
        return 0;
    }
    if h == PEAK {
        return 1;
    }
    proof {
        lemma_trails_bound(g@, x + 1, y as int, h + 1);
        lemma_trails_bound(g@, x as int, y - 1, h + 1);
        lemma_trails_bound(g@, x - 1, y as int, h + 1);
        lemma_trails_bound(g@, x as int, y + 1, h + 1);
        assert(pow4(PEAK - h - 1) <= pow4(9)) by {
            lemma_pow4_monotone(PEAK - h - 1, 9);
        }
        assert(pow4(9) == 262144) by {
            reveal_with_fuel(pow4, 10);
        }
    }
    count_trails(g, x + 1, y, h + 1) + count_trails(g, x, y - 1, h + 1) + count_trails(
        g,
        x - 1,
        y,
        h + 1,
    ) + count_trails(g, x, y + 1, h + 1)
}

/// A list of distinct points holds as many points as it is long.
proof fn lemma_points_len(v: Seq<(i64, i64)>)
    requires
        v.no_duplicates(),
    ensures
        points(v).finite(),
        points(v).len() == v.len(),
{
    let m = v.map_values(|p: (i64, i64)| (p.0 as int, p.1 as int));
    assert(m.no_duplicates()) by {
        assert forall|i: int, j: int| 0 <= i < m.len() && 0 <= j < m.len() && i != j implies m[i] != m[j] by {
            assert(v[i] != v[j]);
        }
    }
    assert(points(v) =~= m.to_set()) by {
        assert forall|p: (int, int)| points(v).contains(p) implies m.to_set().contains(p) by {
            let i = choose|i: int| 0 <= i < v.len() && v[i].0 == p.0 && v[i].1 == p.1;
            assert(m[i] == p);
        }
        assert forall|p: (int, int)| m.to_set().contains(p) implies points(v).contains(p) by {
            let i = choose|i: int| 0 <= i < m.len() && m[i] == p;
            assert(v[i].0 == p.0 && v[i].1 == p.1);
        }
    }
    m.unique_seq_to_set();
    vstd::seq_lib::seq_to_set_is_finite(m);
}

/// The number of distinct peaks reached from each trailhead, summed over
/// the trailheads of the grid.
pub fn total_score(g: &Grid) -> (r: i64)
    requires
        g.wf(),
    ensures
        r == score_total(g@, g.width * g.height),
{
    let cells = g.cell_count();
    let w = g.width;
    let mut total: i64 = 0;
    let mut c: usize = 0;
    while c < cells
        invariant
            g.wf(),
            w == g.width,
            cells == g.width * g.height,
            cells < i32::MAX,
            c <= cells,
            total == score_total(g@, c as int),
            0 <= total <= c * 262144,
        decreases cells - c,
    {
        proof {
            assert(w >= 1) by (nonlinear_arith)
                requires
                    c < cells,
                    cells == w * g.height,
            ;
            assert((c as int) % (w as int) < w && (c as int) / (w as int) <= c) by (nonlinear_arith)
                requires
                    w >= 1,
                    c >= 0,
            ;
        }
        let x = (c % w) as i64;
        let y = (c / w) as i64;
        let mut reached: Vec<(i64, i64)> = Vec::new();
        proof {
            assert(points(reached@) =~= Set::<(int, int)>::empty());
        }
        collect_peaks(g, x, y, TRAILHEAD, &mut reached);
        proof {
            assert(points(reached@) =~= peaks_from(g@, x as int, y as int, TRAILHEAD as int));
            lemma_points_len(reached@);
            lemma_peaks_bound(g@, x as int, y as int, TRAILHEAD as int);
            assert(pow4(9) == 262144) by {
                reveal_with_fuel(pow4, 10);
            }
            assert((c + 1) * 262144 == c * 262144 + 262144) by (nonlinear_arith);
        }
        total = total + reached.len() as i64;
        c = c + 1;
    }
    total
}

/// The number of trails from each trailhead, summed over the trailheads of
/// the grid.
pub fn total_rating(g: &Grid) -> (r: i64)
    requires
        g.wf(),
    ensures
        r == rating_total(g@, g.width * g.height),
{
    let cells = g.cell_count();
    let w = g.width;
    let mut total: i64 = 0;
    let mut c: usize = 0;
    while c < cells
        invariant
            g.wf(),
            w == g.width,
            cells == g.width * g.height,
            cells < i32::MAX,
            c <= cells,
            total == rating_total(g@, c as int),
            0 <= total <= c * 262144,
        decreases cells - c,
    {
        proof {
            assert(w >= 1) by (nonlinear_arith)
                requires
                    c < cells,
                    cells == w * g.height,
            ;
            assert((c as int) % (w as int) < w && (c as int) / (w as int) <= c) by (nonlinear_arith)
                requires
                    w >= 1,
                    c >= 0,
            ;
        }
        let x = (c % w) as i64;
        let y = (c / w) as i64;
        let t = count_trails(g, x, y, TRAILHEAD);
        proof {
            lemma_trails_bound(g@, x as int, y as int, TRAILHEAD as int);
            assert(pow4(9) == 262144) by {
                reveal_with_fuel(pow4, 10);
            }
            assert((c + 1) * 262144 == c * 262144 + 262144) by (nonlinear_arith);
        }
        total = total + t;
        c = c + 1;
    }
    total
}

/// The sum of the trailhead scores of the map in the input: each counts the
/// peaks it reaches; `None` where the text is no grid.
pub fn part_1(input: &str) -> (r: Option<i64>)
    ensures
        match r {
            Some(n) => exists|g: Grid|
                g.wf() && g.text@ == input.spec_bytes() && n == score_total(g@, g.width * g.height),
            None => !exists|g: Grid| g.wf() && g.text@ == input.spec_bytes(),
        },
{
    match Grid::new(input) {
        Ok(g) => Some(total_score(&g)),
        Err(_) => None,
    }
}

/// The sum of the trailhead ratings of the map in the input: each counts the
/// trails that start there; `None` where the text is no grid.
pub fn part_2(input: &str) -> (r: Option<i64>)
    ensures
        match r {
            Some(n) => exists|g: Grid|
                g.wf() && g.text@ == input.spec_bytes() && n == rating_total(g@, g.width * g.height),
            None => !exists|g: Grid| g.wf() && g.text@ == input.spec_bytes(),
        },
{
    match Grid::new(input) {
        Ok(g) => Some(total_rating(&g)),
        Err(_) => None,
    }
}

proof fn lemma_pow4_monotone(a: int, b: int)
    requires
        a <= b,
    ensures
        pow4(a) <= pow4(b),
    decreases b - a,
{
    if a < b {
        lemma_pow4_monotone(a, b - 1);
        lemma_pow4_positive(b - 1);
    }
}

} // verus!
