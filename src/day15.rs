use vstd::prelude::*;
use vstd::string::StringSliceAdditionalSpecFns;
use crate::day04::at;
use crate::day16::{find_cell, first_cell_from, lemma_first_cell_in_grid};
use crate::day19::first_blank;
use crate::grid::{Grid, GridView};
use crate::text::{checked_sum, fits_i64, lemma_checked_sum_unfit_term, opt_int, sum_checked, LINE_BREAK};

verus! {

/// A wall.
pub const WALL: u8 = 35;

/// The robot.
pub const ROBOT: u8 = 64;

/// A box.
pub const BOX: u8 = 79;

/// The step a move byte names: `^`, `>`, `v`, `<`; `None` for any other.
pub open spec fn move_step(b: u8) -> Option<(int, int)> {
    if b == 94 {
        Some((0, -1))
    } else if b == 62 {
        Some((1, 0))
    } else if b == 118 {
        Some((0, 1))
    } else if b == 60 {
        Some((-1, 0))
    } else {
        None
    }
}

/// The moves written in `s`, line breaks skipped; `None` where another byte
/// stands there.
pub open spec fn moves_of(s: Seq<u8>) -> Option<Seq<(int, int)>>
    decreases s.len(),
{
    if s.len() == 0 {
        Some(Seq::empty())
    } else {
        match moves_of(s.drop_last()) {
            Some(ms) => if s.last() == LINE_BREAK {
                Some(ms)
            } else {
                match move_step(s.last()) {
                    Some(d) => Some(ms.push(d)),
                    None => None,
                }
            },
            None => None,
        }
    }
}

/// The first thing, from position `j` on, standing at `p`.
pub open spec fn thing_at(things: Seq<(int, int)>, p: (int, int), j: int) -> Option<int>
    decreases things.len() - j,
{
    if j < 0 || j >= things.len() {
        None
    } else if things[j] == p {
        Some(j)
    } else {
        thing_at(things, p, j + 1)
    }
}

/// The things once thing `i` is pushed one step by `d`, pushing whatever
/// stands in its way in turn, at most `fuel` deep; `None` where a wall
/// stops the row or a coordinate would leave the `i64` range.
pub open spec fn push(g: GridView, things: Seq<(int, int)>, i: int, d: (int, int), fuel: nat) -> Option<Seq<(int, int)>>
    decreases fuel,
{
    let t = (things[i].0 + d.0, things[i].1 + d.1);
    if !fits_i64(t.0) || !fits_i64(t.1) {
        None
    } else {
        match thing_at(things, t, 0) {
            Some(j) => if fuel == 0 {
                None
            } else {
                match push(g, things, j, d, (fuel - 1) as nat) {
                    Some(moved) => Some(moved.update(i, t)),
                    None => None,
                }
            },
            None => if at(g, t.0, t.1) != Some(WALL) {
                Some(things.update(i, t))
            } else {
                None
            },
        }
    }
}

/// The things after the first `k` moves of the robot, thing 0.
pub open spec fn after_moves(g: GridView, things: Seq<(int, int)>, ms: Seq<(int, int)>, k: int) -> Seq<(int, int)>
    decreases k,
{
    if k <= 0 {
        things
    } else {
        let before = after_moves(g, things, ms, k - 1);
        match push(g, before, 0, ms[k - 1], before.len()) {
            Some(t) => t,
            None => before,
        }
    }
}

/// The GPS coordinates of the boxes: `x + 100 * y` for each thing but the
/// robot.
pub open spec fn gps_terms(things: Seq<(int, int)>) -> Seq<int> {
    Seq::new(
        if things.len() > 0 { (things.len() - 1) as nat } else { 0 },
        |i: int| things[i + 1].0 + 100 * things[i + 1].1,
    )
}

/// The robot, then the boxes, in row-major order among the first `c` cells.
pub open spec fn things_upto(g: GridView, c: int) -> Seq<(int, int)>
    decreases c,
{
    if c <= 0 {
        Seq::empty()
    } else {
        let x = (c - 1) % (g.width as int);
        let y = (c - 1) / (g.width as int);
        if g.cell(x, y) == BOX {
            things_upto(g, c - 1).push((x, y))
        } else {
            things_upto(g, c - 1)
        }
    }
}

/// The map text and the moves: the text before the first blank line, and
/// the moves after it.
pub open spec fn warehouse(s: Seq<u8>) -> Option<(Seq<u8>, Seq<(int, int)>)> {
    match first_blank(s, 0) {
        Some(i) => match moves_of(s.skip(i + 2)) {
            Some(ms) => Some((s.take(i), ms)),
            None => None,
        },
        None => None,
    }
}

/// The sum of the boxes' GPS coordinates once the robot has made all its
/// moves; `None` where the map is too large, has no robot, or the sum leaves
/// the `i64` range.
pub open spec fn gps_total(g: GridView, ms: Seq<(int, int)>) -> Option<int> {
    let n = (g.width * g.height) as int;
    if n > crate::day16::MAX_CELLS {
        None
    } else {
        match first_cell_from(g, ROBOT, 0) {
            Some(c) => {
                let start = seq![(c % (g.width as int), c / (g.width as int))] + things_upto(g, n);
                checked_sum(gps_terms(after_moves(g, start, ms, ms.len() as int)))
            },
            None => None,
        }
    }
}

/// A list of things as pairs of integers.
pub open spec fn things_view(v: Seq<(i64, i64)>) -> Seq<(int, int)> {
    v.map_values(|p: (i64, i64)| (p.0 as int, p.1 as int))
}

/// The first thing standing at `(x, y)`.
fn find_thing(things: &Vec<(i64, i64)>, x: i64, y: i64) -> (r: Option<usize>)
    ensures
        match r {
            Some(j) => thing_at(things_view(things@), (x as int, y as int), 0) == Some(j as int),
            None => thing_at(things_view(things@), (x as int, y as int), 0) is None,
        },
{
    let ghost tv = things_view(things@);
    let mut j: usize = 0;
    while j < things.len()
        invariant
            j <= things@.len(),
            tv == things_view(things@),
            thing_at(tv, (x as int, y as int), 0) == thing_at(tv, (x as int, y as int), j as int),
        decreases things@.len() - j,
    {
        if things[j].0 == x && things[j].1 == y {
            return Some(j);
        }
        j = j + 1;
    }
    None
}

proof fn lemma_thing_at_bound(things: Seq<(int, int)>, p: (int, int), j: int, k: int)
    requires
        thing_at(things, p, j) == Some(k),
    ensures
        0 <= j <= k < things.len(),
    decreases things.len() - j,
{
    if 0 <= j < things.len() && things[j] != p {
        lemma_thing_at_bound(things, p, j + 1, k);
    }
}

/// Pushes thing `i` one step by `d`, as `push` says; the things stay as
/// they were where the push fails.
fn push_thing(g: &Grid, things: &mut Vec<(i64, i64)>, i: usize, d: (i64, i64), fuel: usize) -> (r: bool)
    requires
        g.wf(),
        i < old(things)@.len(),
        -1 <= d.0 <= 1,
        -1 <= d.1 <= 1,
    ensures
        match push(g@, things_view(old(things)@), i as int, (d.0 as int, d.1 as int), fuel as nat) {
            Some(t) => r && things_view(final(things)@) == t,
            None => !r && final(things)@ == old(things)@,
        },
        final(things)@.len() == old(things)@.len(),
    decreases fuel,
{
    let ghost tv = things_view(things@);
    let (px, py) = things[i];
    let tx = match px.checked_add(d.0) {
        Some(v) => v,
        None => {
            return false;
        },
    };
    let ty = match py.checked_add(d.1) {
        Some(v) => v,
        None => {
            return false;
        },
    };
    proof {
        assert(tv[i as int] == (px as int, py as int));
    }
    match find_thing(things, tx, ty) {
        Some(j) => {
            proof {
                lemma_thing_at_bound(tv, (tx as int, ty as int), 0, j as int);
            }
            if fuel == 0 {
                return false;
            }
            if !push_thing(g, things, j, d, fuel - 1) {
                return false;
            }
            let ghost moved = things_view(things@);
            things.set(i, (tx, ty));
            proof {
                assert(things_view(things@) =~= moved.update(i as int, (tx as int, ty as int)));
            }
            true
        },
        None => {
            if g.get_at(tx, ty) != Some(WALL) {
                things.set(i, (tx, ty));
                proof {
                    assert(things_view(things@) =~= tv.update(i as int, (tx as int, ty as int)));
                }
                true
            } else {
                false
            }
        },
    }
}

/// Reads the map text and the moves.
fn split_warehouse(s: &[u8]) -> (r: Option<(Vec<u8>, Vec<(i64, i64)>)>)
    ensures
        match r {
            Some((head, ms)) => warehouse(s@) == Some((head@, ms@.map_values(|d: (i64, i64)| (d.0 as int, d.1 as int))))
                && forall|k: int| 0 <= k < ms@.len() ==> -1 <= (#[trigger] ms@[k]).0 <= 1 && -1 <= ms@[k].1 <= 1,
            None => warehouse(s@) is None,
        },
{
    let n = s.len();
    let mut i: usize = 0;
    while i < n
        invariant
            n == s@.len(),
            first_blank(s@, 0) == first_blank(s@, i as int),
        decreases n - i,
    {
        if i + 1 < n && s[i] == LINE_BREAK && s[i + 1] == LINE_BREAK {
            let tail = vstd::slice::slice_subrange(s, i + 2, n);
            let head = vstd::slice::slice_subrange(s, 0, i);
            proof {
                assert(tail@ =~= s@.skip(i + 2));
                assert(head@ =~= s@.take(i as int));
            }
            let mut ms: Vec<(i64, i64)> = Vec::new();
            let mut k: usize = 0;
            while k < tail.len()
                invariant
                    k <= tail@.len(),
                    first_blank(s@, 0) == Some(i as int),
                    tail@ == s@.skip(i + 2),
                    moves_of(tail@.take(k as int)) == Some(ms@.map_values(|d: (i64, i64)| (d.0 as int, d.1 as int))),
                    forall|q: int| 0 <= q < ms@.len() ==> -1 <= (#[trigger] ms@[q]).0 <= 1 && -1 <= ms@[q].1 <= 1,
                decreases tail@.len() - k,
            {
                proof {
                    assert(tail@.take(k + 1).drop_last() == tail@.take(k as int));
                    assert(tail@.take(k + 1).last() == tail@[k as int]);
                }
                let b = tail[k];
                let ghost before = ms@.map_values(|d: (i64, i64)| (d.0 as int, d.1 as int));
                if b != LINE_BREAK {
                    let d: (i64, i64) = if b == 94 {
                        (0, -1)
                    } else if b == 62 {
                        (1, 0)
                    } else if b == 118 {
                        (0, 1)
                    } else if b == 60 {
                        (-1, 0)
                    } else {
                        proof {
                            lemma_moves_fail(tail@, k + 1);
                        }
                        return None;
                    };
                    ms.push(d);
                    proof {
                        assert(ms@.map_values(|d: (i64, i64)| (d.0 as int, d.1 as int)) =~= before.push(
                            (d.0 as int, d.1 as int),
                        ));
                    }
                }
                k = k + 1;
            }
            proof {
                assert(tail@.take(tail@.len() as int) == tail@);
            }
            return Some((vstd::slice::slice_to_vec(head), ms));
        }
        i = i + 1;
    }
    None
}

proof fn lemma_moves_fail(s: Seq<u8>, i: int)
    requires
        0 <= i <= s.len(),
        moves_of(s.take(i)) is None,
    ensures
        moves_of(s) is None,
    decreases s.len() - i,
{
    if i < s.len() {
        assert(s.take(i + 1).drop_last() == s.take(i));
        lemma_moves_fail(s, i + 1);
    } else {
        assert(s.take(i) == s);
    }
}

/// The robot, then the boxes in row-major order.
fn start_things(g: &Grid) -> (r: Option<Vec<(i64, i64)>>)
    requires
        g.wf(),
        g.width * g.height <= crate::day16::MAX_CELLS,
    ensures
        match r {
            Some(v) => first_cell_from(g@, ROBOT, 0) is Some && things_view(v@) == seq![(
                first_cell_from(g@, ROBOT, 0)->0 % (g.width as int),
                first_cell_from(g@, ROBOT, 0)->0 / (g.width as int),
            )] + things_upto(g@, g.width * g.height),
            None => first_cell_from(g@, ROBOT, 0) is None,
        },
{
    let w = g.width;
    let n = g.cell_count();
    let c = match find_cell(g, ROBOT) {
        Some(c) => c,
        None => {
            return None;
        },
    };
    proof {
        lemma_first_cell_in_grid(g@, ROBOT, c as int);
        assert(w >= 1) by (nonlinear_arith)
            requires
                0 <= c < w * g.height,
        ;
        assert((c as int) % (w as int) < w && (c as int) / (w as int) <= c) by (nonlinear_arith)
            requires
                0 <= c < w * g.height,
                w >= 1,
        ;
    }
    let mut out: Vec<(i64, i64)> = Vec::new();
    out.push(((c % w) as i64, (c / w) as i64));
    let ghost head = things_view(out@);
    let mut k: usize = 0;
    while k < n
        invariant
            g.wf(),
            w == g.width,
            n == g.width * g.height,
            n < i32::MAX,
            k <= n,
            things_view(out@) == head + things_upto(g@, k as int),
        decreases n - k,
    {
        proof {
            assert(w >= 1) by (nonlinear_arith)
                requires
                    0 <= k < w * g.height,
            ;
            assert((k as int) % (w as int) < w && (k as int) / (w as int) < g.height) by (nonlinear_arith)
                requires
                    0 <= k < w * g.height,
                    w >= 1,
            ;
        }
        let x = (k % w) as i64;
        let y = (k / w) as i64;
        let ghost before = things_view(out@);
        if g.get_at(x, y) == Some(BOX) {
            out.push((x, y));
            proof {
                assert(things_view(out@) =~= before.push((x as int, y as int)));
            }
        }
        k = k + 1;
    }
    Some(out)
}

/// The sum of the boxes' GPS coordinates once the robot in the input has
/// made its moves; `None` where the text has no blank line, a move byte is
/// unknown, the map is no grid, or as `gps_total` says.
pub fn part_1(input: &str) -> (r: Option<i64>)
    ensures
        r is Some ==> match warehouse(input.spec_bytes()) {
            Some((text, ms)) => exists|g: Grid| g.wf() && g.text@ == text && gps_total(g@, ms) == Some(r->0 as int),
            None => false,
        },
        r is None ==> match warehouse(input.spec_bytes()) {
            Some((text, ms)) => forall|g: Grid| #[trigger] g.wf() && g.text@ == text ==> gps_total(g@, ms) is None,
            None => true,
        },
{
    let (head, ms) = match split_warehouse(input.as_bytes()) {
        Some(t) => t,
        None => {
            return None;
        },
    };
    let g = match Grid::from_bytes(head.as_slice()) {
        Ok(g) => g,
        Err(_) => {
            return None;
        },
    };
    proof {
        assert forall|g2: Grid| #[trigger] g2.wf() && g2.text@ == head@ implies g2@ == g@ by {
            crate::grid::lemma_rectangular_unique(
                g.text@,
                g.width as nat,
                g.height as nat,
                g2.width as nat,
                g2.height as nat,
            );
        }
    }
    if g.cell_count() > crate::day16::MAX_CELLS {
        return None;
    }
    let mut things = match start_things(&g) {
        Some(v) => v,
        None => {
            return None;
        },
    };
    let ghost start = things_view(things@);
    proof {
        assert(things_view(things@).len() >= 1);
    }
    let ghost msv = ms@.map_values(|d: (i64, i64)| (d.0 as int, d.1 as int));
    let mut k: usize = 0;
    while k < ms.len()
        invariant
            g.wf(),
            k <= ms@.len(),
            msv == ms@.map_values(|d: (i64, i64)| (d.0 as int, d.1 as int)),
            forall|q: int| 0 <= q < ms@.len() ==> -1 <= (#[trigger] ms@[q]).0 <= 1 && -1 <= ms@[q].1 <= 1,
            things@.len() >= 1,
            things_view(things@) == after_moves(g@, start, msv, k as int),
        decreases ms@.len() - k,
    {
        let fuel = things.len();
        let ghost before = things_view(things@);
        proof {
            assert(msv[k as int] == (ms@[k as int].0 as int, ms@[k as int].1 as int));
        }
        push_thing(&g, &mut things, 0, ms[k], fuel);
        k = k + 1;
    }
    let mut out: Vec<i64> = Vec::new();
    let ghost tv = things_view(things@);
    let ghost terms = gps_terms(tv);
    proof {
        assert(ms@.map_values(|d: (i64, i64)| (d.0 as int, d.1 as int)) == msv);
        assert(gps_total(g@, msv) == checked_sum(terms));
    }
    let mut i: usize = 1;
    while i < things.len()
        invariant
            1 <= i <= things@.len(),
            gps_total(g@, msv) == checked_sum(terms),
            warehouse(input.spec_bytes()) == Some((head@, msv)),
            forall|g2: Grid| #[trigger] g2.wf() && g2.text@ == head@ ==> g2@ == g@,
            tv == things_view(things@),
            terms == gps_terms(tv),
            out@.len() == i - 1,
            forall|q: int| 0 <= q < i - 1 ==> out@[q] == terms[q],
        decreases things@.len() - i,
    {
        let (x, y) = things[i];
        let t: i128 = (x as i128) + 100 * (y as i128);
        proof {
            assert(tv[i as int] == (x as int, y as int));
            assert(terms[i - 1] == t);
        }
        if t > i64::MAX as i128 || t < i64::MIN as i128 {
            proof {
                lemma_checked_sum_unfit_term(terms, i - 1);
            }
            return None;
        }
        out.push(t as i64);
        i = i + 1;
    }
    proof {
        assert(out@.map_values(|x: i64| x as int) =~= terms);
    }
    let r = sum_checked(&out);
    proof {
        assert(ms@.map_values(|d: (i64, i64)| (d.0 as int, d.1 as int)) == msv);
        if r is Some {
            assert(gps_total(g@, msv) == Some(r->0 as int));
        } else {
            assert(gps_total(g@, msv) is None);
        }
    }
    r
}

} // verus!
