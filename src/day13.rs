use vstd::prelude::*;
use vstd::string::StringSliceAdditionalSpecFns;
use crate::text::{fits_i64, opt_int, parse_ints, parsed_ints};

verus! {

/// How far part two moves every prize, along both axes.
pub const PRIZE_SHIFT: i64 = 10000000000000;

/// Whether an integer fits an `i128` with room for its negation.
pub open spec fn fits_i128(n: int) -> bool {
    -i128::MAX <= n <= i128::MAX
}

/// `|n|`.
pub open spec fn magnitude(n: int) -> int {
    if n < 0 {
        -n
    } else {
        n
    }
}

/// `x / d`, where `d` divides `x` exactly.
pub open spec fn exact_div(x: int, d: int) -> Option<int> {
    if d != 0 && magnitude(x) % magnitude(d) == 0 {
        let q = magnitude(x) / magnitude(d);
        Some(if (x < 0) != (d < 0) {
            -q
        } else {
            q
        })
    } else {
        None
    }
}

/// A claw machine: button A moves the claw by `a`, button B by `b`, and the
/// prize sits at `t`.
#[derive(Clone, Copy, Debug)]
pub struct Problem {
    pub a: (i64, i64),
    pub b: (i64, i64),
    pub t: (i64, i64),
}

/// The presses of A and of B that reach the prize, found in two steps: B's
/// count from the determinant, then A's count from the second axis; `None` where a division leaves a remainder or divides by
/// zero, or a product leaves the `i128` range.
pub open spec fn spec_solve(p: Problem) -> Option<(int, int)> {
    let top = p.t.0 * p.a.1 - p.t.1 * p.a.0;
    let bottom = p.b.0 * p.a.1 - p.a.0 * p.b.1;
    match exact_div(top, bottom) {
        Some(rb) => if fits_i128(rb * p.b.1) && fits_i128(p.t.1 - rb * p.b.1) {
            match exact_div(p.t.1 - rb * p.b.1, p.a.1 as int) {
                Some(ra) => Some((ra, rb)),
                None => None,
            }
        } else {
            None
        },
        None => None,
    }
}

/// The tokens a solution costs: three per press of A, one per press of B;
/// `None` where the count leaves the `i128` range on the way.
pub open spec fn spec_cost(s: (int, int)) -> Option<int> {
    if fits_i128(3 * s.0) && fits_i128(3 * s.0 + s.1) {
        Some(3 * s.0 + s.1)
    } else {
        None
    }
}

/// The machines written in the text: six numbers each, for A, B and the prize.
pub open spec fn machines(s: Seq<u8>) -> Option<Seq<Problem>> {
    match parsed_ints(s) {
        Some(xs) => if xs.len() % 6 == 0 {
            Some(
                Seq::new(
                    xs.len() / 6,
                    |i: int|
                        Problem {
                            a: (xs[6 * i] as i64, xs[6 * i + 1] as i64),
                            b: (xs[6 * i + 2] as i64, xs[6 * i + 3] as i64),
                            t: (xs[6 * i + 4] as i64, xs[6 * i + 5] as i64),
                        },
                ),
            )
        } else {
            None
        },
        None => None,
    }
}

/// The tokens one machine adds once its prize is moved by `shift`: the cost
/// of its solution, or zero where it has none; `None` where a value leaves
/// its range.
pub open spec fn machine_tokens(p: Problem, shift: int) -> Option<int> {
    if !fits_i64(p.t.0 + shift) || !fits_i64(p.t.1 + shift) {
        None
    } else {
        let q = Problem { a: p.a, b: p.b, t: ((p.t.0 + shift) as i64, (p.t.1 + shift) as i64) };
        match spec_solve(q) {
            Some(sol) => spec_cost(sol),
            None => Some(0),
        }
    }
}

/// The tokens all machines add, as a running `i64` total.
pub open spec fn total_tokens(ps: Seq<Problem>, shift: int) -> Option<int>
    decreases ps.len(),
{
    if ps.len() == 0 {
        Some(0)
    } else {
        match (total_tokens(ps.drop_last(), shift), machine_tokens(ps.last(), shift)) {
            (Some(a), Some(b)) => if fits_i64(b) && fits_i64(a + b) {
                Some(a + b)
            } else {
                None
            },
            _ => None,
        }
    }
}

/// `x / d`, where `d` divides `x`.
fn divide_exactly(x: i128, d: i128) -> (r: Option<i128>)
    requires
        x != i128::MIN,
        d != i128::MIN,
    ensures
        match r {
            Some(q) => exact_div(x as int, d as int) == Some(q as int),
            None => exact_div(x as int, d as int) is None,
        },
{
    if d == 0 {
        return None;
    }
    let ux: i128 = if x < 0 { -x } else { x };
    let ud: i128 = if d < 0 { -d } else { d };
    if ux % ud != 0 {
        return None;
    }
    let q = ux / ud;
    if (x < 0) != (d < 0) {
        Some(-q)
    } else {
        Some(q)
    }
}

impl Problem {
    /// The presses of A and of B that reach the prize, as `spec_solve` says.
    pub fn solve(&self) -> (r: Option<(i128, i128)>)
        ensures
            match r {
                Some((ra, rb)) => spec_solve(*self) == Some((ra as int, rb as int)),
                None => spec_solve(*self) is None,
            },
    {
        let (a0, a1) = (self.a.0 as i128, self.a.1 as i128);
        let (b0, b1) = (self.b.0 as i128, self.b.1 as i128);
        let (t0, t1) = (self.t.0 as i128, self.t.1 as i128);
        proof {
            assert(-85070591730234615856620279821087277056 <= t0 * a1 <= 85070591730234615865843651857942052864
                && -85070591730234615856620279821087277056 <= t1 * a0 <= 85070591730234615865843651857942052864
                && -85070591730234615856620279821087277056 <= b0 * a1 <= 85070591730234615865843651857942052864
                && -85070591730234615856620279821087277056 <= a0 * b1 <= 85070591730234615865843651857942052864)
                by (nonlinear_arith)
                requires
                    -9223372036854775808 <= a0 <= 9223372036854775807,
                    -9223372036854775808 <= a1 <= 9223372036854775807,
                    -9223372036854775808 <= b0 <= 9223372036854775807,
                    -9223372036854775808 <= b1 <= 9223372036854775807,
                    -9223372036854775808 <= t0 <= 9223372036854775807,
                    -9223372036854775808 <= t1 <= 9223372036854775807,
            ;
        }
        let top = t0 * a1 - t1 * a0;
        let bottom = b0 * a1 - a0 * b1;
        let rb = match divide_exactly(top, bottom) {
            Some(q) => q,
            None => {
                return None;
            },
        };
        let step = match rb.checked_mul(b1) {
            Some(v) => v,
            None => {
                return None;
            },
        };
        if step == i128::MIN {
            return None;
        }
        let partial = match t1.checked_sub(step) {
            Some(v) => v,
            None => {
                return None;
            },
        };
        if partial == i128::MIN {
            return None;
        }
        match divide_exactly(partial, a1) {
            Some(ra) => Some((ra, rb)),
            None => None,
        }
    }
}

/// Reads the machines: six numbers each.
pub fn parse(input: &str) -> (r: Option<Vec<Problem>>)
    ensures
        match r {
            Some(v) => machines(input.spec_bytes()) == Some(v@),
            None => machines(input.spec_bytes()) is None,
        },
{
    let xs = match parse_ints(input.as_bytes()) {
        Some(v) => v,
        None => {
            return None;
        },
    };
    let ghost sx = xs@.map_values(|x: i64| x as int);
    if xs.len() % 6 != 0 {
        return None;
    }
    let len = xs.len();
    let n = len / 6;
    let mut out: Vec<Problem> = Vec::new();
    let mut i: usize = 0;
    while i < n
        invariant
            n == xs@.len() / 6,
            len == xs@.len(),
            xs@.len() % 6 == 0,
            sx == xs@.map_values(|x: i64| x as int),
            i <= n,
            out@.len() == i,
            forall|k: int|
                0 <= k < i ==> #[trigger] out@[k] == (Problem {
                    a: (sx[6 * k] as i64, sx[6 * k + 1] as i64),
                    b: (sx[6 * k + 2] as i64, sx[6 * k + 3] as i64),
                    t: (sx[6 * k + 4] as i64, sx[6 * k + 5] as i64),
                }),
        decreases n - i,
    {
        let j = 6 * i;
        out.push(
            Problem {
                a: (xs[j], xs[j + 1]),
                b: (xs[j + 2], xs[j + 3]),
                t: (xs[j + 4], xs[j + 5]),
            },
        );
        i = i + 1;
    }
    proof {
        let ms = machines(input.spec_bytes());
        assert(ms->0 =~= out@);
    }
    Some(out)
}

/// The tokens one machine adds once its prize is moved by `shift`.
fn tokens_for(p: &Problem, shift: i64) -> (r: Option<i128>)
    ensures
        match r {
            Some(v) => machine_tokens(*p, shift as int) == Some(v as int),
            None => machine_tokens(*p, shift as int) is None,
        },
{
    let t0 = match p.t.0.checked_add(shift) {
        Some(v) => v,
        None => {
            return None;
        },
    };
    let t1 = match p.t.1.checked_add(shift) {
        Some(v) => v,
        None => {
            return None;
        },
    };
    let q = Problem { a: p.a, b: p.b, t: (t0, t1) };
    match q.solve() {
        Some((ra, rb)) => {
            let three = match ra.checked_mul(3) {
                Some(v) => v,
                None => {
                    return None;
                },
            };
            if three == i128::MIN {
                return None;
            }
            match three.checked_add(rb) {
                Some(v) => if v == i128::MIN {
                    None
                } else {
                    Some(v)
                },
                None => None,
            }
        },
        None => Some(0),
    }
}

/// The fewest tokens that win every prize that can be won, once each prize
/// is moved by `shift`.
fn fewest_tokens(input: &str, shift: i64) -> (r: Option<i64>)
    ensures
        opt_int(r) == match machines(input.spec_bytes()) {
            Some(ps) => total_tokens(ps, shift as int),
            None => None,
        },
{
    let ps = match parse(input) {
        Some(v) => v,
        None => {
            return None;
        },
    };
    let mut total: i64 = 0;
    let mut i: usize = 0;
    while i < ps.len()
        invariant
            i <= ps@.len(),
            machines(input.spec_bytes()) == Some(ps@),
            total_tokens(ps@.take(i as int), shift as int) == Some(total as int),
        decreases ps@.len() - i,
    {
        proof {
            assert(ps@.take(i + 1).drop_last() == ps@.take(i as int));
            assert(ps@.take(i + 1).last() == ps@[i as int]);
        }
        let t = match tokens_for(&ps[i], shift) {
            Some(v) => v,
            None => {
                proof {
                    lemma_total_fails_on(ps@, i + 1, shift as int);
                }
                return None;
            },
        };
        if t > i64::MAX as i128 || t < i64::MIN as i128 {
            proof {
                lemma_total_fails_on(ps@, i + 1, shift as int);
            }
            return None;
        }
        match total.checked_add(t as i64) {
            Some(v) => total = v,
            None => {
                proof {
                    lemma_total_fails_on(ps@, i + 1, shift as int);
                }
                return None;
            },
        }
        i = i + 1;
    }
    proof {
        assert(ps@.take(ps@.len() as int) == ps@);
    }
    Some(total)
}

proof fn lemma_total_fails_on(ps: Seq<Problem>, i: int, shift: int)
    requires
        0 <= i <= ps.len(),
        total_tokens(ps.take(i), shift) is None,
    ensures
        total_tokens(ps, shift) is None,
    decreases ps.len() - i,
{
    if i < ps.len() {
        assert(ps.take(i + 1).drop_last() == ps.take(i));
        lemma_total_fails_on(ps, i + 1, shift);
    } else {
        assert(ps.take(i) == ps);
    }
}

/// The fewest tokens that win every prize that can be won; `None` where the
/// text does not hold whole machines or a value leaves its range.
pub fn part_1(input: &str) -> (r: Option<i64>)
    ensures
        opt_int(r) == match machines(input.spec_bytes()) {
            Some(ps) => total_tokens(ps, 0),
            None => None,
        },
{
    fewest_tokens(input, 0)
}

/// As `part_1`, with every prize moved by `PRIZE_SHIFT` along both axes.
pub fn part_2(input: &str) -> (r: Option<i64>)
    ensures
        opt_int(r) == match machines(input.spec_bytes()) {
            Some(ps) => total_tokens(ps, PRIZE_SHIFT as int),
            None => None,
        },
{
    fewest_tokens(input, PRIZE_SHIFT)
}

} // verus!
