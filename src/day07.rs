use vstd::prelude::*;
use vstd::string::StringSliceAdditionalSpecFns;
use crate::text::{
    checked_sum, fits_i64, int_views, lemma_checked_sum_unfit_term, opt_int, parse_lines,
    parsed_lines, sum_checked,
};

verus! {

/// The number of decimal digits of `n`, where zero has none.
pub open spec fn digit_count(n: nat) -> nat
    decreases n,
{
    if n == 0 {
        0
    } else {
        1 + digit_count(n / 10)
    }
}

/// `10` to the power `n`.
pub open spec fn pow10(n: nat) -> int
    decreases n,
{
    if n == 0 {
        1
    } else {
        10 * pow10((n - 1) as nat)
    }
}

/// `|n|`.
pub open spec fn abs(n: int) -> nat {
    if n < 0 {
        (-n) as nat
    } else {
        n as nat
    }
}

/// `a` followed by the digits of `b`: `a * 10^d + b`, with `d` the number of
/// digits of `b`.
pub open spec fn spec_concat(a: int, b: int) -> int {
    a * pow10(digit_count(abs(b))) + b
}

/// The outcome of one operation, where it fits an `i64`.
pub open spec fn checked(v: int) -> Option<int> {
    if fits_i64(v) {
        Some(v)
    } else {
        None
    }
}

/// Whether `target` can be reached from `total` by combining it, left to
/// right, with `l[i..]`, each by `+`, by `*` or (with `joins`) by
/// concatenation, trying them in that order. `None` where an operation that is
/// tried before success leaves the `i64` range.
pub open spec fn search(target: int, l: Seq<int>, i: int, total: int, joins: bool) -> Option<bool>
    decreases l.len() - i, 1int,
{
    if i >= l.len() || i < 0 {
        Some(total == target)
    } else {
        match try_step(target, l, i, checked(total + l[i]), joins) {
            Some(false) => match try_step(target, l, i, checked(total * l[i]), joins) {
                Some(false) => if joins {
                    try_step(target, l, i, checked(spec_concat(total, l[i])), joins)
                } else {
                    Some(false)
                },
                other => other,
            },
            other => other,
        }
    }
}

/// Continues a search from the outcome of one operation on `l[i]`.
pub open spec fn try_step(target: int, l: Seq<int>, i: int, next: Option<int>, joins: bool) -> Option<bool>
    decreases l.len() - i, 0int,
{
    if 0 <= i < l.len() {
        match next {
            Some(v) => search(target, l, i + 1, v, joins),
            None => None,
        }
    } else {
        None
    }
}

/// The equations: a line holds the target, then the numbers.
pub open spec fn well_formed(rs: Seq<Seq<int>>) -> bool {
    forall|i: int| 0 <= i < rs.len() ==> (#[trigger] rs[i]).len() >= 2
}

/// What each equation adds: its target where it can be made, else zero.
/// `None` where a search leaves the `i64` range.
pub open spec fn calibration_terms(rs: Seq<Seq<int>>, joins: bool) -> Option<Seq<int>> {
    if forall|i: int| 0 <= i < rs.len() ==> (#[trigger] search(rs[i][0], rs[i], 2, rs[i][1], joins)) is Some {
        Some(
            Seq::new(
                rs.len(),
                |i: int|
                    if search(rs[i][0], rs[i], 2, rs[i][1], joins) == Some(true) {
                        rs[i][0]
                    } else {
                        0
                    },
            ),
        )
    } else {
        None
    }
}

/// The calibration result for an input.
pub open spec fn calibration(s: Seq<u8>, joins: bool) -> Option<int> {
    match parsed_lines(s) {
        Some(rs) => if well_formed(rs) {
            match calibration_terms(rs, joins) {
                Some(ts) => checked_sum(ts),
                None => None,
            }
        } else {
            None
        },
        None => None,
    }
}

/// `a` followed by the digits of `b`, where that fits an `i64`.
pub fn concat(a: i64, b: i64) -> (r: Option<i64>)
    ensures
        opt_int(r) == checked(spec_concat(a as int, b as int)),
{
    let mut n: u32 = 0;
    let mut p: i128 = 1;
    let mut c: i128 = if b < 0 { -(b as i128) } else { b as i128 };
    let ghost m = abs(b as int);
    while c != 0
        invariant
            0 <= c <= m,
            m == abs(b as int),
            m <= 9223372036854775808,
            n <= 19,
            n + digit_count(c as nat) == digit_count(m),
            p == pow10(n as nat),
            c > 0 ==> p * c <= m,
            c == 0 ==> p <= 10 * m || m == 0,
            1 <= p,
        decreases c,
    {
        proof {
            assert(p * 10 * (c / 10) <= p * c) by (nonlinear_arith)
                requires
                    p >= 1,
                    c >= 1,
            ;
            if c >= 10 {
                assert(c / 10 >= 1);
            }
            assert(p * 10 <= 10 * m) by (nonlinear_arith)
                requires
                    p * c <= m,
                    c >= 1,
                    p >= 1,
            ;
            assert(p <= 9223372036854775808) by (nonlinear_arith)
                requires
                    p * c <= m,
                    c >= 1,
                    p >= 1,
                    m <= 9223372036854775808,
            ;
            lemma_pow10_bound(n as nat, p as int);
        }
        c = c / 10;
        p = p * 10;
        n = n + 1;
    }
    proof {
        lemma_pow10_monotone(n as nat, 19);
        assert(pow10(19) == 10000000000000000000) by {
            reveal_with_fuel(pow10, 20);
        }
        assert(digit_count(0) == 0);
        assert((a as int) * p <= 100000000000000000000000000000000000000
            && (a as int) * p >= -100000000000000000000000000000000000000) by (nonlinear_arith)
            requires
                -9223372036854775808 <= a <= 9223372036854775807,
                1 <= p <= 10000000000000000000,
        ;
    }
    let v: i128 = (a as i128) * p + (b as i128);
    if v > i64::MAX as i128 || v < i64::MIN as i128 {
        None
    } else {
        Some(v as i64)
    }
}

/// Whether `target` can be made from `total` and `l[i..]`, as `search` says.
pub fn can_make(target: i64, l: &[i64], i: usize, total: i64, joins: bool) -> (r: Option<bool>)
    requires
        i <= l@.len(),
    ensures
        r == search(target as int, l@.map_values(|x: i64| x as int), i as int, total as int, joins),
    decreases l@.len() - i,
{
    let ghost s = l@.map_values(|x: i64| x as int);
    if i >= l.len() {
        return Some(total == target);
    }
    let x = l[i];
    proof {
        assert(s[i as int] == x);
    }
    let plus = match total.checked_add(x) {
        Some(v) => can_make(target, l, i + 1, v, joins),
        None => None,
    };
    match plus {
        Some(false) => {},
        other => {
            return other;
        },
    }
    let times = match total.checked_mul(x) {
        Some(v) => can_make(target, l, i + 1, v, joins),
        None => None,
    };
    match times {
        Some(false) => {},
        other => {
            return other;
        },
    }
    if joins {
        match concat(total, x) {
            Some(v) => can_make(target, l, i + 1, v, joins),
            None => None,
        }
    } else {
        Some(false)
    }
}

/// Sums the targets of the equations that can be made.
fn total_calibration(input: &str, joins: bool) -> (r: Option<i64>)
    ensures
        opt_int(r) == calibration(input.spec_bytes(), joins),
{
    let eqs = match parse_lines(input.as_bytes()) {
        Some(v) => v,
        None => {
            return None;
        },
    };
    let ghost rs = int_views(eqs@);
    let mut out: Vec<i64> = Vec::new();
    let mut i: usize = 0;
    while i < eqs.len()
        invariant
            i <= eqs@.len(),
            rs == int_views(eqs@),
            parsed_lines(input.spec_bytes()) == Some(rs),
            out@.len() == i,
            forall|k: int| 0 <= k < i ==> (#[trigger] rs[k]).len() >= 2,
            forall|k: int|
                0 <= k < i ==> (#[trigger] search(rs[k][0], rs[k], 2, rs[k][1], joins)) is Some
                    && out@[k] == (if search(rs[k][0], rs[k], 2, rs[k][1], joins) == Some(true) {
                    rs[k][0]
                } else {
                    0
                }),
        decreases eqs@.len() - i,
    {
        let eq = &eqs[i];
        proof {
            assert(rs[i as int] == eq@.map_values(|x: i64| x as int));
        }
        if eq.len() < 2 {
            proof {
                assert(!well_formed(rs));
            }
            return None;
        }
        match can_make(eq[0], eq.as_slice(), 2, eq[1], joins) {
            Some(true) => out.push(eq[0]),
            Some(false) => out.push(0),
            None => {
                proof {
                    let e = rs[i as int];
                    assert(e[0] == eq@[0] && e[1] == eq@[1]);
                    assert(search(e[0], e, 2, e[1], joins) is None);
                    assert(calibration_terms(rs, joins) is None);
                }
                return None;
            },
        }
        i = i + 1;
    }
    proof {
        assert(well_formed(rs));
        let ts = calibration_terms(rs, joins);
        assert(ts is Some);
        assert(out@.map_values(|x: i64| x as int) =~= ts->0);
    }
    sum_checked(&out)
}

/// The sum of the targets that `+` and `*`, applied left to right, can make
/// from their numbers; `None` where a line is not an equation or a value
/// leaves the `i64` range.
pub fn part_1(input: &str) -> (r: Option<i64>)
    ensures
        opt_int(r) == calibration(input.spec_bytes(), false),
{
    total_calibration(input, false)
}

/// As `part_1`, with concatenation of digits as a third operation.
pub fn part_2(input: &str) -> (r: Option<i64>)
    ensures
        opt_int(r) == calibration(input.spec_bytes(), true),
{
    total_calibration(input, true)
}

pub(crate) proof fn lemma_pow10_monotone(n: nat, k: nat)
    requires
        n <= k,
    ensures
        pow10(n) <= pow10(k),
    decreases k,
{
    if n < k {
        lemma_pow10_monotone(n, (k - 1) as nat);
        lemma_pow10_grows((k - 1) as nat);
    }
}

proof fn lemma_pow10_bound(n: nat, p: int)
    requires
        p == pow10(n),
        p <= 9223372036854775808,
    ensures
        n <= 18,
{
    lemma_pow10_grows(n);
}

proof fn lemma_pow10_grows(n: nat)
    ensures
        n >= 19 ==> pow10(n) >= 10000000000000000000,
        pow10(n) >= 1,
    decreases n,
{
    if n > 0 {
        lemma_pow10_grows((n - 1) as nat);
        if n == 19 {
            assert(pow10(19) == 10000000000000000000) by {
                reveal_with_fuel(pow10, 20);
            }
        }
    }
}

} // verus!
