use vstd::prelude::*;
use vstd::string::StringSliceAdditionalSpecFns;
use std::collections::HashMap;
use crate::day07::{checked, digit_count, lemma_pow10_monotone, pow10};
use crate::text::{fits_i64, opt_int, parse_ints, parsed_ints};

verus! {

broadcast use vstd::std_specs::hash::group_hash_axioms;

/// How many stones one stone numbered `x` becomes after `steps` blinks: a 0
/// becomes a 1; a number with an even count of digits splits into its two
/// halves; any other is multiplied by 2024. `None` where a number or a count
/// leaves the `i64` range.
pub open spec fn blink(x: int, steps: nat) -> Option<int>
    decreases steps,
{
    if steps == 0 {
        Some(1)
    } else if x == 0 {
        blink(1, (steps - 1) as nat)
    } else if x > 0 && digit_count(x as nat) % 2 == 0 {
        let p = pow10(digit_count(x as nat) / 2);
        match (blink(x / p, (steps - 1) as nat), blink(x % p, (steps - 1) as nat)) {
            (Some(a), Some(b)) => checked(a + b),
            _ => None,
        }
    } else if fits_i64(x * 2024) {
        blink(x * 2024, (steps - 1) as nat)
    } else {
        None
    }
}

/// How many stones the row `xs` becomes after `steps` blinks.
pub open spec fn blink_all(xs: Seq<int>, steps: nat) -> Option<int>
    decreases xs.len(),
{
    if xs.len() == 0 {
        Some(0)
    } else {
        match (blink_all(xs.drop_last(), steps), blink(xs.last(), steps)) {
            (Some(a), Some(b)) => checked(a + b),
            _ => None,
        }
    }
}

/// The memo of stone counts: the key `x * 128 + s` holds the count of `x`
/// after `s` blinks.
pub open spec fn memo_ok(m: Map<u64, u64>) -> bool {
    forall|k: u64|
        #[trigger] m.contains_key(k) ==> blink((k / 128) as int, (k % 128) as nat) == Some(
            m[k] as int,
        ) && m[k] <= i64::MAX
}

/// The number of decimal digits of `n`.
pub fn count_digits(n: i64) -> (r: u32)
    requires
        n >= 0,
    ensures
        r == digit_count(n as nat),
        r <= 19,
{
    proof {
        lemma_digit_count_bound(n as nat);
    }
    let mut m: i64 = n;
    let mut count: u32 = 0;
    while m != 0
        invariant
            0 <= m,
            n >= 0,
            count + digit_count(m as nat) == digit_count(n as nat),
            digit_count(n as nat) <= 19,
        decreases m,
    {
        m = m / 10;
        count = count + 1;
    }
    count
}

proof fn lemma_digit_count_bound(n: nat)
    requires
        n <= i64::MAX,
    ensures
        digit_count(n) <= 19,
{
    lemma_pow10_value_19();
    lemma_digit_count_below(n, 19);
}

proof fn lemma_pow10_value_9()
    ensures
        pow10(9) == 1000000000,
{
    reveal_with_fuel(pow10, 10);
}

proof fn lemma_pow10_value_19()
    ensures
        pow10(19) == 10000000000000000000,
{
    reveal_with_fuel(pow10, 20);
}

proof fn lemma_digit_count_below(n: nat, k: nat)
    requires
        n < pow10(k),
    ensures
        digit_count(n) <= k,
    decreases k,
{
    if n > 0 && k > 0 {
        lemma_digit_count_below(n / 10, (k - 1) as nat);
    } else if n > 0 {
        assert(pow10(0) == 1);
    }
}

/// Splits a number with an even count of digits into its two halves.
pub fn split_digits(n: i64) -> (r: Option<(i64, i64)>)
    requires
        n > 0,
    ensures
        match r {
            Some((a, b)) => digit_count(n as nat) % 2 == 0 && ({
                let p = pow10(digit_count(n as nat) / 2);
                a == (n as int) / p && b == (n as int) % p
            }),
            None => digit_count(n as nat) % 2 != 0,
        },
{
    let d = count_digits(n);
    if d % 2 != 0 {
        return None;
    }
    let half = d / 2;
    let mut p: i64 = 1;
    let mut k: u32 = 0;
    while k < half
        invariant
            k <= half,
            half <= 9,
            p == pow10(k as nat),
        decreases half - k,
    {
        proof {
            lemma_pow10_monotone(k as nat, 9);
            lemma_pow10_value_9();
            assert(p <= 1000000000);
            lemma_pow10_positive(k as nat);
        }
        p = p * 10;
        k = k + 1;
    }
    proof {
        lemma_pow10_positive(half as nat);
    }
    Some((n / p, n % p))
}

/// The memo key of a stone and a count of blinks, where both are small enough.
fn memo_key(x: i64, steps: u64) -> (r: Option<u64>)
    requires
        x >= 0,
    ensures
        match r {
            Some(k) => k / 128 == x && k % 128 == steps,
            None => true,
        },
{
    if steps < 128 && x < 72057594037927936 {
        let k = (x as u64) * 128 + steps;
        proof {
            assert(k / 128 == x && k % 128 == steps) by (nonlinear_arith)
                requires
                    k == x * 128 + steps,
                    0 <= steps < 128,
                    x >= 0,
            ;
        }
        Some(k)
    } else {
        None
    }
}

/// How many stones the stone `x` becomes after `steps` blinks, remembering
/// counts already found in `cache`.
pub fn transform_cached(x: i64, steps: u64, cache: &mut HashMap<u64, u64>) -> (r: Option<i64>)
    requires
        x >= 0,
        memo_ok(old(cache)@),
    ensures
        memo_ok(final(cache)@),
        opt_int(r) == blink(x as int, steps as nat),
    decreases steps,
{
    let key = memo_key(x, steps);
    match key {
        Some(k) => {
            match cache.get(&k) {
                Some(v) => {
                    return Some(*v as i64);
                },
                None => {},
            }
        },
        None => {},
    }
    if steps == 0 {
        return Some(1);
    }
    let result = if x == 0 {
        transform_cached(1, steps - 1, cache)
    } else {
        match split_digits(x) {
            Some((l, r)) => {
                proof {
                    lemma_pow10_positive(digit_count(x as nat) / 2);
                }
                let a = transform_cached(l, steps - 1, cache);
                let b = transform_cached(r, steps - 1, cache);
                match (a, b) {
                    (Some(a), Some(b)) => a.checked_add(b),
                    _ => None,
                }
            },
            None => match x.checked_mul(2024) {
                Some(y) => transform_cached(y, steps - 1, cache),
                None => None,
            },
        }
    };
    match (result, key) {
        (Some(v), Some(k)) => {
            if v >= 0 {
                cache.insert(k, v as u64);
            }
        },
        _ => {},
    }
    result
}

/// The number of stones that the row written in the input becomes after
/// `steps` blinks; `None` where the input writes anything but non-negative
/// numbers, `steps` is negative, or a count leaves the `i64` range.
pub fn solve(input: &str, steps: i64) -> (r: Option<i64>)
    ensures
        opt_int(r) == match parsed_ints(input.spec_bytes()) {
            Some(xs) => if steps >= 0 && forall|i: int| 0 <= i < xs.len() ==> xs[i] >= 0 {
                blink_all(xs, steps as nat)
            } else {
                None
            },
            None => None,
        },
{
    let xs = match parse_ints(input.as_bytes()) {
        Some(v) => v,
        None => {
            return None;
        },
    };
    let ghost sx = xs@.map_values(|x: i64| x as int);
    if steps < 0 {
        return None;
    }
    let mut cache: HashMap<u64, u64> = HashMap::new();
    let mut total: i64 = 0;
    let mut i: usize = 0;
    while i < xs.len()
        invariant
            i <= xs@.len(),
            sx == xs@.map_values(|x: i64| x as int),
            parsed_ints(input.spec_bytes()) == Some(sx),
            steps >= 0,
            memo_ok(cache@),
            blink_all(sx.take(i as int), steps as nat) == Some(total as int),
            forall|k: int| 0 <= k < i ==> sx[k] >= 0,
        decreases xs@.len() - i,
    {
        proof {
            assert(sx.take(i + 1).drop_last() == sx.take(i as int));
            assert(sx.take(i + 1).last() == xs@[i as int]);
        }
        if xs[i] < 0 {
            proof {
                assert(sx[i as int] < 0);
            }
            return None;
        }
        match transform_cached(xs[i], steps as u64, &mut cache) {
            Some(c) => match total.checked_add(c) {
                Some(t) => total = t,
                None => {
                    proof {
                        lemma_blink_all_fails_on(sx, i + 1, steps as nat);
                    }
                    return None;
                },
            },
            None => {
                proof {
                    lemma_blink_all_fails_on(sx, i + 1, steps as nat);
                }
                return None;
            },
        }
        i = i + 1;
    }
    proof {
        assert(sx.take(sx.len() as int) == sx);
    }
    Some(total)
}

/// A failed count on a prefix of the row fails the whole row.
proof fn lemma_blink_all_fails_on(xs: Seq<int>, i: int, steps: nat)
    requires
        0 <= i <= xs.len(),
        blink_all(xs.take(i), steps) is None,
    ensures
        blink_all(xs, steps) is None,
    decreases xs.len() - i,
{
    if i < xs.len() {
        assert(xs.take(i + 1).drop_last() == xs.take(i));
        lemma_blink_all_fails_on(xs, i + 1, steps);
    } else {
        assert(xs.take(i) == xs);
    }
}

proof fn lemma_pow10_positive(n: nat)
    ensures
        pow10(n) >= 1,
    decreases n,
{
    if n > 0 {
        lemma_pow10_positive((n - 1) as nat);
    }
}

} // verus!
