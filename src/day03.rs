use vstd::prelude::*;
use vstd::string::StringSliceAdditionalSpecFns;
use crate::text::{
    checked_sum, fits_i64, int_value, lemma_checked_sum_unfit_term, opt_int, parse_int, sum_checked,
};

verus! {

/// The bytes of `mul(`.
pub open spec fn mul_open() -> Seq<u8> {
    seq![109u8, 117u8, 108u8, 40u8]
}

/// The bytes of `do()`.
pub open spec fn do_marker() -> Seq<u8> {
    seq![100u8, 111u8, 40u8, 41u8]
}

/// The bytes of `don't()`.
pub open spec fn dont_marker() -> Seq<u8> {
    seq![100u8, 111u8, 110u8, 39u8, 116u8, 40u8, 41u8]
}

/// Whether `s` begins with `p`.
pub open spec fn starts_with(s: Seq<u8>, p: Seq<u8>) -> bool {
    p.len() <= s.len() && s.take(p.len() as int) == p
}

/// The offset of the first `b` in `s`, or the length of `s` where there is none.
pub open spec fn first_index(s: Seq<u8>, b: u8) -> int
    decreases s.len(),
{
    if s.len() == 0 {
        0
    } else if s[0] == b {
        0
    } else {
        1 + first_index(s.drop_first(), b)
    }
}

/// The product that `s` begins with, as `mul(a,b)`: the text up to the first
/// comma writes `a`, the text from there up to the first closing bracket
/// writes `b`, and both fit an `i64`.
pub open spec fn mul_value(s: Seq<u8>) -> Option<int> {
    if !starts_with(s, mul_open()) {
        None
    } else {
        let rest = s.skip(4);
        let c = first_index(rest, 44);
        if c >= rest.len() {
            None
        } else {
            let a = rest.take(c);
            let rest2 = rest.skip(c + 1);
            let p = first_index(rest2, 41);
            if p >= rest2.len() {
                None
            } else {
                let b = rest2.take(p);
                match (int_value(a), int_value(b)) {
                    (Some(x), Some(y)) => if fits_i64(x) && fits_i64(y) {
                        Some(x * y)
                    } else {
                        None
                    },
                    _ => None,
                }
            }
        }
    }
}

/// Whether instructions count after position `i` has been read: a `don't()`
/// there switches them off, a `do()` on, and otherwise the earlier state holds.
pub open spec fn enabled_after(s: Seq<u8>, i: int) -> bool
    decreases i + 1,
{
    if i < 0 {
        true
    } else if starts_with(s.skip(i), dont_marker()) {
        false
    } else if starts_with(s.skip(i), do_marker()) {
        true
    } else {
        enabled_after(s, i - 1)
    }
}

/// The product found at each position of `s`, zero where there is none.
pub open spec fn mul_terms(s: Seq<u8>) -> Seq<int> {
    Seq::new(
        s.len(),
        |i: int|
            match mul_value(s.skip(i)) {
                Some(v) => v,
                None => 0,
            },
    )
}

/// The product found at each position of `s` while instructions count.
pub open spec fn enabled_mul_terms(s: Seq<u8>) -> Seq<int> {
    Seq::new(
        s.len(),
        |i: int|
            match mul_value(s.skip(i)) {
                Some(v) => if enabled_after(s, i) {
                    v
                } else {
                    0
                },
                None => 0,
            },
    )
}

/// Whether `s` has `p` at offset `at`.
fn has_at(s: &[u8], at: usize, p: &[u8]) -> (r: bool)
    requires
        at <= s@.len(),
    ensures
        r == starts_with(s@.skip(at as int), p@),
{
    let n = s.len();
    if p.len() > n - at {
        return false;
    }
    let mut i: usize = 0;
    while i < p.len()
        invariant
            at + p@.len() <= s@.len(),
            n == s@.len(),
            i <= p@.len(),
            forall|k: int| 0 <= k < i ==> s@[at + k] == p@[k],
        decreases p@.len() - i,
    {
        if s[at + i] != p[i] {
            proof {
                assert(s@.skip(at as int).take(p@.len() as int)[i as int] != p@[i as int]);
            }
            return false;
        }
        i = i + 1;
    }
    proof {
        assert(s@.skip(at as int).take(p@.len() as int) =~= p@);
    }
    true
}

/// The offset of the first `b` in `s` from `from` on, counted from `from`.
fn find_from(s: &[u8], from: usize, b: u8) -> (r: usize)
    requires
        from <= s@.len(),
    ensures
        r == first_index(s@.skip(from as int), b),
        r <= s@.len() - from,
{
    let mut i: usize = s.len();
    let mut k: usize = s.len();
    while k > from
        invariant
            from <= k <= s@.len(),
            i <= s@.len(),
            i - from == first_index(s@.skip(k as int), b) + (k - from),
            i >= k,
        decreases k,
    {
        k = k - 1;
        proof {
            assert(s@.skip(k as int).drop_first() == s@.skip(k + 1));
        }
        if s[k] == b {
            i = k;
        }
    }
    i - from
}

/// The product of the `mul(a,b)` instruction that starts `input`, if any.
pub fn parse_mul(input: &[u8]) -> (r: Option<i128>)
    ensures
        match r {
            Some(v) => mul_value(input@) == Some(v as int),
            None => mul_value(input@) is None,
        },
{
    let n = input.len();
    let open: [u8; 4] = [109, 117, 108, 40];
    if !has_at(input, 0, open.as_slice()) {
        proof {
            assert(input@.skip(0) == input@);
            assert(open@ == mul_open());
        }
        return None;
    }
    proof {
        assert(input@.skip(0) == input@);
        assert(open@ == mul_open());
    }
    let c = find_from(input, 4, 44);
    if 4 + c >= n {
        return None;
    }
    let p = find_from(input, 4 + c + 1, 41);
    proof {
        assert(input@.skip(4).skip(c + 1) =~= input@.skip(4 + c + 1));
    }
    if 4 + c + 1 + p >= n {
        return None;
    }
    let a = vstd::slice::slice_subrange(input, 4, 4 + c);
    let b = vstd::slice::slice_subrange(input, 4 + c + 1, 4 + c + 1 + p);
    proof {
        assert(a@ =~= input@.skip(4).take(c as int));
        assert(b@ =~= input@.skip(4).skip(c + 1).take(p as int));
    }
    let x = match parse_int(a) {
        Some(x) => x,
        None => {
            return None;
        },
    };
    let y = match parse_int(b) {
        Some(y) => y,
        None => {
            return None;
        },
    };
    proof {
        assert(-85070591730234615865843651857942052864 <= (x as int) * (y as int)
            <= 85070591730234615865843651857942052864) by (nonlinear_arith)
            requires
                -9223372036854775808 <= x <= 9223372036854775807,
                -9223372036854775808 <= y <= 9223372036854775807,
        ;
    }
    Some((x as i128) * (y as i128))
}

/// Sums the products found at each position, counting only those where
/// `enabled` says that instructions count.
fn sum_products(input: &[u8], use_switches: bool) -> (r: Option<i64>)
    ensures
        opt_int(r) == checked_sum(
            if use_switches {
                enabled_mul_terms(input@)
            } else {
                mul_terms(input@)
            },
        ),
{
    let ghost terms = if use_switches {
        enabled_mul_terms(input@)
    } else {
        mul_terms(input@)
    };
    let n = input.len();
    let do_bytes: [u8; 4] = [100, 111, 40, 41];
    let dont_bytes: [u8; 7] = [100, 111, 110, 39, 116, 40, 41];
    proof {
        assert(do_bytes@ == do_marker());
        assert(dont_bytes@ == dont_marker());
    }
    let mut enabled = true;
    let mut out: Vec<i64> = Vec::new();
    let mut i: usize = 0;
    while i < n
        invariant
            n == input@.len(),
            i <= n,
            do_bytes@ == do_marker(),
            dont_bytes@ == dont_marker(),
            terms == (if use_switches {
                enabled_mul_terms(input@)
            } else {
                mul_terms(input@)
            }),
            enabled == enabled_after(input@, i - 1),
            out@.len() == i,
            forall|k: int| 0 <= k < i ==> out@[k] == terms[k],
        decreases n - i,
    {
        if has_at(input, i, do_bytes.as_slice()) {
            enabled = true;
        }
        if has_at(input, i, dont_bytes.as_slice()) {
            enabled = false;
        }
        proof {
            if starts_with(input@.skip(i as int), dont_marker()) {
                assert(!starts_with(input@.skip(i as int), do_marker())) by {
                    assert(input@.skip(i as int)[2] == 40u8 || input@.skip(i as int)[2] == 110u8);
                    if starts_with(input@.skip(i as int), do_marker()) {
                        assert(input@.skip(i as int).take(4)[2] == 40u8);
                        assert(input@.skip(i as int).take(7)[2] == 110u8);
                    }
                }
            }
        }
        let rest = vstd::slice::slice_subrange(input, i, n);
        proof {
            assert(rest@ =~= input@.skip(i as int));
        }
        let t: i128 = match parse_mul(rest) {
            Some(v) => if !use_switches || enabled {
                v
            } else {
                0
            },
            None => 0,
        };
        proof {
            assert(terms[i as int] == t);
        }
        if t > i64::MAX as i128 || t < i64::MIN as i128 {
            proof {
                lemma_checked_sum_unfit_term(terms, i as int);
            }
            return None;
        }
        out.push(t as i64);
        i = i + 1;
    }
    proof {
        assert(out@.map_values(|x: i64| x as int) =~= terms);
    }
    sum_checked(&out)
}

/// The sum of the products of every well-formed `mul(a,b)` in the text;
/// `None` where it leaves the `i64` range.
pub fn part_1(input: &str) -> (r: Option<i64>)
    ensures
        opt_int(r) == checked_sum(mul_terms(input.spec_bytes())),
{
    sum_products(input.as_bytes(), false)
}

/// As `part_1`, counting only the products that follow a `do()`, or no
/// switch at all, rather than a `don't()`.
pub fn part_2(input: &str) -> (r: Option<i64>)
    ensures
        opt_int(r) == checked_sum(enabled_mul_terms(input.spec_bytes())),
{
    sum_products(input.as_bytes(), true)
}

} // verus!
