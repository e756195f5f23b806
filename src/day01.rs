use vstd::prelude::*;
use vstd::string::StringSliceAdditionalSpecFns;
use crate::text::{
    checked_sum, lemma_checked_sum_unfit_term, lines, opt_int, parse_ints, parsed_ints,
    sort_ascending, split_lines, sum_checked, views,
};

verus! {

/// The two columns of the input: the first and second number of each line,
/// where every line writes at least two numbers that fit an `i64`.
pub open spec fn columns(s: Seq<u8>) -> Option<(Seq<int>, Seq<int>)> {
    let ls = lines(s);
    if forall|i: int|
        0 <= i < ls.len() ==> (#[trigger] parsed_ints(ls[i])) is Some && parsed_ints(
            ls[i],
        )->0.len() >= 2 {
        Some(
            (
                Seq::new(ls.len(), |i: int| parsed_ints(ls[i])->0[0]),
                Seq::new(ls.len(), |i: int| parsed_ints(ls[i])->0[1]),
            ),
        )
    } else {
        None
    }
}

/// `|a - b|`.
pub open spec fn abs_diff(a: int, b: int) -> int {
    if a < b {
        b - a
    } else {
        a - b
    }
}

/// The distances between the columns once both are sorted, pair by pair.
pub open spec fn sorted_distances(a: Seq<int>, b: Seq<int>) -> Seq<int> {
    let sa = a.sort_by(|x: int, y: int| x <= y);
    let sb = b.sort_by(|x: int, y: int| x <= y);
    Seq::new(a.len(), |i: int| abs_diff(sa[i], sb[i]))
}

/// How many times `x` occurs in `s`.
pub open spec fn count_in(s: Seq<int>, x: int) -> nat
    decreases s.len(),
{
    if s.len() == 0 {
        0
    } else {
        count_in(s.drop_last(), x) + if s.last() == x {
            1nat
        } else {
            0nat
        }
    }
}

/// Each left value weighted by how often it occurs in the right column.
pub open spec fn similarity_terms(a: Seq<int>, b: Seq<int>) -> Seq<int> {
    Seq::new(a.len(), |i: int| a[i] * count_in(b, a[i]))
}

/// Reads the two columns.
pub fn parse_columns(input: &[u8]) -> (r: Option<(Vec<i64>, Vec<i64>)>)
    ensures
        match r {
            Some((a, b)) => columns(input@) == Some(
                (a@.map_values(|x: i64| x as int), b@.map_values(|x: i64| x as int)),
            ),
            None => columns(input@) is None,
        },
{
    let ls = split_lines(input);
    let ghost lv = lines(input@);
    let mut a: Vec<i64> = Vec::new();
    let mut b: Vec<i64> = Vec::new();
    let mut i: usize = 0;
    while i < ls.len()
        invariant
            i <= ls@.len(),
            views(ls@) == lv,
            lv == lines(input@),
            a@.len() == i,
            b@.len() == i,
            forall|k: int|
                0 <= k < i ==> (#[trigger] parsed_ints(lv[k])) is Some && parsed_ints(
                    lv[k],
                )->0.len() >= 2 && a@[k] == parsed_ints(lv[k])->0[0] && b@[k] == parsed_ints(
                    lv[k],
                )->0[1],
        decreases ls@.len() - i,
    {
        proof {
            assert(views(ls@)[i as int] == ls@[i as int]@);
        }
        match parse_ints(ls[i].as_slice()) {
            Some(v) => {
                if v.len() < 2 {
                    return None;
                }
                a.push(v[0]);
                b.push(v[1]);
            },
            None => {
                return None;
            },
        }
        i = i + 1;
    }
    proof {
        assert(Seq::new(lv.len(), |k: int| parsed_ints(lv[k])->0[0]) =~= a@.map_values(
            |x: i64| x as int,
        ));
        assert(Seq::new(lv.len(), |k: int| parsed_ints(lv[k])->0[1]) =~= b@.map_values(
            |x: i64| x as int,
        ));
    }
    Some((a, b))
}

/// The total distance between the two columns, each sorted ascending, pair
/// by pair; `None` where a line does not hold two numbers or the total leaves
/// the `i64` range.
pub fn part_1(input: &str) -> (r: Option<i64>)
    ensures
        opt_int(r) == match columns(input.spec_bytes()) {
            Some((a, b)) => checked_sum(sorted_distances(a, b)),
            None => None,
        },
{
    let (mut a, mut b) = match parse_columns(input.as_bytes()) {
        Some(p) => p,
        None => {
            return None;
        },
    };
    let ghost a0 = a@.map_values(|x: i64| x as int);
    let ghost b0 = b@.map_values(|x: i64| x as int);
    sort_ascending(&mut a);
    sort_ascending(&mut b);
    let ghost terms = sorted_distances(a0, b0);
    proof {
        a0.lemma_sort_by_ensures(|x: int, y: int| x <= y);
        b0.lemma_sort_by_ensures(|x: int, y: int| x <= y);
        vstd::seq_lib::to_multiset_len(a0);
        vstd::seq_lib::to_multiset_len(b0);
        vstd::seq_lib::to_multiset_len(a0.sort_by(|x: int, y: int| x <= y));
        vstd::seq_lib::to_multiset_len(b0.sort_by(|x: int, y: int| x <= y));
    }
    let n = a.len();
    let mut out: Vec<i64> = Vec::new();
    let mut i: usize = 0;
    while i < n
        invariant
            n == a@.len(),
            n == b@.len(),
            n == terms.len(),
            a@.map_values(|x: i64| x as int) == a0.sort_by(|x: int, y: int| x <= y),
            b@.map_values(|x: i64| x as int) == b0.sort_by(|x: int, y: int| x <= y),
            terms == sorted_distances(a0, b0),
            columns(input.spec_bytes()) == Some((a0, b0)),
            i <= n,
            out@.len() == i,
            forall|k: int| 0 <= k < i ==> out@[k] == terms[k],
        decreases n - i,
    {
        let x = a[i] as i128;
        let y = b[i] as i128;
        let d: i128 = if x < y { y - x } else { x - y };
        proof {
            assert(a@.map_values(|x: i64| x as int)[i as int] == a@[i as int]);
            assert(b@.map_values(|x: i64| x as int)[i as int] == b@[i as int]);
        }
        proof {
            assert(terms[i as int] == d);
        }
        if d > i64::MAX as i128 {
            proof {
                lemma_checked_sum_unfit_term(terms, i as int);
            }
            return None;
        }
        out.push(d as i64);
        i = i + 1;
    }
    proof {
        assert(out@.map_values(|x: i64| x as int) =~= terms);
    }
    sum_checked(&out)
}

/// How many times `x` occurs in `v`.
pub fn count_occurrences(v: &Vec<i64>, x: i64) -> (r: u64)
    ensures
        r == count_in(v@.map_values(|y: i64| y as int), x as int),
{
    let ghost s = v@.map_values(|y: i64| y as int);
    let mut c: u64 = 0;
    let mut i: usize = 0;
    while i < v.len()
        invariant
            i <= v@.len(),
            s == v@.map_values(|y: i64| y as int),
            c == count_in(s.take(i as int), x as int),
            c <= i,
        decreases v@.len() - i,
    {
        proof {
            assert(s.take(i + 1).drop_last() == s.take(i as int));
            assert(s.take(i + 1).last() == v@[i as int]);
        }
        if v[i] == x {
            c = c + 1;
        }
        i = i + 1;
    }
    proof {
        assert(s.take(s.len() as int) == s);
    }
    c
}

/// The similarity score: each left value times the number of times it occurs
/// in the right column, summed; `None` where a line does not hold two numbers
/// or the total leaves the `i64` range.
pub fn part_2(input: &str) -> (r: Option<i64>)
    ensures
        opt_int(r) == match columns(input.spec_bytes()) {
            Some((a, b)) => checked_sum(similarity_terms(a, b)),
            None => None,
        },
{
    let (a, b) = match parse_columns(input.as_bytes()) {
        Some(p) => p,
        None => {
            return None;
        },
    };
    let ghost a0 = a@.map_values(|x: i64| x as int);
    let ghost b0 = b@.map_values(|x: i64| x as int);
    let ghost terms = similarity_terms(a0, b0);
    let mut out: Vec<i64> = Vec::new();
    let mut i: usize = 0;
    while i < a.len()
        invariant
            a0 == a@.map_values(|x: i64| x as int),
            b0 == b@.map_values(|x: i64| x as int),
            terms == similarity_terms(a0, b0),
            columns(input.spec_bytes()) == Some((a0, b0)),
            i <= a@.len(),
            out@.len() == i,
            forall|k: int| 0 <= k < i ==> out@[k] == terms[k],
        decreases a@.len() - i,
    {
        let x = a[i];
        let c = count_occurrences(&b, x);
        proof {
            assert(a0[i as int] == x);
            assert(-170141183460469231731687303715884105727 < (x as int) * (c as int)
                < 170141183460469231731687303715884105727) by (nonlinear_arith)
                requires
                    -9223372036854775808 <= x <= 9223372036854775807,
                    0 <= c <= 18446744073709551615,
            ;
            assert(terms[i as int] == (x as int) * (c as int));
        }
        let t: i128 = (x as i128) * (c as i128);
        if t > i64::MAX as i128 || t < i64::MIN as i128 {
            proof {
                lemma_checked_sum_unfit_term(terms, i as int);
            }
            return None;
        }
        out.push(t as i64);
        i = i + 1;
    }
    proof {
        assert(out@.map_values(|x: i64| x as int) =~= terms);
    }
    sum_checked(&out)
}

} // verus!
