use vstd::prelude::*;
use vstd::string::StringSliceAdditionalSpecFns;
use itertools::Itertools;
use crate::text::{int_views, parse_lines, parsed_lines, within_i64, opt_int};

verus! {

/// The sign of `x`: -1, 0 or 1.
pub open spec fn signum(x: int) -> int {
    if x < 0 {
        -1
    } else if x > 0 {
        1
    } else {
        0
    }
}

/// The differences between neighbouring levels, each earlier minus later.
pub open spec fn differences(s: Seq<int>) -> Seq<int> {
    Seq::new(if s.len() > 0 { (s.len() - 1) as nat } else { 0 }, |i: int| s[i] - s[i + 1])
}

/// A report is safe where no two neighbouring levels differ by more than
/// three and every difference has the sign of the first. A report with fewer
/// than two levels has no difference and is safe.
pub open spec fn safe(s: Seq<int>) -> bool {
    let d = differences(s);
    forall|i: int|
        0 <= i < d.len() ==> -3 <= #[trigger] d[i] <= 3 && signum(d[i]) == signum(d[0])
}

/// Safe as it is, or once one level is taken out.
pub open spec fn safe_with_skip(s: Seq<int>) -> bool {
    safe(s) || exists|i: int| 0 <= i < s.len() && safe(#[trigger] s.remove(i))
}

/// How many of the reports meet `p`.
pub open spec fn count_meeting(r: Seq<Seq<int>>, p: spec_fn(Seq<int>) -> bool) -> int
    decreases r.len(),
{
    if r.len() == 0 {
        0
    } else {
        count_meeting(r.drop_last(), p) + if p(r.last()) {
            1int
        } else {
            0int
        }
    }
}

/// Neighbouring values of `v`, as pairs.
/// Relies on `Itertools::tuple_windows`, which yields each pair of neighbours
/// in order.
#[verifier::external_body]
fn adjacent_pairs(v: &[i64]) -> (r: Vec<(i64, i64)>)
    ensures
        r@.len() == if v@.len() > 0 { v@.len() - 1 } else { 0 },
        forall|i: int| 0 <= i < r@.len() ==> #[trigger] r@[i] == (v@[i], v@[i + 1]),
{
    v.iter().copied().tuple_windows().collect()
}

/// Whether the report is safe.
pub fn is_safe(levels: &[i64]) -> (r: bool)
    ensures
        r == safe(levels@.map_values(|x: i64| x as int)),
{
    let ghost s = levels@.map_values(|x: i64| x as int);
    let pairs = adjacent_pairs(levels);
    let ghost d = differences(s);
    if pairs.len() == 0 {
        return true;
    }
    let first: i128 = pairs[0].0 as i128 - pairs[0].1 as i128;
    let first_sign: i128 = if first < 0 { -1 } else if first > 0 { 1 } else { 0 };
    let mut i: usize = 0;
    while i < pairs.len()
        invariant
            i <= pairs@.len(),
            pairs@.len() == d.len(),
            d.len() > 0,
            s == levels@.map_values(|x: i64| x as int),
            d == differences(s),
            forall|k: int| 0 <= k < pairs@.len() ==> #[trigger] pairs@[k] == (levels@[k], levels@[k + 1]),
            first_sign == signum(d[0]),
            forall|k: int| 0 <= k < i ==> -3 <= #[trigger] d[k] <= 3 && signum(d[k]) == signum(d[0]),
        decreases pairs@.len() - i,
    {
        let (a, b) = pairs[i];
        let x: i128 = a as i128 - b as i128;
        proof {
            assert(d[i as int] == x);
        }
        if x > 3 || x < -3 {
            return false;
        }
        let sign: i128 = if x < 0 { -1 } else if x > 0 { 1 } else { 0 };
        if sign != first_sign {
            return false;
        }
        i = i + 1;
    }
    true
}

/// `v` without the value at `skip`.
fn without(v: &[i64], skip: usize) -> (r: Vec<i64>)
    requires
        skip < v@.len(),
    ensures
        r@ == v@.remove(skip as int),
{
    let mut r: Vec<i64> = Vec::new();
    let mut i: usize = 0;
    while i < v.len()
        invariant
            i <= v@.len(),
            skip < v@.len(),
            r@ == (if i <= skip { v@.take(i as int) } else { v@.take(i as int).remove(
                skip as int,
            ) }),
        decreases v@.len() - i,
    {
        if i != skip {
            r.push(v[i]);
        }
        proof {
            if i < skip {
                assert(r@ =~= v@.take(i + 1));
            } else if i == skip {
                assert(r@ =~= v@.take(i + 1).remove(skip as int));
            } else {
                assert(r@ =~= v@.take(i + 1).remove(skip as int));
            }
        }
        i = i + 1;
    }
    proof {
        assert(v@.take(v@.len() as int) == v@);
    }
    r
}

/// Whether the report is safe, or becomes safe with one level taken out.
pub fn is_safe_with_skip(levels: &[i64]) -> (r: bool)
    ensures
        r == safe_with_skip(levels@.map_values(|x: i64| x as int)),
{
    let ghost s = levels@.map_values(|x: i64| x as int);
    if is_safe(levels) {
        return true;
    }
    let mut i: usize = 0;
    while i < levels.len()
        invariant
            i <= levels@.len(),
            s == levels@.map_values(|x: i64| x as int),
            !safe(s),
            forall|k: int| 0 <= k < i ==> !safe(#[trigger] s.remove(k)),
        decreases levels@.len() - i,
    {
        let rest = without(levels, i);
        proof {
            assert(rest@.map_values(|x: i64| x as int) =~= s.remove(i as int));
        }
        if is_safe(rest.as_slice()) {
            return true;
        }
        i = i + 1;
    }
    false
}

/// Counts the safe reports, one report per line, with or without a skipped level.
fn count_reports(input: &str, with_skip: bool) -> (r: Option<i64>)
    ensures
        opt_int(r) == match parsed_lines(input.spec_bytes()) {
            Some(rs) => within_i64(
                if with_skip {
                    count_meeting(rs, |s: Seq<int>| safe_with_skip(s))
                } else {
                    count_meeting(rs, |s: Seq<int>| safe(s))
                },
            ),
            None => None,
        },
{
    let reports = match parse_lines(input.as_bytes()) {
        Some(v) => v,
        None => {
            return None;
        },
    };
    let ghost rs = int_views(reports@);
    let ghost p = if with_skip {
        |s: Seq<int>| safe_with_skip(s)
    } else {
        |s: Seq<int>| safe(s)
    };
    let mut count: u64 = 0;
    let mut i: usize = 0;
    while i < reports.len()
        invariant
            i <= reports@.len(),
            rs == int_views(reports@),
            p == (if with_skip {
                |s: Seq<int>| safe_with_skip(s)
            } else {
                |s: Seq<int>| safe(s)
            }),
            count == count_meeting(rs.take(i as int), p),
            count <= i,
        decreases reports@.len() - i,
    {
        proof {
            assert(rs.take(i + 1).drop_last() == rs.take(i as int));
            assert(rs.take(i + 1).last() == reports@[i as int]@.map_values(|x: i64| x as int));
        }
        let ok = if with_skip {
            is_safe_with_skip(reports[i].as_slice())
        } else {
            is_safe(reports[i].as_slice())
        };
        if ok {
            count = count + 1;
        }
        i = i + 1;
    }
    proof {
        assert(rs.take(rs.len() as int) == rs);
    }
    if count > i64::MAX as u64 {
        return None;
    }
    Some(count as i64)
}

/// How many reports are safe; `None` where a line does not parse.
pub fn part_1(input: &str) -> (r: Option<i64>)
    ensures
        opt_int(r) == match parsed_lines(input.spec_bytes()) {
            Some(rs) => within_i64(count_meeting(rs, |s: Seq<int>| safe(s))),
            None => None,
        },
{
    count_reports(input, false)
}

/// How many reports are safe once at most one level is taken out; `None`
/// where a line does not parse.
pub fn part_2(input: &str) -> (r: Option<i64>)
    ensures
        opt_int(r) == match parsed_lines(input.spec_bytes()) {
            Some(rs) => within_i64(count_meeting(rs, |s: Seq<int>| safe_with_skip(s))),
            None => None,
        },
{
    count_reports(input, true)
}

} // verus!
