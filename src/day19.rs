use vstd::prelude::*;
use vstd::string::StringSliceAdditionalSpecFns;
use crate::text::{opt_int, split_words_of, views, within_i64, words_of, LINE_BREAK};

verus! {

/// The offset of the first blank line, where two line breaks meet, from
/// offset `i` on.
pub open spec fn first_blank(s: Seq<u8>, i: int) -> Option<int>
    decreases s.len() - i,
{
    if i < 0 || i + 1 >= s.len() {
        None
    } else if s[i] == LINE_BREAK && s[i + 1] == LINE_BREAK {
        Some(i)
    } else {
        first_blank(s, i + 1)
    }
}

/// The towel patterns and the designs: the runs of letters before the first
/// blank line, and those after it.
pub open spec fn towels(s: Seq<u8>) -> Option<(Seq<Seq<u8>>, Seq<Seq<u8>>)> {
    match first_blank(s, 0) {
        Some(i) => Some((words_of(s.take(i), true), words_of(s.skip(i + 2), true))),
        None => None,
    }
}

/// Whether pattern `p` is written in `d` at offset `i`.
pub open spec fn fits_at(d: Seq<u8>, i: int, p: Seq<u8>) -> bool {
    0 < p.len() && 0 <= i && i + p.len() <= d.len() && d.subrange(i, i + p.len()) == p
}

/// The number of ways to write `d[i..]` as patterns one after another.
pub open spec fn ways(d: Seq<u8>, ps: Seq<Seq<u8>>, i: int) -> nat
    decreases d.len() - i, ps.len() + 1,
{
    if i >= d.len() {
        1
    } else {
        ways_with(d, ps, i, ps.len() as int)
    }
}

/// The ways to write `d[i..]` that begin with one of the first `k` patterns.
pub open spec fn ways_with(d: Seq<u8>, ps: Seq<Seq<u8>>, i: int, k: int) -> nat
    decreases d.len() - i, k,
{
    if k <= 0 || k > ps.len() || i < 0 || i >= d.len() {
        0
    } else {
        ways_with(d, ps, i, k - 1) + if fits_at(d, i, ps[k - 1]) {
            ways(d, ps, i + ps[k - 1].len())
        } else {
            0
        }
    }
}

/// How many of the designs can be made at all.
pub open spec fn possible_count(ds: Seq<Seq<u8>>, ps: Seq<Seq<u8>>) -> int
    decreases ds.len(),
{
    if ds.len() == 0 {
        0
    } else {
        possible_count(ds.drop_last(), ps) + if ways(ds.last(), ps, 0) > 0 {
            1int
        } else {
            0int
        }
    }
}

/// Whether every suffix of `d` has a count of ways that fits an `i64`.
pub open spec fn counts_fit(d: Seq<u8>, ps: Seq<Seq<u8>>) -> bool {
    forall|i: int| 0 <= i <= d.len() ==> #[trigger] ways(d, ps, i) <= i64::MAX
}

/// The ways to make all the designs, as a running `i64` total; `None`
/// where a count leaves the range.
pub open spec fn total_ways(ds: Seq<Seq<u8>>, ps: Seq<Seq<u8>>) -> Option<int>
    decreases ds.len(),
{
    if ds.len() == 0 {
        Some(0)
    } else {
        match total_ways(ds.drop_last(), ps) {
            Some(a) => if counts_fit(ds.last(), ps) && a + ways(ds.last(), ps, 0) <= i64::MAX {
                Some(a + ways(ds.last(), ps, 0))
            } else {
                None
            },
            None => None,
        }
    }
}

/// Reads the patterns and the designs.
pub fn parse(input: &str) -> (r: Option<(Vec<Vec<u8>>, Vec<Vec<u8>>)>)
    ensures
        match r {
            Some((ps, ds)) => towels(input.spec_bytes()) == Some((views(ps@), views(ds@))),
            None => towels(input.spec_bytes()) is None,
        },
{
    let s = input.as_bytes();
    let n = s.len();
    let mut i: usize = 0;
    while i < n
        invariant
            n == s@.len(),
            s@ == input.spec_bytes(),
            first_blank(s@, 0) == first_blank(s@, i as int),
        decreases n - i,
    {
        if i + 1 < n && s[i] == LINE_BREAK && s[i + 1] == LINE_BREAK {
            let head = vstd::slice::slice_subrange(s, 0, i);
            let tail = vstd::slice::slice_subrange(s, i + 2, n);
            proof {
                assert(head@ =~= s@.take(i as int));
                assert(tail@ =~= s@.skip(i + 2));
            }
            return Some((split_words_of(head, true), split_words_of(tail, true)));
        }
        i = i + 1;
    }
    None
}

/// Whether pattern `p` is written in `d` at offset `i`.
fn pattern_at(d: &Vec<u8>, i: usize, p: &Vec<u8>) -> (r: bool)
    requires
        i <= d@.len(),
    ensures
        r == fits_at(d@, i as int, p@),
{
    let n = d.len();
    if p.len() == 0 || p.len() > n - i {
        return false;
    }
    let mut k: usize = 0;
    while k < p.len()
        invariant
            i + p@.len() <= n,
            n == d@.len(),
            k <= p@.len(),
            forall|j: int| 0 <= j < k ==> d@[i + j] == p@[j],
        decreases p@.len() - k,
    {
        if d[i + k] != p[k] {
            proof {
                assert(d@.subrange(i as int, i + p@.len())[k as int] != p@[k as int]);
            }
            return false;
        }
        k = k + 1;
    }
    proof {
        assert(d@.subrange(i as int, i + p@.len()) =~= p@);
    }
    true
}

/// The number of ways to write each suffix of `d`, from the longest; `None`
/// where one of them leaves the `i64` range.
pub fn count_possible(d: &Vec<u8>, ps: &Vec<Vec<u8>>) -> (r: Option<i64>)
    ensures
        match r {
            Some(v) => counts_fit(d@, views(ps@)) && v == ways(d@, views(ps@), 0),
            None => !counts_fit(d@, views(ps@)),
        },
{
    let ghost pv = views(ps@);
    let n = d.len();
    let mut cnt: Vec<i64> = Vec::new();
    let mut z: usize = 0;
    while z < n
        invariant
            n == d@.len(),
            z <= n,
            cnt@.len() == z,
        decreases n - z,
    {
        cnt.push(0);
        z = z + 1;
    }
    cnt.push(1);
    let mut i: usize = n;
    while i > 0
        invariant
            n == d@.len(),
            cnt@.len() == n + 1,
            pv == views(ps@),
            i <= n,
            forall|j: int| i <= j <= n ==> cnt@[j] == ways(d@, pv, j) && ways(d@, pv, j) <= i64::MAX,
        decreases i,
    {
        i = i - 1;
        let mut acc: i64 = 0;
        let mut k: usize = 0;
        while k < ps.len()
            invariant
                n == d@.len(),
                cnt@.len() == n + 1,
                pv == views(ps@),
                i < n,
                k <= ps@.len(),
                forall|j: int| i < j <= n ==> cnt@[j] == ways(d@, pv, j) && ways(d@, pv, j) <= i64::MAX,
                acc == ways_with(d@, pv, i as int, k as int),
            decreases ps@.len() - k,
        {
            proof {
                assert(pv[k as int] == ps@[k as int]@);
            }
            if pattern_at(d, i, &ps[k]) {
                let m = i + ps[k].len();
                match acc.checked_add(cnt[m]) {
                    Some(v) => acc = v,
                    None => {
                        proof {
                            lemma_ways_with_grows(d@, pv, i as int, k + 1, pv.len() as int);
                            assert(ways(d@, pv, i as int) > i64::MAX);
                        }
                        return None;
                    },
                }
            }
            k = k + 1;
        }
        cnt.set(i, acc);
    }
    proof {
        assert forall|j: int| 0 <= j <= d@.len() implies #[trigger] ways(d@, pv, j) <= i64::MAX by {
            assert(cnt@[j] == ways(d@, pv, j));
        }
    }
    Some(cnt[0])
}

proof fn lemma_ways_with_grows(d: Seq<u8>, ps: Seq<Seq<u8>>, i: int, k: int, m: int)
    requires
        0 <= k <= m <= ps.len(),
        0 <= i < d.len(),
    ensures
        ways_with(d, ps, i, k) <= ways_with(d, ps, i, m),
    decreases m - k,
{
    if k < m {
        lemma_ways_with_grows(d, ps, i, k, m - 1);
    }
}

/// Whether the design can be made from the patterns.
pub fn is_possible(d: &Vec<u8>, ps: &Vec<Vec<u8>>) -> (r: bool)
    ensures
        r == (ways(d@, views(ps@), 0) > 0),
{
    let ghost pv = views(ps@);
    let n = d.len();
    let mut can: Vec<bool> = Vec::new();
    let mut z: usize = 0;
    while z < n
        invariant
            n == d@.len(),
            z <= n,
            can@.len() == z,
        decreases n - z,
    {
        can.push(false);
        z = z + 1;
    }
    can.push(true);
    let mut i: usize = n;
    while i > 0
        invariant
            n == d@.len(),
            can@.len() == n + 1,
            pv == views(ps@),
            i <= n,
            forall|j: int| i <= j <= n ==> can@[j] == (ways(d@, pv, j) > 0),
        decreases i,
    {
        i = i - 1;
        let mut any = false;
        let mut k: usize = 0;
        while k < ps.len()
            invariant
                n == d@.len(),
                can@.len() == n + 1,
                pv == views(ps@),
                i < n,
                k <= ps@.len(),
                forall|j: int| i < j <= n ==> can@[j] == (ways(d@, pv, j) > 0),
                any == (ways_with(d@, pv, i as int, k as int) > 0),
            decreases ps@.len() - k,
        {
            proof {
                assert(pv[k as int] == ps@[k as int]@);
            }
            if pattern_at(d, i, &ps[k]) {
                let m = i + ps[k].len();
                if can[m] {
                    any = true;
                }
            }
            k = k + 1;
        }
        can.set(i, any);
    }
    can[0]
}

/// How many designs can be made from the patterns; `None` where the text
/// has no blank line between patterns and designs.
pub fn part_1(input: &str) -> (r: Option<i64>)
    ensures
        opt_int(r) == match towels(input.spec_bytes()) {
            Some((ps, ds)) => within_i64(possible_count(ds, ps)),
            None => None,
        },
{
    let (ps, ds) = match parse(input) {
        Some(t) => t,
        None => {
            return None;
        },
    };
    let ghost pv = views(ps@);
    let ghost dv = views(ds@);
    let mut count: u64 = 0;
    let mut i: usize = 0;
    while i < ds.len()
        invariant
            i <= ds@.len(),
            pv == views(ps@),
            dv == views(ds@),
            towels(input.spec_bytes()) == Some((pv, dv)),
            count == possible_count(dv.take(i as int), pv),
            count <= i,
        decreases ds@.len() - i,
    {
        proof {
            assert(dv.take(i + 1).drop_last() == dv.take(i as int));
            assert(dv.take(i + 1).last() == ds@[i as int]@);
        }
        if is_possible(&ds[i], &ps) {
            count = count + 1;
        }
        i = i + 1;
    }
    proof {
        assert(dv.take(dv.len() as int) == dv);
    }
    if count > i64::MAX as u64 {
        return None;
    }
    Some(count as i64)
}

/// The number of ways to make every design, summed; `None` where the text
/// has no blank line or a count leaves the `i64` range.
pub fn part_2(input: &str) -> (r: Option<i64>)
    ensures
        opt_int(r) == match towels(input.spec_bytes()) {
            Some((ps, ds)) => total_ways(ds, ps),
            None => None,
        },
{
    let (ps, ds) = match parse(input) {
        Some(t) => t,
        None => {
            return None;
        },
    };
    let ghost pv = views(ps@);
    let ghost dv = views(ds@);
    let mut total: i64 = 0;
    let mut i: usize = 0;
    while i < ds.len()
        invariant
            i <= ds@.len(),
            pv == views(ps@),
            dv == views(ds@),
            towels(input.spec_bytes()) == Some((pv, dv)),
            total_ways(dv.take(i as int), pv) == Some(total as int),
        decreases ds@.len() - i,
    {
        proof {
            assert(dv.take(i + 1).drop_last() == dv.take(i as int));
            assert(dv.take(i + 1).last() == ds@[i as int]@);
        }
        match count_possible(&ds[i], &ps) {
            Some(c) => match total.checked_add(c) {
                Some(t) => total = t,
                None => {
                    proof {
                        lemma_total_ways_fails(dv, pv, i + 1);
                    }
                    return None;
                },
            },
            None => {
                proof {
                    lemma_total_ways_fails(dv, pv, i + 1);
                }
                return None;
            },
        }
        i = i + 1;
    }
    proof {
        assert(dv.take(dv.len() as int) == dv);
    }
    Some(total)
}

proof fn lemma_total_ways_fails(ds: Seq<Seq<u8>>, ps: Seq<Seq<u8>>, i: int)
    requires
        0 <= i <= ds.len(),
        total_ways(ds.take(i), ps) is None,
    ensures
        total_ways(ds, ps) is None,
    decreases ds.len() - i,
{
    if i < ds.len() {
        assert(ds.take(i + 1).drop_last() == ds.take(i));
        lemma_total_ways_fails(ds, ps, i + 1);
    } else {
        assert(ds.take(i) == ds);
    }
}

} // verus!
