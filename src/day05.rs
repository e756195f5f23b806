use vstd::prelude::*;
use vstd::string::StringSliceAdditionalSpecFns;
use crate::day19::first_blank;
use crate::text::{checked_sum, int_views, opt_int, parse_lines, parsed_lines, sum_checked, LINE_BREAK};

verus! {

/// The ordering rules and the updates: the first section holds a rule
/// `x|y` per line, its first two numbers; the second an update per line.
pub open spec fn manual(s: Seq<u8>) -> Option<(Seq<(int, int)>, Seq<Seq<int>>)> {
    match first_blank(s, 0) {
        Some(i) => match (parsed_lines(s.take(i)), parsed_lines(s.skip(i + 2))) {
            (Some(rs), Some(us)) => if (forall|k: int| 0 <= k < rs.len() ==> (#[trigger] rs[k]).len() >= 2)
                && (forall|k: int| 0 <= k < us.len() ==> (#[trigger] us[k]).len() >= 1) {
                Some((Seq::new(rs.len(), |k: int| (rs[k][0], rs[k][1])), us))
            } else {
                None
            },
            _ => None,
        },
        None => None,
    }
}

/// Whether a rule says that `x` comes before `y`.
pub open spec fn has_rule(rules: Seq<(int, int)>, x: int, y: int) -> bool {
    exists|k: int| 0 <= k < rules.len() && #[trigger] rules[k] == (x, y)
}

/// Whether the update keeps every rule: no page comes after one it must
/// precede.
pub open spec fn in_order(u: Seq<int>, rules: Seq<(int, int)>) -> bool {
    forall|i: int, j: int| 0 <= i < j < u.len() ==> !#[trigger] has_rule(rules, u[j], u[i])
}

/// How many pages of the update the rules put before page `x`.
pub open spec fn before_count(u: Seq<int>, rules: Seq<(int, int)>, x: int, n: int) -> int
    decreases n,
{
    if n <= 0 {
        0
    } else {
        before_count(u, rules, x, n - 1) + if has_rule(rules, u[n - 1], x) {
            1int
        } else {
            0int
        }
    }
}

/// The first page, from position `i` on, that the rules put in the middle
/// once the update is ordered: with exactly half the length of pages before it.
pub open spec fn ordered_middle(u: Seq<int>, rules: Seq<(int, int)>, i: int) -> Option<int>
    decreases u.len() - i,
{
    if i < 0 || i >= u.len() {
        None
    } else if before_count(u, rules, u[i], u.len() as int) == u.len() / 2 {
        Some(u[i])
    } else {
        ordered_middle(u, rules, i + 1)
    }
}

/// The middle pages of the updates that are in order, zero for the others.
pub open spec fn valid_middles(us: Seq<Seq<int>>, rules: Seq<(int, int)>) -> Seq<int> {
    Seq::new(us.len(), |k: int| if in_order(us[k], rules) { us[k][(us[k].len() / 2) as int] } else { 0 })
}

/// The middle pages of the updates that are out of order, once ordered;
/// zero for the others. `None` where an update has no such page.
pub open spec fn fixed_middles(us: Seq<Seq<int>>, rules: Seq<(int, int)>) -> Option<Seq<int>> {
    if forall|k: int|
        0 <= k < us.len() && !in_order(us[k], rules) ==> (#[trigger] ordered_middle(us[k], rules, 0)) is Some {
        Some(
            Seq::new(
                us.len(),
                |k: int|
                    if in_order(us[k], rules) {
                        0
                    } else {
                        ordered_middle(us[k], rules, 0)->0
                    },
            ),
        )
    } else {
        None
    }
}

/// Reads the rules and the updates.
pub fn parse_rules_and_runs(input: &str) -> (r: Option<(Vec<(i64, i64)>, Vec<Vec<i64>>)>)
    ensures
        match r {
            Some((rules, runs)) => manual(input.spec_bytes()) == Some(
                (rules@.map_values(|p: (i64, i64)| (p.0 as int, p.1 as int)), int_views(runs@)),
            ),
            None => manual(input.spec_bytes()) is None,
        },
{
    let s = input.as_bytes();
    let n = s.len();
    let mut i: usize = 0;
    while i < n
        invariant
            n == s@.len(),
            s@ == input.spec_bytes(),
            first_blank(s@, 0) == first_blank(s@, i as int),
        decreases n - i,
    {
        if i + 1 < n && s[i] == LINE_BREAK && s[i + 1] == LINE_BREAK {
            let head = vstd::slice::slice_subrange(s, 0, i);
            let tail = vstd::slice::slice_subrange(s, i + 2, n);
            proof {
                assert(head@ =~= s@.take(i as int));
                assert(tail@ =~= s@.skip(i + 2));
            }
            let rows = match parse_lines(head) {
                Some(v) => v,
                None => {
                    return None;
                },
            };
            let runs = match parse_lines(tail) {
                Some(v) => v,
                None => {
                    return None;
                },
            };
            let ghost rs = int_views(rows@);
            let ghost us = int_views(runs@);
            let mut rules: Vec<(i64, i64)> = Vec::new();
            let mut k: usize = 0;
            while k < rows.len()
                invariant
                    k <= rows@.len(),
                    rs == int_views(rows@),
                    s@ == input.spec_bytes(),
                    first_blank(s@, 0) == Some(i as int),
                    parsed_lines(s@.take(i as int)) == Some(rs),
                    parsed_lines(s@.skip(i + 2)) == Some(us),
                    rules@.len() == k,
                    forall|j: int| 0 <= j < k ==> (#[trigger] rs[j]).len() >= 2 && rules@[j].0 == rs[j][0]
                        && rules@[j].1 == rs[j][1],
                decreases rows@.len() - k,
            {
                proof {
                    assert(rs[k as int] == rows@[k as int]@.map_values(|y: i64| y as int));
                }
                if rows[k].len() < 2 {
                    return None;
                }
                rules.push((rows[k][0], rows[k][1]));
                k = k + 1;
            }
            let mut m: usize = 0;
            while m < runs.len()
                invariant
                    m <= runs@.len(),
                    us == int_views(runs@),
                    s@ == input.spec_bytes(),
                    first_blank(s@, 0) == Some(i as int),
                    parsed_lines(s@.take(i as int)) == Some(rs),
                    parsed_lines(s@.skip(i + 2)) == Some(us),
                    forall|j: int| 0 <= j < m ==> (#[trigger] us[j]).len() >= 1,
                decreases runs@.len() - m,
            {
                proof {
                    assert(us[m as int] == runs@[m as int]@.map_values(|y: i64| y as int));
                }
                if runs[m].len() == 0 {
                    return None;
                }
                m = m + 1;
            }
            proof {
                assert(Seq::new(rs.len(), |j: int| (rs[j][0], rs[j][1])) =~= rules@.map_values(
                    |p: (i64, i64)| (p.0 as int, p.1 as int),
                ));
            }
            return Some((rules, runs));
        }
        i = i + 1;
    }
    None
}

/// Whether a rule says that `x` comes before `y`.
fn rule_holds(rules: &Vec<(i64, i64)>, x: i64, y: i64) -> (r: bool)
    ensures
        r == has_rule(rules@.map_values(|p: (i64, i64)| (p.0 as int, p.1 as int)), x as int, y as int),
{
    let ghost rs = rules@.map_values(|p: (i64, i64)| (p.0 as int, p.1 as int));
    let mut k: usize = 0;
    while k < rules.len()
        invariant
            k <= rules@.len(),
            rs == rules@.map_values(|p: (i64, i64)| (p.0 as int, p.1 as int)),
            forall|j: int| 0 <= j < k ==> rs[j] != (x as int, y as int),
        decreases rules@.len() - k,
    {
        if rules[k].0 == x && rules[k].1 == y {
            proof {
                assert(rs[k as int] == (x as int, y as int));
            }
            return true;
        }
        k = k + 1;
    }
    false
}

/// Whether the update keeps every rule.
pub fn is_run_valid(run: &Vec<i64>, rules: &Vec<(i64, i64)>) -> (r: bool)
    ensures
        r == in_order(
            run@.map_values(|x: i64| x as int),
            rules@.map_values(|p: (i64, i64)| (p.0 as int, p.1 as int)),
        ),
{
    let ghost u = run@.map_values(|x: i64| x as int);
    let ghost rs = rules@.map_values(|p: (i64, i64)| (p.0 as int, p.1 as int));
    let mut j: usize = 0;
    while j < run.len()
        invariant
            j <= run@.len(),
            u == run@.map_values(|x: i64| x as int),
            rs == rules@.map_values(|p: (i64, i64)| (p.0 as int, p.1 as int)),
            forall|a: int, b: int| 0 <= a < b < j ==> !#[trigger] has_rule(rs, u[b], u[a]),
        decreases run@.len() - j,
    {
        let mut i: usize = 0;
        while i < j
            invariant
                i <= j < run@.len(),
                u == run@.map_values(|x: i64| x as int),
                rs == rules@.map_values(|p: (i64, i64)| (p.0 as int, p.1 as int)),
                forall|a: int, b: int| 0 <= a < b < j ==> !#[trigger] has_rule(rs, u[b], u[a]),
                forall|a: int| 0 <= a < i ==> !#[trigger] has_rule(rs, u[j as int], u[a]),
            decreases j - i,
        {
            if rule_holds(rules, run[j], run[i]) {
                proof {
                    assert(u[j as int] == run@[j as int] && u[i as int] == run@[i as int]);
                    assert(has_rule(rs, u[j as int], u[i as int]));
                }
                return false;
            }
            i = i + 1;
        }
        j = j + 1;
    }
    true
}

/// The page that lands in the middle once the update is ordered by the
/// rules, as `ordered_middle` says.
pub fn order_run(run: &Vec<i64>, rules: &Vec<(i64, i64)>) -> (r: Option<i64>)
    ensures
        opt_int(r) == ordered_middle(
            run@.map_values(|x: i64| x as int),
            rules@.map_values(|p: (i64, i64)| (p.0 as int, p.1 as int)),
            0,
        ),
{
    let ghost u = run@.map_values(|x: i64| x as int);
    let ghost rs = rules@.map_values(|p: (i64, i64)| (p.0 as int, p.1 as int));
    let n = run.len();
    let mut i: usize = 0;
    while i < n
        invariant
            n == run@.len(),
            i <= n,
            u == run@.map_values(|x: i64| x as int),
            rs == rules@.map_values(|p: (i64, i64)| (p.0 as int, p.1 as int)),
            ordered_middle(u, rs, 0) == ordered_middle(u, rs, i as int),
        decreases n - i,
    {
        let x = run[i];
        let mut c: usize = 0;
        let mut j: usize = 0;
        while j < n
            invariant
                n == run@.len(),
                j <= n,
                i < n,
                x == u[i as int],
                u == run@.map_values(|x: i64| x as int),
                rs == rules@.map_values(|p: (i64, i64)| (p.0 as int, p.1 as int)),
                c == before_count(u, rs, x as int, j as int),
                c <= j,
            decreases n - j,
        {
            if rule_holds(rules, run[j], x) {
                c = c + 1;
            }
            j = j + 1;
        }
        if c == n / 2 {
            return Some(x);
        }
        i = i + 1;
    }
    None
}

/// The middle pages of the updates that keep the rules, summed; `None`
/// where the text is not a manual or the sum leaves the `i64` range.
pub fn part_1(input: &str) -> (r: Option<i64>)
    ensures
        opt_int(r) == match manual(input.spec_bytes()) {
            Some((rules, us)) => checked_sum(valid_middles(us, rules)),
            None => None,
        },
{
    let (rules, runs) = match parse_rules_and_runs(input) {
        Some(t) => t,
        None => {
            return None;
        },
    };
    let ghost rs = rules@.map_values(|p: (i64, i64)| (p.0 as int, p.1 as int));
    let ghost us = int_views(runs@);
    let mut out: Vec<i64> = Vec::new();
    let mut k: usize = 0;
    while k < runs.len()
        invariant
            k <= runs@.len(),
            rs == rules@.map_values(|p: (i64, i64)| (p.0 as int, p.1 as int)),
            us == int_views(runs@),
            manual(input.spec_bytes()) == Some((rs, us)),
            out@.len() == k,
            forall|j: int| 0 <= j < k ==> out@[j] == valid_middles(us, rs)[j],
        decreases runs@.len() - k,
    {
        proof {
            assert(us[k as int] == runs@[k as int]@.map_values(|y: i64| y as int));
            assert(us[k as int].len() >= 1);
        }
        if is_run_valid(&runs[k], &rules) {
            out.push(runs[k][runs[k].len() / 2]);
        } else {
            out.push(0);
        }
        k = k + 1;
    }
    proof {
        assert(out@.map_values(|x: i64| x as int) =~= valid_middles(us, rs));
    }
    sum_checked(&out)
}

/// The middle pages of the updates that break a rule, once ordered, summed;
/// `None` where the text is not a manual, an update has no middle page by
/// the rules, or the sum leaves the `i64` range.
pub fn part_2(input: &str) -> (r: Option<i64>)
    ensures
        opt_int(r) == match manual(input.spec_bytes()) {
            Some((rules, us)) => match fixed_middles(us, rules) {
                Some(ms) => checked_sum(ms),
                None => None,
            },
            None => None,
        },
{
    let (rules, runs) = match parse_rules_and_runs(input) {
        Some(t) => t,
        None => {
            return None;
        },
    };
    let ghost rs = rules@.map_values(|p: (i64, i64)| (p.0 as int, p.1 as int));
    let ghost us = int_views(runs@);
    let mut out: Vec<i64> = Vec::new();
    let mut k: usize = 0;
    while k < runs.len()
        invariant
            k <= runs@.len(),
            rs == rules@.map_values(|p: (i64, i64)| (p.0 as int, p.1 as int)),
            us == int_views(runs@),
            manual(input.spec_bytes()) == Some((rs, us)),
            out@.len() == k,
            forall|j: int|
                0 <= j < k && !in_order(us[j], rs) ==> (#[trigger] ordered_middle(us[j], rs, 0)) is Some,
            forall|j: int|
                0 <= j < k ==> out@[j] == (if in_order(us[j], rs) {
                    0
                } else {
                    ordered_middle(us[j], rs, 0)->0
                }),
        decreases runs@.len() - k,
    {
        proof {
            assert(us[k as int] == runs@[k as int]@.map_values(|y: i64| y as int));
        }
        if is_run_valid(&runs[k], &rules) {
            out.push(0);
        } else {
            match order_run(&runs[k], &rules) {
                Some(m) => out.push(m),
                None => {
                    proof {
                        assert(!in_order(us[k as int], rs));
                        assert(fixed_middles(us, rs) is None);
                    }
                    return None;
                },
            }
        }
        k = k + 1;
    }
    proof {
        let ms = fixed_middles(us, rs);
        assert(ms is Some);
        assert(out@.map_values(|x: i64| x as int) =~= ms->0);
    }
    sum_checked(&out)
}

} // verus!
