use vstd::prelude::*;
use vstd::string::StringSliceAdditionalSpecFns;
use crate::text::{checked_sum, fits_i64, lemma_checked_sum_unfit_term, opt_int, sum_checked};

verus! {

/// Whether `b` is white space that may surround the disk map.
pub open spec fn is_space(b: u8) -> bool {
    b == 10 || b == 13 || b == 32 || b == 9
}

/// The digits of the disk map, where every byte is a digit or white space.
pub open spec fn disk_map(s: Seq<u8>) -> Option<Seq<int>>
    decreases s.len(),
{
    if s.len() == 0 {
        Some(Seq::empty())
    } else {
        match disk_map(s.drop_last()) {
            Some(m) => if 48 <= s.last() <= 57 {
                Some(m.push(s.last() - 48))
            } else if is_space(s.last()) {
                Some(m)
            } else {
                None
            },
            None => None,
        }
    }
}

/// The blocks the map describes: its digits alternate between the length
/// of a file, numbered from zero, and the length of a gap; `-1` marks free
/// space.
pub open spec fn layout(m: Seq<int>) -> Seq<int>
    decreases m.len(),
{
    if m.len() == 0 {
        Seq::empty()
    } else {
        let k = m.len() - 1;
        layout(m.drop_last()) + Seq::new(
            if m.last() >= 0 { m.last() as nat } else { 0 },
            |i: int| if k % 2 == 0 { k / 2 } else { -1 },
        )
    }
}

/// The file blocks of `b`, read from the end.
pub open spec fn files_from_end(b: Seq<int>) -> Seq<int>
    decreases b.len(),
{
    if b.len() == 0 {
        Seq::empty()
    } else {
        (if b.last() >= 0 { seq![b.last()] } else { Seq::empty() }) + files_from_end(b.drop_last())
    }
}

/// How many entries of `b` before position `i` meet `free` (free blocks
/// where it holds, file blocks otherwise).
pub open spec fn count_kind(b: Seq<int>, i: int, free: bool) -> int
    decreases i,
{
    if i <= 0 {
        0
    } else {
        count_kind(b, i - 1, free) + if (b[i - 1] < 0) == free {
            1int
        } else {
            0int
        }
    }
}

/// The block at position `i` once the disk is compacted: file blocks stay,
/// and each free block, left to right, takes the next file block from the
/// end.
pub open spec fn compacted(b: Seq<int>, i: int) -> int {
    if b[i] >= 0 {
        b[i]
    } else {
        files_from_end(b)[count_kind(b, i, true)]
    }
}

/// The checksum terms of the compacted disk: position times file number,
/// over the first as many positions as there are file blocks.
pub open spec fn compact_terms(b: Seq<int>) -> Seq<int> {
    Seq::new(count_kind(b, b.len() as int, false) as nat, |i: int| i * compacted(b, i))
}

proof fn lemma_count_prefix(b: Seq<int>, c: Seq<int>, i: int, free: bool)
    requires
        0 <= i <= b.len(),
        i <= c.len(),
        forall|k: int| 0 <= k < i ==> b[k] == c[k],
    ensures
        count_kind(b, i, free) == count_kind(c, i, free),
    decreases i,
{
    if i > 0 {
        lemma_count_prefix(b, c, i - 1, free);
    }
}

proof fn lemma_count_bounds(b: Seq<int>, i: int, free: bool)
    requires
        0 <= i,
    ensures
        0 <= count_kind(b, i, free) <= i,
        count_kind(b, i, true) + count_kind(b, i, false) == i,
    decreases i,
{
    if i > 0 {
        lemma_count_bounds(b, i - 1, free);
        lemma_count_bounds(b, i - 1, !free);
    }
}

/// The file block at `p` is the one that `files_from_end` lists after all
/// the file blocks behind it.
proof fn lemma_file_from_end(b: Seq<int>, p: int)
    requires
        0 <= p < b.len(),
        b[p] >= 0,
    ensures
        0 <= count_kind(b, b.len() as int, false) - count_kind(b, p + 1, false) < files_from_end(b).len(),
        files_from_end(b)[count_kind(b, b.len() as int, false) - count_kind(b, p + 1, false)] == b[p],
    decreases b.len(),
{
    let n = b.len() as int;
    let c = b.drop_last();
    lemma_files_len(b);
    if p == n - 1 {
        assert(files_from_end(b)[0] == b[p]);
    } else {
        lemma_file_from_end(c, p);
        lemma_count_prefix(b, c, p + 1, false);
        lemma_count_prefix(b, c, n - 1, false);
        let head = if b.last() >= 0 { seq![b.last()] } else { Seq::<int>::empty() };
        assert(files_from_end(b) == head + files_from_end(c));
    }
}

proof fn lemma_files_len(b: Seq<int>)
    ensures
        files_from_end(b).len() == count_kind(b, b.len() as int, false),
    decreases b.len(),
{
    if b.len() > 0 {
        let c = b.drop_last();
        lemma_files_len(c);
        lemma_count_prefix(b, c, b.len() - 1, false);
    }
}

/// The sum of the first `k` digits: where the `k`-th entry starts.
pub open spec fn start_of(m: Seq<int>, k: int) -> int
    decreases k,
{
    if k <= 0 {
        0
    } else {
        start_of(m, k - 1) + m[k - 1]
    }
}

/// The files of the map among its first `k` digits, in order, each as
/// (number, size, first block).
pub open spec fn files_upto(m: Seq<int>, k: int) -> Seq<(int, int, int)>
    decreases k,
{
    if k <= 0 {
        Seq::empty()
    } else if (k - 1) % 2 == 0 {
        files_upto(m, k - 1).push(((k - 1) / 2, m[k - 1], start_of(m, k - 1)))
    } else {
        files_upto(m, k - 1)
    }
}

/// The first position, from `k` on, of a file in `d` followed by a gap of
/// at least `size` blocks before the next file.
pub open spec fn find_slot(d: Seq<(int, int, int)>, size: int, k: int) -> Option<int>
    decreases d.len() - k,
{
    if k < 0 || k + 1 >= d.len() {
        None
    } else if d[k + 1].2 - (d[k].2 + d[k].1) >= size {
        Some(k)
    } else {
        find_slot(d, size, k + 1)
    }
}

/// The first position, from `k` on, of file `id` in `d`.
pub open spec fn find_file(d: Seq<(int, int, int)>, id: int, k: int) -> Option<int>
    decreases d.len() - k,
{
    if k < 0 || k >= d.len() {
        None
    } else if d[k].0 == id {
        Some(k)
    } else {
        find_file(d, id, k + 1)
    }
}

/// The files once file `id` has been tried: it moves, whole, into the first
/// gap that holds it, where that gap lies before it.
pub open spec fn move_file(d: Seq<(int, int, int)>, id: int) -> Seq<(int, int, int)> {
    match find_file(d, id, 0) {
        Some(p) => {
            let f = d[p];
            match find_slot(d, f.1, 0) {
                Some(k) => if d[k].2 >= f.2 {
                    d
                } else {
                    d.remove(p).insert(k + 1, (f.0, f.1, d[k].2 + d[k].1))
                },
                None => d,
            }
        },
        None => d,
    }
}

/// The files once files `n - 1` down to `0` have been tried in turn.
pub open spec fn move_files(d: Seq<(int, int, int)>, n: int) -> Seq<(int, int, int)>
    decreases n,
{
    if n <= 0 {
        d
    } else {
        move_files(move_file(d, n - 1), n - 1)
    }
}

/// The checksum terms of whole files: each block's position times the
/// file's number.
pub open spec fn file_terms(d: Seq<(int, int, int)>) -> Seq<int> {
    Seq::new(d.len(), |i: int| d[i].0 * (d[i].1 * d[i].2 + d[i].1 * (d[i].1 - 1) / 2))
}

/// The digits of the disk map.
pub fn parse_map(s: &[u8]) -> (r: Option<Vec<i64>>)
    ensures
        match r {
            Some(v) => disk_map(s@) == Some(v@.map_values(|x: i64| x as int)) && forall|k: int|
                0 <= k < v@.len() ==> 0 <= #[trigger] v@[k] <= 9,
            None => disk_map(s@) is None,
        },
{
    let mut m: Vec<i64> = Vec::new();
    let mut i: usize = 0;
    while i < s.len()
        invariant
            i <= s@.len(),
            disk_map(s@.take(i as int)) == Some(m@.map_values(|x: i64| x as int)),
            forall|k: int| 0 <= k < m@.len() ==> 0 <= #[trigger] m@[k] <= 9,
        decreases s@.len() - i,
    {
        proof {
            assert(s@.take(i + 1).drop_last() == s@.take(i as int));
            assert(s@.take(i + 1).last() == s@[i as int]);
        }
        let b = s[i];
        if b >= 48 && b <= 57 {
            m.push((b - 48) as i64);
            proof {
                assert(m@.map_values(|x: i64| x as int) =~= disk_map(s@.take(i as int))->0.push(b - 48));
            }
        } else if b == 10 || b == 13 || b == 32 || b == 9 {
        } else {
            proof {
                lemma_map_fails_on(s@, i + 1);
            }
            return None;
        }
        i = i + 1;
    }
    proof {
        assert(s@.take(s@.len() as int) == s@);
    }
    Some(m)
}

proof fn lemma_map_fails_on(s: Seq<u8>, i: int)
    requires
        0 <= i <= s.len(),
        disk_map(s.take(i)) is None,
    ensures
        disk_map(s) is None,
    decreases s.len() - i,
{
    if i < s.len() {
        assert(s.take(i + 1).drop_last() == s.take(i));
        lemma_map_fails_on(s, i + 1);
    } else {
        assert(s.take(i) == s);
    }
}

/// The blocks of the disk, `-1` for free space.
pub fn expand(m: &Vec<i64>) -> (r: Vec<i64>)
    requires
        forall|k: int| 0 <= k < m@.len() ==> 0 <= #[trigger] m@[k] <= 9,
    ensures
        r@.map_values(|x: i64| x as int) == layout(m@.map_values(|x: i64| x as int)),
        forall|k: int| 0 <= k < r@.len() ==> -1 <= #[trigger] r@[k] < m@.len(),
{
    let ghost mv = m@.map_values(|x: i64| x as int);
    let mut out: Vec<i64> = Vec::new();
    let mut k: usize = 0;
    while k < m.len()
        invariant
            k <= m@.len(),
            mv == m@.map_values(|x: i64| x as int),
            forall|q: int| 0 <= q < m@.len() ==> 0 <= #[trigger] m@[q] <= 9,
            out@.map_values(|x: i64| x as int) == layout(mv.take(k as int)),
            forall|q: int| 0 <= q < out@.len() ==> -1 <= #[trigger] out@[q] < m@.len(),
        decreases m@.len() - k,
    {
        proof {
            assert(mv.take(k + 1).drop_last() == mv.take(k as int));
            assert(mv.take(k + 1).last() == m@[k as int]);
        }
        let id: i64 = if k % 2 == 0 { (k / 2) as i64 } else { -1 };
        let len = m[k];
        let ghost before = out@;
        let mut c: i64 = 0;
        while c < len
            invariant
                0 <= c <= len <= 9,
                k < m@.len(),
                out@.len() == before.len() + c,
                forall|q: int| 0 <= q < before.len() ==> out@[q] == before[q],
                forall|q: int| before.len() <= q < out@.len() ==> out@[q] == id,
                forall|q: int| 0 <= q < before.len() ==> -1 <= #[trigger] before[q] < m@.len(),
                -1 <= id < m@.len(),
            decreases len - c,
        {
            out.push(id);
            c = c + 1;
        }
        proof {
            assert forall|q: int| 0 <= q < out@.len() implies -1 <= #[trigger] out@[q] < m@.len() by {
                if q < before.len() {
                    assert(out@[q] == before[q]);
                }
            }
            let kk = k as int;
            assert(out@.map_values(|x: i64| x as int) =~= layout(mv.take(kk)) + Seq::new(
                m@[kk] as nat,
                |i: int| if kk % 2 == 0 { kk / 2 } else { -1 },
            ));
        }
        k = k + 1;
    }
    proof {
        assert(mv.take(mv.len() as int) == mv);
    }
    out
}

/// The filesystem checksum once file blocks are moved, one at a time from
/// the end, into the leftmost free blocks.
pub fn compact_checksum(b: &Vec<i64>) -> (r: Option<i64>)
    requires
        forall|k: int| 0 <= k < b@.len() ==> -1 <= #[trigger] b@[k],
    ensures
        opt_int(r) == checked_sum(compact_terms(b@.map_values(|x: i64| x as int))),
{
    let ghost bv = b@.map_values(|x: i64| x as int);
    let ghost terms = compact_terms(bv);
    let n = b.len();
    let mut files: usize = 0;
    let mut q: usize = 0;
    while q < n
        invariant
            n == b@.len(),
            bv == b@.map_values(|x: i64| x as int),
            q <= n,
            files == count_kind(bv, q as int, false),
            files <= q,
        decreases n - q,
    {
        if b[q] >= 0 {
            files = files + 1;
        }
        q = q + 1;
    }
    let mut out: Vec<i64> = Vec::new();
    let mut j: usize = n;
    let mut i: usize = 0;
    while i < files
        invariant
            n == b@.len(),
            bv == b@.map_values(|x: i64| x as int),
            forall|k: int| 0 <= k < b@.len() ==> -1 <= #[trigger] b@[k],
            files == count_kind(bv, n as int, false),
            terms == compact_terms(bv),
            terms.len() == files,
            files <= n,
            i <= files,
            j <= n,
            count_kind(bv, n as int, false) - count_kind(bv, j as int, false) == count_kind(bv, i as int, true),
            out@.len() == i,
            forall|k: int| 0 <= k < i ==> out@[k] == terms[k],
        decreases files - i,
    {
        proof {
            lemma_count_bounds(bv, i as int, true);
        }
        let v: i64 = if b[i] >= 0 {
            b[i]
        } else {
            proof {
                lemma_count_bounds(bv, j as int, false);
                lemma_count_bounds(bv, i as int, false);
            }
            while j > 0 && b[j - 1] < 0
                invariant
                    n == b@.len(),
                    bv == b@.map_values(|x: i64| x as int),
                    j <= n,
                    count_kind(bv, n as int, false) - count_kind(bv, j as int, false) == count_kind(bv, i as int, true),
                    count_kind(bv, j as int, false) >= 1,
                decreases j,
            {
                j = j - 1;
            }
            proof {
                if j == 0 {
                    assert(count_kind(bv, 0, false) == 0);
                }
                lemma_file_from_end(bv, j - 1);
            }
            j = j - 1;
            proof {
                assert(b@[j as int] >= 0);
            }
            b[j]
        };
        proof {
            assert(terms[i as int] == i * v);
            assert(0 <= (i as int) * (v as int) <= 18446744073709551615 * 9223372036854775807) by (nonlinear_arith)
                requires
                    0 <= i <= 18446744073709551615,
                    0 <= v <= 9223372036854775807,
            ;
        }
        let t: i128 = (i as i128) * (v as i128);
        if t > i64::MAX as i128 {
            proof {
                lemma_checked_sum_unfit_term(terms, i as int);
            }
            return None;
        }
        out.push(t as i64);
        i = i + 1;
    }
    proof {
        assert(out@.map_values(|x: i64| x as int) =~= terms);
    }
    sum_checked(&out)
}

/// The files of the disk map, each as (number, size, first block).
pub fn disk_files(m: &Vec<i64>) -> (r: Vec<(i64, i64, i64)>)
    requires
        forall|k: int| 0 <= k < m@.len() ==> 0 <= #[trigger] m@[k] <= 9,
        m@.len() < i32::MAX,
    ensures
        r@.map_values(|f: (i64, i64, i64)| (f.0 as int, f.1 as int, f.2 as int)) == files_upto(
            m@.map_values(|x: i64| x as int),
            m@.len() as int,
        ),
{
    let ghost mv = m@.map_values(|x: i64| x as int);
    let mut out: Vec<(i64, i64, i64)> = Vec::new();
    let mut idx: i64 = 0;
    let mut k: usize = 0;
    while k < m.len()
        invariant
            k <= m@.len(),
            m@.len() < i32::MAX,
            mv == m@.map_values(|x: i64| x as int),
            forall|q: int| 0 <= q < m@.len() ==> 0 <= #[trigger] m@[q] <= 9,
            idx == start_of(mv, k as int),
            0 <= idx <= 9 * k,
            out@.map_values(|f: (i64, i64, i64)| (f.0 as int, f.1 as int, f.2 as int)) == files_upto(mv, k as int),
        decreases m@.len() - k,
    {
        if k % 2 == 0 {
            out.push(((k / 2) as i64, m[k], idx));
            proof {
                assert(out@.map_values(|f: (i64, i64, i64)| (f.0 as int, f.1 as int, f.2 as int)) =~= files_upto(
                    mv,
                    k + 1,
                ));
            }
        }
        idx = idx + m[k];
        k = k + 1;
    }
    out
}

/// The first position, from `k` on, of file `id` in `d`.
fn position_of(d: &Vec<(i64, i64, i64)>, id: i64) -> (r: Option<usize>)
    ensures
        match r {
            Some(p) => find_file(d@.map_values(|f: (i64, i64, i64)| (f.0 as int, f.1 as int, f.2 as int)), id as int, 0)
                == Some(p as int),
            None => find_file(d@.map_values(|f: (i64, i64, i64)| (f.0 as int, f.1 as int, f.2 as int)), id as int, 0) is None,
        },
{
    let ghost dv = d@.map_values(|f: (i64, i64, i64)| (f.0 as int, f.1 as int, f.2 as int));
    let mut k: usize = 0;
    while k < d.len()
        invariant
            k <= d@.len(),
            dv == d@.map_values(|f: (i64, i64, i64)| (f.0 as int, f.1 as int, f.2 as int)),
            find_file(dv, id as int, 0) == find_file(dv, id as int, k as int),
        decreases d@.len() - k,
    {
        if d[k].0 == id {
            return Some(k);
        }
        k = k + 1;
    }
    None
}

/// The first position of a file followed by a gap of at least `size` blocks.
fn slot_for(d: &Vec<(i64, i64, i64)>, size: i64) -> (r: Option<usize>)
    requires
        forall|i: int| 0 <= i < d@.len() ==> 0 <= (#[trigger] d@[i]).1 <= 9 && 0 <= d@[i].2 < 100000000000,
    ensures
        match r {
            Some(k) => find_slot(d@.map_values(|f: (i64, i64, i64)| (f.0 as int, f.1 as int, f.2 as int)), size as int, 0)
                == Some(k as int),
            None => find_slot(d@.map_values(|f: (i64, i64, i64)| (f.0 as int, f.1 as int, f.2 as int)), size as int, 0) is None,
        },
{
    let ghost dv = d@.map_values(|f: (i64, i64, i64)| (f.0 as int, f.1 as int, f.2 as int));
    let mut k: usize = 0;
    while k < d.len() && k + 1 < d.len()
        invariant
            k <= d@.len(),
            dv == d@.map_values(|f: (i64, i64, i64)| (f.0 as int, f.1 as int, f.2 as int)),
            forall|i: int| 0 <= i < d@.len() ==> 0 <= (#[trigger] d@[i]).1 <= 9 && 0 <= d@[i].2 < 100000000000,
            find_slot(dv, size as int, 0) == find_slot(dv, size as int, k as int),
        decreases d@.len() - k,
    {
        if d[k + 1].2 - (d[k].2 + d[k].1) >= size {
            return Some(k);
        }
        k = k + 1;
    }
    None
}

/// The checksum of the disk in the input once compacted block by block;
/// `None` where the text holds anything but digits and white space, or the
/// checksum leaves the `i64` range.
pub fn part_1(input: &str) -> (r: Option<i64>)
    ensures
        opt_int(r) == match disk_map(input.spec_bytes()) {
            Some(m) => checked_sum(compact_terms(layout(m))),
            None => None,
        },
{
    let m = match parse_map(input.as_bytes()) {
        Some(m) => m,
        None => {
            return None;
        },
    };
    let blocks = expand(&m);
    compact_checksum(&blocks)
}

/// The view of a list of files as triples of integers.
pub open spec fn file_view(d: Seq<(i64, i64, i64)>) -> Seq<(int, int, int)> {
    d.map_values(|f: (i64, i64, i64)| (f.0 as int, f.1 as int, f.2 as int))
}

/// Tries to move file `id`, as `move_file` says.
fn move_one(d: &mut Vec<(i64, i64, i64)>, id: i64)
    requires
        forall|i: int| 0 <= i < old(d)@.len() ==> 0 <= (#[trigger] old(d)@[i]).1 <= 9 && 0 <= old(d)@[i].2 < 100000000000,
    ensures
        file_view(final(d)@) == move_file(file_view(old(d)@), id as int),
        forall|i: int| 0 <= i < final(d)@.len() ==> 0 <= (#[trigger] final(d)@[i]).1 <= 9 && 0 <= final(d)@[i].2 < 100000000000,
{
    let ghost dv = file_view(d@);
    let p = match position_of(d, id) {
        Some(p) => p,
        None => {
            return;
        },
    };
    proof {
        lemma_find_file_bound(dv, id as int, 0, p as int);
    }
    let f = d[p];
    let k = match slot_for(d, f.1) {
        Some(k) => k,
        None => {
            return;
        },
    };
    proof {
        lemma_find_slot_bound(dv, f.1 as int, 0, k as int);
    }
    let n = d.len();
    let slot = d[k];
    if slot.2 >= f.2 {
        return;
    }
    let moved = (f.0, f.1, slot.2 + slot.1);
    d.remove(p);
    d.insert(k + 1, moved);
    proof {
        assert(file_view(d@) =~= dv.remove(p as int).insert(k + 1, (f.0 as int, f.1 as int, slot.2 + slot.1)));
    }
}

proof fn lemma_find_file_bound(d: Seq<(int, int, int)>, id: int, k: int, p: int)
    requires
        find_file(d, id, k) == Some(p),
    ensures
        0 <= k <= p < d.len(),
        d[p].0 == id,
    decreases d.len() - k,
{
    if 0 <= k < d.len() && d[k].0 != id {
        lemma_find_file_bound(d, id, k + 1, p);
    }
}

proof fn lemma_find_slot_bound(d: Seq<(int, int, int)>, size: int, k: int, q: int)
    requires
        find_slot(d, size, k) == Some(q),
    ensures
        0 <= k <= q,
        q + 1 < d.len(),
        d[q + 1].2 - (d[q].2 + d[q].1) >= size,
    decreases d.len() - k,
{
    if 0 <= k && k + 1 < d.len() && d[k + 1].2 - (d[k].2 + d[k].1) < size {
        lemma_find_slot_bound(d, size, k + 1, q);
    }
}

proof fn lemma_files_upto_shape(m: Seq<int>, k: int)
    requires
        0 <= k <= m.len(),
        forall|q: int| 0 <= q < m.len() ==> 0 <= #[trigger] m[q] <= 9,
    ensures
        files_upto(m, k).len() == (k + 1) / 2,
        forall|i: int|
            0 <= i < files_upto(m, k).len() ==> 0 <= (#[trigger] files_upto(m, k)[i]).1 <= 9 && 0
                <= files_upto(m, k)[i].2 <= 9 * k && 0 <= files_upto(m, k)[i].0 <= k,
        0 <= start_of(m, k) <= 9 * k,
    decreases k,
{
    if k > 0 {
        lemma_files_upto_shape(m, k - 1);
    }
}

/// The checksum of the files where they lie.
fn files_checksum(d: &Vec<(i64, i64, i64)>) -> (r: Option<i64>)
    requires
        forall|i: int| 0 <= i < d@.len() ==> 0 <= (#[trigger] d@[i]).1 <= 9 && 0 <= d@[i].2 < 100000000000 && 0
            <= d@[i].0 < i32::MAX,
    ensures
        opt_int(r) == checked_sum(file_terms(file_view(d@))),
{
    let ghost terms = file_terms(file_view(d@));
    let mut out: Vec<i64> = Vec::new();
    let mut i: usize = 0;
    while i < d.len()
        invariant
            i <= d@.len(),
            terms == file_terms(file_view(d@)),
            forall|q: int| 0 <= q < d@.len() ==> 0 <= (#[trigger] d@[q]).1 <= 9 && 0 <= d@[q].2 < 100000000000 && 0
                <= d@[q].0 < i32::MAX,
            out@.len() == i,
            forall|k: int| 0 <= k < i ==> out@[k] == terms[k],
        decreases d@.len() - i,
    {
        let (id, size, idx) = d[i];
        proof {
            assert(0 <= size * idx <= 900000000000 && 0 <= size * (size - 1) <= 72) by (nonlinear_arith)
                requires
                    0 <= size <= 9,
                    0 <= idx < 100000000000,
            ;
            assert(0 <= id * (size * idx + size * (size - 1) / 2) <= 2147483647 * 900000000036) by (nonlinear_arith)
                requires
                    0 <= id < 2147483647,
                    0 <= size * idx + size * (size - 1) / 2 <= 900000000036,
            ;
        }
        let s = (size as i128) * (idx as i128) + (size as i128) * ((size - 1) as i128) / 2;
        let t: i128 = (id as i128) * s;
        proof {
            assert(terms[i as int] == t);
        }
        if t > i64::MAX as i128 {
            proof {
                lemma_checked_sum_unfit_term(terms, i as int);
            }
            return None;
        }
        out.push(t as i64);
        i = i + 1;
    }
    proof {
        assert(out@.map_values(|x: i64| x as int) =~= terms);
    }
    sum_checked(&out)
}

/// The checksum of the disk in the input once whole files, from the last
/// to the first, each move into the leftmost gap before them that holds
/// them; `None` where the text holds anything but digits and white space,
/// is too long, or the checksum leaves the `i64` range.
pub fn part_2(input: &str) -> (r: Option<i64>)
    ensures
        opt_int(r) == match disk_map(input.spec_bytes()) {
            Some(m) => if m.len() < i32::MAX {
                checked_sum(file_terms(move_files(files_upto(m, m.len() as int), ((m.len() + 1) / 2) as int)))
            } else {
                None
            },
            None => None,
        },
{
    let m = match parse_map(input.as_bytes()) {
        Some(m) => m,
        None => {
            return None;
        },
    };
    if m.len() >= i32::MAX as usize {
        return None;
    }
    let ghost mv = m@.map_values(|x: i64| x as int);
    let mut d = disk_files(&m);
    proof {
        lemma_files_upto_shape(mv, mv.len() as int);
        assert forall|i: int| 0 <= i < d@.len() implies 0 <= (#[trigger] d@[i]).1 <= 9 && 0 <= d@[i].2
            < 100000000000 && 0 <= d@[i].0 < i32::MAX by {
            assert(file_view(d@)[i] == (d@[i].0 as int, d@[i].1 as int, d@[i].2 as int));
        }
    }
    let count = (m.len() + 1) / 2;
    let ghost start = file_view(d@);
    let mut id: usize = count;
    while id > 0
        invariant
            id <= count,
            count < i32::MAX,
            move_files(start, count as int) == move_files(file_view(d@), id as int),
            forall|i: int| 0 <= i < d@.len() ==> 0 <= (#[trigger] d@[i]).1 <= 9 && 0 <= d@[i].2 < 100000000000,
            forall|i: int| 0 <= i < d@.len() ==> 0 <= (#[trigger] d@[i]).0 < i32::MAX,
        decreases id,
    {
        id = id - 1;
        let ghost before = d@;
        move_one(&mut d, id as i64);
        proof {
            lemma_move_keeps_ids(file_view(before), id as int);
            assert forall|i: int| 0 <= i < d@.len() implies 0 <= (#[trigger] d@[i]).0 < i32::MAX by {
                assert(file_view(d@)[i] == (d@[i].0 as int, d@[i].1 as int, d@[i].2 as int));
            }
        }
    }
    files_checksum(&d)
}

/// Moving a file keeps the set of file numbers within the same bounds.
proof fn lemma_move_keeps_ids(d: Seq<(int, int, int)>, id: int)
    requires
        forall|i: int| 0 <= i < d.len() ==> 0 <= (#[trigger] d[i]).0 < i32::MAX,
    ensures
        forall|i: int| 0 <= i < move_file(d, id).len() ==> 0 <= (#[trigger] move_file(d, id)[i]).0 < i32::MAX,
{
    match find_file(d, id, 0) {
        Some(p) => {
            lemma_find_file_bound(d, id, 0, p);
            match find_slot(d, d[p].1, 0) {
                Some(k) => {
                    lemma_find_slot_bound(d, d[p].1, 0, k);
                    let f = d[p];
                    if d[k].2 < f.2 {
                        let e = d.remove(p).insert(k + 1, (f.0, f.1, d[k].2 + d[k].1));
                        assert forall|i: int| 0 <= i < e.len() implies 0 <= (#[trigger] e[i]).0 < i32::MAX by {
                            if i < k + 1 {
                                assert(e[i] == d.remove(p)[i]);
                            } else if i > k + 1 {
                                assert(e[i] == d.remove(p)[i - 1]);
                            }
                        }
                    }
                },
                None => {},
            }
        },
        None => {},
    }
}

} // verus!
