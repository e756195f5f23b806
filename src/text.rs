use vstd::prelude::*;

verus! {

/// The line break.
pub const LINE_BREAK: u8 = 10;

/// The minus sign.
pub const MINUS: u8 = 45;

/// Whether `b` is an ASCII decimal digit.
pub open spec fn is_digit(b: u8) -> bool {
    48 <= b <= 57
}

/// Whether `b` can be part of a written integer: a digit or a minus sign.
pub open spec fn is_number_byte(b: u8) -> bool {
    is_digit(b) || b == MINUS
}

/// Whether an integer fits an `i64`.
pub open spec fn fits_i64(n: int) -> bool {
    i64::MIN <= n <= i64::MAX
}

/// The pieces of `s` between the separator bytes, as `str::split` gives them:
/// always at least one piece, empty pieces kept.
pub open spec fn split_on(s: Seq<u8>, sep: u8) -> Seq<Seq<u8>>
    decreases s.len(),
{
    if s.len() == 0 {
        seq![Seq::<u8>::empty()]
    } else {
        let r = split_on(s.drop_last(), sep);
        if s.last() == sep {
            r.push(Seq::<u8>::empty())
        } else {
            r.update(r.len() - 1, r.last().push(s.last()))
        }
    }
}

/// The lines of `s`: the pieces between line breaks, without the empty piece
/// after a final line break.
pub open spec fn lines(s: Seq<u8>) -> Seq<Seq<u8>> {
    let p = split_on(s, LINE_BREAK);
    if p.last().len() == 0 {
        p.drop_last()
    } else {
        p
    }
}

/// Whether `b` is an ASCII letter.
pub open spec fn is_letter(b: u8) -> bool {
    (65 <= b <= 90) || (97 <= b <= 122)
}

/// Whether `b` belongs to a word: a letter where `letters` holds, else a
/// digit or a minus sign.
pub open spec fn is_word_byte(letters: bool, b: u8) -> bool {
    if letters {
        is_letter(b)
    } else {
        is_number_byte(b)
    }
}

/// The maximal runs of digits and minus signs in `s`, in order.
pub open spec fn words(s: Seq<u8>) -> Seq<Seq<u8>> {
    words_of(s, false)
}

/// The maximal runs of word bytes in `s`, in order.
pub open spec fn words_of(s: Seq<u8>, letters: bool) -> Seq<Seq<u8>>
    decreases s.len(),
{
    if s.len() == 0 {
        Seq::empty()
    } else {
        let w = words_of(s.drop_last(), letters);
        if !is_word_byte(letters, s.last()) {
            w
        } else if s.len() >= 2 && is_word_byte(letters, s[s.len() - 2]) {
            w.update(w.len() - 1, w.last().push(s.last()))
        } else {
            w.push(seq![s.last()])
        }
    }
}

/// The value of a run of decimal digits.
pub open spec fn digits_value(s: Seq<u8>) -> int
    decreases s.len(),
{
    if s.len() == 0 {
        0
    } else {
        digits_value(s.drop_last()) * 10 + (s.last() - 48)
    }
}

/// Whether every byte of `s` is a digit.
pub open spec fn all_digits(s: Seq<u8>) -> bool {
    forall|i: int| 0 <= i < s.len() ==> is_digit(#[trigger] s[i])
}

/// The integer that `s` writes: an optional minus sign, then one digit or more.
pub open spec fn int_value(s: Seq<u8>) -> Option<int> {
    if s.len() > 0 && s[0] == MINUS {
        let rest = s.subrange(1, s.len() as int);
        if rest.len() > 0 && all_digits(rest) {
            Some(-digits_value(rest))
        } else {
            None
        }
    } else if s.len() > 0 && all_digits(s) {
        Some(digits_value(s))
    } else {
        None
    }
}

/// The integers written in `s`, when every word writes one that fits an `i64`.
pub open spec fn parsed_ints(s: Seq<u8>) -> Option<Seq<int>> {
    let w = words(s);
    if forall|i: int|
        0 <= i < w.len() ==> (#[trigger] int_value(w[i])) is Some && fits_i64(
            int_value(w[i])->0,
        ) {
        Some(Seq::new(w.len(), |i: int| int_value(w[i])->0))
    } else {
        None
    }
}

/// `n` where it fits an `i64`.
pub open spec fn within_i64(n: int) -> Option<int> {
    if fits_i64(n) {
        Some(n)
    } else {
        None
    }
}

/// The values of a sequence of `i64` vectors, as integers.
pub open spec fn int_views(v: Seq<Vec<i64>>) -> Seq<Seq<int>> {
    v.map_values(|x: Vec<i64>| x@.map_values(|y: i64| y as int))
}

/// The integers of each line of `s`, where every line parses.
pub open spec fn parsed_lines(s: Seq<u8>) -> Option<Seq<Seq<int>>> {
    let ls = lines(s);
    if forall|i: int| 0 <= i < ls.len() ==> (#[trigger] parsed_ints(ls[i])) is Some {
        Some(Seq::new(ls.len(), |i: int| parsed_ints(ls[i])->0))
    } else {
        None
    }
}

/// An optional `i64` read as an optional integer.
pub open spec fn opt_int(r: Option<i64>) -> Option<int> {
    match r {
        Some(x) => Some(x as int),
        None => None,
    }
}

/// The sum of `s` as a running `i64` total gives it: `None` where a term or
/// a partial sum leaves the `i64` range.
pub open spec fn checked_sum(s: Seq<int>) -> Option<int>
    decreases s.len(),
{
    if s.len() == 0 {
        Some(0)
    } else {
        match checked_sum(s.drop_last()) {
            Some(p) => if fits_i64(s.last()) && fits_i64(p + s.last()) {
                Some(p + s.last())
            } else {
                None
            },
            None => None,
        }
    }
}

proof fn lemma_split_on_nonempty(s: Seq<u8>, sep: u8)
    ensures
        split_on(s, sep).len() >= 1,
    decreases s.len(),
{
    if s.len() > 0 {
        lemma_split_on_nonempty(s.drop_last(), sep);
    }
}

/// The contents of a sequence of byte vectors.
pub open spec fn views(v: Seq<Vec<u8>>) -> Seq<Seq<u8>> {
    v.map_values(|x: Vec<u8>| x@)
}

/// Splits `s` at its line breaks, as `str::lines` does.
pub fn split_lines(s: &[u8]) -> (r: Vec<Vec<u8>>)
    ensures
        views(r@) == lines(s@),
{
    let mut done: Vec<Vec<u8>> = Vec::new();
    let mut cur: Vec<u8> = Vec::new();
    let mut i: usize = 0;
    while i < s.len()
        invariant
            i <= s@.len(),
            views(done@).push(cur@) == split_on(s@.take(i as int), LINE_BREAK),
        decreases s@.len() - i,
    {
        proof {
            assert(s@.take(i + 1).drop_last() == s@.take(i as int));
            assert(s@.take(i + 1).last() == s@[i as int]);
        }
        if s[i] == LINE_BREAK {
            let piece = cur;
            let ghost before = done@;
            done.push(piece);
            proof {
                assert(views(done@) =~= views(before).push(piece@));
            }
            cur = Vec::new();
            proof {
                assert(views(done@).push(cur@) =~= split_on(s@.take(i + 1), LINE_BREAK));
            }
        } else {
            let ghost before = cur@;
            cur.push(s[i]);
            proof {
                assert(views(done@).push(before) == split_on(s@.take(i as int), LINE_BREAK));
                assert(views(done@).push(cur@) =~= split_on(s@.take(i + 1), LINE_BREAK));
            }
        }
        i = i + 1;
    }
    proof {
        assert(s@.take(s@.len() as int) == s@);
    }
    proof {
        lemma_split_on_nonempty(s@, LINE_BREAK);
    }
    if cur.len() > 0 {
        let ghost before = done@;
        let ghost c = cur@;
        done.push(cur);
        proof {
            assert(views(done@) =~= views(before).push(c));
        }
    } else {
        proof {
            assert(views(done@) =~= views(done@).push(cur@).drop_last());
        }
    }
    done
}

/// Whether `b` belongs to a word, as `is_word_byte` says.
fn word_byte(letters: bool, b: u8) -> (r: bool)
    ensures
        r == is_word_byte(letters, b),
{
    if letters {
        (b >= 65 && b <= 90) || (b >= 97 && b <= 122)
    } else {
        (b >= 48 && b <= 57) || b == MINUS
    }
}

/// The maximal runs of digits and minus signs in `s`.
pub fn split_words(s: &[u8]) -> (r: Vec<Vec<u8>>)
    ensures
        views(r@) == words(s@),
{
    split_words_of(s, false)
}

/// The maximal runs of word bytes in `s`.
pub fn split_words_of(s: &[u8], letters: bool) -> (r: Vec<Vec<u8>>)
    ensures
        views(r@) == words_of(s@, letters),
{
    let mut done: Vec<Vec<u8>> = Vec::new();
    let mut cur: Vec<u8> = Vec::new();
    let mut i: usize = 0;
    while i < s.len()
        invariant
            i <= s@.len(),
            (i > 0 && is_word_byte(letters, s@[i - 1])) ==> cur@.len() > 0 && views(done@).push(
                cur@,
            ) == words_of(s@.take(i as int), letters),
            !(i > 0 && is_word_byte(letters, s@[i - 1])) ==> cur@.len() == 0 && views(done@)
                == words_of(s@.take(i as int), letters),
        decreases s@.len() - i,
    {
        let b = s[i];
        proof {
            assert(s@.take(i + 1).drop_last() == s@.take(i as int));
            assert(s@.take(i + 1).last() == b);
        }
        if word_byte(letters, b) {
            let ghost before = cur@;
            cur.push(b);
            proof {
                if i > 0 && is_word_byte(letters, s@[i - 1]) {
                    assert(views(done@).push(before) == words_of(s@.take(i as int), letters));
                    let t = s@.take(i + 1);
                    assert(t[t.len() - 2] == s@[i - 1]);
                    assert(is_word_byte(letters, t.last()));
                    let wp = words_of(t.drop_last(), letters);
                    assert(words_of(t, letters) == wp.update(wp.len() - 1, wp.last().push(t.last())));
                    assert(t.drop_last() == s@.take(i as int));
                    assert(wp == views(done@).push(before));
                    assert(wp.last() == before);
                    assert(cur@ == before.push(b));
                    assert(t.last() == b);
                    assert(wp.update(wp.len() - 1, before.push(b)) =~= views(done@).push(cur@));
                    assert(views(done@).push(cur@) =~= words_of(s@.take(i + 1), letters));
                } else {
                    let t = s@.take(i + 1);
                    if i > 0 {
                        assert(t[t.len() - 2] == s@[i - 1]);
                    }
                    assert(t.drop_last() == s@.take(i as int));
                    assert(cur@ =~= seq![b]);
                    assert(views(done@).push(cur@) =~= words_of(s@.take(i + 1), letters));
                }
            }
        } else if cur.len() > 0 {
            let piece = cur;
            let ghost before = done@;
            done.push(piece);
            cur = Vec::new();
            proof {
                assert(views(done@) =~= views(before).push(piece@));
            }
        }
        i = i + 1;
    }
    proof {
        assert(s@.take(s@.len() as int) == s@);
    }
    if cur.len() > 0 {
        let ghost before = done@;
        let ghost c = cur@;
        done.push(cur);
        proof {
            assert(views(done@) =~= views(before).push(c));
        }
    }
    done
}

/// The integer that `w` writes, where it writes one that fits an `i64`.
pub fn parse_int(w: &[u8]) -> (r: Option<i64>)
    ensures
        r is Some <==> (int_value(w@) is Some && fits_i64(int_value(w@)->0)),
        r is Some ==> r->0 == int_value(w@)->0,
{
    let n = w.len();
    if n == 0 {
        return None;
    }
    let neg = w[0] == MINUS;
    let start: usize = if neg { 1 } else { 0 };
    if start == n {
        return None;
    }
    let ghost digits = w@.subrange(start as int, n as int);
    let cap: i128 = 9223372036854775808;
    let mut v: i128 = 0;
    let mut big = false;
    let mut i: usize = start;
    while i < n
        invariant
            start <= i <= n,
            n == w@.len(),
            n > 0,
            neg == (w@[0] == MINUS),
            start == (if neg { 1usize } else { 0usize }),
            digits == w@.subrange(start as int, n as int),
            cap == 9223372036854775808,
            all_digits(w@.subrange(start as int, i as int)),
            !big ==> v == digits_value(w@.subrange(start as int, i as int)) && 0 <= v <= cap,
            big ==> digits_value(w@.subrange(start as int, i as int)) > cap,
        decreases n - i,
    {
        let b = w[i];
        if b < 48 || b > 57 {
            proof {
                assert(digits[i - start] == b);
                if neg {
                    assert(!all_digits(digits));
                    assert(w@.subrange(1, w@.len() as int) == digits);
                } else {
                    assert(w@[i as int] == b);
                    assert(!all_digits(w@));
                }
                assert(int_value(w@) is None);
            }
            return None;
        }
        proof {
            let p = w@.subrange(start as int, i + 1);
            assert(p.drop_last() == w@.subrange(start as int, i as int));
            assert(p.last() == b);
            assert(digits_value(p) >= digits_value(p.drop_last()));
        }
        if !big {
            v = v * 10 + (b - 48) as i128;
            if v > cap {
                big = true;
            }
        }
        i = i + 1;
    }
    proof {
        assert(w@.subrange(start as int, n as int) == digits);
        if !neg {
            assert(digits == w@);
        }
    }
    if big {
        return None;
    }
    if neg {
        Some((-v) as i64)
    } else if v < cap {
        Some(v as i64)
    } else {
        None
    }
}

/// The integers written in `s`, or `None` where a word writes none that fits
/// an `i64`.
pub fn parse_ints(s: &[u8]) -> (r: Option<Vec<i64>>)
    ensures
        match r {
            Some(v) => parsed_ints(s@) == Some(v@.map_values(|x: i64| x as int)),
            None => parsed_ints(s@) is None,
        },
{
    let ws = split_words(s);
    let ghost wv = words(s@);
    let mut out: Vec<i64> = Vec::new();
    let mut i: usize = 0;
    while i < ws.len()
        invariant
            i <= ws@.len(),
            views(ws@) == wv,
            wv == words(s@),
            out@.len() == i,
            forall|k: int|
                0 <= k < i ==> (#[trigger] int_value(wv[k])) is Some && fits_i64(
                    int_value(wv[k])->0,
                ) && out@[k] == int_value(wv[k])->0,
        decreases ws@.len() - i,
    {
        proof {
            assert(views(ws@)[i as int] == ws@[i as int]@);
        }
        match parse_int(ws[i].as_slice()) {
            Some(x) => out.push(x),
            None => {
                return None;
            },
        }
        i = i + 1;
    }
    proof {
        assert(Seq::new(wv.len(), |k: int| int_value(wv[k])->0) =~= out@.map_values(
            |x: i64| x as int,
        ));
    }
    Some(out)
}

/// Sorts `v` ascending.
/// Relies on `slice::sort`, which leaves the values in ascending order, as
/// the one sorted arrangement of them.
#[verifier::external_body]
pub(crate) fn sort_ascending(v: &mut Vec<i64>)
    ensures
        final(v)@.map_values(|x: i64| x as int) == old(v)@.map_values(|x: i64| x as int).sort_by(
            |a: int, b: int| a <= b,
        ),
{
    v.sort();
}

/// The integers of each line of `s`, or `None` where a line does not parse.
pub fn parse_lines(s: &[u8]) -> (r: Option<Vec<Vec<i64>>>)
    ensures
        match r {
            Some(v) => parsed_lines(s@) == Some(int_views(v@)),
            None => parsed_lines(s@) is None,
        },
{
    let ls = split_lines(s);
    let ghost lv = lines(s@);
    let mut out: Vec<Vec<i64>> = Vec::new();
    let mut i: usize = 0;
    while i < ls.len()
        invariant
            i <= ls@.len(),
            views(ls@) == lv,
            lv == lines(s@),
            out@.len() == i,
            forall|k: int|
                0 <= k < i ==> (#[trigger] parsed_ints(lv[k])) is Some && parsed_ints(lv[k])->0
                    == out@[k]@.map_values(|y: i64| y as int),
        decreases ls@.len() - i,
    {
        proof {
            assert(views(ls@)[i as int] == ls@[i as int]@);
        }
        match parse_ints(ls[i].as_slice()) {
            Some(v) => out.push(v),
            None => {
                return None;
            },
        }
        i = i + 1;
    }
    proof {
        assert(Seq::new(lv.len(), |k: int| parsed_ints(lv[k])->0) =~= int_views(out@));
    }
    Some(out)
}

/// The sum of `v`, or `None` where a partial sum leaves the `i64` range.
pub fn sum_checked(v: &Vec<i64>) -> (r: Option<i64>)
    ensures
        opt_int(r) == checked_sum(v@.map_values(|x: i64| x as int)),
{
    let ghost s = v@.map_values(|x: i64| x as int);
    let mut total: i64 = 0;
    let mut i: usize = 0;
    while i < v.len()
        invariant
            i <= v@.len(),
            s == v@.map_values(|x: i64| x as int),
            checked_sum(s.take(i as int)) == Some(total as int),
        decreases v@.len() - i,
    {
        proof {
            assert(s.take(i + 1).drop_last() == s.take(i as int));
        }
        match total.checked_add(v[i]) {
            Some(t) => total = t,
            None => {
                proof {
                    assert(checked_sum(s.take(i + 1)) is None);
                    lemma_checked_sum_none_extends(s, i + 1);
                    assert(s.take(s.len() as int) == s);
                }
                return None;
            },
        }
        i = i + 1;
    }
    proof {
        assert(s.take(s.len() as int) == s);
    }
    Some(total)
}

/// A term outside the `i64` range fails the running total.
pub proof fn lemma_checked_sum_unfit_term(s: Seq<int>, k: int)
    requires
        0 <= k < s.len(),
        !fits_i64(s[k]),
    ensures
        checked_sum(s) is None,
{
    assert(s.take(k + 1).drop_last() == s.take(k));
    assert(s.take(k + 1).last() == s[k]);
    lemma_checked_sum_none_extends(s, k + 1);
}

/// Once a running total has left the range, it stays failed.
pub proof fn lemma_checked_sum_none_extends(s: Seq<int>, i: int)
    requires
        0 <= i <= s.len(),
        checked_sum(s.take(i)) is None,
    ensures
        checked_sum(s) is None,
    decreases s.len() - i,
{
    if i < s.len() {
        assert(s.take(i + 1).drop_last() == s.take(i));
        lemma_checked_sum_none_extends(s, i + 1);
    } else {
        assert(s.take(i) == s);
    }
}

} // verus!
