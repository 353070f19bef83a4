//! Character-level text operations: substituting every occurrence of a
//! pattern, and writing a number in decimal.

use vstd::prelude::*;

verus! {

/// The text `s` with every occurrence of `from` replaced by `to`, scanning from
/// the left and never letting two replaced occurrences overlap.
pub open spec fn replace_all(s: Seq<char>, from: Seq<char>, to: Seq<char>) -> Seq<char>
    decreases s.len(),
{
    if from.len() == 0 || s.len() < from.len() {
        s
    } else if s.take(from.len() as int) == from {
        to + replace_all(s.skip(from.len() as int), from, to)
    } else {
        seq![s[0]] + replace_all(s.drop_first(), from, to)
    }
}

/// The character of a decimal digit.
pub open spec fn digit_char(d: nat) -> char {
    if d == 0 { '0' }
    else if d == 1 { '1' }
    else if d == 2 { '2' }
    else if d == 3 { '3' }
    else if d == 4 { '4' }
    else if d == 5 { '5' }
    else if d == 6 { '6' }
    else if d == 7 { '7' }
    else if d == 8 { '8' }
    else { '9' }
}

/// `n` written in decimal, without leading zeros ("0" for zero).
pub open spec fn decimal(n: nat) -> Seq<char>
    decreases n,
{
    if n < 10 {
        seq![digit_char(n)]
    } else {
        decimal(n / 10) + seq![digit_char(n % 10)]
    }
}

/// Whether `s` holds `pat` at position `i`.
fn matches_at(s: &str, i: usize, pat: &str, pat_len: usize) -> (res: bool)
    requires
        pat_len == pat@.len(),
        i + pat_len <= s@.len(),
        s@.len() <= usize::MAX,
    ensures
        res == (s@.subrange(i as int, i + pat_len) == pat@),
{
    let mut k: usize = 0;
    while k < pat_len
        invariant
            pat_len == pat@.len(),
            i + pat_len <= s@.len(),
            s@.len() <= usize::MAX,
            k <= pat_len,
            forall|j: int| 0 <= j < k ==> s@[i + j] == pat@[j],
        decreases pat_len - k,
    {
        if s.get_char(i + k) != pat.get_char(k) {
            assert(s@.subrange(i as int, i + pat_len)[k as int] != pat@[k as int]);
            return false;
        }
        k = k + 1;
    }
    assert(s@.subrange(i as int, i + pat_len) =~= pat@);
    true
}

/// Unfolds `replace_all` at position `i` of `s`.
proof fn lemma_replace_all_at(s: Seq<char>, from: Seq<char>, to: Seq<char>, i: int)
    requires
        from.len() > 0,
        0 <= i <= s.len(),
    ensures
        i + from.len() > s.len() ==> replace_all(s.skip(i), from, to) == s.skip(i),
        i + from.len() <= s.len() && s.subrange(i, i + from.len()) == from ==> replace_all(
            s.skip(i),
            from,
            to,
        ) == to + replace_all(s.skip(i + from.len()), from, to),
        i + from.len() <= s.len() && s.subrange(i, i + from.len()) != from ==> replace_all(
            s.skip(i),
            from,
            to,
        ) == seq![s[i]] + replace_all(s.skip(i + 1), from, to),
{
    let t = s.skip(i);
    if i + from.len() <= s.len() {
        assert(t.take(from.len() as int) =~= s.subrange(i, i + from.len()));
        assert(t.skip(from.len() as int) =~= s.skip(i + from.len()));
        assert(t.drop_first() =~= s.skip(i + 1));
    }
}

/// Replaces every occurrence of `from` in `s` by `to`, as `str::replace` does.
pub fn replace_str(s: &str, from: &str, to: &str) -> (res: String)
    requires
        from@.len() > 0,
    ensures
        res@ == replace_all(s@, from@, to@),
{
    let n = s.unicode_len();
    let m = from.unicode_len();
    let mut res = String::new();
    let mut start: usize = 0;
    let mut i: usize = 0;
    assert(s@.skip(0) =~= s@);
    while m <= n && i <= n - m
        invariant
            n == s@.len(),
            m == from@.len(),
            m > 0,
            start <= i <= n,
            res@ + s@.subrange(start as int, i as int) + replace_all(s@.skip(i as int), from@, to@)
                == replace_all(s@, from@, to@),
        decreases n - i,
    {
        proof {
            lemma_replace_all_at(s@, from@, to@, i as int);
        }
        if matches_at(s, i, from, m) {
            let ghost old_res = res@;
            let piece = s.substring_char(start, i);
            res.append(piece);
            res.append(to);
            assert(s@.subrange(i as int, i as int) =~= Seq::<char>::empty());
            assert(res@ =~= old_res + s@.subrange(start as int, i as int) + to@);
            i = i + m;
            start = i;
        } else {
            assert(s@.subrange(start as int, i + 1) =~= s@.subrange(start as int, i as int) + seq![
                s@[i as int],
            ]);
            i = i + 1;
        }
    }
    proof {
        lemma_replace_all_at(s@, from@, to@, i as int);
    }
    let rest = s.substring_char(start, n);
    let ghost old_res = res@;
    res.append(rest);
    assert(s@.subrange(start as int, i as int) + s@.skip(i as int) =~= s@.subrange(
        start as int,
        n as int,
    ));
    res
}

/// The text of one decimal digit.
fn digit_str(d: u64) -> (res: &'static str)
    requires
        d < 10,
    ensures
        res@ == seq![digit_char(d as nat)],
{
    let digits = "0123456789";
    proof {
        reveal_strlit("0123456789");
    }
    let res = digits.substring_char(d as usize, (d + 1) as usize);
    assert(res@ =~= seq![digits@[d as int]]);
    res
}

/// Writes `n` in decimal, as `to_string` does for an unsigned integer.
pub fn decimal_string(n: u64) -> (res: String)
    ensures
        res@ == decimal(n as nat),
    decreases n,
{
    if n < 10 {
        let mut res = String::new();
        res.append(digit_str(n));
        assert(res@ =~= decimal(n as nat));
        res
    } else {
        let mut res = decimal_string(n / 10);
        res.append(digit_str(n % 10));
        res
    }
}


/// The number that a text of decimal digits spells, most significant first.
pub open spec fn digits_value(s: Seq<char>) -> int
    decreases s.len(),
{
    if s.len() == 0 {
        0
    } else {
        10 * digits_value(s.drop_last()) + (s.last() as int - '0' as int)
    }
}

/// Each digit character is the character `'0' + d`.
pub proof fn lemma_digit_char(d: nat)
    requires
        d < 10,
    ensures
        digit_char(d) as int == '0' as int + d,
        '0' <= digit_char(d) <= '9',
{
}

/// `decimal(n)` spells `n` in base 10: it is made of the characters `'0'` to
/// `'9'`, it starts with a nonzero digit unless it is `"0"`, and read back as
/// decimal digits it gives `n`.
pub proof fn lemma_decimal_spells(n: nat)
    ensures
        digits_value(decimal(n)) == n,
        decimal(n).len() > 0,
        (decimal(n).len() == 1) == (n < 10),
        forall|i: int| 0 <= i < decimal(n).len() ==> '0' <= #[trigger] decimal(n)[i] <= '9',
        decimal(n).len() > 1 ==> decimal(n)[0] != '0',
    decreases n,
{
    if n < 10 {
        lemma_digit_char(n);
        let s = decimal(n);
        assert(s.drop_last() =~= Seq::<char>::empty());
        assert(digits_value(s.drop_last()) == 0);
    } else {
        lemma_decimal_spells(n / 10);
        lemma_digit_char(n % 10);
        let s = decimal(n);
        let h = decimal(n / 10);
        assert(s.drop_last() =~= h);
        assert(s.last() == digit_char(n % 10));
        assert(n == 10 * (n / 10) + n % 10);
        assert forall|i: int| 0 <= i < s.len() implies '0' <= #[trigger] s[i] <= '9' by {
            if i < h.len() {
                assert(s[i] == h[i]);
            }
        }
        assert(s[0] == h[0]);
        if h.len() == 1 {
            assert(n / 10 < 10);
            lemma_digit_char(n / 10);
            assert(h[0] == digit_char(n / 10));
        }
    }
}

} // verus!
