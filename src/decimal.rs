//! Canonical decimal numbers in ASCII, as written in the header lines of
//! pack and meta files.
use vstd::prelude::*;

verus! {

pub open spec fn is_digit(c: u8) -> bool {
    48 <= c <= 57
}

pub open spec fn digit_of(d: nat) -> u8
    recommends
        d < 10,
{
    (d + 48) as u8
}

/// The canonical decimal spelling of `n`: no sign, no leading zero.
pub open spec fn dec(n: nat) -> Seq<u8>
    decreases n,
{
    if n < 10 {
        seq![digit_of(n)]
    } else {
        dec(n / 10).push(digit_of(n % 10))
    }
}

/// The number that a string of digits spells.
pub open spec fn digits_value(s: Seq<u8>) -> nat
    decreases s.len(),
{
    if s.len() == 0 {
        0
    } else {
        digits_value(s.drop_last()) * 10 + (s.last() - 48) as nat
    }
}

pub open spec fn all_digits(s: Seq<u8>) -> bool {
    forall|i: int| 0 <= i < s.len() ==> is_digit(#[trigger] s[i])
}

/// `s` holds, from `i` on, the canonical spelling of `n`, followed by the
/// end of `s` or by a byte that is no digit.
pub open spec fn dec_at(s: Seq<u8>, i: int, n: nat) -> bool {
    let l = dec(n).len() as int;
    &&& 0 <= i
    &&& i + l <= s.len()
    &&& s.subrange(i, i + l) == dec(n)
    &&& (i + l == s.len() || !is_digit(s[i + l]))
}

pub proof fn lemma_dec_shape(n: nat)
    ensures
        dec(n).len() >= 1,
        all_digits(dec(n)),
        digits_value(dec(n)) == n,
        dec(n)[0] == 48 <==> n == 0,
        n == 0 ==> dec(n) == seq![48u8],
        dec(n).len() <= n + 1,
    decreases n,
{
    if n >= 10 {
        lemma_dec_shape(n / 10);
        let s = dec(n);
        assert(s.drop_last() == dec(n / 10));
        assert(digits_value(s) == digits_value(dec(n / 10)) * 10 + n % 10);
        assert((n / 10) * 10 + n % 10 == n);
    } else {
        assert(dec(n).drop_last() =~= Seq::<u8>::empty());
        assert(digits_value(Seq::<u8>::empty()) == 0);
        assert(dec(n).last() == n + 48);
    }
}

/// A prefix of a digit string spells at most what the whole string does.
pub proof fn lemma_prefix_value(s: Seq<u8>, m: int)
    requires
        all_digits(s),
        0 <= m <= s.len(),
    ensures
        digits_value(s.subrange(0, m)) <= digits_value(s),
    decreases s.len(),
{
    if m < s.len() {
        assert(all_digits(s.drop_last()));
        lemma_prefix_value(s.drop_last(), m);
        assert(s.drop_last().subrange(0, m) == s.subrange(0, m));
    } else {
        assert(s.subrange(0, m) == s);
    }
}

/// Appends the canonical decimal spelling of `n` to `out`.
pub fn write_dec(out: &mut Vec<u8>, n: u64)
    ensures
        final(out)@ == old(out)@ + dec(n as nat),
    decreases n,
{
    if n < 10 {
        out.push((n as u8) + 48);
        assert(old(out)@ + dec(n as nat) =~= old(out)@.push(digit_of(n as nat)));
    } else {
        write_dec(out, n / 10);
        out.push(((n % 10) as u8) + 48);
        assert(old(out)@ + dec(n as nat) =~= old(out)@ + dec((n / 10) as nat) + seq![digit_of((n % 10) as nat)]);
    }
}

/// Reads the canonical decimal number that starts at `i` and ends before
/// `end` or before the first byte that is no digit.
///
/// It fails where no digit stands at `i`, where the number has a leading
/// zero, and where its value exceeds `usize::MAX`; it succeeds wherever a
/// canonical number that fits stands there.
pub fn parse_dec(s: &[u8], i: usize, end: usize) -> (r: Option<(usize, usize)>)
    requires
        i <= end <= s@.len(),
    ensures
        r matches Some((n, j)) ==> i < j <= end && dec_at(s@.subrange(0, end as int), i as int, n as nat)
            && j == i + dec(n as nat).len(),
        (exists|n: nat| n <= usize::MAX && #[trigger] dec_at(s@.subrange(0, end as int), i as int, n))
            ==> r is Some,
{
    let ghost t = s@.subrange(0, end as int);
    if i == end || !(48 <= s[i] && s[i] <= 57) {
        proof {
            if exists|n: nat| n <= usize::MAX && #[trigger] dec_at(t, i as int, n) {
                let n = choose|n: nat| n <= usize::MAX && #[trigger] dec_at(t, i as int, n);
                lemma_dec_shape(n);
                assert(t.subrange(i as int, i + dec(n).len())[0] == t[i as int]);
            }
        }
        return None;
    }
    if s[i] == 48 {
        proof {
            lemma_dec_shape(0);
            assert(t.subrange(i as int, i + 1) =~= seq![48u8]);
            if i + 1 < end && is_digit(t[i + 1]) {
                if exists|n: nat| n <= usize::MAX && #[trigger] dec_at(t, i as int, n) {
                    let n = choose|n: nat| n <= usize::MAX && #[trigger] dec_at(t, i as int, n);
                    lemma_dec_shape(n);
                    assert(t.subrange(i as int, i + dec(n).len())[0] == t[i as int]);
                    assert(n == 0);
                }
            }
        }
        if i + 1 < end && 48 <= s[i + 1] && s[i + 1] <= 57 {
            return None;
        }
        return Some((0, i + 1));
    }
    let ghost target: Option<nat> = if exists|n: nat| n <= usize::MAX && #[trigger] dec_at(t, i as int, n) {
        Some(choose|n: nat| n <= usize::MAX && #[trigger] dec_at(t, i as int, n))
    } else {
        None
    };
    proof {
        if let Some(n) = target {
            lemma_dec_shape(n);
            assert(t.subrange(i as int, i + dec(n).len())[0] == t[i as int]);
        }
        assert(t.subrange(i as int, i + 1) =~= seq![s[i as int]]);
        assert(seq![s[i as int]].drop_last() =~= Seq::<u8>::empty());
    }
    let mut v: usize = (s[i] - 48) as usize;
    let mut k: usize = i + 1;
    while k < end && 48 <= s[k] && s[k] <= 57
        invariant
            i < k <= end <= s@.len(),
            t == s@.subrange(0, end as int),
            t.subrange(i as int, k as int) == dec(v as nat),
            v >= 1,
            (exists|n: nat| n <= usize::MAX && #[trigger] dec_at(t, i as int, n)) ==> target is Some,
            target matches Some(n) ==> k <= i + dec(n).len() && t.subrange(i as int, k as int)
                == dec(n).subrange(0, k - i) && n <= usize::MAX && dec_at(t, i as int, n)
                && all_digits(dec(n)),
        decreases end - k,
    {
        let d = (s[k] - 48) as usize;
        proof {
            if let Some(n) = target {
                if k == i + dec(n).len() {
                    assert(is_digit(t[k as int]));
                    assert(false);
                }
                let ext = t.subrange(i as int, k + 1);
                assert(ext == dec(n).subrange(0, k + 1 - i));
                assert(ext.drop_last() == t.subrange(i as int, k as int));
                lemma_dec_shape(v as nat);
                lemma_dec_shape(n);
                lemma_prefix_value(dec(n), k + 1 - i);
                assert(ext.last() == s[k as int]);
                assert(digits_value(ext) == digits_value(ext.drop_last()) * 10 + d);
                assert(digits_value(ext) == v * 10 + d);
                assert(v * 10 + d <= n);
            }
            assert(target matches Some(n) ==> v * 10 + d <= n);
        }
        if v > (usize::MAX - d) / 10 {
            proof {
                assert(v * 10 + d > usize::MAX) by (nonlinear_arith)
                    requires v > (usize::MAX - d) / 10, d < 10;
                assert(target is None);
                assert(!(exists|n: nat| n <= usize::MAX && #[trigger] dec_at(t, i as int, n)));
            }
            return None;
        }
        let ghost old_v = v;
        v = v * 10 + d;
        proof {
            let ext = t.subrange(i as int, k + 1);
            assert(ext =~= t.subrange(i as int, k as int).push(s[k as int]));
            assert(v / 10 == old_v && v % 10 == d) by (nonlinear_arith)
                requires v == old_v * 10 + d, d < 10;
            assert(v >= 10) by (nonlinear_arith)
                requires v == old_v * 10 + d, old_v >= 1;
            assert(dec(v as nat) == dec(old_v as nat).push(digit_of(d as nat)));
            if let Some(n) = target {
                assert(ext == dec(n).subrange(0, k + 1 - i));
            }
        }
        k = k + 1;
    }
    proof {
        lemma_dec_shape(v as nat);
        if let Some(n) = target {
            if k < i + dec(n).len() {
                assert(t.subrange(i as int, i + dec(n).len())[k - i] == t[k as int]);
                assert(is_digit(dec(n)[k - i]));
                assert(false);
            }
            assert(dec(n).subrange(0, k - i) == dec(n));
        }
    }
    Some((v, k))
}

} // verus!
