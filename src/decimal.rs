use vstd::prelude::*;

verus! {

/// ASCII code of the digit `0`.
pub const ZERO: u8 = 48;

pub open spec fn is_digit(b: u8) -> bool {
    48 <= b <= 57
}

pub open spec fn all_digits(s: Seq<u8>) -> bool {
    forall|i: int| 0 <= i < s.len() ==> is_digit(#[trigger] s[i])
}

/// The shortest decimal ASCII rendering of `n`.
pub open spec fn decimal(n: nat) -> Seq<u8>
    decreases n,
{
    if n < 10 {
        seq![(48 + n) as u8]
    } else {
        decimal(n / 10).push((48 + n % 10) as u8)
    }
}

/// The number that a string of decimal digits denotes (leading zeros allowed).
pub open spec fn digits_value(s: Seq<u8>) -> nat
    decreases s.len(),
{
    if s.len() == 0 {
        0
    } else {
        digits_value(s.drop_last()) * 10 + (s.last() - 48) as nat
    }
}

pub proof fn lemma_decimal_digits(n: nat)
    ensures
        all_digits(decimal(n)),
        decimal(n).len() >= 1,
        digits_value(decimal(n)) == n,
    decreases n,
{
    let s = decimal(n);
    if n >= 10 {
        lemma_decimal_digits(n / 10);
        assert(s.drop_last() == decimal(n / 10));
        assert(((48 + n % 10) as u8 - 48) as nat == n % 10);
        assert(s.last() == (48 + n % 10) as u8);
        assert(digits_value(decimal(n / 10)) * 10 + n % 10 == n) by (nonlinear_arith)
            requires
                digits_value(decimal(n / 10)) == n / 10,
        ;
    } else {
        assert(s.drop_last() == Seq::<u8>::empty());
        assert(digits_value(Seq::<u8>::empty()) == 0);
        assert(s.last() == (48 + n) as u8);
    }
}

/// Each digit appended to a prefix can only keep or raise its value.
pub proof fn lemma_digits_value_prefix(s: Seq<u8>, i: int)
    requires
        0 <= i <= s.len(),
        all_digits(s),
    ensures
        digits_value(s.take(i)) <= digits_value(s),
    decreases s.len() - i,
{
    if i < s.len() {
        lemma_digits_value_prefix(s, i + 1);
        assert(s.take(i + 1).drop_last() == s.take(i));
        assert(is_digit(s[i]));
    } else {
        assert(s.take(i) == s);
    }
}

/// Renders `n` in decimal ASCII.
pub fn decimal_bytes(n: usize) -> (r: Vec<u8>)
    ensures
        r@ == decimal(n as nat),
    decreases n,
{
    if n < 10 {
        vec![ZERO + n as u8]
    } else {
        let mut v = decimal_bytes(n / 10);
        v.push(ZERO + (n % 10) as u8);
        v
    }
}

/// Reads the decimal number written in `s[start..end]`; `None` when that range
/// is empty, holds a byte that is not a digit, or denotes a number above
/// `usize::MAX`.
pub fn parse_decimal(s: &Vec<u8>, start: usize, end: usize) -> (r: Option<usize>)
    requires
        start <= end <= s@.len(),
    ensures
        ({
            let t = s@.subrange(start as int, end as int);
            match r {
                Some(v) => t.len() > 0 && all_digits(t) && v as nat == digits_value(t),
                None => !(t.len() > 0 && all_digits(t) && digits_value(t) <= usize::MAX),
            }
        }),
{
    let ghost t = s@.subrange(start as int, end as int);
    if start == end {
        return None;
    }
    let mut i: usize = start;
    while i < end
        invariant
            start <= i <= end <= s@.len(),
            forall|j: int| start <= j < i ==> is_digit(#[trigger] s@[j]),
            t == s@.subrange(start as int, end as int),
        decreases end - i,
    {
        if s[i] < ZERO || s[i] > ZERO + 9 {
            assert(!is_digit(t[i - start]));
            return None;
        }
        i = i + 1;
    }
    assert(all_digits(t));
    let mut acc: usize = 0;
    let mut k: usize = start;
    while k < end
        invariant
            start <= k <= end <= s@.len(),
            t == s@.subrange(start as int, end as int),
            all_digits(t),
            acc as nat == digits_value(t.take(k - start)),
        decreases end - k,
    {
        assert(t[k - start] == s@[k as int]);
        let d = (s[k] - ZERO) as usize;
        assert(t.take(k + 1 - start).drop_last() == t.take(k - start));
        assert(t.take(k + 1 - start).last() == s@[k as int]);
        if acc > (usize::MAX - d) / 10 {
            proof {
                assert(digits_value(t.take(k + 1 - start)) > usize::MAX) by (nonlinear_arith)
                    requires
                        acc > (usize::MAX - d) / 10,
                        d <= 9,
                        digits_value(t.take(k + 1 - start)) == acc * 10 + d,
                ;
                lemma_digits_value_prefix(t, k + 1 - start);
            }
            return None;
        }
        acc = acc * 10 + d;
        k = k + 1;
    }
    assert(t.take(end - start) == t);
    Some(acc)
}

} // verus!
