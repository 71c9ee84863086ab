//! Rendering and parsing of unsigned integers as ASCII digit strings.

use vstd::prelude::*;

verus! {

/// The ASCII digits of `n` in base `base`, most significant first, with no
/// leading zeros (zero itself is the single digit `0`).
pub open spec fn digits_text(n: nat, base: nat) -> Seq<u8>
    decreases n,
    via digits_text_decreases
{
    if n < base || base < 2 {
        seq![(48 + n) as u8]
    } else {
        digits_text(n / base, base).push((48 + n % base) as u8)
    }
}

#[via_fn]
proof fn digits_text_decreases(n: nat, base: nat) {
    if !(n < base || base < 2) {
        assert(n / base < n) by (nonlinear_arith)
            requires
                n >= base,
                base >= 2,
        ;
    }
}

/// `c` is an ASCII digit of base `base` (at most ten).
pub open spec fn is_digit(c: u8, base: nat) -> bool {
    48 <= c && (c as nat) < 48 + base
}

pub open spec fn all_digits(s: Seq<u8>, base: nat) -> bool {
    forall|i: int| 0 <= i < s.len() ==> is_digit(#[trigger] s[i], base)
}

/// The number that the digit string `s` denotes in base `base`.
pub open spec fn digits_value(s: Seq<u8>, base: nat) -> nat
    decreases s.len(),
{
    if s.len() == 0 {
        0
    } else {
        digits_value(s.drop_last(), base) * base + (s.last() - 48) as nat
    }
}

/// What parsing `s` as a base-`base` number that fits in a `u64` yields.
pub open spec fn parsed_digits(s: Seq<u8>, base: nat) -> Option<u64> {
    if s.len() > 0 && all_digits(s, base) && digits_value(s, base) <= u64::MAX {
        Some(digits_value(s, base) as u64)
    } else {
        None
    }
}

pub proof fn lemma_digits_text_valid(n: nat, base: nat)
    requires
        2 <= base <= 10,
    ensures
        digits_text(n, base).len() > 0,
        all_digits(digits_text(n, base), base),
        digits_value(digits_text(n, base), base) == n,
    decreases n,
{
    let t = digits_text(n, base);
    if n < base {
        assert(t.drop_last() =~= Seq::<u8>::empty());
        assert(digits_value(t.drop_last(), base) == 0);
        assert(t.last() == (48 + n) as u8);
        assert(digits_value(t, base) == 0 * base + n);
    } else {
        lemma_digits_text_valid(n / base, base);
        let p = digits_text(n / base, base);
        assert(t.drop_last() =~= p);
        assert forall|i: int| 0 <= i < t.len() implies is_digit(#[trigger] t[i], base) by {
            if i < p.len() {
                assert(t[i] == p[i]);
            }
        }
        assert(n == (n / base) * base + n % base) by (nonlinear_arith)
            requires
                base > 0,
        ;
        assert(n % base < base) by (nonlinear_arith)
            requires
                base > 0,
        ;
        assert(t.last() == (48 + n % base) as u8);
        assert(digits_value(t, base) == n / base * base + n % base);
    }
}

proof fn lemma_value_prefix_monotone(s: Seq<u8>, base: nat, j: int, k: int)
    requires
        base >= 1,
        0 <= j <= k <= s.len(),
        all_digits(s, base),
    ensures
        digits_value(s.subrange(0, j), base) <= digits_value(s.subrange(0, k), base),
    decreases k - j,
{
    if j < k {
        lemma_value_prefix_monotone(s, base, j, k - 1);
        let a = s.subrange(0, k);
        assert(a.drop_last() =~= s.subrange(0, k - 1));
        let v = digits_value(s.subrange(0, k - 1), base);
        assert(v <= v * base) by (nonlinear_arith)
            requires
                base >= 1,
        ;
    }
}

/// Renders `n` as ASCII digits in base `base` (octal and decimal are used).
pub fn render_digits(n: u64, base: u64) -> (r: Vec<u8>)
    requires
        2 <= base <= 10,
    ensures
        r@ == digits_text(n as nat, base as nat),
    decreases n,
{
    if n < base {
        let mut v: Vec<u8> = Vec::new();
        v.push((48 + n) as u8);
        v
    } else {
        assert(n / base < n) by (nonlinear_arith)
            requires
                n >= base,
                base >= 2,
        ;
        let mut v = render_digits(n / base, base);
        let d: u64 = n % base;
        v.push((48 + d) as u8);
        v
    }
}

/// Parses the whole of `s` as a base-`base` number; `None` when `s` is empty,
/// holds anything but digits of that base, or denotes a number beyond `u64`.
pub fn parse_digits(s: &[u8], base: u64) -> (r: Option<u64>)
    requires
        2 <= base <= 10,
    ensures
        r == parsed_digits(s@, base as nat),
{
    if s.len() == 0 {
        return None;
    }
    let mut i: usize = 0;
    while i < s.len()
        invariant
            i <= s.len(),
            2 <= base <= 10,
            all_digits(s@.subrange(0, i as int), base as nat),
        decreases s.len() - i,
    {
        if s[i] < 48 || (s[i] as u64) >= 48 + base {
            assert(!is_digit(s@[i as int], base as nat));
            return None;
        }
        assert forall|k: int| 0 <= k < i + 1 implies is_digit(
            #[trigger] s@.subrange(0, i + 1)[k],
            base as nat,
        ) by {
            if k < i {
                assert(s@.subrange(0, i + 1)[k] == s@.subrange(0, i as int)[k]);
            }
        }
        i = i + 1;
    }
    assert(s@.subrange(0, s.len() as int) =~= s@);
    let mut v: u64 = 0;
    let mut i: usize = 0;
    while i < s.len()
        invariant
            i <= s.len(),
            2 <= base <= 10,
            all_digits(s@, base as nat),
            v as nat == digits_value(s@.subrange(0, i as int), base as nat),
        decreases s.len() - i,
    {
        let d: u64 = (s[i] - 48) as u64;
        assert(s@.subrange(0, i + 1).drop_last() =~= s@.subrange(0, i as int));
        let lim: u64 = (u64::MAX - d) / base;
        if v > lim {
            assert(v * base + d > u64::MAX) by (nonlinear_arith)
                requires
                    v > lim,
                    lim == (u64::MAX - d) as int / base as int,
                    base > 0,
                    d <= u64::MAX,
            ;
            proof {
                lemma_value_prefix_monotone(s@, base as nat, i + 1, s.len() as int);
                assert(s@.subrange(0, s.len() as int) =~= s@);
            }
            return None;
        }
        assert(v * base + d <= u64::MAX) by (nonlinear_arith)
            requires
                v <= lim,
                lim == (u64::MAX - d) as int / base as int,
                base > 0,
                d <= u64::MAX,
        ;
        v = v * base + d;
        i = i + 1;
    }
    assert(s@.subrange(0, s.len() as int) =~= s@);
    Some(v)
}

} // verus!
