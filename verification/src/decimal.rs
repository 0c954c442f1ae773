//! Decimal numbers as written in specs (`[0-9]+ ("." [0-9]+)?`), rounded
//! half up to six decimal places.

use crate::text::{find, find_first, lemma_find_first_bounds, lemma_find_first_sub};
use vstd::prelude::*;

verus! {

/// A non-negative decimal number in millionths: the value is
/// `micros / 1_000_000`.
#[derive(Clone, Copy, Debug, PartialEq, Eq, Structural)]
pub struct Decimal {
    pub micros: u64,
}

pub open spec fn is_digit(c: char) -> bool {
    '0' <= c && c <= '9'
}

pub open spec fn all_digits(s: Seq<char>) -> bool {
    forall|i: int| 0 <= i < s.len() ==> is_digit(#[trigger] s[i])
}

/// The value of a string of decimal digits.
pub open spec fn digits_value(s: Seq<char>) -> int
    decreases s.len(),
{
    if s.len() == 0 {
        0
    } else {
        digits_value(s.drop_last()) * 10 + (s.last() as int - '0' as int)
    }
}

/// A fraction's value in millionths, rounded half up: the first six
/// digits (padded with zeros), plus one when the seventh digit is 5 or more.
pub open spec fn fraction_micros(f: Seq<char>) -> int {
    let base = if f.len() >= 6 {
        digits_value(f.take(6))
    } else {
        digits_value(f + Seq::new((6 - f.len()) as nat, |i: int| '0'))
    };
    if f.len() > 6 && f[6] >= '5' {
        base + 1
    } else {
        base
    }
}

/// The value in millionths of a decimal written `[0-9]+ ("." [0-9]+)?`.
pub open spec fn decimal_micros(s: Seq<char>) -> Option<int> {
    match find_first(s, seq!['.'], 0, s.len() as int) {
        None => if s.len() > 0 && all_digits(s) {
            Some(digits_value(s) * 1_000_000)
        } else {
            None
        },
        Some(d) => {
            let ip = s.subrange(0, d);
            let fp = s.subrange(d + 1, s.len() as int);
            if ip.len() > 0 && fp.len() > 0 && all_digits(ip) && all_digits(fp) {
                Some(digits_value(ip) * 1_000_000 + fraction_micros(fp))
            } else {
                None
            }
        },
    }
}

proof fn lemma_digits_value_monotone(s: Seq<char>, i: int)
    requires
        0 <= i <= s.len(),
        all_digits(s),
    ensures
        0 <= digits_value(s.take(i)) <= digits_value(s),
    decreases s.len() - i,
{
    if i < s.len() {
        lemma_digits_value_monotone(s, i + 1);
        assert(s.take(i + 1).drop_last() =~= s.take(i));
        assert(is_digit(s[i]));
    } else {
        assert(s.take(i) =~= s);
        lemma_digits_nonneg(s);
    }
}

proof fn lemma_digits_nonneg(s: Seq<char>)
    requires
        all_digits(s),
    ensures
        digits_value(s) >= 0,
    decreases s.len(),
{
    if s.len() > 0 {
        assert(is_digit(s.last()));
        lemma_digits_nonneg(s.drop_last());
    }
}

pub open spec fn pow10(n: nat) -> int
    decreases n,
{
    if n == 0 {
        1
    } else {
        10 * pow10((n - 1) as nat)
    }
}

proof fn lemma_digits_bound(s: Seq<char>)
    requires
        all_digits(s),
    ensures
        0 <= digits_value(s) < pow10(s.len()),
    decreases s.len(),
{
    if s.len() > 0 {
        let t = s.drop_last();
        lemma_digits_bound(t);
        assert(is_digit(s.last()));
        let d = s.last() as int - '0' as int;
        let x = digits_value(t);
        let p = pow10(t.len());
        assert(0 <= x * 10 + d < 10 * p) by (nonlinear_arith)
            requires
                0 <= x < p,
                0 <= d <= 9,
        ;
    }
}

proof fn lemma_six_digits(g: Seq<char>)
    requires
        g.len() == 6,
        all_digits(g),
    ensures
        0 <= digits_value(g) < 1_000_000,
{
    lemma_digits_bound(g);
    reveal_with_fuel(pow10, 7);
}

/// The value of the digits `c[lo..hi]`, if it is at most `limit`.
fn digits_up_to(c: &Vec<char>, lo: usize, hi: usize, limit: u64) -> (r: Option<u64>)
    requires
        lo <= hi <= c@.len(),
        all_digits(c@.subrange(lo as int, hi as int)),
    ensures
        match r {
            Some(v) => v == digits_value(c@.subrange(lo as int, hi as int)) && v <= limit,
            None => digits_value(c@.subrange(lo as int, hi as int)) > limit,
        },
{
    let ghost s = c@.subrange(lo as int, hi as int);
    let mut v: u64 = 0;
    let mut i = lo;
    assert(s.take(0) =~= Seq::<char>::empty());
    while i < hi
        invariant
            lo <= i <= hi <= c@.len(),
            s == c@.subrange(lo as int, hi as int),
            all_digits(s),
            v == digits_value(s.take(i - lo)),
            v <= limit,
        decreases hi - i,
    {
        assert(is_digit(s[i - lo]));
        let ch = c[i];
        let d = (ch as u32 - '0' as u32) as u64;
        assert(s.take(i - lo + 1).drop_last() =~= s.take(i - lo));
        assert(s.take(i - lo + 1).last() == c@[i as int]);
        if v > limit / 10 {
            assert(v * 10 + d > limit) by (nonlinear_arith)
                requires
                    v > limit / 10,
                    d >= 0,
            ;
            proof {
                lemma_digits_value_monotone(s, i - lo + 1);
            }
            return None;
        }
        assert(v * 10 <= limit) by (nonlinear_arith)
            requires
                v <= limit / 10,
        ;
        let w = v * 10;
        if d > limit - w {
            proof {
                lemma_digits_value_monotone(s, i - lo + 1);
            }
            return None;
        }
        v = w + d;
        i = i + 1;
    }
    assert(s.take(hi - lo) =~= s);
    Some(v)
}

/// Whether `c[lo..hi]` is all decimal digits.
fn all_digits_in(c: &Vec<char>, lo: usize, hi: usize) -> (r: bool)
    requires
        lo <= hi <= c@.len(),
    ensures
        r == all_digits(c@.subrange(lo as int, hi as int)),
{
    let mut k = lo;
    while k < hi
        invariant
            lo <= k <= hi <= c@.len(),
            forall|j: int| lo <= j < k ==> is_digit(#[trigger] c@[j]),
        decreases hi - k,
    {
        if !(c[k] >= '0' && c[k] <= '9') {
            assert(!is_digit(c@.subrange(lo as int, hi as int)[k - lo]));
            return false;
        }
        k = k + 1;
    }
    assert forall|j: int| 0 <= j < hi - lo implies is_digit(
        #[trigger] c@.subrange(lo as int, hi as int)[j],
    ) by {
        assert(c@.subrange(lo as int, hi as int)[j] == c@[lo + j]);
    }
    true
}

/// The fraction of the digits `c[lo..hi]` in millionths, rounded half up.
fn fraction_of(c: &Vec<char>, lo: usize, hi: usize) -> (r: u64)
    requires
        lo <= hi <= c@.len(),
        all_digits(c@.subrange(lo as int, hi as int)),
    ensures
        r == fraction_micros(c@.subrange(lo as int, hi as int)),
        r <= 1_000_000,
{
    let ghost f = c@.subrange(lo as int, hi as int);
    let ghost g = if f.len() >= 6 {
        f.take(6)
    } else {
        f + Seq::new((6 - f.len()) as nat, |i: int| '0')
    };
    assert(g.len() == 6);
    assert(all_digits(g));
    let mut r: u64 = 0;
    let mut j: usize = 0;
    assert(g.take(0) =~= Seq::<char>::empty());
    while j < 6
        invariant
            j <= 6,
            lo <= hi <= c@.len(),
            f == c@.subrange(lo as int, hi as int),
            g.len() == 6,
            all_digits(g),
            g == (if f.len() >= 6 {
                f.take(6)
            } else {
                f + Seq::new((6 - f.len()) as nat, |i: int| '0')
            }),
            r == digits_value(g.take(j as int)),
        decreases 6 - j,
    {
        let ch = if j < hi - lo {
            c[lo + j]
        } else {
            '0'
        };
        assert(ch == g[j as int]);
        assert(is_digit(g[j as int]));
        proof {
            lemma_digits_bound(g.take(j as int));
            reveal_with_fuel(pow10, 7);
        }
        let d = (ch as u32 - '0' as u32) as u64;
        assert(g.take(j + 1).drop_last() =~= g.take(j as int));
        r = r * 10 + d;
        j = j + 1;
    }
    assert(g.take(6) =~= g);
    proof {
        lemma_six_digits(g);
    }
    if hi - lo > 6 && c[lo + 6] >= '5' {
        assert(f[6] == c@[lo + 6]);
        r + 1
    } else {
        proof {
            if f.len() > 6 {
                assert(f[6] == c@[lo + 6]);
            }
        }
        r
    }
}

/// Reads `c[lo..hi]` as a decimal `[0-9]+ ("." [0-9]+)?`, rounded half up
/// to six decimal places. `None` when the text is not
/// such a decimal, or when its value in millionths does not fit in a `u64`.
pub fn parse_decimal(c: &Vec<char>, lo: usize, hi: usize) -> (r: Option<Decimal>)
    requires
        lo <= hi <= c@.len(),
    ensures
        match r {
            Some(d) => decimal_micros(c@.subrange(lo as int, hi as int)) == Some(d.micros as int),
            None => match decimal_micros(c@.subrange(lo as int, hi as int)) {
                Some(m) => m > u64::MAX,
                None => true,
            },
        },
{
    let ghost s = c@.subrange(lo as int, hi as int);
    let dot = vec!['.'];
    proof {
        lemma_find_first_sub(c@, seq!['.'], lo as int, hi as int, 0, hi - lo);
    }
    assert(dot@ =~= seq!['.']);
    match find(c, &dot, lo, hi) {
        None => {
            if hi == lo || !all_digits_in(c, lo, hi) {
                return None;
            }
            match digits_up_to(c, lo, hi, 18446744073709) {
                None => None,
                Some(v) => Some(Decimal { micros: v * 1_000_000 }),
            }
        },
        Some(d) => {
            proof {
                lemma_find_first_bounds(c@, seq!['.'], lo as int, hi as int);
            }
            assert(s.subrange(0, d - lo) =~= c@.subrange(lo as int, d as int));
            assert(s.subrange(d - lo + 1, s.len() as int) =~= c@.subrange(d + 1, hi as int));
            if d == lo || d + 1 == hi || !all_digits_in(c, lo, d) || !all_digits_in(c, d + 1, hi) {
                return None;
            }
            let fm = fraction_of(c, d + 1, hi);
            match digits_up_to(c, lo, d, 18446744073709) {
                None => None,
                Some(v) => {
                    if v > (u64::MAX - fm) / 1_000_000 {
                        assert(v * 1_000_000 + fm > u64::MAX) by (nonlinear_arith)
                            requires
                                v > (u64::MAX - fm) / 1_000_000,
                                fm <= 1_000_000,
                        ;
                        None
                    } else {
                        assert(v * 1_000_000 + fm <= u64::MAX) by (nonlinear_arith)
                            requires
                                v <= (u64::MAX - fm) / 1_000_000,
                                fm <= 1_000_000,
                        ;
                        Some(Decimal { micros: v * 1_000_000 + fm })
                    }
                },
            }
        },
    }
}

} // verus!
