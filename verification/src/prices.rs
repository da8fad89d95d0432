//! Parsing of the provider's decimal price text into fixed-point
//! integers. A price travels as a `u64` count of ten-thousandths of a
//! currency unit, so downstream arithmetic is exact.

use vstd::prelude::*;
use crate::dates::digit_of;
use crate::dates::digit_val;
use crate::dates::is_digit;

verus! {

/// How many fixed-point units make one currency unit.
pub const PRICE_SCALE: u64 = 10000;

/// Index of the first `'.'` in `s`, or `s.len()` when there is none.
pub open spec fn dot_pos(s: Seq<char>) -> int
    decreases s.len(),
{
    if s.len() == 0 {
        0
    } else if s[0] == '.' {
        0
    } else {
        1 + dot_pos(s.drop_first())
    }
}

pub open spec fn all_digits(s: Seq<char>) -> bool {
    forall|i: int| 0 <= i < s.len() ==> is_digit(#[trigger] s[i])
}

/// Value of a digit string read left to right.
pub open spec fn digits_val(s: Seq<char>) -> int
    decreases s.len(),
{
    if s.len() == 0 {
        0
    } else {
        digits_val(s.drop_last()) * 10 + digit_val(s.last())
    }
}

pub open spec fn pow10(n: nat) -> int
    decreases n,
{
    if n == 0 {
        1
    } else {
        10 * pow10((n - 1) as nat)
    }
}

/// The shape of a price text: one to fifteen integer digits, then
/// optionally a decimal point and one to four fraction digits. Wide
/// enough for any quoted price, and every such text has an exact
/// fixed-point value in range.
pub open spec fn is_price_text(s: Seq<char>) -> bool {
    let k = dot_pos(s);
    &&& 1 <= k <= 15
    &&& all_digits(s.take(k))
    &&& (k == s.len() || (k + 2 <= s.len() && s.len() <= k + 5 && all_digits(s.skip(k + 1))))
}

/// The value a well-shaped price text denotes, in `PRICE_SCALE`-ths of
/// a unit.
pub open spec fn price_units(s: Seq<char>) -> int {
    let k = dot_pos(s);
    if k == s.len() {
        digits_val(s) * 10000
    } else {
        digits_val(s.take(k)) * 10000 + digits_val(s.skip(k + 1)) * pow10(
            (4 - (s.len() - k - 1)) as nat,
        )
    }
}

proof fn lemma_dot_pos(s: Seq<char>)
    ensures
        0 <= dot_pos(s) <= s.len(),
        dot_pos(s) < s.len() ==> s[dot_pos(s)] == '.',
        forall|j: int| 0 <= j < dot_pos(s) ==> s[j] != '.',
    decreases s.len(),
{
    if s.len() == 0 {
    } else if s[0] == '.' {
    } else {
        lemma_dot_pos(s.drop_first());
        assert(dot_pos(s) == 1 + dot_pos(s.drop_first()));
        if dot_pos(s) < s.len() {
            assert(s[dot_pos(s)] == s.drop_first()[dot_pos(s.drop_first())]);
        }
        assert forall|j: int| 0 <= j < dot_pos(s) implies s[j] != '.' by {
            if j > 0 {
                assert(s.drop_first()[j - 1] == s[j]);
            }
        }
    }
}

/// A string of `n` digits denotes a value below `10^n`.
proof fn lemma_digits_val_bound(s: Seq<char>)
    requires
        all_digits(s),
    ensures
        0 <= digits_val(s) < pow10(s.len() as nat),
    decreases s.len(),
{
    if s.len() == 0 {
    } else {
        assert(all_digits(s.drop_last())) by {
            assert(forall|i: int| 0 <= i < s.len() - 1 ==> s.drop_last()[i] == #[trigger] s[i]);
        }
        lemma_digits_val_bound(s.drop_last());
        assert(is_digit(s.last()));
        assert(pow10(s.len() as nat) == 10 * pow10((s.len() - 1) as nat));
    }
}

proof fn lemma_pow10_vals()
    ensures
        pow10(0) == 1,
        pow10(1) == 10,
        pow10(2) == 100,
        pow10(3) == 1000,
        pow10(4) == 10000,
        pow10(15) == 0x38d7ea4c68000,
{
    reveal_with_fuel(pow10, 17);
}

/// Parses a decimal price text. Returns `Some` exactly on well-shaped
/// texts, and then the exact value in `PRICE_SCALE`-ths of a unit.
pub fn parse_price(s: &str) -> (r: Option<u64>)
    ensures
        r is Some <==> is_price_text(s@),
        is_price_text(s@) ==> (r matches Some(u) && u == price_units(s@)),
{
    let n = s.unicode_len();
    let mut k: usize = 0;
    while k < n && s.get_char(k) != '.'
        invariant
            n == s@.len(),
            k <= n,
            forall|j: int| 0 <= j < k ==> s@[j] != '.',
        decreases n - k,
    {
        k = k + 1;
    }
    proof {
        lemma_dot_pos(s@);
        if k < n {
            assert(dot_pos(s@) == k);
        } else {
            assert(dot_pos(s@) == n);
        }
        lemma_pow10_vals();
    }
    if k < 1 || k > 15 {
        return None;
    }
    let mut acc: u64 = 0;
    let mut j: usize = 0;
    while j < k
        invariant
            j <= k <= 15,
            1 <= k <= n == s@.len(),
            dot_pos(s@) == k,
            all_digits(s@.take(j as int)),
            acc == digits_val(s@.take(j as int)),
        decreases k - j,
    {
        proof {
            lemma_digits_val_bound(s@.take(j as int));
            lemma_pow10_vals();
            lemma_pow10_increases(j as nat, 15);
        }
        let d = match digit_of(s.get_char(j)) {
            Some(d) => d,
            None => {
                proof {
                    assert(s@.take(dot_pos(s@))[j as int] == s@[j as int]);
                }
                return None;
            },
        };
        acc = acc * 10 + (d as u64);
        proof {
            assert(s@.take(j + 1 as int).drop_last() =~= s@.take(j as int));
            assert(s@.take(j + 1 as int).last() == s@[j as int]);
            assert(forall|i: int|
                0 <= i < j + 1 ==> s@.take(j + 1 as int)[i] == #[trigger] s@[i]);
        }
        j = j + 1;
    }
    proof {
        assert(s@.take(k as int) =~= s@.take(j as int));
        lemma_digits_val_bound(s@.take(k as int));
        lemma_pow10_vals();
        lemma_pow10_increases(k as nat, 15);
    }
    if k == n {
        proof {
            assert(s@.take(n as int) =~= s@);
        }
        return Some(acc * 10000);
    }
    if n < k + 2 || n > k + 5 {
        return None;
    }
    let mut frac: u64 = 0;
    let mut j2: usize = k + 1;
    while j2 < n
        invariant
            k + 1 <= j2 <= n == s@.len(),
            n <= k + 5,
            dot_pos(s@) == k,
            all_digits(s@.subrange(k + 1, j2 as int)),
            frac == digits_val(s@.subrange(k + 1, j2 as int)),
            frac < pow10((j2 - k - 1) as nat),
        decreases n - j2,
    {
        proof {
            lemma_pow10_vals();
        }
        let d = match digit_of(s.get_char(j2)) {
            Some(d) => d,
            None => {
                proof {
                    assert(s@.skip(dot_pos(s@) + 1)[j2 - k - 1] == s@[j2 as int]);
                }
                return None;
            },
        };
        frac = frac * 10 + (d as u64);
        proof {
            assert(s@.subrange(k + 1, j2 + 1).drop_last() =~= s@.subrange(k + 1, j2 as int));
            assert(s@.subrange(k + 1, j2 + 1).last() == s@[j2 as int]);
            assert(forall|i: int|
                0 <= i < j2 + 1 - k - 1 ==> s@.subrange(k + 1, j2 + 1)[i] == #[trigger] s@[i + k
                    + 1]);
            lemma_digits_val_bound(s@.subrange(k + 1, j2 + 1));
        }
        j2 = j2 + 1;
    }
    let flen = n - k - 1;
    proof {
        assert(s@.subrange(k + 1, n as int) =~= s@.skip(k + 1));
        lemma_pow10_vals();
    }
    let scaled: u64 = if flen == 1 {
        frac * 1000
    } else if flen == 2 {
        frac * 100
    } else if flen == 3 {
        frac * 10
    } else {
        frac
    };
    Some(acc * 10000 + scaled)
}

/// `10^a <= 10^b` when `a <= b`.
proof fn lemma_pow10_increases(a: nat, b: nat)
    requires
        a <= b,
    ensures
        pow10(a) <= pow10(b),
    decreases b,
{
    if a < b {
        lemma_pow10_increases(a, (b - 1) as nat);
        assert(pow10(b) == 10 * pow10((b - 1) as nat));
        assert(pow10((b - 1) as nat) >= 1) by {
            lemma_pow10_positive((b - 1) as nat);
        }
    }
}

/// `10^n` is positive.
proof fn lemma_pow10_positive(n: nat)
    ensures
        pow10(n) >= 1,
    decreases n,
{
    if n > 0 {
        lemma_pow10_positive((n - 1) as nat);
    }
}

} // verus!
