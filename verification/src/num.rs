//! Decimal integer literals of the document grammar: the numeric value of a
//! digit run, rendering a value back to its canonical digits, and the
//! executable conversions between the two.

use vstd::prelude::*;

use crate::bytes::is_digit;

verus! {

/// The numeric value of a run of decimal digits, most significant first.
pub open spec fn digits_val(s: Seq<u8>) -> int
    decreases s.len(),
{
    if s.len() == 0 {
        0
    } else {
        digits_val(s.drop_last()) * 10 + (s.last() - 48)
    }
}

/// The canonical decimal digits of a non-negative value: no leading zeros,
/// one digit for zero itself.
pub open spec fn nat_digits(n: int) -> Seq<u8>
    decreases n,
{
    if n < 10 {
        seq![(48 + if n >= 0 { n } else { 0 }) as u8]
    } else {
        nat_digits(n / 10).push((48 + n % 10) as u8)
    }
}

/// The canonical decimal text of an integer: a minus sign for negative
/// values, then the digits of the magnitude.
pub open spec fn int_text(v: int) -> Seq<u8> {
    if v < 0 {
        seq![45u8] + nat_digits(-v)
    } else {
        nat_digits(v)
    }
}

/// Canonical digits are digits, there is at least one, and their value is
/// the number they were rendered from.
pub proof fn lemma_nat_digits(n: int)
    requires
        n >= 0,
    ensures
        nat_digits(n).len() >= 1,
        forall|i: int| 0 <= i < nat_digits(n).len() ==> is_digit(nat_digits(n)[i]),
        digits_val(nat_digits(n)) == n,
    decreases n,
{
    if n < 10 {
        assert(digits_val(nat_digits(n)) == digits_val(nat_digits(n).drop_last()) * 10 + n);
        assert(nat_digits(n).drop_last() =~= Seq::<u8>::empty());
    } else {
        lemma_nat_digits(n / 10);
        assert(nat_digits(n).drop_last() =~= nat_digits(n / 10));
    }
}

/// Ten to the `k`-th power.
pub open spec fn pow10(k: nat) -> int
    decreases k,
{
    if k == 0 {
        1
    } else {
        10 * pow10((k - 1) as nat)
    }
}

/// A value below `pow10(k)` renders to at most `k` digits.
pub proof fn lemma_nat_digits_len(n: int, k: nat)
    requires
        0 <= n < pow10(k),
        k >= 1,
    ensures
        nat_digits(n).len() <= k,
    decreases n,
{
    if n >= 10 {
        assert(pow10(k) == 10 * pow10((k - 1) as nat));
        lemma_nat_digits_len(n / 10, (k - 1) as nat);
    }
}

/// Render a non-negative 64-bit magnitude, held in a `u64`, to its
/// canonical decimal digits.
fn render_u64(n: u64) -> (r: Vec<u8>)
    ensures
        r@ == nat_digits(n as int),
{
    let mut rev: Vec<u8> = Vec::new();
    let mut m: u64 = n;
    // digits of m, least significant first, such that the whole number is
    // recovered by putting them before the digits already produced
    while m >= 10
        invariant
            nat_digits(n as int) =~= nat_digits(m as int) + rev@.reverse(),
        decreases m,
    {
        let d: u8 = 48 + (m % 10) as u8;
        proof {
            assert(nat_digits(m as int) =~= nat_digits(m as int / 10).push(d));
            assert((rev@.push(d)).reverse() =~= seq![d] + rev@.reverse());
            assert(nat_digits(m as int / 10) + ((rev@.push(d)).reverse()) =~= (nat_digits(m as int)
                + rev@.reverse()));
        }
        rev.push(d);
        m = m / 10;
    }
    let mut out: Vec<u8> = Vec::new();
    out.push(48 + (m as u8));
    proof {
        assert(out@ =~= nat_digits(m as int));
    }
    let mut i: usize = rev.len();
    while i > 0
        invariant
            i <= rev@.len(),
            out@ =~= nat_digits(m as int) + rev@.subrange(i as int, rev@.len() as int).reverse(),
        decreases i,
    {
        i = i - 1;
        proof {
            assert(rev@.subrange(i as int, rev@.len() as int).reverse() =~= rev@.subrange(
                i + 1,
                rev@.len() as int,
            ).reverse().push(rev@[i as int]));
        }
        out.push(rev[i]);
    }
    proof {
        assert(rev@.subrange(0, rev@.len() as int) =~= rev@);
    }
    out
}

/// Render a signed 64-bit value to its canonical decimal text.
pub fn render_i64(v: i64) -> (r: Vec<u8>)
    ensures
        r@ == int_text(v as int),
{
    if v >= 0 {
        render_u64(v as u64)
    } else {
        // compute the magnitude without overflowing at i64::MIN
        let m: u64 = ((-(v + 1)) as u64) + 1;
        proof {
            assert(m == -(v as int));
        }
        let digits = render_u64(m);
        let mut out: Vec<u8> = Vec::new();
        out.push(45);
        let mut i: usize = 0;
        while i < digits.len()
            invariant
                i <= digits@.len(),
                out@ =~= seq![45u8] + digits@.subrange(0, i as int),
            decreases digits@.len() - i,
        {
            proof {
                assert(digits@.subrange(0, i + 1) =~= digits@.subrange(0, i as int).push(
                    digits@[i as int],
                ));
            }
            out.push(digits[i]);
            i = i + 1;
        }
        proof {
            assert(digits@.subrange(0, digits@.len() as int) =~= digits@);
        }
        out
    }
}

/// The numeric value of the digits `s[from..to]`, computed executably.
///
/// The run must hold at most 19 digits, so the accumulator cannot overflow.
pub fn digits_to_u64(s: &[u8], from: usize, to: usize) -> (r: u64)
    requires
        from <= to <= s@.len(),
        to - from <= 19,
        forall|j: int| from <= j < to ==> is_digit(s@[j]),
    ensures
        r == digits_val(s@.subrange(from as int, to as int)),
{
    let mut acc: u64 = 0;
    let mut i: usize = from;
    proof {
        lemma_digits_val_bound(s@.subrange(from as int, from as int), 19);
    }
    while i < to
        invariant
            from <= i <= to <= s@.len(),
            to - from <= 19,
            forall|j: int| from <= j < to ==> is_digit(s@[j]),
            acc == digits_val(s@.subrange(from as int, i as int)),
            acc < pow10((i - from) as nat),
        decreases to - i,
    {
        proof {
            assert(s@.subrange(from as int, i + 1) =~= s@.subrange(from as int, i as int).push(
                s@[i as int],
            ));
            assert(s@.subrange(from as int, i + 1).drop_last() =~= s@.subrange(
                from as int,
                i as int,
            ));
            assert(pow10((i + 1 - from) as nat) == 10 * pow10((i - from) as nat));
            lemma_pow10_le_19((i + 1 - from) as nat);
        }
        acc = acc * 10 + ((s[i] - 48) as u64);
        i = i + 1;
    }
    acc
}

/// The value of at most `k` digits is below `pow10(k)`.
pub proof fn lemma_digits_val_bound(s: Seq<u8>, k: nat)
    requires
        s.len() <= k,
        forall|i: int| 0 <= i < s.len() ==> is_digit(s[i]),
    ensures
        0 <= digits_val(s) < pow10(s.len()) <= pow10(k),
    decreases s.len(), k,
{
    lemma_pow10_mono(s.len(), k);
    if s.len() > 0 {
        lemma_digits_val_bound(s.drop_last(), (s.len() - 1) as nat);
    }
}

/// The value of a digit run is never negative.
pub proof fn lemma_digits_val_bound_any(s: Seq<u8>)
    requires
        forall|i: int| 0 <= i < s.len() ==> is_digit(s[i]),
    ensures
        digits_val(s) >= 0,
{
    lemma_digits_val_bound(s, s.len());
}

/// `pow10` grows with its exponent.
pub proof fn lemma_pow10_mono(a: nat, b: nat)
    requires
        a <= b,
    ensures
        0 < pow10(a) <= pow10(b),
    decreases b,
{
    if a == b {
        lemma_pow10_pos(a);
    } else {
        lemma_pow10_mono(a, (b - 1) as nat);
    }
}

/// `pow10` is positive.
pub proof fn lemma_pow10_pos(k: nat)
    ensures
        pow10(k) > 0,
    decreases k,
{
    if k > 0 {
        lemma_pow10_pos((k - 1) as nat);
    }
}

/// The value of ten to the nineteenth power, written out.
pub proof fn lemma_pow10_19()
    ensures
        pow10(19) == 10000000000000000000,
{
    assert(pow10(19) == 10000000000000000000) by {
        reveal_with_fuel(pow10, 21);
    }
}

/// `pow10` of at most 19 fits in a `u64` accumulator step.
proof fn lemma_pow10_le_19(k: nat)
    requires
        k <= 19,
    ensures
        pow10(k) <= 10000000000000000000,
{
    lemma_pow10_mono(k, 19);
    lemma_pow10_19();
}

} // verus!
