//! Nonnegative binary floating-point numbers with mantissas of 53 bits. An
//! operation rounds to the nearest such number, and a tie to the one with the
//! even mantissa.

use vstd::arithmetic::div_mod::{lemma_fundamental_div_mod, lemma_fundamental_div_mod_converse};
use vstd::arithmetic::power2::{lemma2_to64, lemma2_to64_rest, lemma_pow2_adds, lemma_pow2_pos,
    lemma_pow2_strictly_increases, lemma_pow2_unfold, pow2};
use vstd::prelude::*;

verus! {

/// `num / den` rounded to a whole number, a tie to the even one.
pub open spec fn half_even(num: nat, den: nat) -> nat {
    let q = num / den;
    let r = num % den;
    if 2 * r > den || (2 * r == den && q % 2 == 1) {
        q + 1
    } else {
        q
    }
}

/// Number of binary digits.
pub open spec fn bit_len(n: nat) -> nat
    decreases n,
{
    if n == 0 {
        0
    } else {
        1 + bit_len(n / 2)
    }
}

/// The exponent of the largest power of two that is at most `num / den`.
pub open spec fn magnitude(num: nat, den: nat) -> int {
    bit_len(num * pow2(bit_len(den)) / den) - 1 - bit_len(den)
}

/// The number `mant * 2^exp`.
pub struct Dyadic {
    pub mant: nat,
    pub exp: int,
}

/// The number with the mantissa brought into its range after rounding up.
pub open spec fn normal(mant: nat, exp: int) -> Dyadic {
    if mant == 0x20_0000_0000_0000 {
        Dyadic { mant: 0x10_0000_0000_0000, exp: exp + 1 }
    } else {
        Dyadic { mant, exp }
    }
}

/// `num / den * 2^x` rounded to 53 binary digits.
pub open spec fn rounded(num: nat, den: nat, x: int) -> Dyadic {
    if num == 0 {
        Dyadic { mant: 0, exp: 0 }
    } else {
        let e = magnitude(num, den) - 52;
        if e <= 0 {
            normal(half_even(num * pow2((-e) as nat), den), e + x)
        } else {
            normal(half_even(num, den * pow2(e as nat)), e + x)
        }
    }
}

/// The rounded sum of two numbers.
pub open spec fn sum(a: Dyadic, b: Dyadic) -> Dyadic {
    let x = if a.exp <= b.exp {
        a.exp
    } else {
        b.exp
    };
    rounded(
        a.mant * pow2((a.exp - x) as nat) + b.mant * pow2((b.exp - x) as nat),
        1,
        x,
    )
}

/// The number times `factor`, rounded to a whole number.
pub open spec fn scaled(f: Dyadic, factor: nat) -> nat {
    half_even(f.num() * factor, f.den())
}

/// What is left of the number after taking away `n` as often as possible,
/// times `factor`, rounded to a whole number.
pub open spec fn scaled_rest(f: Dyadic, n: nat, factor: nat) -> nat {
    half_even(f.num() % (n * f.den()) * factor, f.den())
}

impl Dyadic {
    /// The largest whole number that is not larger.
    pub open spec fn floor(self) -> nat {
        self.num() / self.den()
    }

    /// Whether the number is at least `n`.
    pub open spec fn at_least(self, n: nat) -> bool {
        n * self.den() <= self.num()
    }

    /// The number as a fraction: its numerator.
    pub open spec fn num(self) -> nat {
        if self.exp >= 0 {
            self.mant * pow2(self.exp as nat)
        } else {
            self.mant
        }
    }

    /// The number as a fraction: its denominator.
    pub open spec fn den(self) -> nat {
        if self.exp >= 0 {
            1
        } else {
            pow2((-self.exp) as nat)
        }
    }

    /// Zero, or with a mantissa of exactly 53 binary digits.
    pub open spec fn wf(self) -> bool {
        if self.mant == 0 {
            self.exp == 0
        } else {
            0x10_0000_0000_0000 <= self.mant < 0x20_0000_0000_0000
        }
    }
}

/// A number that fits the format.
#[derive(Clone, Copy, Debug, PartialEq, Eq, Structural)]
pub struct Float {
    pub mant: u64,
    pub exp: i32,
}

impl View for Float {
    type V = Dyadic;

    open spec fn view(&self) -> Dyadic {
        Dyadic { mant: self.mant as nat, exp: self.exp as int }
    }
}

pub proof fn lemma_bit_len_bounds(n: nat)
    ensures
        n < pow2(bit_len(n)),
        n > 0 ==> bit_len(n) > 0 && pow2((bit_len(n) - 1) as nat) <= n,
    decreases n,
{
    lemma2_to64();
    if n > 0 {
        lemma_bit_len_bounds(n / 2);
        lemma_pow2_unfold(bit_len(n));
        if n / 2 > 0 {
            lemma_pow2_unfold(bit_len(n / 2));
        }
    }
}

pub proof fn lemma_bit_len_is(n: nat, k: nat)
    requires
        pow2(k) <= n < pow2(k + 1),
    ensures
        bit_len(n) == k + 1,
{
    lemma_pow2_pos(k);
    lemma_bit_len_bounds(n);
    let l = bit_len(n);
    if l > k + 1 {
        if l - 1 > k + 1 {
            lemma_pow2_strictly_increases(k + 1, (l - 1) as nat);
        }
    }
    if l < k + 1 {
        if l < k {
            lemma_pow2_strictly_increases(l, k);
        }
    }
}

pub proof fn lemma_bit_len_at_most(n: nat, k: nat)
    requires
        n < pow2(k),
    ensures
        bit_len(n) <= k,
{
    lemma_bit_len_bounds(n);
    if bit_len(n) > k {
        if bit_len(n) - 1 > k {
            lemma_pow2_strictly_increases(k, (bit_len(n) - 1) as nat);
        }
    }
}

/// `num / den` lies between `2^(e + 52)` and `2^(e + 53)`.
pub open spec fn in_binade(num: nat, den: nat, e: int) -> bool {
    if e <= 0 {
        0x10_0000_0000_0000 * den <= num * pow2((-e) as nat) < 0x20_0000_0000_0000 * den
    } else {
        0x10_0000_0000_0000 * (den * pow2(e as nat)) <= num < 0x20_0000_0000_0000 * (den * pow2(
            e as nat,
        ))
    }
}

proof fn lemma_cancel(a: int, b: int, c: int)
    by (nonlinear_arith)
    requires
        c > 0,
    ensures
        a * c <= b * c <==> a <= b,
        a * c < b * c <==> a < b,
{
}

/// A quotient between two powers of two has the magnitude of the lower one.
pub proof fn lemma_magnitude(num: nat, den: nat, e: int)
    requires
        num > 0,
        den > 0,
        in_binade(num, den, e),
    ensures
        magnitude(num, den) == e + 52,
{
    let l = bit_len(den);
    lemma_bit_len_bounds(den);
    lemma2_to64();
    lemma2_to64_rest();
    assert(pow2(52) == 0x10_0000_0000_0000 && pow2(53) == 0x20_0000_0000_0000);
    lemma_pow2_pos(l);
    if e <= 0 {
        let s = (-e) as nat;
        lemma_pow2_pos(s);
        assert(pow2(s) <= num * pow2(s)) by (nonlinear_arith)
            requires
                num > 0,
                pow2(s) > 0,
        ;
        lemma_pow2_adds(53, l);
        assert(pow2(53) * den < pow2(53) * pow2(l)) by (nonlinear_arith)
            requires
                den < pow2(l),
                pow2(53) > 0,
        ;
        assert(pow2(s) < pow2(53 + l));
        if s >= 53 + l {
            if s > 53 + l {
                lemma_pow2_strictly_increases(53 + l, s);
            }
        }
        let k = (52 + l - s) as nat;
        let top = num * pow2(l);
        // pow2(k) * den <= top < pow2(k + 1) * den
        lemma_pow2_adds(k, s);
        lemma_pow2_adds(52, l);
        lemma_pow2_adds(k + 1, s);
        assert((pow2(k) * den) * pow2(s) == (pow2(52) * den) * pow2(l)) by (nonlinear_arith)
            requires
                pow2(k) * pow2(s) == pow2(52) * pow2(l),
        ;
        assert((pow2(k + 1) * den) * pow2(s) == (pow2(53) * den) * pow2(l)) by (nonlinear_arith)
            requires
                pow2(k + 1) * pow2(s) == pow2(53) * pow2(l),
        ;
        assert(top * pow2(s) == (num * pow2(s)) * pow2(l)) by (nonlinear_arith)
            requires
                top == num * pow2(l),
        ;
        lemma_cancel(pow2(52) * den as int, num * pow2(s) as int, pow2(l) as int);
        lemma_cancel(num * pow2(s) as int, pow2(53) * den as int, pow2(l) as int);
        lemma_cancel(pow2(k) * den as int, top as int, pow2(s) as int);
        lemma_cancel(top as int, pow2(k + 1) * den as int, pow2(s) as int);
        lemma_quotient_between(top, den, pow2(k), pow2(k + 1));
        lemma_bit_len_is(top / den, k);
    } else {
        let s = e as nat;
        lemma_pow2_pos(s);
        let k = (52 + l + s) as nat;
        let top = num * pow2(l);
        lemma_pow2_adds(52, l);
        lemma_pow2_adds(52 + l, s);
        lemma_pow2_adds(53, l);
        lemma_pow2_adds(53 + l, s);
        assert(pow2(k) * den == (pow2(52) * (den * pow2(s))) * pow2(l)) by (nonlinear_arith)
            requires
                pow2(k) == (pow2(52) * pow2(l)) * pow2(s),
        ;
        assert(pow2(k + 1) * den == (pow2(53) * (den * pow2(s))) * pow2(l)) by (nonlinear_arith)
            requires
                pow2(k + 1) == (pow2(53) * pow2(l)) * pow2(s),
        ;
        lemma_cancel(pow2(52) * (den * pow2(s)) as int, num as int, pow2(l) as int);
        lemma_cancel(num as int, pow2(53) * (den * pow2(s)) as int, pow2(l) as int);
        lemma_quotient_between(top, den, pow2(k), pow2(k + 1));
        lemma_bit_len_is(top / den, k);
    }
}

proof fn lemma_quotient_between(num: nat, den: nat, lo: nat, hi: nat)
    requires
        den > 0,
        lo * den <= num < hi * den,
    ensures
        lo <= num / den < hi,
{
    lemma_fundamental_div_mod(num as int, den as int);
    let q = num / den;
    if q < lo {
        assert(den * q + den <= lo * den) by (nonlinear_arith)
            requires
                q + 1 <= lo,
                den > 0,
        ;
    }
    if q >= hi {
        assert(den * q >= hi * den) by (nonlinear_arith)
            requires
                q >= hi,
                den > 0,
        ;
    }
}

/// Rounding keeps a quotient between whole bounds.
proof fn lemma_half_even_between(num: nat, den: nat, lo: nat, hi: nat)
    requires
        den > 0,
        lo * den <= num < hi * den,
    ensures
        lo <= half_even(num, den) <= hi,
{
    lemma_quotient_between(num, den, lo, hi);
}

/// Rounding goes to the nearest whole number, and a tie to the even one.
pub proof fn lemma_half_even(num: nat, den: nat)
    requires
        den > 0,
    ensures
        2 * (half_even(num, den) * den) <= 2 * num + den,
        2 * num <= 2 * (half_even(num, den) * den) + den,
        2 * (half_even(num, den) * den) == 2 * num + den || 2 * num == 2 * (half_even(num, den)
            * den) + den ==> half_even(num, den) % 2 == 0,
{
    lemma_fundamental_div_mod(num as int, den as int);
    let (q, r) = (num / den, num % den);
    assert(q * den + r == num && (q + 1) * den == q * den + den) by (nonlinear_arith)
        requires
            num == den * q + r,
    ;
}

/// Every quotient lies between two powers of two.
proof fn lemma_some_binade(num: nat, den: nat) -> (e: int)
    requires
        num > 0,
        den > 0,
    ensures
        in_binade(num, den, e),
{
    let t = 53 + bit_len(den) - bit_len(num);
    lemma_shifted_bounds(num, den);
    lemma_shifted_step(num, den, t, 0x10_0000_0000_0000, 0x20_0000_0000_0000);
    let (n, d) = shifted(num, den, t);
    lemma2_to64();
    assert(num * pow2(0) == num && den * pow2(0) == den) by (nonlinear_arith)
        requires
            pow2(0) == 1,
    ;
    if n >= 0x20_0000_0000_0000 * d {
        assert(in_binade(num, den, 1 - t));
        1 - t
    } else {
        assert(in_binade(num, den, -t));
        -t
    }
}

/// `b` is within half of `step` of `a`.
pub open spec fn within_half(a: int, b: int, step: int) -> bool {
    2 * a <= 2 * b + step && 2 * b <= 2 * a + step
}

/// A mantissa that was rounded up to 54 digits, with the last one moved into the
/// exponent.
proof fn lemma_carried(num: int, unit: int)
    requires
        within_half(0x20_0000_0000_0000 * unit, num, unit),
        unit >= 0,
    ensures
        within_half(0x10_0000_0000_0000 * (2 * unit), num, 2 * unit),
{
}

/// A rounded quotient has a mantissa of 53 binary digits and is off by at most
/// half of its last place.
pub proof fn lemma_rounded_nearest(num: nat, den: nat, x: int)
    requires
        den > 0,
    ensures
        rounded(num, den, x).wf(),
        rounded(num, den, x).mant == 0 <==> num == 0,
        num > 0 && rounded(num, den, x).exp <= x ==> within_half(
            (rounded(num, den, x).mant * den) as int,
            (num * pow2((x - rounded(num, den, x).exp) as nat)) as int,
            den as int,
        ),
        num > 0 && rounded(num, den, x).exp > x ==> within_half(
            (rounded(num, den, x).mant * (den * pow2((rounded(num, den, x).exp - x) as nat))) as int,
            num as int,
            (den * pow2((rounded(num, den, x).exp - x) as nat)) as int,
        ),
{
    if num > 0 {
        let e = lemma_some_binade(num, den);
        lemma_magnitude(num, den, e);
        lemma2_to64();
        let top = 0x20_0000_0000_0000nat;
        let r = rounded(num, den, x);
        if e <= 0 {
            let p = pow2((-e) as nat);
            lemma_half_even(num * p, den);
            lemma_half_even_between(num * p, den, 0x10_0000_0000_0000, top);
            if half_even(num * p, den) == top {
                if e == 0 {
                    assert(num * p == num && den * pow2(1) == 2 * den) by (nonlinear_arith)
                        requires
                            p == 1,
                            pow2(1) == 2,
                    ;
                    assert(r.exp - x == 1 && r.mant == 0x10_0000_0000_0000);
                    assert(den * pow2((r.exp - x) as nat) == 2 * den);
                    assert(top * den == 0x20_0000_0000_0000 * den);
                    lemma_carried(num as int, den as int);
                } else {
                    lemma_pow2_unfold((-e) as nat);
                    let half = pow2((-e - 1) as nat);
                    assert(num * p == 2 * (num * half)) by (nonlinear_arith)
                        requires
                            p == 2 * half,
                    ;
                    assert(r.exp == e + 1 + x && r.mant == 0x10_0000_0000_0000);
                    assert(r.mant * den == 0x10_0000_0000_0000 * den);
                    assert(top * den == 0x20_0000_0000_0000 * den);
                }
            }
        } else {
            let p = pow2(e as nat);
            lemma_pow2_pos(e as nat);
            assert(den * p > 0) by (nonlinear_arith)
                requires
                    den > 0,
                    p > 0,
            ;
            lemma_half_even(num, den * p);
            lemma_half_even_between(num, den * p, 0x10_0000_0000_0000, top);
            if half_even(num, den * p) == top {
                lemma_pow2_unfold((e + 1) as nat);
                assert(den * pow2((e + 1) as nat) == 2 * (den * p)) by (nonlinear_arith)
                    requires
                        pow2((e + 1) as nat) == 2 * p,
                ;
                assert(r.exp - x == e + 1 && r.mant == 0x10_0000_0000_0000);
                assert(den * pow2((r.exp - x) as nat) == 2 * (den * p));
                assert(top * (den * p) == 0x20_0000_0000_0000 * (den * p));
                lemma_carried(num as int, (den * p) as int);
            } else {
                assert(r.exp - x == e && r.mant == half_even(num, den * p));
            }
        }
    }
}

/// A number times a factor is rounded to the nearest whole number, and a tie to the
/// even one.
pub proof fn lemma_scaled(f: Dyadic, factor: nat)
    ensures
        f.den() > 0,
        within_half(
            (scaled(f, factor) * f.den()) as int,
            (f.num() * factor) as int,
            f.den() as int,
        ),
        2 * (f.num() * factor) == 2 * (scaled(f, factor) * f.den()) + f.den() || 2 * (scaled(
            f,
            factor,
        ) * f.den()) == 2 * (f.num() * factor) + f.den() ==> scaled(f, factor) % 2 == 0,
{
    if f.exp < 0 {
        lemma_pow2_pos((-f.exp) as nat);
    }
    lemma_half_even(f.num() * factor, f.den());
}

/// The sum of two numbers does not depend on their order.
pub proof fn lemma_sum_commutes(a: Dyadic, b: Dyadic)
    ensures
        sum(a, b) == sum(b, a),
{
}

/// The sum of two numbers, to the lower of their exponents, is rounded to the
/// nearest number with 53 binary digits.
pub proof fn lemma_sum_nearest(a: Dyadic, b: Dyadic, gap: nat)
    requires
        a.exp == b.exp + gap,
    ensures
        sum(a, b).wf(),
        a.mant + b.mant > 0 && sum(a, b).exp <= b.exp ==> within_half(
            sum(a, b).mant as int,
            ((a.mant * pow2(gap) + b.mant) * pow2((b.exp - sum(a, b).exp) as nat)) as int,
            1,
        ),
        a.mant + b.mant > 0 && sum(a, b).exp > b.exp ==> within_half(
            (sum(a, b).mant * pow2((sum(a, b).exp - b.exp) as nat)) as int,
            (a.mant * pow2(gap) + b.mant) as int,
            pow2((sum(a, b).exp - b.exp) as nat) as int,
        ),
{
    lemma2_to64();
    lemma_pow2_pos(gap);
    assert(b.mant * pow2(0) == b.mant) by (nonlinear_arith)
        requires
            pow2(0) == 1,
    ;
    let total = a.mant * pow2(gap) + b.mant;
    assert(gap == 0 ==> a.mant * pow2(gap) == a.mant) by (nonlinear_arith)
        requires
            gap == 0 ==> pow2(gap) == 1,
    ;
    assert(sum(a, b) == rounded(total, 1, b.exp));
    assert(a.mant > 0 ==> a.mant * pow2(gap) > 0) by (nonlinear_arith)
        requires
            pow2(gap) > 0,
    ;
    lemma_rounded_nearest(total, 1, b.exp);
    let s = sum(a, b);
    assert(s.mant * 1 == s.mant);
    if s.exp > b.exp {
        let p = pow2((s.exp - b.exp) as nat);
        assert(1 * p == p);
    }
}

/// The largest whole number in a number, and whether it reaches a whole number.
pub proof fn lemma_floor(f: Dyadic, n: nat)
    ensures
        f.floor() * f.den() <= f.num() < (f.floor() + 1) * f.den(),
        f.at_least(n) <==> n <= f.floor(),
{
    if f.exp < 0 {
        lemma_pow2_pos((-f.exp) as nat);
    }
    let (a, d) = (f.num(), f.den());
    let q = a / d;
    assert(q * d <= a && a < (q + 1) * d && (n <= q ==> n * d <= q * d) && (n >= q + 1 ==> (q + 1)
        * d <= n * d)) by (nonlinear_arith)
        requires
            q == a / d,
            d > 0,
    ;
}

/// Fractions that are whole numbers are not rounded.
pub proof fn lemma_half_even_whole(n: nat, den: nat)
    requires
        den > 0,
    ensures
        half_even(n * den, den) == n,
{
    lemma_fundamental_div_mod_converse((n * den) as int, den as int, n as int, 0);
}

/// A mantissa that is shifted up is not rounded.
pub proof fn lemma_rounded_exact(mant: nat, k: nat, x: int)
    requires
        0x10_0000_0000_0000 <= mant < 0x20_0000_0000_0000,
    ensures
        rounded(mant * pow2(k), 1, x) == (Dyadic { mant, exp: x + k }),
{
    let num = mant * pow2(k);
    lemma_pow2_pos(k);
    lemma2_to64();
    assert(num > 0) by (nonlinear_arith)
        requires
            num == mant * pow2(k),
            mant > 0,
            pow2(k) > 0,
    ;
    assert(in_binade(num, 1, k as int)) by {
        assert(1 * pow2(k) == pow2(k));
        assert(0x10_0000_0000_0000 * pow2(k) <= mant * pow2(k) < 0x20_0000_0000_0000 * pow2(k))
            by (nonlinear_arith)
            requires
                0x10_0000_0000_0000 <= mant < 0x20_0000_0000_0000,
                pow2(k) > 0,
        ;
        if k == 0 {
            assert(mant * 1 == mant) by (nonlinear_arith);
            assert(num * pow2(0) == num) by (nonlinear_arith)
                requires
                    pow2(0) == 1,
            ;
        }
    }
    lemma_magnitude(num, 1, k as int);
    if k == 0 {
        assert(num * pow2(0) == mant) by (nonlinear_arith)
            requires
                pow2(0) == 1,
                num == mant * pow2(0),
        ;
        lemma_half_even_whole(mant, 1);
        assert(mant * 1 == mant) by (nonlinear_arith);
    } else {
        assert(1 * pow2(k) == pow2(k)) by (nonlinear_arith);
        lemma_half_even_whole(mant, pow2(k));
    }
}

/// `2^k`.
fn power(k: u32) -> (p: u128)
    requires
        k <= 126,
    ensures
        p == pow2(k as nat),
        p > 0,
        p <= 0x4000_0000_0000_0000_0000_0000_0000_0000,
{
    let mut p: u128 = 1;
    proof {
        lemma_pow2_pos(k as nat);
        lemma2_to64();
        lemma2_to64_rest();
        lemma_pow2_adds(63, 63);
        if k < 126 {
            lemma_pow2_strictly_increases(k as nat, 126);
        }
        assert(pow2(126) == 0x4000_0000_0000_0000_0000_0000_0000_0000) by {
            assert(0x8000_0000_0000_0000int * 0x8000_0000_0000_0000int
                == 0x4000_0000_0000_0000_0000_0000_0000_0000int) by (nonlinear_arith);
        }
    }
    for i in 0..k
        invariant
            k <= 126,
            p == pow2(i as nat),
            pow2(126) == 0x4000_0000_0000_0000_0000_0000_0000_0000,
    {
        proof {
            lemma_pow2_unfold((i + 1) as nat);
            if i + 1 < 126 {
                lemma_pow2_strictly_increases((i + 1) as nat, 126);
            }
        }
        p = 2 * p;
    }
    p
}

/// Number of binary digits.
fn digits(n: u64) -> (l: u32)
    ensures
        l == bit_len(n as nat),
        l <= 64,
    decreases n,
{
    proof {
        lemma2_to64();
        lemma2_to64_rest();
        lemma_bit_len_at_most(n as nat, 64);
    }
    if n == 0 {
        0
    } else {
        proof {
            lemma_bit_len_at_most(n as nat / 2, 63);
        }
        1 + digits(n / 2)
    }
}

/// `num / den` rounded to a whole number, a tie to the even one.
fn nearest(num: u128, den: u128) -> (q: u128)
    requires
        0 < den <= 0x4000_0000_0000_0000_0000_0000_0000_0000,
        num < 0x8000_0000_0000_0000_0000_0000_0000_0000,
    ensures
        q == half_even(num as nat, den as nat),
{
    let q = num / den;
    let r = num % den;
    assert(q <= num) by (nonlinear_arith)
        requires
            q == num / den,
            den > 0,
    ;
    if 2 * r > den || (2 * r == den && q % 2 == 1) {
        q + 1
    } else {
        q
    }
}

/// `num / den` with `t` binary places moved in, as a fraction.
spec fn shifted(num: nat, den: nat, t: int) -> (nat, nat) {
    if t >= 0 {
        (num * pow2(t as nat), den)
    } else {
        (num, den * pow2((-t) as nat))
    }
}

/// Moving in one place more doubles the fraction.
proof fn lemma_shifted_step(num: nat, den: nat, t: int, lo: nat, hi: nat)
    requires
        den > 0,
    ensures
        ({
            let (n, d) = shifted(num, den, t);
            let (m, c) = shifted(num, den, t - 1);
            &&& d > 0
            &&& c > 0
            &&& (2 * lo) * d <= n ==> lo * c <= m
            &&& n < (2 * hi) * d ==> m < hi * c
        }),
{
    let (n, d) = shifted(num, den, t);
    let (m, c) = shifted(num, den, t - 1);
    if t >= 0 {
        lemma_pow2_pos(t as nat);
    } else {
        lemma_pow2_pos((-t) as nat);
        assert(den * pow2((-t) as nat) > 0) by (nonlinear_arith)
            requires
                den > 0,
                pow2((-t) as nat) > 0,
        ;
    }
    if t >= 1 {
        lemma_pow2_unfold(t as nat);
        assert(n == 2 * m) by (nonlinear_arith)
            requires
                n == num * pow2(t as nat),
                m == num * pow2((t - 1) as nat),
                pow2(t as nat) == 2 * pow2((t - 1) as nat),
        ;
        assert((2 * lo) * d == 2 * (lo * c) && (2 * hi) * d == 2 * (hi * c)) by (nonlinear_arith)
            requires
                d == c,
        ;
    } else {
        let s = (1 - t) as nat;
        lemma_pow2_unfold(s);
        lemma_pow2_pos(s);
        lemma2_to64();
        assert(c == 2 * d) by (nonlinear_arith)
            requires
                c == den * pow2(s),
                pow2(s) == 2 * pow2((s - 1) as nat),
                d == den * pow2((s - 1) as nat) || (d == den && pow2((s - 1) as nat) == 1),
        ;
        assert(n == m) by (nonlinear_arith)
            requires
                n == num || (n == num * pow2(0) && pow2(0) == 1),
                m == num,
        ;
        assert((2 * lo) * d == lo * c && (2 * hi) * d == hi * c) by (nonlinear_arith)
            requires
                c == 2 * d,
        ;
    }
}

/// A quotient has about as many binary places as the numerator has more digits.
proof fn lemma_shifted_bounds(num: nat, den: nat)
    requires
        num > 0,
        den > 0,
    ensures
        ({
            let (n, d) = shifted(num, den, 53 + bit_len(den) - bit_len(num));
            &&& d > 0
            &&& 0x10_0000_0000_0000 * d <= n < 0x40_0000_0000_0000 * d
        }),
{
    let ln = bit_len(num);
    let ld = bit_len(den);
    lemma_bit_len_bounds(num);
    lemma_bit_len_bounds(den);
    lemma2_to64();
    lemma2_to64_rest();
    let t = 53 + ld - ln;
    let (n, d) = shifted(num, den, t);
    let pn = pow2((ln - 1) as nat);
    let pd = pow2((ld - 1) as nat);
    lemma_pow2_unfold(ln);
    lemma_pow2_unfold(ld);
    lemma_pow2_pos((ln - 1) as nat);
    lemma_pow2_pos((ld - 1) as nat);
    if t >= 0 {
        let pt = pow2(t as nat);
        lemma_pow2_pos(t as nat);
        lemma_pow2_adds((ln - 1) as nat, t as nat);
        lemma_pow2_adds(53, (ld - 1) as nat);
        // pn * pt == 2^(52 + ld) == 2^53 * pd
        assert(pn * pt == 0x20_0000_0000_0000 * pd);
        assert(0x10_0000_0000_0000 * d <= n) by (nonlinear_arith)
            requires
                n == num * pt,
                pn <= num,
                d == den,
                den < 2 * pd,
                pt > 0,
                pn * pt == 0x20_0000_0000_0000 * pd,
        ;
        assert(n < 0x40_0000_0000_0000 * d) by (nonlinear_arith)
            requires
                n == num * pt,
                num < 2 * pn,
                d == den,
                pd <= den,
                pt > 0,
                pn * pt == 0x20_0000_0000_0000 * pd,
        ;
    } else {
        let s = (-t) as nat;
        let ps = pow2(s);
        lemma_pow2_pos(s);
        lemma_pow2_adds((ld - 1) as nat, s);
        lemma_pow2_adds(53, (ld - 1 + s) as nat);
        // 2^53 * (pd * ps) == pn
        assert(0x20_0000_0000_0000 * (pd * ps) == pn);
        assert(d > 0 && 0x10_0000_0000_0000 * d <= n) by (nonlinear_arith)
            requires
                d == den * ps,
                n == num,
                pn <= num,
                0 < den < 2 * pd,
                ps > 0,
                0x20_0000_0000_0000 * (pd * ps) == pn,
        ;
        assert(n < 0x40_0000_0000_0000 * d) by (nonlinear_arith)
            requires
                d == den * ps,
                n == num,
                num < 2 * pn,
                pd <= den,
                ps > 0,
                0x20_0000_0000_0000 * (pd * ps) == pn,
        ;
    }
}

/// The fraction with `t` binary places moved in.
fn shift(num: u64, den: u64, t: i32) -> (parts: (u128, u128))
    requires
        num > 0,
        den > 0,
        53 + bit_len(den as nat) - bit_len(num as nat) >= t >= 52 + bit_len(den as nat) - bit_len(
            num as nat,
        ),
    ensures
        (parts.0 as nat, parts.1 as nat) == shifted(num as nat, den as nat, t as int),
        0 < parts.1 <= 0x1_0000_0000_0000_0000,
        parts.0 < 0x8000_0000_0000_0000_0000_0000_0000_0000,
{
    proof {
        lemma2_to64();
        lemma2_to64_rest();
        lemma_bit_len_bounds(num as nat);
        lemma_bit_len_bounds(den as nat);
        lemma_bit_len_at_most(num as nat, 64);
        lemma_bit_len_at_most(den as nat, 64);
    }
    let ghost ln = bit_len(num as nat);
    let ghost ld = bit_len(den as nat);
    if t >= 0 {
        proof {
            lemma_pow2_adds(ln, t as nat);
            lemma_pow2_adds(63, 63);
            lemma_pow2_pos(t as nat);
            if ln + t < 126 {
                lemma_pow2_strictly_increases(ln + t as nat, 126);
            }
            assert(0x8000_0000_0000_0000int * 0x8000_0000_0000_0000int
                == 0x4000_0000_0000_0000_0000_0000_0000_0000int) by (nonlinear_arith);
            assert(num * pow2(t as nat) < pow2(ln) * pow2(t as nat)) by (nonlinear_arith)
                requires
                    num < pow2(ln),
                    pow2(t as nat) > 0,
            ;
        }
        (num as u128 * power(t as u32), den as u128)
    } else {
        proof {
            let s = (-t) as nat;
            lemma_pow2_adds(ld, s);
            lemma_pow2_pos(s);
            if ld + s < 64 {
                lemma_pow2_strictly_increases(ld + s, 64);
            }
            assert(0 < den * pow2(s) < pow2(ld) * pow2(s)) by (nonlinear_arith)
                requires
                    0 < den < pow2(ld),
                    pow2(s) > 0,
            ;
        }
        (num as u128, den as u128 * power((-t) as u32))
    }
}

/// `num / den * 2^x`, rounded.
pub fn ratio(num: u64, den: u64, x: i32) -> (f: Float)
    requires
        den > 0,
        -1000 <= x <= 1000,
    ensures
        f@ == rounded(num as nat, den as nat, x as int),
        f@.wf(),
        f.mant == 0 <==> num == 0,
        num > 0 ==> x + bit_len(num as nat) - bit_len(den as nat) - 53 <= f.exp <= x + bit_len(
            num as nat,
        ) - bit_len(den as nat) - 51,
{
    if num == 0 {
        return Float { mant: 0, exp: 0 };
    }
    let mut t: i32 = 53 + digits(den) as i32 - digits(num) as i32;
    let ghost t0 = t as int;
    let (wide, over) = shift(num, den, t);
    proof {
        lemma_shifted_bounds(num as nat, den as nat);
        lemma_shifted_step(
            num as nat,
            den as nat,
            t as int,
            0x10_0000_0000_0000,
            0x20_0000_0000_0000,
        );
    }
    if wide >= 0x20_0000_0000_0000 * over {
        t = t - 1;
    }
    let (n, d) = shift(num, den, t);
    assert(0x10_0000_0000_0000 * d <= n < 0x20_0000_0000_0000 * d);
    let m = nearest(n, d);
    proof {
        lemma_half_even_between(
            n as nat,
            d as nat,
            0x10_0000_0000_0000,
            0x20_0000_0000_0000,
        );
        let e = -t as int;
        lemma2_to64();
        assert(num * pow2(0) == num) by (nonlinear_arith)
            requires
                pow2(0) == 1,
        ;
        assert(in_binade(num as nat, den as nat, e));
        lemma_magnitude(num as nat, den as nat, e);
    }
    if m == 0x20_0000_0000_0000 {
        Float { mant: 0x10_0000_0000_0000, exp: 1 - t + x }
    } else {
        Float { mant: m as u64, exp: x - t }
    }
}

/// A mantissa stays as it is when something below a quarter of its last place
/// is added.
proof fn lemma_sum_absorbs(ma: nat, mb: nat, j: nat, x: int)
    requires
        0x10_0000_0000_0000 <= ma < 0x20_0000_0000_0000,
        mb < 0x20_0000_0000_0000,
        j >= 55,
    ensures
        rounded(ma * pow2(j) + mb, 1, x) == (Dyadic { mant: ma, exp: x + j }),
{
    let p = pow2(j);
    lemma2_to64();
    lemma2_to64_rest();
    if j > 55 {
        lemma_pow2_strictly_increases(55, j);
    }
    let num = ma * p + mb;
    assert(0x10_0000_0000_0000 * p <= num < 0x20_0000_0000_0000 * p) by (nonlinear_arith)
        requires
            num == ma * p + mb,
            0x10_0000_0000_0000 <= ma < 0x20_0000_0000_0000,
            mb < p,
    ;
    assert(1 * p == p) by (nonlinear_arith);
    assert(num > 0);
    assert(in_binade(num, 1, j as int));
    lemma_magnitude(num, 1, j as int);
    lemma_fundamental_div_mod_converse(num as int, p as int, ma as int, mb as int);
}

/// The sum of numbers, of which the first does not have the smaller exponent.
fn plus_ordered(a: Float, b: Float) -> (f: Float)
    requires
        a@.wf(),
        b@.wf(),
        a.mant > 0,
        b.mant > 0,
        a.exp >= b.exp,
        -1000 <= b.exp,
        a.exp <= 1000,
    ensures
        f@ == sum(a@, b@),
        f@.wf(),
        f.mant > 0,
        a.exp <= f.exp <= a.exp + 2,
{
    let j = (a.exp - b.exp) as u32;
    let ghost x = b.exp as int;
    let ghost total = a.mant * pow2(j as nat) + b.mant;
    proof {
        lemma2_to64();
        lemma2_to64_rest();
        assert(b.mant * pow2(0) == b.mant) by (nonlinear_arith)
            requires
                pow2(0) == 1,
        ;
        assert(a.exp == b.exp ==> a.mant * pow2(0) == a.mant) by (nonlinear_arith)
            requires
                pow2(0) == 1,
        ;
        assert(sum(a@, b@) == rounded(total as nat, 1, x));
    }
    if j >= 55 {
        proof {
            lemma_sum_absorbs(a.mant as nat, b.mant as nat, j as nat, x);
        }
        return a;
    }
    let p = power(j);
    proof {
        lemma_pow2_strictly_increases(j as nat, 55);
        lemma_pow2_unfold((j + 1) as nat);
        lemma_pow2_pos(j as nat);
        assert(0x10_0000_0000_0000 * p <= a.mant * p < 0x20_0000_0000_0000 * p) by (nonlinear_arith)
            requires
                0x10_0000_0000_0000 <= a.mant < 0x20_0000_0000_0000,
                p > 0,
        ;
        assert(b.mant <= 0x20_0000_0000_0000 * p);
    }
    let n = a.mant as u128 * p + b.mant as u128;
    let carry: u32 = if n >= 0x20_0000_0000_0000 * p {
        1
    } else {
        0
    };
    let d = power(j + carry);
    let m = nearest(n, d);
    proof {
        assert(1 * pow2((j + carry) as nat) == pow2((j + carry) as nat)) by (nonlinear_arith);
        assert(n * pow2(0) == n) by (nonlinear_arith)
            requires
                pow2(0) == 1,
        ;
        assert(in_binade(n as nat, 1, j + carry));
        lemma_magnitude(n as nat, 1, j + carry);
        lemma_half_even_between(n as nat, d as nat, 0x10_0000_0000_0000, 0x20_0000_0000_0000);
    }
    let exp = a.exp + carry as i32;
    if m == 0x20_0000_0000_0000 {
        Float { mant: 0x10_0000_0000_0000, exp: exp + 1 }
    } else {
        Float { mant: m as u64, exp }
    }
}

/// The rounded sum.
pub fn plus(a: Float, b: Float) -> (f: Float)
    requires
        a@.wf(),
        b@.wf(),
        -1000 <= a.exp <= 1000,
        -1000 <= b.exp <= 1000,
    ensures
        f@ == sum(a@, b@),
        f@.wf(),
        a.mant == 0 ==> f == b,
        b.mant == 0 ==> f == a,
        a.mant > 0 && b.mant > 0 ==> {
            &&& f.mant > 0
            &&& a.exp <= f.exp && b.exp <= f.exp
            &&& f.exp <= a.exp + 2 || f.exp <= b.exp + 2
        },
{
    if a.mant == 0 {
        proof {
            lemma_sum_with_zero(b@);
        }
        b
    } else if b.mant == 0 {
        proof {
            lemma_sum_with_zero(a@);
        }
        a
    } else if a.exp >= b.exp {
        plus_ordered(a, b)
    } else {
        plus_ordered(b, a)
    }
}

/// Adding zero changes nothing.
pub proof fn lemma_sum_with_zero(f: Dyadic)
    requires
        f.wf(),
    ensures
        sum(f, Dyadic { mant: 0, exp: 0 }) == f,
        sum(Dyadic { mant: 0, exp: 0 }, f) == f,
{
    lemma2_to64();
    let zero = Dyadic { mant: 0, exp: 0 };
    let x = if f.exp <= 0 {
        f.exp
    } else {
        0
    };
    let up = (f.exp - x) as nat;
    let other = (0 - x) as nat;
    assert(0 * pow2(other) == 0) by (nonlinear_arith);
    assert(f.mant * pow2(up) + 0 * pow2(other) == f.mant * pow2(up));
    if f.mant > 0 {
        lemma_rounded_exact(f.mant, up, x);
    } else {
        assert(0 * pow2(up) == 0) by (nonlinear_arith);
    }
}

impl Float {
    /// The number times `factor`, rounded to a whole number.
    pub fn scaled_by(self, factor: u64) -> (n: u128)
        requires
            self@.wf(),
            -1000 <= self.exp <= 60,
            factor <= 1000,
        ensures
            n == scaled(self@, factor as nat),
    {
        proof {
            lemma2_to64();
            lemma2_to64_rest();
            assert(self.mant * factor <= 0x20_0000_0000_0000 * 1000) by (nonlinear_arith)
                requires
                    self.mant <= 0x20_0000_0000_0000,
                    factor <= 1000,
            ;
        }
        if self.exp >= 0 {
            let p = power(self.exp as u32);
            proof {
                if self.exp < 60 {
                    lemma_pow2_strictly_increases(self.exp as nat, 60);
                }
                assert(self.mant * p <= 0x20_0000_0000_0000 * 0x1000_0000_0000_0000)
                    by (nonlinear_arith)
                    requires
                        self.mant <= 0x20_0000_0000_0000,
                        p <= 0x1000_0000_0000_0000,
                ;
                assert(self.mant * p * factor <= 0x20_0000_0000_0000 * 0x1000_0000_0000_0000
                    * 1000) by (nonlinear_arith)
                    requires
                        self.mant * p <= 0x20_0000_0000_0000 * 0x1000_0000_0000_0000,
                        factor <= 1000,
                ;
                let whole = (self.mant * p * factor) as nat;
                lemma_half_even_whole(whole, 1);
                assert(whole * 1 == whole) by (nonlinear_arith);
            }
            self.mant as u128 * p * factor as u128
        } else {
            let k = (-self.exp) as u32;
            let n = self.mant as u128 * factor as u128;
            if k > 120 {
                proof {
                    lemma_pow2_strictly_increases(64, k as nat);
                    lemma_fundamental_div_mod_converse(
                        n as int,
                        pow2(k as nat) as int,
                        0,
                        n as int,
                    );
                }
                return 0;
            }
            nearest(n, power(k))
        }
    }

    /// The number as a fraction.
    fn parts(self) -> (p: (u128, u128))
        requires
            self@.wf(),
            -100 <= self.exp <= 60,
        ensures
            p.0 == self@.num(),
            p.1 == self@.den(),
            0 < p.1,
            p.0 <= 0x2_0000_0000_0000_0000_0000_0000_0000,
            p.1 <= 0x10_0000_0000_0000_0000_0000_0000,
    {
        proof {
            lemma2_to64();
            lemma2_to64_rest();
        }
        if self.exp >= 0 {
            let p = power(self.exp as u32);
            proof {
                if self.exp < 60 {
                    lemma_pow2_strictly_increases(self.exp as nat, 60);
                }
                assert(self.mant * p <= 0x20_0000_0000_0000 * 0x1000_0000_0000_0000)
                    by (nonlinear_arith)
                    requires
                        self.mant <= 0x20_0000_0000_0000,
                        p <= 0x1000_0000_0000_0000,
                ;
            }
            (self.mant as u128 * p, 1)
        } else {
            let k = (-self.exp) as u32;
            proof {
                lemma_pow2_adds(50, 50);
                if k < 100 {
                    lemma_pow2_strictly_increases(k as nat, 100);
                }
                assert(0x4_0000_0000_0000int * 0x4_0000_0000_0000int
                    == 0x10_0000_0000_0000_0000_0000_0000int) by (nonlinear_arith);
            }
            (self.mant as u128, power(k))
        }
    }

    /// The largest whole number that is not larger.
    pub fn floor(self) -> (n: u128)
        requires
            self@.wf(),
            -1000 <= self.exp <= 60,
        ensures
            n == self@.floor(),
    {
        if self.exp < -100 {
            proof {
                lemma2_to64_rest();
                lemma_pow2_strictly_increases(53, (-self.exp) as nat);
                lemma_fundamental_div_mod_converse(
                    self.mant as int,
                    pow2((-self.exp) as nat) as int,
                    0,
                    self.mant as int,
                );
            }
            return 0;
        }
        let (num, den) = self.parts();
        num / den
    }

    /// Whether the number is at least `n`.
    pub fn at_least(self, n: u64) -> (ok: bool)
        requires
            self@.wf(),
            -100 <= self.exp <= 60,
            n <= 1000,
        ensures
            ok == self@.at_least(n as nat),
    {
        let (num, den) = self.parts();
        assert(n * den <= 1000 * 0x10_0000_0000_0000_0000_0000_0000) by (nonlinear_arith)
            requires
                n <= 1000,
                den <= 0x10_0000_0000_0000_0000_0000_0000,
        ;
        n as u128 * den <= num
    }

    /// What is left after taking away `n` as often as possible, times `factor`,
    /// rounded to a whole number.
    pub fn rest_scaled_by(self, n: u64, factor: u64) -> (rest: u128)
        requires
            self@.wf(),
            -60 <= self.exp <= 60,
            0 < n <= 1000,
            factor <= 1000,
        ensures
            rest == scaled_rest(self@, n as nat, factor as nat),
    {
        let (num, den) = self.parts();
        proof {
            lemma2_to64();
            lemma2_to64_rest();
            if -60 < self.exp < 0 {
                lemma_pow2_strictly_increases((-self.exp) as nat, 60);
            }
            assert(0 < n * den <= 1000 * 0x1000_0000_0000_0000) by (nonlinear_arith)
                requires
                    0 < n <= 1000,
                    0 < den <= 0x1000_0000_0000_0000,
            ;
        }
        let rest = num % (n as u128 * den);
        assert(rest * factor <= 1000 * 0x1000_0000_0000_0000 * 1000) by (nonlinear_arith)
            requires
                rest <= 1000 * 0x1000_0000_0000_0000,
                factor <= 1000,
        ;
        nearest(rest * factor as u128, den)
    }
}

/// Whether one number is at most another.
pub open spec fn at_most(a: Dyadic, b: Dyadic) -> bool {
    a.num() * b.den() <= b.num() * a.den()
}

/// `2^a` times a mantissa, on both sides of a comparison of two numbers.
proof fn lemma_fraction_parts(f: Dyadic, x: nat)
    requires
        f.exp + x >= 0,
    ensures
        f.num() * pow2(x) == f.mant * pow2((f.exp + x) as nat) * f.den(),
        f.den() > 0,
{
    lemma2_to64();
    if f.exp >= 0 {
        lemma_pow2_adds(f.exp as nat, x);
        assert(f.mant * pow2(f.exp as nat) * pow2(x) == f.mant * (pow2(f.exp as nat) * pow2(x)) * 1)
            by (nonlinear_arith);
    } else {
        lemma_pow2_adds((f.exp + x) as nat, (-f.exp) as nat);
        lemma_pow2_pos((-f.exp) as nat);
        assert(f.mant * (pow2((f.exp + x) as nat) * pow2((-f.exp) as nat)) == f.mant * pow2(
            (f.exp + x) as nat,
        ) * pow2((-f.exp) as nat)) by (nonlinear_arith);
    }
}

/// Comparing as fractions is comparing the mantissas over a common exponent.
proof fn lemma_at_most(a: Dyadic, b: Dyadic, x: nat)
    requires
        a.exp + x >= 0,
        b.exp + x >= 0,
    ensures
        at_most(a, b) <==> a.mant * pow2((a.exp + x) as nat) <= b.mant * pow2((b.exp + x) as nat),
{
    lemma_fraction_parts(a, x);
    lemma_fraction_parts(b, x);
    lemma_pow2_pos(x);
    let p = pow2(x);
    let ma = a.mant * pow2((a.exp + x) as nat);
    let mb = b.mant * pow2((b.exp + x) as nat);
    let dd = a.den() * b.den();
    assert(dd > 0) by (nonlinear_arith)
        requires
            dd == a.den() * b.den(),
            a.den() > 0,
            b.den() > 0,
    ;
    assert((a.num() * b.den()) * p == ma * dd) by (nonlinear_arith)
        requires
            a.num() * p == ma * a.den(),
            dd == a.den() * b.den(),
    ;
    assert((b.num() * a.den()) * p == mb * dd) by (nonlinear_arith)
        requires
            b.num() * p == mb * b.den(),
            dd == a.den() * b.den(),
    ;
    lemma_cancel(a.num() * b.den() as int, b.num() * a.den() as int, p as int);
    lemma_cancel(ma as int, mb as int, dd as int);
}

/// Whether one number is at most another.
pub fn is_at_most(a: Float, b: Float) -> (ok: bool)
    ensures
        ok == at_most(a@, b@),
{
    let ghost x: nat = 0x1_0000_0000;
    proof {
        lemma_at_most(a@, b@, x);
    }
    let ghost ea = (a.exp + x) as nat;
    let ghost eb = (b.exp + x) as nat;
    let gap: i64 = a.exp as i64 - b.exp as i64;
    if gap >= 0 {
        proof {
            lemma_common_factor(a.mant as nat, b.mant as nat, eb, gap as nat);
        }
        if gap >= 64 {
            proof {
                lemma_far_apart(a.mant as nat, b.mant as nat, gap as nat);
            }
            a.mant == 0
        } else {
            proof {
                lemma_shift_fits(a.mant as nat, gap as nat);
            }
            a.mant as u128 * power(gap as u32) <= b.mant as u128
        }
    } else {
        let up: i64 = -gap;
        proof {
            lemma_common_factor(b.mant as nat, a.mant as nat, ea, up as nat);
        }
        if up >= 64 {
            proof {
                lemma_far_apart(b.mant as nat, a.mant as nat, up as nat);
            }
            b.mant != 0 || a.mant == 0
        } else {
            proof {
                lemma_shift_fits(b.mant as nat, up as nat);
            }
            a.mant as u128 <= b.mant as u128 * power(up as u32)
        }
    }
}

/// A common power of two does not change a comparison.
proof fn lemma_common_factor(high: nat, low: nat, e: nat, gap: nat)
    ensures
        high * pow2(e + gap) <= low * pow2(e) <==> high * pow2(gap) <= low,
        low * pow2(e) <= high * pow2(e + gap) <==> low <= high * pow2(gap),
{
    lemma_pow2_adds(gap, e);
    lemma_pow2_pos(e);
    assert(high * (pow2(gap) * pow2(e)) == (high * pow2(gap)) * pow2(e)) by (nonlinear_arith);
    lemma_cancel((high * pow2(gap)) as int, low as int, pow2(e) as int);
    lemma_cancel(low as int, (high * pow2(gap)) as int, pow2(e) as int);
}

proof fn lemma_far_apart(high: nat, low: nat, gap: nat)
    requires
        gap >= 64,
        low < 0x1_0000_0000_0000_0000,
    ensures
        high > 0 ==> low < high * pow2(gap),
        high == 0 ==> high * pow2(gap) == 0,
{
    lemma2_to64();
    if gap > 64 {
        lemma_pow2_strictly_increases(64, gap);
    }
    let p = pow2(gap);
    if high > 0 {
        assert(low < high * p) by (nonlinear_arith)
            requires
                high >= 1,
                p > low,
        ;
    } else {
        assert(0 * p == 0) by (nonlinear_arith);
    }
}

proof fn lemma_shift_fits(m: nat, gap: nat)
    requires
        m < 0x1_0000_0000_0000_0000,
        gap < 64,
    ensures
        m * pow2(gap) <= u128::MAX,
{
    lemma2_to64();
    lemma_pow2_strictly_increases(gap, 64);
    let p = pow2(gap);
    assert(m * p <= 0x1_0000_0000_0000_0000 * 0x1_0000_0000_0000_0000 - 1) by (nonlinear_arith)
        requires
            m <= 0xffff_ffff_ffff_ffff,
            p <= 0xffff_ffff_ffff_ffff,
    ;
}

/// Comparing numbers is transitive.
pub proof fn lemma_at_most_transitive(a: Dyadic, b: Dyadic, c: Dyadic)
    requires
        at_most(a, b),
        at_most(b, c),
    ensures
        at_most(a, c),
{
    let low = |e: int|
        if e < 0 {
            -e
        } else {
            0
        };
    let x = (low(a.exp) + low(b.exp) + low(c.exp)) as nat;
    lemma_at_most(a, b, x);
    lemma_at_most(b, c, x);
    lemma_at_most(a, c, x);
}

/// Of two numbers in the format that are not zero, the smaller one does not
/// have the larger exponent.
pub proof fn lemma_at_most_exponents(a: Dyadic, b: Dyadic)
    requires
        a.wf(),
        b.wf(),
        a.mant > 0,
        b.mant > 0,
        at_most(a, b),
    ensures
        a.exp <= b.exp,
{
    if a.exp > b.exp {
        let x = (if b.exp < 0 {
            -b.exp
        } else {
            0
        }) as nat;
        lemma_at_most(a, b, x);
        lemma_exponent_decides(b.mant, a.mant, (b.exp + x) as nat, (a.exp + x) as nat);
    }
}

proof fn lemma_exponent_decides(ma: nat, mb: nat, ea: nat, eb: nat)
    requires
        ea < eb,
        ma < 0x20_0000_0000_0000,
        mb >= 0x10_0000_0000_0000,
    ensures
        ma * pow2(ea) < mb * pow2(eb),
{
    lemma_pow2_unfold((ea + 1) as nat);
    lemma_pow2_pos(ea);
    if ea + 1 < eb {
        lemma_pow2_strictly_increases((ea + 1) as nat, eb);
    }
    let p = pow2(ea);
    let q = pow2(eb);
    assert(ma * p < mb * q) by (nonlinear_arith)
        requires
            ma < 0x20_0000_0000_0000,
            mb >= 0x10_0000_0000_0000,
            p > 0,
            q >= 2 * p,
    ;
}

} // verus!
