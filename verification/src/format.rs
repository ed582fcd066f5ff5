//! Sizes, durations and ratios as the reports show them.

use crate::bench_common::{Duration, NANOS_PER_SEC};
use crate::float::{at_most, bit_len, in_binade, is_at_most, lemma_bit_len_at_most, lemma_bit_len_is,
    lemma_half_even, lemma_half_even_whole, lemma_magnitude, lemma_rounded_nearest,
    lemma_sum_with_zero, plus, ratio, rounded, scaled, scaled_rest, sum, within_half, Dyadic,
    Float};
use crate::text::{decimal, fixed, places, push_decimal, push_fixed, ten_to};
use vstd::arithmetic::div_mod::lemma_fundamental_div_mod_converse;
use vstd::arithmetic::power2::{lemma2_to64, lemma2_to64_rest, lemma_pow2_adds, lemma_pow2_pos,
    lemma_pow2_strictly_increases, pow2};
use vstd::prelude::*;

verus! {

/// A number divided by `2^k`, which is exact.
pub open spec fn shifted_down(f: Dyadic, k: int) -> Dyadic {
    Dyadic { mant: f.mant, exp: f.exp - k }
}

/// A number of bytes in the largest binary unit that it reaches.
pub open spec fn bytes_text(bytes: nat) -> Seq<char> {
    let b = rounded(bytes, 1, 0);
    if bytes >= 0x4000_0000 {
        fixed(scaled(shifted_down(b, 30), 100), 2) + " GiB"@
    } else if bytes >= 0x10_0000 {
        fixed(scaled(shifted_down(b, 20), 100), 2) + " MiB"@
    } else if bytes >= 0x400 {
        fixed(scaled(shifted_down(b, 10), 100), 2) + " KiB"@
    } else {
        decimal(bytes) + " B"@
    }
}

/// A number of bytes in the largest binary unit that it reaches.
pub fn fmt_bytes(bytes: usize) -> (text: String)
    ensures
        text@ == bytes_text(bytes as nat),
{
    let mut text = String::new();
    if bytes < 0x400 {
        push_decimal(&mut text, bytes as u128);
        text.push_str(" B");
        assert(text@ =~= bytes_text(bytes as nat));
        return text;
    }
    let b = ratio(bytes as u64, 1, 0);
    proof {
        lemma2_to64();
        lemma_bit_len_at_most(bytes as nat, 64);
        lemma_bit_len_is(1, 0);
    }
    if bytes >= 0x4000_0000 {
        push_fixed(&mut text, (Float { mant: b.mant, exp: b.exp - 30 }).scaled_by(100), 2);
        text.push_str(" GiB");
    } else if bytes >= 0x10_0000 {
        push_fixed(&mut text, (Float { mant: b.mant, exp: b.exp - 20 }).scaled_by(100), 2);
        text.push_str(" MiB");
    } else {
        push_fixed(&mut text, (Float { mant: b.mant, exp: b.exp - 10 }).scaled_by(100), 2);
        text.push_str(" KiB");
    }
    assert(text@ =~= bytes_text(bytes as nat));
    text
}

/// A span in seconds: the whole seconds plus the rounded fraction, rounded.
pub open spec fn seconds(nanos: nat) -> Dyadic {
    sum(
        rounded(nanos / NANOS_PER_SEC as nat, 1, 0),
        rounded(nanos % NANOS_PER_SEC as nat, NANOS_PER_SEC as nat, 0),
    )
}

/// A span in seconds.
pub fn as_seconds(d: Duration) -> (s: Float)
    requires
        d.wf(),
    ensures
        s@ == seconds(d.nanos as nat),
        s@.wf(),
        -82 <= s.exp <= 14,
{
    proof {
        lemma2_to64();
        lemma2_to64_rest();
        let whole = d.nanos as nat / NANOS_PER_SEC as nat;
        let part = d.nanos as nat % NANOS_PER_SEC as nat;
        lemma_bit_len_is(1, 0);
        lemma_bit_len_is(NANOS_PER_SEC as nat, 29);
        lemma_bit_len_at_most(whole, 64);
        lemma_bit_len_at_most(part, 30);
        assert(part > 0 ==> bit_len(part) >= 1);
        assert(whole > 0 ==> bit_len(whole) >= 1);
    }
    let whole = ratio(d.as_secs(), 1, 0);
    let part = ratio(d.subsec_nanos() as u64, 1_000_000_000, 0);
    plus(whole, part)
}

/// A span in minutes and seconds, in seconds or in milliseconds, whichever is
/// the largest unit that it reaches.
pub open spec fn duration_text(nanos: nat) -> Seq<char> {
    let s = seconds(nanos);
    if s.at_least(60) {
        let rest = scaled_rest(s, 60, 10);
        decimal(rounded(s.mant, 60, s.exp).floor()) + "m"@ + (if rest < 100 {
            "0"@
        } else {
            ""@
        }) + fixed(rest, 1) + "s"@
    } else if s.at_least(1) {
        fixed(scaled(s, 1000), 3) + " s"@
    } else {
        fixed(scaled(rounded(s.mant * 1000, 1, s.exp), 100), 2) + " ms"@
    }
}

/// A number that is at least one has at most 52 binary places.
proof fn lemma_places_of_large(f: Dyadic)
    requires
        f.wf(),
        f.at_least(1),
    ensures
        f.exp >= -52,
{
    lemma2_to64();
    lemma2_to64_rest();
    if f.exp < -52 {
        let k = (-f.exp) as nat;
        if k > 53 {
            lemma_pow2_strictly_increases(53, k);
        }
    }
}

/// A span in minutes and seconds, in seconds or in milliseconds, whichever is
/// the largest unit that it reaches.
pub fn fmt_duration(d: Duration) -> (text: String)
    requires
        d.wf(),
    ensures
        text@ == duration_text(d.nanos as nat),
{
    let mut text = String::new();
    let s = as_seconds(d);
    proof {
        lemma2_to64();
        lemma2_to64_rest();
        lemma_bit_len_at_most(s.mant as nat, 53);
        lemma_bit_len_at_most((s.mant * 1000) as nat, 63);
        lemma_bit_len_is(1, 0);
        lemma_bit_len_is(60, 5);
        assert(s.mant > 0 ==> bit_len(s.mant as nat) == 53) by {
            if s.mant > 0 {
                lemma_bit_len_is(s.mant as nat, 52);
            }
        }
        assert(s.mant > 0 ==> bit_len((s.mant * 1000) as nat) >= 1);
    }
    if s.at_least(60) {
        proof {
            assert(s@.at_least(1)) by (nonlinear_arith)
                requires
                    s@.at_least(60),
                    s@.den() >= 0,
            ;
            lemma_places_of_large(s@);
        }
        let minutes = ratio(s.mant, 60, s.exp).floor();
        let rest = s.rest_scaled_by(60, 10);
        push_decimal(&mut text, minutes);
        text.push_str("m");
        if rest < 100 {
            text.push_str("0");
        } else {
            text.push_str("");
        }
        push_fixed(&mut text, rest, 1);
        text.push_str("s");
        assert(text@ =~= duration_text(d.nanos as nat));
    } else if s.at_least(1) {
        push_fixed(&mut text, s.scaled_by(1000), 3);
        text.push_str(" s");
        assert(text@ =~= duration_text(d.nanos as nat));
    } else {
        let millis = ratio(s.mant * 1000, 1, s.exp);
        push_fixed(&mut text, millis.scaled_by(100), 2);
        text.push_str(" ms");
        assert(text@ =~= duration_text(d.nanos as nat));
    }
    text
}

/// A measured peak; `n/a` where nothing was measured.
pub open spec fn mem_text(m: Option<usize>) -> Seq<char> {
    match m {
        Some(bytes) => bytes_text(bytes as nat),
        None => "n/a"@,
    }
}

/// A measured peak; `n/a` where nothing was measured.
pub fn opt_mem(m: Option<usize>) -> (text: String)
    ensures
        text@ == mem_text(m),
{
    match m {
        Some(bytes) => fmt_bytes(bytes),
        None => "n/a".to_owned(),
    }
}

/// The rounded quotient.
pub open spec fn quotient(a: Dyadic, b: Dyadic) -> Dyadic {
    rounded(a.mant, b.mant, a.exp - b.exp)
}

/// A quotient with two decimal places.
pub open spec fn quotient_text(a: Dyadic, b: Dyadic) -> Seq<char> {
    if b.mant == 0 {
        if a.mant == 0 {
            "NaN"@
        } else {
            "inf"@
        }
    } else {
        fixed(scaled(quotient(a, b), 100), 2)
    }
}

/// Appends a quotient with two decimal places.
pub fn push_quotient(text: &mut String, a: Float, b: Float)
    requires
        a@.wf(),
        b@.wf(),
        -500 <= a.exp - b.exp <= 500,
        a.mant > 0 && b.mant > 0 ==> a.exp - b.exp <= 111,
    ensures
        final(text)@ == old(text)@ + quotient_text(a@, b@),
{
    if b.mant == 0 {
        if a.mant == 0 {
            text.push_str("NaN");
        } else {
            text.push_str("inf");
        }
        return ;
    }
    proof {
        lemma2_to64();
        lemma2_to64_rest();
        lemma_bit_len_is(b.mant as nat, 52);
        if a.mant > 0 {
            lemma_bit_len_is(a.mant as nat, 52);
        }
    }
    let q = ratio(a.mant, b.mant, a.exp - b.exp);
    push_fixed(text, q.scaled_by(100), 2);
}

/// The larger of two numbers.
pub open spec fn larger(a: Dyadic, b: Dyadic) -> Dyadic {
    if at_most(a, b) {
        b
    } else {
        a
    }
}

/// The larger of two numbers.
pub fn max(a: Float, b: Float) -> (f: Float)
    requires
        a@.wf(),
        b@.wf(),
    ensures
        f@ == larger(a@, b@),
        f == a || f == b,
{
    if is_at_most(a, b) {
        b
    } else {
        a
    }
}

/// The larger of two numbers is one of them, and neither is more than it.
pub proof fn lemma_larger(a: Dyadic, b: Dyadic)
    ensures
        larger(a, b) == a || larger(a, b) == b,
        a.num() * larger(a, b).den() <= larger(a, b).num() * a.den(),
        b.num() * larger(a, b).den() <= larger(a, b).num() * b.den(),
{
}

/// A whole number of at most `2^52` is held exactly.
proof fn lemma_exact_whole(bytes: nat)
    requires
        0 < bytes <= 0x10_0000_0000_0000,
    ensures
        rounded(bytes, 1, 0).exp <= 0,
        rounded(bytes, 1, 0).mant == bytes * pow2((-rounded(bytes, 1, 0).exp) as nat),
{
    let r = rounded(bytes, 1, 0);
    lemma_rounded_nearest(bytes, 1, 0);
    if r.exp > 0 {
        let p = pow2(r.exp as nat);
        lemma2_to64();
        if r.exp > 1 {
            lemma_pow2_strictly_increases(1, r.exp as nat);
        }
        assert(1 * p == p);
        assert(r.mant * p >= 0x10_0000_0000_0000 * p) by (nonlinear_arith)
            requires
                r.mant >= 0x10_0000_0000_0000,
                p >= 0,
        ;
        assert(false);
    }
    assert(r.mant * 1 == r.mant);
}

/// What is shown of a number of bytes in a unit of `2^k` is the number of
/// hundredths of the unit, rounded to the nearest.
proof fn lemma_hundredths(bytes: nat, k: nat)
    requires
        0 < bytes <= 0x10_0000_0000_0000,
        k > 0,
    ensures
        within_half(
            (scaled(shifted_down(rounded(bytes, 1, 0), k as int), 100) * pow2(k)) as int,
            100 * bytes as int,
            pow2(k) as int,
        ),
{
    let r = rounded(bytes, 1, 0);
    lemma_exact_whole(bytes);
    let f = shifted_down(r, k as int);
    let s = (-r.exp) as nat;
    let (p, u) = (pow2(s), pow2(k));
    lemma_pow2_adds(s, k);
    lemma_pow2_pos(s);
    lemma_pow2_pos(k);
    assert(f.den() == p * u && f.num() == bytes * p);
    assert(p * u > 0) by (nonlinear_arith)
        requires
            p > 0,
            u > 0,
    ;
    let n = scaled(f, 100);
    lemma_half_even(f.num() * 100, p * u);
    assert(2 * (n * u) <= 2 * (100 * bytes) + u && 2 * (100 * bytes) <= 2 * (n * u) + u)
        by (nonlinear_arith)
        requires
            2 * (n * (p * u)) <= 2 * (bytes * p * 100) + p * u,
            2 * (bytes * p * 100) <= 2 * (n * (p * u)) + p * u,
            p > 0,
    ;
}

/// A number of bytes is shown in the largest unit that it reaches: whole bytes
/// below a kibibyte, else hundredths of the unit, rounded to the nearest.
pub proof fn lemma_bytes_text(bytes: nat) -> (n: nat)
    requires
        bytes <= 0x10_0000_0000_0000,
    ensures
        bytes < 1024 ==> bytes_text(bytes) == decimal(bytes) + " B"@,
        1024 <= bytes < 0x10_0000 ==> bytes_text(bytes) == fixed(n, 2) + " KiB"@ && within_half(
            1024 * (n as int),
            100 * (bytes as int),
            1024,
        ),
        0x10_0000 <= bytes < 0x4000_0000 ==> bytes_text(bytes) == fixed(n, 2) + " MiB"@
            && within_half(0x10_0000 * (n as int), 100 * (bytes as int), 0x10_0000),
        0x4000_0000 <= bytes ==> bytes_text(bytes) == fixed(n, 2) + " GiB"@ && within_half(
            0x4000_0000 * (n as int),
            100 * (bytes as int),
            0x4000_0000,
        ),
{
    lemma2_to64();
    let b = rounded(bytes, 1, 0);
    if bytes >= 0x4000_0000 {
        lemma_hundredths(bytes, 30);
        scaled(shifted_down(b, 30), 100)
    } else if bytes >= 0x10_0000 {
        lemma_hundredths(bytes, 20);
        scaled(shifted_down(b, 20), 100)
    } else if bytes >= 0x400 {
        lemma_hundredths(bytes, 10);
        scaled(shifted_down(b, 10), 100)
    } else {
        0
    }
}

/// A quotient times the divisor comes to the dividend, but for half of the
/// quotient's last place.
pub proof fn lemma_quotient(a: Dyadic, b: Dyadic)
    requires
        b.mant > 0,
    ensures
        quotient(a, b).wf(),
        a.mant > 0 && quotient(a, b).exp <= a.exp - b.exp ==> within_half(
            (quotient(a, b).mant * b.mant) as int,
            (a.mant * pow2((a.exp - b.exp - quotient(a, b).exp) as nat)) as int,
            b.mant as int,
        ),
        a.mant > 0 && quotient(a, b).exp > a.exp - b.exp ==> within_half(
            (quotient(a, b).mant * (b.mant * pow2(
                (quotient(a, b).exp - (a.exp - b.exp)) as nat,
            ))) as int,
            a.mant as int,
            (b.mant * pow2((quotient(a, b).exp - (a.exp - b.exp)) as nat)) as int,
        ),
{
    lemma_rounded_nearest(a.mant, b.mant, a.exp - b.exp);
}

/// What is compared with itself is shown as one, with two decimal places; nothing
/// can be compared with zero.
pub proof fn lemma_quotient_text(a: Dyadic, b: Dyadic)
    ensures
        a.mant > 0 ==> quotient_text(a, a) == "1.00"@,
        b.mant == 0 && a.mant == 0 ==> quotient_text(a, b) == "NaN"@,
        b.mant == 0 && a.mant > 0 ==> quotient_text(a, b) == "inf"@,
        b.mant > 0 && a.mant == 0 ==> quotient_text(a, b) == "0.00"@,
{
    lemma2_to64();
    lemma2_to64_rest();
    reveal_with_fuel(places, 3);
    reveal_strlit("1.00");
    reveal_strlit("0.00");
    reveal_with_fuel(ten_to, 3);
    if a.mant > 0 {
        let m = a.mant;
        let one = 0x10_0000_0000_0000nat;
        assert(m * pow2(52) == one * m) by (nonlinear_arith)
            requires
                pow2(52) == one,
        ;
        assert(in_binade(m, m, -52));
        lemma_magnitude(m, m, -52);
        lemma_half_even_whole(one, m);
        assert(quotient(a, a) == (Dyadic { mant: one, exp: -52 }));
        lemma_half_even_whole(100, one);
        assert(scaled(quotient(a, a), 100) == 100);
        assert(decimal(1) =~= seq!['1']);
        assert(places(100, 2) =~= seq!['0', '0']);
        assert(fixed(100, 2) =~= "1.00"@);
    }
    if b.mant > 0 && a.mant == 0 {
        assert(quotient(a, b) == (Dyadic { mant: 0, exp: 0 }));
        assert(0 * pow2(0) == 0) by (nonlinear_arith);
        lemma_half_even_whole(0, 1);
        assert(scaled(quotient(a, b), 100) == 0);
        assert(decimal(0) =~= seq!['0']);
        assert(places(0, 2) =~= seq!['0', '0']);
        assert(fixed(0, 2) =~= "0.00"@);
    }
}

/// A peak that was measured is shown in bytes, one that was not as `n/a`.
pub proof fn lemma_mem_text(bytes: usize)
    ensures
        mem_text(Some(bytes)) == bytes_text(bytes as nat),
        mem_text(None) == "n/a"@,
{
}

/// Whole seconds are held exactly.
proof fn lemma_whole_seconds(s: nat)
    requires
        0 < s <= 0x10_0000_0000_0000,
    ensures
        seconds(s * 1_000_000_000) == rounded(s, 1, 0),
        seconds(s * 1_000_000_000).den() > 0,
        seconds(s * 1_000_000_000).num() == s * seconds(s * 1_000_000_000).den(),
{
    let r = rounded(s, 1, 0);
    assert((s * 1_000_000_000) / 1_000_000_000 == s && (s * 1_000_000_000) % 1_000_000_000 == 0);
    lemma_rounded_nearest(s, 1, 0);
    lemma_sum_with_zero(r);
    lemma_exact_whole(s);
    lemma2_to64();
    let p = pow2((-r.exp) as nat);
    lemma_pow2_pos((-r.exp) as nat);
    if r.exp == 0 {
        assert(r.mant * pow2(0) == s * p && s * 1 == s * p) by (nonlinear_arith)
            requires
                pow2(0) == 1,
                p == 1,
                r.mant == s * p,
        ;
    }
}

/// The whole minutes of whole seconds.
proof fn lemma_whole_minutes(s: nat)
    requires
        0 < s <= 0x8000_0000_0000,
    ensures
        rounded(rounded(s, 1, 0).mant, 60, rounded(s, 1, 0).exp).floor() == s / 60,
{
    let r = rounded(s, 1, 0);
    lemma_rounded_nearest(s, 1, 0);
    lemma_exact_whole(s);
    let q = rounded(r.mant, 60, r.exp);
    lemma_rounded_nearest(r.mant, 60, r.exp);
    if q.exp > r.exp {
        let p = pow2((q.exp - r.exp) as nat);
        lemma2_to64();
        if q.exp - r.exp > 1 {
            lemma_pow2_strictly_increases(1, (q.exp - r.exp) as nat);
        }
        assert(q.mant * (60 * p) >= 0x10_0000_0000_0000 * (60 * p)) by (nonlinear_arith)
            requires
                q.mant >= 0x10_0000_0000_0000,
                p >= 0,
        ;
        assert(false);
    }
    let d = (r.exp - q.exp) as nat;
    let p = pow2((-q.exp) as nat);
    lemma_pow2_adds((-r.exp) as nat, d);
    assert(r.mant * pow2(d) == s * p) by (nonlinear_arith)
        requires
            r.mant == s * pow2((-r.exp) as nat),
            p == pow2((-r.exp) as nat) * pow2(d),
    ;
    let (k, t) = (s / 60, s % 60);
    assert(s * p == 60 * (k * p) + t * p && s * p <= 0x8000_0000_0000 * p && (k + 1) * p == k * p
        + p && t * p <= 59 * p) by (nonlinear_arith)
        requires
            s == 60 * k + t,
            t <= 59,
            s <= 0x8000_0000_0000,
            p >= 0,
    ;
    assert(q.mant * 60 >= 60 * 0x10_0000_0000_0000);
    assert(p > 30);
    assert(t * p >= 0) by (nonlinear_arith)
        requires
            t >= 0,
            p >= 0,
    ;
    assert(k * p <= q.mant && q.mant < k * p + p);
    lemma2_to64();
    assert(q.exp < 0);
    assert(q.mant / p == k) by (nonlinear_arith)
        requires
            k * p <= q.mant < k * p + p,
            p > 0,
    ;
}

/// Whole seconds are shown in minutes and seconds from a minute on, in seconds from
/// a second on, and nothing as no milliseconds.
pub proof fn lemma_duration_text(s: nat)
    requires
        s <= 0x8000_0000_0000,
    ensures
        s >= 60 ==> duration_text(s * 1_000_000_000) == decimal(s / 60) + "m"@ + (if s % 60 < 10 {
            "0"@
        } else {
            ""@
        }) + fixed(10 * (s % 60), 1) + "s"@,
        1 <= s < 60 ==> duration_text(s * 1_000_000_000) == fixed(1000 * s, 3) + " s"@,
        s == 0 ==> duration_text(s * 1_000_000_000) == fixed(0, 2) + " ms"@,
{
    lemma2_to64();
    let f = seconds(s * 1_000_000_000);
    if s > 0 {
        lemma_whole_seconds(s);
        let d = f.den();
        assert(f.at_least(60) <==> s >= 60) by (nonlinear_arith)
            requires
                f.at_least(60) <==> 60 * d <= s * d,
                d > 0,
        ;
        assert(f.at_least(1)) by (nonlinear_arith)
            requires
                f.at_least(1) <==> 1 * d <= s * d,
                d > 0,
                s >= 1,
        ;
        if s >= 60 {
            lemma_whole_minutes(s);
            let t = s % 60;
            lemma_rest(s, d);
            assert(t * d * 10 == (10 * t) * d) by (nonlinear_arith);
            lemma_half_even_whole(10 * t, d);
            assert(scaled_rest(f, 60, 10) == 10 * t);
        } else {
            assert(s * d * 1000 == (1000 * s) * d) by (nonlinear_arith);
            lemma_half_even_whole(1000 * s, d);
            assert(scaled(f, 1000) == 1000 * s);
        }
    } else {
        let zero = Dyadic { mant: 0, exp: 0 };
        assert(0nat * 1_000_000_000 == 0);
        lemma_sum_with_zero(zero);
        assert(f == zero);
        assert(0 * pow2(0) == 0) by (nonlinear_arith);
        lemma_half_even_whole(0, 1);
        assert(zero.num() == 0 && zero.den() == 1);
        assert(scaled(rounded(0, 1, 0), 100) == 0);
    }
}

/// The rest of `s` times `d` after taking away 60 times `d`.
proof fn lemma_rest(s: nat, d: nat)
    requires
        d > 0,
    ensures
        (s * d) % (60 * d) == (s % 60) * d,
{
    let (k, t) = (s / 60, s % 60);
    assert(s * d == k * (60 * d) + t * d && 0 <= t * d && t * d < 60 * d) by (nonlinear_arith)
        requires
            s == 60 * k + t,
            0 <= t < 60,
            d > 0,
    ;
    lemma_fundamental_div_mod_converse(
        (s * d) as int,
        (60 * d) as int,
        k as int,
        (t * d) as int,
    );
}

} // verus!
