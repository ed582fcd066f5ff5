//! The linear congruential sequence that picks the leaves of a batch update.
//!
//! The multiplier is one more than a multiple of four and the increment is odd,
//! so the sequence runs through every 64-bit number before it repeats. That is
//! why the search for distinct leaves always ends.

use vstd::arithmetic::div_mod::{lemma_fundamental_div_mod, lemma_fundamental_div_mod_converse,
    lemma_mod_bound, lemma_small_mod};
use vstd::arithmetic::power2::{lemma2_to64, lemma2_to64_rest, lemma_pow2_pos, lemma_pow2_unfold,
    pow2};
use vstd::layout::unsigned_int_max_values;
use vstd::prelude::*;
use vstd::set_lib::{lemma_len_subset, lemma_subset_equality};

verus! {

/// Start of the sequence.
pub const SEED: u64 = 0x9E37_79B9_7F4A_7C15;

pub const MULTIPLIER: u64 = 6_364_136_223_846_793_005;

pub const INCREMENT: u64 = 1_442_695_040_888_963_407;

/// The number after `x`, before reduction to 64 bits.
pub open spec fn affine(x: int) -> int {
    MULTIPLIER * x + INCREMENT
}

/// Factor of `2^k` steps.
spec fn factor(k: nat) -> int
    decreases k,
{
    if k == 0 {
        MULTIPLIER as int
    } else {
        factor((k - 1) as nat) * factor((k - 1) as nat)
    }
}

/// Constant of `2^k` steps.
spec fn offset(k: nat) -> int
    decreases k,
{
    if k == 0 {
        INCREMENT as int
    } else {
        offset((k - 1) as nat) * (factor((k - 1) as nat) + 1)
    }
}

/// `n` steps from `x`, without reduction.
pub open spec fn steps(x: int, n: nat) -> int
    decreases n,
{
    if n == 0 {
        x
    } else {
        affine(steps(x, (n - 1) as nat))
    }
}

/// Steps add up.
proof fn lemma_steps_add(x: int, m: nat, n: nat)
    ensures
        steps(steps(x, m), n) == steps(x, m + n),
    decreases n,
{
    if n > 0 {
        lemma_steps_add(x, m, (n - 1) as nat);
    }
}

/// `2^k` steps are one multiplication and one addition.
proof fn lemma_steps_doubling(x: int, k: nat)
    ensures
        steps(x, pow2(k)) == factor(k) * x + offset(k),
    decreases k,
{
    lemma2_to64();
    if k == 0 {
        assert(steps(x, 1) == affine(steps(x, 0)));
    } else {
        let j = (k - 1) as nat;
        lemma_pow2_unfold(k);
        let y = steps(x, pow2(j));
        lemma_steps_doubling(x, j);
        lemma_steps_doubling(y, j);
        lemma_steps_add(x, pow2(j), pow2(j));
        let (a, c) = (factor(j), offset(j));
        assert(a * (a * x + c) + c == (a * a) * x + c * (a + 1)) by (nonlinear_arith);
    }
}

/// The factor of `2^k` steps is one more than a multiple of `2^(k + 2)`, and
/// the constant is an odd multiple of `2^k`.
proof fn lemma_factor_and_offset(k: nat) -> (uv: (int, int))
    ensures
        factor(k) == 1 + pow2(k + 2) * uv.0,
        offset(k) == pow2(k) * (2 * uv.1 + 1),
    decreases k,
{
    lemma2_to64();
    if k == 0 {
        let u = (MULTIPLIER - 1) / 4;
        let v = (INCREMENT - 1) / 2;
        assert(pow2(2) * u == 4 * u) by (nonlinear_arith)
            requires
                pow2(2) == 4,
        ;
        assert(pow2(0) * (2 * v + 1) == 2 * v + 1) by (nonlinear_arith)
            requires
                pow2(0) == 1,
        ;
        (u, v)
    } else {
        let j = (k - 1) as nat;
        let (u, v) = lemma_factor_and_offset(j);
        let p = pow2(j + 1) as int;
        lemma_pow2_unfold(j + 1);
        lemma_pow2_unfold(j + 2);
        lemma_pow2_unfold(k + 2);
        let q = pow2(j) as int;
        let (a, c) = (factor(j), offset(j));
        // a = 1 + 2 p u, c = q (2 v + 1), p = 2 q
        let u2 = u + p * u * u;
        assert(a * a == 1 + 4 * p * u2) by (nonlinear_arith)
            requires
                a == 1 + 2 * p * u,
                u2 == u + p * u * u,
        ;
        let v2 = v + p * u * v + q * u;
        assert(c * (a + 1) == p * (2 * v2 + 1)) by (nonlinear_arith)
            requires
                a == 1 + 2 * p * u,
                c == q * (2 * v + 1),
                p == 2 * q,
                v2 == v + p * u * v + q * u,
        ;
        assert(4 * p * u2 == pow2(k + 2) * u2) by (nonlinear_arith)
            requires
                4 * p == pow2(k + 2),
        ;
        (u2, v2)
    }
}

/// Adding a multiple of the modulus changes no remainder.
proof fn lemma_mod_plus_multiple(x: int, q: int, m: int)
    requires
        m > 0,
    ensures
        (x + m * q) % m == x % m,
{
    lemma_fundamental_div_mod(x, m);
    let r = x % m;
    let d = x / m;
    assert(x + m * q == m * (d + q) + r) by (nonlinear_arith)
        requires
            x == m * d + r,
    ;
    assert((d + q) * m == m * (d + q)) by (nonlinear_arith);
    lemma_fundamental_div_mod_converse(x + m * q, m, d + q, r);
}

/// Two numbers with equal remainders modulo `m` differ by a multiple of it.
proof fn lemma_mod_difference(x: int, y: int, m: int) -> (q: int)
    requires
        m > 0,
        x % m == y % m,
    ensures
        y == x + m * q,
{
    lemma_fundamental_div_mod(x, m);
    lemma_fundamental_div_mod(y, m);
    let q = y / m - x / m;
    assert(m * (y / m - x / m) == m * (y / m) - m * (x / m)) by (nonlinear_arith);
    q
}

/// From any start, every remainder modulo `2^k` comes up within `2^k` steps.
proof fn lemma_full_period(x: int, target: int, k: nat) -> (n: nat)
    ensures
        n < pow2(k),
        steps(x, n) % (pow2(k) as int) == target % (pow2(k) as int),
    decreases k,
{
    lemma2_to64();
    lemma_pow2_pos(k);
    if k == 0 {
        0
    } else {
        let j = (k - 1) as nat;
        let half = pow2(j) as int;
        let full = pow2(k) as int;
        lemma_pow2_unfold(k);
        lemma_pow2_pos(j);
        let n = lemma_full_period(x, target, j);
        let y = steps(x, n);
        let q = lemma_mod_difference(target, y, half);
        // y = target + half * q
        if q % 2 == 0 {
            let e = q / 2;
            assert(half * q == full * e) by (nonlinear_arith)
                requires
                    full == 2 * half,
                    q == 2 * e,
            ;
            lemma_mod_plus_multiple(target, e, full);
            n
        } else {
            // half steps more add an odd multiple of half
            let z = steps(x, n + pow2(j));
            lemma_steps_add(x, n, pow2(j));
            lemma_steps_doubling(y, j);
            let (u, v) = lemma_factor_and_offset(j);
            lemma_pow2_unfold(j + 1);
            lemma_pow2_unfold(j + 2);
            let d = q / 2;
            let t = u * y;
            let e = d + v + 1 + 2 * t;
            assert(factor(j) * y == y + 4 * (half * t)) by (nonlinear_arith)
                requires
                    factor(j) == 1 + pow2(j + 2) * u,
                    pow2(j + 2) == 4 * half,
                    t == u * y,
            ;
            assert(half * q == 2 * (half * d) + half) by (nonlinear_arith)
                requires
                    q == 2 * d + 1,
            ;
            assert(half * (2 * v + 1) == 2 * (half * v) + half) by (nonlinear_arith);
            assert(full * e == 2 * (half * d) + 2 * (half * v) + 2 * half + 4 * (half * t))
                by (nonlinear_arith)
                requires
                    full == 2 * half,
                    e == d + v + 1 + 2 * t,
            ;
            assert(z == target + full * e);
            lemma_mod_plus_multiple(target, e, full);
            n + pow2(j)
        }
    }
}

/// Numbers of 64 bits.
pub open spec fn word_count() -> int {
    0x1_0000_0000_0000_0000
}

proof fn lemma_affine_mod(x: int, y: int)
    requires
        x % word_count() == y % word_count(),
    ensures
        affine(x) % word_count() == affine(y) % word_count(),
{
    let m = word_count();
    let q = lemma_mod_difference(x, y, m);
    let a = MULTIPLIER as int;
    assert(a * (x + m * q) + INCREMENT == (a * x + INCREMENT) + m * (a * q)) by (nonlinear_arith);
    lemma_mod_plus_multiple(affine(x), a * q, m);
}

/// Steps from equal remainders lead to equal remainders.
proof fn lemma_steps_mod(x: int, y: int, n: nat)
    requires
        x % word_count() == y % word_count(),
    ensures
        steps(x, n) % word_count() == steps(y, n) % word_count(),
    decreases n,
{
    if n > 0 {
        lemma_steps_mod(x, y, (n - 1) as nat);
        lemma_affine_mod(steps(x, (n - 1) as nat), steps(y, (n - 1) as nat));
    }
}

/// The number after `x`.
fn next(x: u64) -> (y: u64)
    ensures
        y == affine(x as int) % word_count(),
{
    let product = x.wrapping_mul(MULTIPLIER);
    proof {
        let m = word_count();
        let p = MULTIPLIER * x;
        assert(x * MULTIPLIER == p) by (nonlinear_arith)
            requires
                p == MULTIPLIER * x,
        ;
        lemma_mod_bound(p, m);
        lemma_small_mod(product as nat, m as nat);
        let q = lemma_mod_difference(p, product as int, m);
        assert(product + INCREMENT == (p + INCREMENT) + m * q);
        lemma_mod_plus_multiple(p + INCREMENT, q, m);
    }
    product.wrapping_add(INCREMENT)
}

/// A 64-bit number as a position holds it: the number itself, or its lower half
/// where positions have 32 bits.
pub open spec fn as_position(draw: int) -> int {
    if usize::BITS == 32 {
        draw % 0x1_0000_0000
    } else {
        draw
    }
}

/// The leaf that a number of the sequence picks out of `n`: its upper 48 bits,
/// as a position holds them, reduced.
pub open spec fn leaf_of(x: int, n: nat) -> int {
    as_position((x % word_count()) / 65536) % (n as int)
}

/// The leaf that step `i` of the sequence picks out of `n`.
pub open spec fn pick(i: nat, n: nat) -> int {
    leaf_of(steps(SEED as int, i), n)
}

/// Strictly ascending.
pub open spec fn ascending(s: Seq<usize>) -> bool {
    forall|i: int, j: int| 0 <= i < j < s.len() ==> s[i] < s[j]
}

/// One of the first `m` steps picks `v` out of `n` leaves.
pub open spec fn picks(v: int, n: nat, m: nat) -> bool {
    exists|t: nat| 1 <= t <= m && #[trigger] pick(t, n) == v
}

pub open spec fn holds_leaf(s: Seq<usize>, v: int) -> bool {
    exists|i: int| 0 <= i < s.len() && #[trigger] s[i] == v
}

/// `s` holds what the first `m` steps pick out of `n` leaves, and nothing else.
pub open spec fn picked(s: Seq<usize>, n: nat, m: nat) -> bool {
    &&& forall|i: int| 0 <= i < s.len() ==> picks(#[trigger] s[i] as int, n, m)
    &&& forall|t: nat| 1 <= t <= m ==> holds_leaf(s, #[trigger] pick(t, n))
}

/// `s` holds the first `k` distinct leaves that the sequence picks out of `n`.
pub open spec fn is_choice(s: Seq<usize>, n: nat, k: nat) -> bool {
    &&& s.len() == k
    &&& ascending(s)
    &&& exists|m: nat| picked(s, n, m)
}

/// The first `k` distinct leaves that the sequence picks out of `n`, in
/// ascending order.
pub open spec fn updated_leaves(n: nat, k: nat) -> Seq<usize> {
    choose|s: Seq<usize>| is_choice(s, n, k)
}

/// Two ascending rows of the same numbers are equal.
pub proof fn lemma_ascending_unique(a: Seq<usize>, b: Seq<usize>)
    requires
        ascending(a),
        ascending(b),
        forall|v: usize| #[trigger] a.contains(v) <==> b.contains(v),
    ensures
        a == b,
    decreases a.len(),
{
    if a.len() == 0 {
        if b.len() > 0 {
            assert(b.contains(b[0]));
            assert(a.contains(b[0]));
        }
        assert(a =~= b);
    } else {
        assert(a.contains(a.last()));
        assert(b.len() > 0);
        assert(b.contains(b.last()));
        assert(a.contains(b.last()));
        let i = choose|i: int| 0 <= i < a.len() && a[i] == b.last();
        let j = choose|j: int| 0 <= j < b.len() && b[j] == a.last();
        assert(a[i] <= a.last());
        assert(b[j] <= b.last());
        assert(a.last() == b.last());
        let (c, d) = (a.drop_last(), b.drop_last());
        assert forall|v: usize| #[trigger] c.contains(v) <==> d.contains(v) by {
            if c.contains(v) {
                let x = choose|x: int| 0 <= x < c.len() && c[x] == v;
                assert(a[x] == v && a[x] < a.last());
                assert(a.contains(v));
                let y = choose|y: int| 0 <= y < b.len() && b[y] == v;
                assert(d[y] == v);
            }
            if d.contains(v) {
                let x = choose|x: int| 0 <= x < d.len() && d[x] == v;
                assert(b[x] == v && b[x] < b.last());
                assert(b.contains(v));
                assert(a.contains(v));
                let y = choose|y: int| 0 <= y < a.len() && a[y] == v;
                assert(c[y] == v);
            }
        }
        lemma_ascending_unique(c, d);
        assert(a =~= c.push(a.last()));
        assert(b =~= d.push(b.last()));
    }
}

/// An ascending row holds nothing twice.
proof fn lemma_ascending_distinct(s: Seq<usize>)
    requires
        ascending(s),
    ensures
        s.no_duplicates(),
        s.to_set().len() == s.len(),
{
    assert forall|i: int, j: int| 0 <= i < s.len() && 0 <= j < s.len() && i != j implies s[i]
        != s[j] by {
        if i < j {
            assert(s[i] < s[j]);
        } else {
            assert(s[j] < s[i]);
        }
    }
    s.unique_seq_to_set();
}

/// What fewer steps pick, more steps pick as well.
proof fn lemma_picked_within(a: Seq<usize>, b: Seq<usize>, n: nat, m: nat, more: nat)
    requires
        picked(a, n, m),
        picked(b, n, more),
        m <= more,
    ensures
        a.to_set().subset_of(b.to_set()),
{
    assert forall|v: usize| a.to_set().contains(v) implies b.to_set().contains(v) by {
        let i = choose|i: int| 0 <= i < a.len() && a[i] == v;
        assert(picks(a[i] as int, n, m));
        let t = choose|t: nat| 1 <= t <= m && #[trigger] pick(t, n) == a[i];
        assert(holds_leaf(b, pick(t, n)));
        let j = choose|j: int| 0 <= j < b.len() && #[trigger] b[j] == pick(t, n);
        assert(b[j] == v);
        assert(b.contains(v));
    }
}

/// Which leaves are picked depends on the number of leaves and on how many are
/// asked for, and on nothing else.
pub proof fn lemma_choice_is_unique(a: Seq<usize>, b: Seq<usize>, n: nat, k: nat)
    requires
        is_choice(a, n, k),
        is_choice(b, n, k),
    ensures
        a == b,
        a == updated_leaves(n, k),
{
    lemma_same_choice(a, b, n, k);
    lemma_same_choice(a, updated_leaves(n, k), n, k);
}

proof fn lemma_same_choice(a: Seq<usize>, b: Seq<usize>, n: nat, k: nat)
    requires
        is_choice(a, n, k),
        is_choice(b, n, k),
    ensures
        a == b,
{
    let ma = choose|m: nat| picked(a, n, m);
    let mb = choose|m: nat| picked(b, n, m);
    lemma_ascending_distinct(a);
    lemma_ascending_distinct(b);
    if ma <= mb {
        lemma_picked_within(a, b, n, ma, mb);
        lemma_subset_equality(a.to_set(), b.to_set());
    } else {
        lemma_picked_within(b, a, n, mb, ma);
        lemma_subset_equality(b.to_set(), a.to_set());
    }
    assert forall|v: usize| #[trigger] a.contains(v) <==> b.contains(v) by {
        assert(a.to_set().contains(v) <==> b.to_set().contains(v));
    }
    lemma_ascending_unique(a, b);
}

/// The sequence: each number is 6364136223846793005 times the one before plus
/// 1442695040888963407, modulo `2^64`, and a leaf is picked by the number without
/// its last 16 binary digits, modulo the number of leaves.
pub proof fn lemma_pick(i: nat, n: nat)
    requires
        n > 0,
    ensures
        steps(SEED as int, 0) == 0x9E37_79B9_7F4A_7C15,
        steps(SEED as int, i + 1) == 6_364_136_223_846_793_005 * steps(SEED as int, i)
            + 1_442_695_040_888_963_407,
        0 <= pick(i, n) < n,
        usize::BITS == 64 ==> (pick(i, n) - (steps(SEED as int, i) % 0x1_0000_0000_0000_0000)
            / 0x1_0000) % (n as int) == 0,
{
    let x = as_position((steps(SEED as int, i) % word_count()) / 65536);
    lemma_mod_bound(x, n as int);
    lemma_fundamental_div_mod(x, n as int);
    let q = x / (n as int);
    lemma_mod_plus_multiple(0, -q, n as int);
    assert(pick(i, n) - x == n * (-q)) by (nonlinear_arith)
        requires
            x == n * q + pick(i, n),
    ;
    lemma_small_mod(0, n);
}

/// Out of a divisor of the number of leaves, a step picks the remainder of the leaf
/// that it picks out of all.
pub proof fn lemma_pick_of_divisor(i: nat, n: nat, d: nat)
    requires
        n > 0,
        d > 0,
    ensures
        pick(i, n * d) % (n as int) == pick(i, n),
{
    let x = as_position((steps(SEED as int, i) % word_count()) / 65536);
    let m = (n * d) as int;
    assert(m > 0) by (nonlinear_arith)
        requires
            m == n * d,
            n > 0,
            d > 0,
    ;
    lemma_fundamental_div_mod(x, m);
    let (q, r) = (x / m, x % m);
    assert(x == r + n * (d * q)) by (nonlinear_arith)
        requires
            x == m * q + r,
            m == n * d,
    ;
    lemma_mod_plus_multiple(r, d * q, n as int);
}

/// The first leaf that is picked is among those chosen, and every leaf chosen is one
/// that is picked.
pub proof fn lemma_chosen_are_picked(s: Seq<usize>, n: nat, k: nat)
    requires
        is_choice(s, n, k),
        k >= 1,
    ensures
        s.len() == k,
        exists|i: int| 0 <= i < s.len() && #[trigger] s[i] == pick(1, n),
        forall|i: int|
            0 <= i < s.len() ==> exists|t: nat|
                t >= 1 && #[trigger] pick(t, n) == (#[trigger] s[i]) as int,
{
    let m = choose|m: nat| picked(s, n, m);
    assert(picks(s[0] as int, n, m));
    assert(holds_leaf(s, pick(1, n)));
    assert forall|i: int| 0 <= i < s.len() implies exists|t: nat|
        t >= 1 && #[trigger] pick(t, n) == (#[trigger] s[i]) as int by {
        assert(picks(s[i] as int, n, m));
    }
}

/// Who asks for more leaves gets those of who asks for fewer as well.
pub proof fn lemma_more_leaves(a: Seq<usize>, b: Seq<usize>, n: nat, k: nat, more: nat)
    requires
        is_choice(a, n, k),
        is_choice(b, n, more),
        k <= more,
    ensures
        forall|v: usize| a.contains(v) ==> b.contains(v),
{
    let ma = choose|m: nat| picked(a, n, m);
    let mb = choose|m: nat| picked(b, n, m);
    lemma_ascending_distinct(a);
    lemma_ascending_distinct(b);
    if ma <= mb {
        lemma_picked_within(a, b, n, ma, mb);
    } else {
        lemma_picked_within(b, a, n, mb, ma);
        lemma_len_subset(b.to_set(), a.to_set());
        lemma_subset_equality(b.to_set(), a.to_set());
    }
    assert forall|v: usize| a.contains(v) implies b.contains(v) by {
        assert(a.to_set().contains(v) && b.to_set().contains(v));
    }
}

/// An ascending row of fewer than `bound` numbers misses one below `bound`.
proof fn lemma_missing(s: Seq<usize>, bound: nat) -> (r: int)
    requires
        ascending(s),
        s.len() < bound,
    ensures
        0 <= r < bound,
        forall|i: int| 0 <= i < s.len() ==> s[i] != r,
{
    lemma_missing_from(s, 0)
}

proof fn lemma_missing_from(s: Seq<usize>, from: int) -> (r: int)
    requires
        ascending(s),
        0 <= from <= s.len(),
        forall|i: int| 0 <= i < from ==> s[i] == i,
    ensures
        0 <= r <= s.len(),
        forall|i: int| 0 <= i < s.len() ==> s[i] != r,
    decreases s.len() - from,
{
    if from == s.len() {
        from
    } else if s[from] == from {
        lemma_missing_from(s, from + 1)
    } else {
        if from > 0 {
            assert(s[from - 1] < s[from]);
        }
        assert forall|i: int| 0 <= i < s.len() implies s[i] != from by {
            if i > from {
                assert(s[from] < s[i]);
            }
        }
        from
    }
}

/// A number that fits into a position is held as it is.
proof fn lemma_position_fits(r: int)
    requires
        0 <= r <= usize::MAX,
    ensures
        as_position(r) == r,
{
    unsigned_int_max_values();
    lemma2_to64();
    lemma2_to64_rest();
    if usize::BITS == 32 {
        lemma_small_mod(r as nat, 0x1_0000_0000);
    }
}

/// From any number, some step picks a leaf that is not in the row yet.
proof fn lemma_new_leaf_ahead(x: u64, s: Seq<usize>, n: nat) -> (left: nat)
    requires
        ascending(s),
        s.len() < n <= usize::MAX,
        s.len() < 0x1_0000_0000_0000,
    ensures
        left >= 1,
        forall|i: int| 0 <= i < s.len() ==> s[i] != leaf_of(steps(x as int, left), n),
{
    let bound: nat = if n < 0x1_0000_0000_0000 {
        n
    } else {
        0x1_0000_0000_0000
    };
    let r = lemma_missing(s, bound);
    let target = r * 65536;
    let m = word_count();
    lemma2_to64_rest();
    assert(pow2(64) == m);
    let t = lemma_full_period(affine(x as int), target, 64);
    lemma_steps_add(x as int, 1, t);
    assert(steps(x as int, 1) == affine(steps(x as int, 0)));
    let left = t + 1;
    assert(steps(x as int, left) == steps(affine(x as int), t));
    lemma_small_mod(target as nat, m as nat);
    assert(target / 65536 == r);
    lemma_position_fits(r);
    lemma_small_mod(r as nat, n);
    left
}

/// Puts a leaf into an ascending row, unless it is there already.
fn insert_leaf(s: &mut Vec<usize>, v: usize) -> (new: bool)
    requires
        ascending(old(s)@),
    ensures
        ascending(final(s)@),
        new == !holds_leaf(old(s)@, v as int),
        !new ==> final(s)@ == old(s)@,
        new ==> final(s)@.len() == old(s)@.len() + 1,
        forall|x: int| #[trigger]
            holds_leaf(final(s)@, x) <==> (holds_leaf(old(s)@, x) || x == v),
{
    let ghost before = s@;
    let mut at: usize = 0;
    while at < s.len() && s[at] < v
        invariant
            s@ == before,
            at <= s@.len(),
            forall|i: int| 0 <= i < at ==> #[trigger] s@[i] < v,
        decreases s@.len() - at,
    {
        at = at + 1;
    }
    if at < s.len() && s[at] == v {
        assert(s@[at as int] == v);
        return false;
    }
    assert(!holds_leaf(before, v as int)) by {
        assert forall|i: int| 0 <= i < before.len() implies before[i] != v by {
            if i > at {
                assert(before[at as int] < before[i]);
            }
        }
    }
    s.insert(at, v);
    proof {
        assert forall|i: int, j: int| 0 <= i < j < s@.len() implies s@[i] < s@[j] by {
            if j > at && at < before.len() {
                if j - 1 > at {
                    assert(before[at as int] < before[j - 1]);
                }
            }
        }
        assert forall|x: int| #[trigger] holds_leaf(s@, x) <==> (holds_leaf(before, x) || x
            == v) by {
            if holds_leaf(s@, x) {
                let i = choose|i: int| 0 <= i < s@.len() && #[trigger] s@[i] == x;
                if i < at {
                    assert(before[i] == x);
                } else if i > at {
                    assert(before[i - 1] == x);
                }
            }
            if holds_leaf(before, x) {
                let i = choose|i: int| 0 <= i < before.len() && #[trigger] before[i] == x;
                if i < at {
                    assert(s@[i] == x);
                } else {
                    assert(s@[i + 1] == x);
                }
            }
            if x == v {
                assert(s@[at as int] == x);
            }
        }
    }
    true
}

/// A number as a position holds it.
fn to_position(draw: u64) -> (pos: usize)
    ensures
        pos == as_position(draw as int),
{
    proof {
        lemma_to_position(draw);
    }
    #[verifier::truncate]
    (draw as usize)
}

proof fn lemma_to_position(draw: u64)
    ensures
        (draw as usize) as int == as_position(draw as int),
{
    assert(usize::BITS == 32 ==> (draw as usize) as u64 == draw % 0x1_0000_0000) by (bit_vector);
    assert(usize::BITS == 64 ==> (draw as usize) as u64 == draw) by (bit_vector);
}

/// Picks `k` distinct leaves out of `n`: the first `k` that the sequence comes
/// to, in ascending order.
pub fn pick_leaves(n: usize, k: usize) -> (chosen: Vec<usize>)
    requires
        k <= n,
        k <= 0x1_0000_0000_0000u64,
    ensures
        chosen@.len() == k,
        ascending(chosen@),
        forall|i: int| 0 <= i < k ==> #[trigger] chosen@[i] < n,
        exists|m: nat| picked(chosen@, n as nat, m),
        chosen@ == updated_leaves(n as nat, k as nat),
{
    let mut chosen: Vec<usize> = Vec::new();
    let mut x: u64 = SEED;
    let ghost mut m: nat = 0;
    let ghost mut left: nat = 0;
    proof {
        lemma_small_mod(SEED as nat, word_count() as nat);
        if k > 0 {
            left = lemma_new_leaf_ahead(x, chosen@, n as nat);
        }
    }
    while chosen.len() < k
        invariant
            k <= n,
            k <= 0x1_0000_0000_0000u64,
            chosen@.len() <= k,
            ascending(chosen@),
            forall|i: int| 0 <= i < chosen@.len() ==> #[trigger] chosen@[i] < n,
            picked(chosen@, n as nat, m),
            x == steps(SEED as int, m) % word_count(),
            chosen@.len() < k ==> left >= 1 && !holds_leaf(
                chosen@,
                leaf_of(steps(x as int, left), n as nat),
            ),
        decreases k - chosen@.len(), left,
    {
        let ghost before = chosen@;
        let ghost was = x;
        x = next(x);
        proof {
            lemma_steps_add(SEED as int, m, 1);
            assert(steps(steps(SEED as int, m), 1) == affine(steps(steps(SEED as int, m), 0)));
            lemma_small_mod(was as nat, word_count() as nat);
            lemma_affine_mod(was as int, steps(SEED as int, m));
            lemma_small_mod(x as nat, word_count() as nat);
            // the leaf ahead is one step nearer
            lemma_steps_add(was as int, 1, (left - 1) as nat);
            assert(steps(was as int, 1) == affine(steps(was as int, 0)));
            lemma_steps_mod(x as int, affine(was as int), (left - 1) as nat);
        }
        let leaf = to_position(x / 65536) % n;
        let new = insert_leaf(&mut chosen, leaf);
        proof {
            let t = m + 1;
            assert(leaf == pick(t, n as nat));
            assert forall|i: int| 0 <= i < chosen@.len() implies picks(
                #[trigger] chosen@[i] as int,
                n as nat,
                t,
            ) && chosen@[i] < n by {
                assert(holds_leaf(chosen@, chosen@[i] as int));
                if chosen@[i] != leaf {
                    let j = choose|j: int| 0 <= j < before.len() && #[trigger] before[j]
                        == chosen@[i] as int;
                    assert(picks(before[j] as int, n as nat, m));
                    let s = choose|s: nat| 1 <= s <= m && #[trigger] pick(s, n as nat)
                        == chosen@[i];
                    assert(pick(s, n as nat) == chosen@[i]);
                } else {
                    assert(pick(t, n as nat) == chosen@[i]);
                }
            }
            assert forall|s: nat| 1 <= s <= t implies holds_leaf(
                chosen@,
                #[trigger] pick(s, n as nat),
            ) by {
                if s <= m {
                    assert(holds_leaf(before, pick(s, n as nat)));
                }
            }
            m = t;
            if new {
                if chosen@.len() < k {
                    left = lemma_new_leaf_ahead(x, chosen@, n as nat);
                }
            } else {
                left = (left - 1) as nat;
                if left == 0 {
                    assert(leaf_of(x as int, n as nat) == leaf);
                }
            }
        }
    }
    proof {
        assert(is_choice(chosen@, n as nat, k as nat));
        lemma_choice_is_unique(chosen@, chosen@, n as nat, k as nat);
    }
    chosen
}

} // verus!
