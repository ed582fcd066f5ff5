//! Building text.

use vstd::arithmetic::div_mod::{lemma_fundamental_div_mod, lemma_fundamental_div_mod_converse};
use vstd::prelude::*;
use vstd::string::StrSliceExecFns;

verus! {

/// `String::push` appends the character.
pub assume_specification[ String::push ](s: &mut String, c: char)
    ensures
        final(s)@ == old(s)@.push(c),
;

/// `String::push_str` appends the characters of the slice, in order.
pub assume_specification[ String::push_str ](s: &mut String, tail: &str)
    ensures
        final(s)@ == old(s)@ + tail@,
;

/// The character of a decimal digit.
pub open spec fn digit_char(d: nat) -> char {
    if d == 0 {
        '0'
    } else if d == 1 {
        '1'
    } else if d == 2 {
        '2'
    } else if d == 3 {
        '3'
    } else if d == 4 {
        '4'
    } else if d == 5 {
        '5'
    } else if d == 6 {
        '6'
    } else if d == 7 {
        '7'
    } else if d == 8 {
        '8'
    } else {
        '9'
    }
}

/// A number in decimal.
pub open spec fn decimal(n: nat) -> Seq<char>
    decreases n,
{
    if n < 10 {
        seq![digit_char(n)]
    } else {
        decimal(n / 10).push(digit_char(n % 10))
    }
}

fn to_digit_char(d: u128) -> (c: char)
    requires
        d < 10,
    ensures
        c == digit_char(d as nat),
{
    if d == 0 {
        '0'
    } else if d == 1 {
        '1'
    } else if d == 2 {
        '2'
    } else if d == 3 {
        '3'
    } else if d == 4 {
        '4'
    } else if d == 5 {
        '5'
    } else if d == 6 {
        '6'
    } else if d == 7 {
        '7'
    } else if d == 8 {
        '8'
    } else {
        '9'
    }
}

/// Appends a number in decimal.
pub fn push_decimal(s: &mut String, n: u128)
    ensures
        final(s)@ == old(s)@ + decimal(n as nat),
    decreases n,
{
    let ghost before = s@;
    if n >= 10 {
        push_decimal(s, n / 10);
    }
    s.push(to_digit_char(n % 10));
    assert(s@ =~= before + decimal(n as nat));
}

/// A power of ten.
pub open spec fn ten_to(p: nat) -> nat
    decreases p,
{
    if p == 0 {
        1
    } else {
        10 * ten_to((p - 1) as nat)
    }
}

/// The last `p` decimal digits of a number.
pub open spec fn places(n: nat, p: nat) -> Seq<char>
    decreases p,
{
    if p == 0 {
        Seq::empty()
    } else {
        places(n / 10, (p - 1) as nat).push(digit_char(n % 10))
    }
}

/// A number of `10^p`-ths, with `p` decimal places.
pub open spec fn fixed(n: nat, p: nat) -> Seq<char> {
    decimal(n / ten_to(p)).push('.') + places(n, p)
}

/// Appends the last `p` decimal digits of a number.
fn push_places(s: &mut String, n: u128, p: u32)
    ensures
        final(s)@ == old(s)@ + places(n as nat, p as nat),
    decreases p,
{
    let ghost before = s@;
    if p > 0 {
        push_places(s, n / 10, p - 1);
        s.push(to_digit_char(n % 10));
    }
    assert(s@ =~= before + places(n as nat, p as nat));
}

/// Appends a number of `10^p`-ths, with `p` decimal places.
pub fn push_fixed(s: &mut String, n: u128, p: u32)
    requires
        p <= 6,
    ensures
        final(s)@ == old(s)@ + fixed(n as nat, p as nat),
{
    let ghost before = s@;
    let mut unit: u128 = 1;
    for i in 0..p
        invariant
            p <= 6,
            unit == ten_to(i as nat),
            i == 0 ==> unit <= 1,
            i <= 1 ==> unit <= 10,
            i <= 2 ==> unit <= 100,
            i <= 3 ==> unit <= 1_000,
            i <= 4 ==> unit <= 10_000,
            i <= 5 ==> unit <= 100_000,
            0 < unit <= 1_000_000,
    {
        unit = 10 * unit;
    }
    push_decimal(s, n / unit);
    s.push('.');
    push_places(s, n, p);
    assert(s@ =~= before + fixed(n as nat, p as nat));
}

/// The number that a row of decimal digits writes.
pub open spec fn reads_as(s: Seq<char>) -> int
    decreases s.len(),
{
    if s.len() == 0 {
        0
    } else {
        10 * reads_as(s.drop_last()) + (s.last() as int - 48)
    }
}

/// A number in decimal, read again, is the number. Only digits stand in it, and
/// none of them is a zero in front of others.
pub proof fn lemma_decimal_reads(n: nat)
    ensures
        reads_as(decimal(n)) == n,
        decimal(n).len() >= 1,
        forall|i: int| 0 <= i < decimal(n).len() ==> '0' <= #[trigger] decimal(n)[i] <= '9',
        n > 0 ==> decimal(n)[0] != '0',
    decreases n,
{
    let s = decimal(n);
    if n < 10 {
        assert(s.drop_last() =~= Seq::empty());
        assert(reads_as(s.drop_last()) == 0);
    } else {
        lemma_decimal_reads(n / 10);
        assert(s.drop_last() =~= decimal(n / 10));
        assert(s[0] == decimal(n / 10)[0]);
        assert forall|i: int| 0 <= i < s.len() implies '0' <= #[trigger] s[i] <= '9' by {
            if i < s.len() - 1 {
                assert(s[i] == decimal(n / 10)[i]);
            }
        }
    }
}

/// Different numbers are written differently.
pub proof fn lemma_decimal_differs(a: nat, b: nat)
    requires
        a != b,
    ensures
        decimal(a) != decimal(b),
{
    lemma_decimal_reads(a);
    lemma_decimal_reads(b);
}

/// Digits that follow others move them up by their number.
proof fn lemma_reads_concat(a: Seq<char>, b: Seq<char>)
    ensures
        reads_as(a + b) == reads_as(a) * ten_to(b.len()) + reads_as(b),
    decreases b.len(),
{
    if b.len() == 0 {
        assert(a + b =~= a);
        assert(reads_as(a) * 1 == reads_as(a));
    } else {
        let c = b.drop_last();
        lemma_reads_concat(a, c);
        assert((a + b).drop_last() =~= a + c);
        let (x, t) = (reads_as(a), ten_to(c.len()) as int);
        assert(10 * (x * t) == x * (10 * t)) by (nonlinear_arith);
    }
}

proof fn lemma_places_read(n: nat, p: nat)
    ensures
        places(n, p).len() == p,
        reads_as(places(n, p)) == n % ten_to(p),
        ten_to(p) > 0,
        forall|i: int| 0 <= i < p ==> '0' <= #[trigger] places(n, p)[i] <= '9',
    decreases p,
{
    if p > 0 {
        let m = (p - 1) as nat;
        lemma_places_read(n / 10, m);
        let s = places(n, p);
        assert(s.drop_last() =~= places(n / 10, m));
        assert forall|i: int| 0 <= i < p implies '0' <= #[trigger] s[i] <= '9' by {
            if i < m {
                assert(s[i] == places(n / 10, m)[i]);
            }
        }
        let t = ten_to(m) as int;
        lemma_fundamental_div_mod(n as int / 10, t);
        let (q, r) = ((n as int / 10) / t, (n as int / 10) % t);
        assert(10 * (t * q + r) + n as int % 10 == (10 * t) * q + (10 * r + n as int % 10))
            by (nonlinear_arith);
        assert(q * (10 * t) == (10 * t) * q) by (nonlinear_arith);
        lemma_fundamental_div_mod_converse(n as int, 10 * t, q, 10 * r + n as int % 10);
    }
}

/// A number with `p` decimal places has its point before the last `p` digits, and
/// its digits together write the number of `10^p`-ths.
pub proof fn lemma_fixed_reads(n: nat, p: nat)
    ensures
        fixed(n, p).len() >= p + 2,
        fixed(n, p)[fixed(n, p).len() - p - 1] == '.',
        reads_as(
            fixed(n, p).take(fixed(n, p).len() - p - 1) + fixed(n, p).skip(
                fixed(n, p).len() - p,
            ),
        ) == n,
        reads_as(fixed(n, p).take(fixed(n, p).len() - p - 1)) == n / ten_to(p),
{
    let s = fixed(n, p);
    let whole = decimal(n / ten_to(p));
    lemma_decimal_reads(n / ten_to(p));
    lemma_places_read(n, p);
    assert(s.take(s.len() - p - 1) =~= whole);
    assert(s.skip(s.len() - p) =~= places(n, p));
    lemma_reads_concat(whole, places(n, p));
    lemma_fundamental_div_mod(n as int, ten_to(p) as int);
    let (q, t) = (n as int / ten_to(p) as int, ten_to(p) as int);
    assert(q * t == t * q) by (nonlinear_arith);
}

/// `n` spaces.
pub open spec fn spaces(n: int) -> Seq<char> {
    Seq::new(
        if n < 0 {
            0
        } else {
            n as nat
        },
        |i: int| ' ',
    )
}

/// Text brought to a width with spaces before it.
pub open spec fn right_aligned(s: Seq<char>, width: nat) -> Seq<char> {
    spaces(width - s.len()) + s
}

/// Text brought to a width with spaces behind it.
pub open spec fn left_aligned(s: Seq<char>, width: nat) -> Seq<char> {
    s + spaces(width - s.len())
}

/// Text that is brought to a width has the width, or its own length where it is
/// longer; it stands at its end or at its beginning, and only spaces are added.
pub proof fn lemma_aligned(s: Seq<char>, width: nat)
    ensures
        s.len() <= width ==> right_aligned(s, width).len() == width && left_aligned(
            s,
            width,
        ).len() == width,
        s.len() >= width ==> right_aligned(s, width) == s && left_aligned(s, width) == s,
        s.is_suffix_of(right_aligned(s, width)),
        s.is_prefix_of(left_aligned(s, width)),
        forall|i: int|
            0 <= i < right_aligned(s, width).len() - s.len() ==> #[trigger] right_aligned(
                s,
                width,
            )[i] == ' ',
        forall|i: int|
            s.len() <= i < left_aligned(s, width).len() ==> #[trigger] left_aligned(s, width)[i]
                == ' ',
{
    let (r, l) = (right_aligned(s, width), left_aligned(s, width));
    assert(r.subrange(r.len() - s.len(), r.len() as int) =~= s);
    assert(l.subrange(0, s.len() as int) =~= s);
    if s.len() >= width {
        assert(r =~= s);
        assert(l =~= s);
    }
}

fn push_spaces(s: &mut String, n: usize)
    ensures
        final(s)@ == old(s)@ + spaces(n as int),
{
    let ghost before = s@;
    assert(before =~= before + spaces(0));
    for i in 0..n
        invariant
            s@ == before + spaces(i as int),
    {
        s.push(' ');
        assert(s@ =~= before + spaces(i + 1));
    }
}

/// Appends text brought to a width with spaces before it.
pub fn push_right(s: &mut String, part: &str, width: usize)
    ensures
        final(s)@ == old(s)@ + right_aligned(part@, width as nat),
{
    let ghost before = s@;
    let len = part.unicode_len();
    if len < width {
        push_spaces(s, width - len);
    } else {
        assert(spaces(width - len) =~= Seq::empty());
    }
    s.push_str(part);
    assert(s@ =~= before + right_aligned(part@, width as nat));
}

/// Appends text brought to a width with spaces behind it.
pub fn push_left(s: &mut String, part: &str, width: usize)
    ensures
        final(s)@ == old(s)@ + left_aligned(part@, width as nat),
{
    let ghost before = s@;
    let len = part.unicode_len();
    s.push_str(part);
    if len < width {
        push_spaces(s, width - len);
    } else {
        assert(spaces(width - len) =~= Seq::empty());
    }
    assert(s@ =~= before + left_aligned(part@, width as nat));
}

/// Appends a number in decimal, brought to a width with spaces before it.
pub fn push_decimal_right(s: &mut String, n: u128, width: usize)
    ensures
        final(s)@ == old(s)@ + right_aligned(decimal(n as nat), width as nat),
{
    let mut part = String::new();
    push_decimal(&mut part, n);
    assert(part@ =~= decimal(n as nat));
    push_right(s, part.as_str(), width);
}

/// The character of a hexadecimal digit.
pub open spec fn hex_char(d: nat) -> char {
    if d < 10 {
        digit_char(d)
    } else if d == 10 {
        'a'
    } else if d == 11 {
        'b'
    } else if d == 12 {
        'c'
    } else if d == 13 {
        'd'
    } else if d == 14 {
        'e'
    } else {
        'f'
    }
}

/// Bytes in hexadecimal, two digits each.
pub open spec fn hex_text(bytes: Seq<u8>) -> Seq<char> {
    Seq::new(
        2 * bytes.len(),
        |i: int|
            if i % 2 == 0 {
                hex_char(bytes[i / 2] as nat / 16)
            } else {
                hex_char(bytes[i / 2] as nat % 16)
            },
    )
}

/// The number that a hexadecimal digit writes.
pub open spec fn hex_value(c: char) -> int {
    if c <= '9' {
        c as int - 48
    } else {
        c as int - 87
    }
}

/// Bytes in hexadecimal, read again, are the bytes: two digits each, the upper
/// four bits first, in lower case.
pub proof fn lemma_hex_reads(bytes: Seq<u8>, i: int)
    requires
        0 <= i < bytes.len(),
    ensures
        hex_text(bytes).len() == 2 * bytes.len(),
        16 * hex_value(hex_text(bytes)[2 * i]) + hex_value(hex_text(bytes)[2 * i + 1]) == bytes[i],
        0 <= hex_value(hex_text(bytes)[2 * i]) < 16,
        0 <= hex_value(hex_text(bytes)[2 * i + 1]) < 16,
{
    assert((2 * i) / 2 == i && (2 * i + 1) / 2 == i);
    assert((2 * i) % 2 == 0 && (2 * i + 1) % 2 == 1);
}

fn to_hex_char(d: u8) -> (c: char)
    requires
        d < 16,
    ensures
        c == hex_char(d as nat),
{
    if d < 10 {
        to_digit_char(d as u128)
    } else if d == 10 {
        'a'
    } else if d == 11 {
        'b'
    } else if d == 12 {
        'c'
    } else if d == 13 {
        'd'
    } else if d == 14 {
        'e'
    } else {
        'f'
    }
}

/// Appends bytes in hexadecimal, two digits each.
pub fn hex(s: &mut String, bytes: &[u8])
    ensures
        final(s)@ == old(s)@ + hex_text(bytes@),
{
    let ghost before = s@;
    assert(before =~= before + hex_text(bytes@.take(0)));
    for i in 0..bytes.len()
        invariant
            s@ == before + hex_text(bytes@.take(i as int)),
    {
        s.push(to_hex_char(bytes[i] / 16));
        s.push(to_hex_char(bytes[i] % 16));
        assert(s@ =~= before + hex_text(bytes@.take(i + 1)));
    }
    assert(bytes@.take(bytes@.len() as int) =~= bytes@);
}

/// Whether two texts are the same.
pub fn same_text(a: &str, b: &str) -> (same: bool)
    ensures
        same == (a@ == b@),
{
    let n = a.unicode_len();
    if n != b.unicode_len() {
        return false;
    }
    for i in 0..n
        invariant
            n == a@.len(),
            n == b@.len(),
            forall|k: int| 0 <= k < i ==> a@[k] == b@[k],
    {
        if a.get_char(i) != b.get_char(i) {
            return false;
        }
    }
    assert(a@ =~= b@);
    true
}

} // verus!
