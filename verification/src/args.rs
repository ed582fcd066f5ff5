//! Command-line arguments: words, numbers and lists of numbers.

use crate::text::{decimal, lemma_decimal_reads, reads_as};
use vstd::prelude::*;
use vstd::string::StrSliceExecFns;

verus! {

/// Unicode white space.
pub open spec fn is_white(c: char) -> bool {
    let n = c as u32;
    ||| 0x9 <= n <= 0xd
    ||| n == 0x20
    ||| n == 0x85
    ||| n == 0xa0
    ||| n == 0x1680
    ||| 0x2000 <= n <= 0x200a
    ||| n == 0x2028
    ||| n == 0x2029
    ||| n == 0x202f
    ||| n == 0x205f
    ||| n == 0x3000
}

fn white(c: char) -> (yes: bool)
    ensures
        yes == is_white(c),
{
    let n = c as u32;
    (0x9 <= n && n <= 0xd) || n == 0x20 || n == 0x85 || n == 0xa0 || n == 0x1680 || (0x2000 <= n
        && n <= 0x200a) || n == 0x2028 || n == 0x2029 || n == 0x202f || n == 0x205f || n == 0x3000
}

/// Text without the white space in front of it.
pub open spec fn trimmed_front(s: Seq<char>) -> Seq<char>
    decreases s.len(),
{
    if s.len() > 0 && is_white(s[0]) {
        trimmed_front(s.skip(1))
    } else {
        s
    }
}

/// Text without the white space behind it.
pub open spec fn trimmed_back(s: Seq<char>) -> Seq<char>
    decreases s.len(),
{
    if s.len() > 0 && is_white(s.last()) {
        trimmed_back(s.drop_last())
    } else {
        s
    }
}

/// Text without the white space around it.
pub open spec fn trimmed(s: Seq<char>) -> Seq<char> {
    trimmed_back(trimmed_front(s))
}

/// The parts of a text between its commas.
pub open spec fn parts(s: Seq<char>) -> Seq<Seq<char>>
    decreases s.len(),
{
    if s.len() == 0 {
        seq![Seq::empty()]
    } else {
        let before = parts(s.drop_last());
        if s.last() == ',' {
            before.push(Seq::empty())
        } else {
            before.drop_last().push(before.last().push(s.last()))
        }
    }
}

pub open spec fn is_digit(c: char) -> bool {
    '0' <= c <= '9'
}

/// The number that a row of digits writes.
pub open spec fn digits_value(s: Seq<char>) -> nat
    decreases s.len(),
{
    if s.len() == 0 {
        0
    } else {
        10 * digits_value(s.drop_last()) + (s.last() as nat - '0' as nat) as nat
    }
}

/// The digits of a number, without the sign that may stand in front of them.
pub open spec fn unsigned(s: Seq<char>) -> Seq<char> {
    if s.len() > 1 && s[0] == '+' {
        s.skip(1)
    } else {
        s
    }
}

/// The number that a text writes, if it writes one that can be counted.
pub open spec fn number(s: Seq<char>) -> Option<usize> {
    let d = unsigned(s);
    if d.len() > 0 && (forall|i: int| 0 <= i < d.len() ==> is_digit(#[trigger] d[i]))
        && digits_value(d) <= usize::MAX {
        Some(digits_value(d) as usize)
    } else {
        None
    }
}

/// The number that a text with white space around it writes.
pub open spec fn count_in(s: Seq<char>) -> Option<usize> {
    number(trimmed(s))
}

/// The numbers that parts write, all of them.
pub open spec fn numbers(parts: Seq<Seq<char>>) -> Option<Seq<usize>>
    decreases parts.len(),
{
    if parts.len() == 0 {
        Some(Seq::empty())
    } else {
        match (numbers(parts.drop_last()), count_in(parts.last())) {
            (Some(before), Some(n)) => Some(before.push(n)),
            _ => None,
        }
    }
}

/// The numbers that a text with commas between them writes.
pub open spec fn counts_in(s: Seq<char>) -> Option<Seq<usize>> {
    numbers(parts(s))
}

/// Trimming cuts the white space in front and behind and nothing else: what is
/// left is the text from `a` to `b`, all around it is white space, and it neither
/// begins nor ends with any.
pub proof fn lemma_trimmed(s: Seq<char>) -> (range: (int, int))
    ensures
        0 <= range.0 <= range.1 <= s.len(),
        trimmed(s) == s.subrange(range.0, range.1),
        forall|i: int| 0 <= i < range.0 || range.1 <= i < s.len() ==> is_white(#[trigger] s[i]),
        trimmed(s).len() > 0 ==> !is_white(trimmed(s)[0]) && !is_white(trimmed(s).last()),
{
    let a = lemma_trimmed_front(s);
    let front = s.skip(a);
    let b = lemma_trimmed_back(front);
    assert(trimmed(s) =~= s.subrange(a, a + b));
    assert forall|i: int| 0 <= i < a || a + b <= i < s.len() implies is_white(#[trigger] s[i]) by {
        if i >= a + b {
            assert(front[i - a] == s[i]);
        }
    }
    (a, a + b)
}

proof fn lemma_trimmed_front(s: Seq<char>) -> (a: int)
    ensures
        0 <= a <= s.len(),
        trimmed_front(s) == s.skip(a),
        forall|i: int| 0 <= i < a ==> is_white(#[trigger] s[i]),
        a < s.len() ==> !is_white(s[a]),
    decreases s.len(),
{
    if s.len() > 0 && is_white(s[0]) {
        let rest = s.skip(1);
        let b = lemma_trimmed_front(rest);
        assert(rest.skip(b) =~= s.skip(b + 1));
        assert forall|i: int| 0 <= i < b + 1 implies is_white(#[trigger] s[i]) by {
            if i > 0 {
                assert(rest[i - 1] == s[i]);
            }
        }
        b + 1
    } else {
        assert(s.skip(0) =~= s);
        0
    }
}

proof fn lemma_trimmed_back(s: Seq<char>) -> (b: int)
    ensures
        0 <= b <= s.len(),
        trimmed_back(s) == s.take(b),
        forall|i: int| b <= i < s.len() ==> is_white(#[trigger] s[i]),
        b > 0 ==> !is_white(s[b - 1]),
    decreases s.len(),
{
    if s.len() > 0 && is_white(s.last()) {
        let rest = s.drop_last();
        let b = lemma_trimmed_back(rest);
        assert(rest.take(b) =~= s.take(b));
        assert forall|i: int| b <= i < s.len() implies is_white(#[trigger] s[i]) by {
            if i < rest.len() {
                assert(rest[i] == s[i]);
            }
        }
        b
    } else {
        assert(s.take(s.len() as int) =~= s);
        s.len() as int
    }
}

/// Parts with commas between them.
pub open spec fn with_commas(parts: Seq<Seq<char>>) -> Seq<char>
    decreases parts.len(),
{
    if parts.len() == 0 {
        Seq::empty()
    } else if parts.len() == 1 {
        parts[0]
    } else {
        with_commas(parts.drop_last()).push(',') + parts.last()
    }
}

/// The parts of a text hold no comma, and with commas between them they are the
/// text again.
pub proof fn lemma_parts(s: Seq<char>)
    ensures
        parts(s).len() >= 1,
        with_commas(parts(s)) == s,
        forall|i: int, j: int|
            0 <= i < parts(s).len() && 0 <= j < parts(s)[i].len() ==> #[trigger] parts(s)[i][j]
                != ',',
    decreases s.len(),
{
    let now = parts(s);
    if s.len() == 0 {
        assert(with_commas(now) =~= s);
    } else {
        let rest = s.drop_last();
        let before = parts(rest);
        lemma_parts(rest);
        if s.last() == ',' {
            assert(now.drop_last() =~= before);
            assert(with_commas(now) =~= rest.push(','));
            assert(rest.push(',') =~= s);
            assert forall|i: int, j: int|
                0 <= i < now.len() && 0 <= j < now[i].len() implies #[trigger] now[i][j] != ',' by {
                if i < before.len() {
                    assert(now[i] == before[i]);
                    assert(before[i][j] != ',');
                }
            }
        } else {
            assert(now.drop_last() =~= before.drop_last());
            assert(with_commas(now) =~= with_commas(before).push(s.last()));
            assert(rest.push(s.last()) =~= s);
            assert forall|i: int, j: int|
                0 <= i < now.len() && 0 <= j < now[i].len() implies #[trigger] now[i][j] != ',' by {
                if i < before.len() - 1 {
                    assert(now[i] == before[i]);
                    assert(before[i][j] != ',');
                } else if j < before.last().len() {
                    assert(before[i][j] != ',');
                }
            }
        }
    }
}

/// A number that was written in decimal is read as that number, with or without a
/// sign, as long as it can be counted.
pub proof fn lemma_number_of_decimal(n: nat)
    ensures
        n <= usize::MAX ==> number(decimal(n)) == Some(n as usize),
        n <= usize::MAX ==> number(seq!['+'] + decimal(n)) == Some(n as usize),
        n > usize::MAX ==> number(decimal(n)) is None,
{
    let s = decimal(n);
    lemma_decimal_reads(n);
    lemma_digits_read(s);
    assert forall|i: int| 0 <= i < s.len() implies is_digit(#[trigger] s[i]) by {}
    assert(is_digit(s[0]));
    assert(unsigned(s) == s);
    let signed = seq!['+'] + s;
    assert(signed.skip(1) =~= s);
    assert(unsigned(signed) == s);
}

/// Digits write the number that they are read as.
pub proof fn lemma_digits_read(s: Seq<char>)
    requires
        forall|i: int| 0 <= i < s.len() ==> '0' <= #[trigger] s[i] <= '9',
    ensures
        digits_value(s) == reads_as(s),
    decreases s.len(),
{
    if s.len() > 0 {
        let rest = s.drop_last();
        assert forall|i: int| 0 <= i < rest.len() implies '0' <= #[trigger] rest[i] <= '9' by {
            assert(rest[i] == s[i]);
        }
        lemma_digits_read(rest);
        assert('0' <= s[s.len() - 1] <= '9');
    }
}

/// A text writes a number only if it is a row of digits, behind a sign or not, and
/// the number is what the digits are read as.
pub proof fn lemma_number_is_digits(s: Seq<char>, n: usize)
    requires
        number(s) == Some(n),
    ensures
        s.len() > 0,
        forall|i: int|
            0 <= i < s.len() ==> '0' <= #[trigger] s[i] <= '9' || (i == 0 && s[i] == '+' && s.len()
                > 1),
        n == reads_as(
            if s[0] == '+' {
                s.skip(1)
            } else {
                s
            },
        ),
{
    let d = unsigned(s);
    assert(is_digit(d[0]));
    assert forall|i: int| 0 <= i < s.len() implies '0' <= #[trigger] s[i] <= '9' || (i == 0 && s[i]
        == '+' && s.len() > 1) by {
        if d == s {
            assert(is_digit(d[i]));
        } else if i > 0 {
            assert(is_digit(d[i - 1]));
        }
    }
    assert forall|i: int| 0 <= i < d.len() implies '0' <= #[trigger] d[i] <= '9' by {
        assert(is_digit(d[i]));
    }
    lemma_digits_read(d);
}

/// White space is made of 25 characters: six controls, the space, the no-break
/// space, and the spaces and separators of other scripts and typography.
pub proof fn lemma_white(c: char)
    ensures
        is_white(c) <==> set![
            0x9u32, 0xa, 0xb, 0xc, 0xd, 0x85, 0x20, 0xa0, 0x1680, 0x2000, 0x2001, 0x2002, 0x2003,
            0x2004, 0x2005, 0x2006, 0x2007, 0x2008, 0x2009, 0x200a, 0x2028, 0x2029, 0x202f, 0x205f,
            0x3000,
        ].contains(c as u32),
{
}

/// White space around a number does not matter.
pub proof fn lemma_white_does_not_count(s: Seq<char>, w: char)
    requires
        is_white(w),
    ensures
        count_in(seq![w] + s) == count_in(s),
        count_in(s.push(w)) == count_in(s),
{
    let front = seq![w] + s;
    assert(front.skip(1) =~= s);
    assert(trimmed(front) == trimmed(s));
    lemma_trim_push(s, w);
}

proof fn lemma_trim_push(s: Seq<char>, w: char)
    requires
        is_white(w),
    ensures
        trimmed(s.push(w)) == trimmed(s),
    decreases s.len(),
{
    if s.len() > 0 && is_white(s[0]) {
        lemma_trim_push(s.skip(1), w);
        assert(s.push(w).skip(1) =~= s.skip(1).push(w));
    } else if s.len() > 0 {
        assert(trimmed_front(s.push(w)) == s.push(w));
        assert(s.push(w).drop_last() =~= s);
    } else {
        let one = s.push(w);
        assert(one.skip(1) =~= s);
    }
}

/// A number that was written in decimal is counted as that number, and numbers with
/// commas between them part by part.
pub proof fn lemma_counts(n: nat, s: Seq<char>)
    ensures
        n <= usize::MAX ==> count_in(decimal(n)) == Some(n as usize),
        counts_in(s) matches Some(list) ==> list.len() == parts(s).len() && forall|i: int|
            0 <= i < list.len() ==> count_in(#[trigger] parts(s)[i]) == Some(list[i]),
        counts_in(s) is None ==> exists|i: int|
            0 <= i < parts(s).len() && count_in(#[trigger] parts(s)[i]) is None,
{
    let d = decimal(n);
    lemma_decimal_reads(n);
    lemma_number_of_decimal(n);
    assert('0' <= d[0] <= '9');
    assert('0' <= d[d.len() - 1] <= '9');
    assert(trimmed(d) == d);
    lemma_numbers(parts(s));
}

/// Parts write numbers if each of them writes one, part by part.
pub proof fn lemma_numbers(parts: Seq<Seq<char>>)
    ensures
        numbers(parts) is Some <==> forall|i: int|
            0 <= i < parts.len() ==> count_in(#[trigger] parts[i]) is Some,
        numbers(parts) matches Some(list) ==> list.len() == parts.len() && forall|i: int|
            0 <= i < parts.len() ==> count_in(#[trigger] parts[i]) == Some(list[i]),
    decreases parts.len(),
{
    if parts.len() > 0 {
        let rest = parts.drop_last();
        lemma_numbers(rest);
        assert(parts[parts.len() - 1] == parts.last());
        if numbers(parts) is Some {
            assert forall|i: int| 0 <= i < parts.len() implies count_in(#[trigger] parts[i]) == Some(
                numbers(parts)->0[i],
            ) by {
                if i < rest.len() {
                    assert(parts[i] == rest[i]);
                }
            }
        }
        if forall|i: int| 0 <= i < parts.len() ==> count_in(#[trigger] parts[i]) is Some {
            assert forall|i: int| 0 <= i < rest.len() implies count_in(#[trigger] rest[i])
                is Some by {
                assert(parts[i] == rest[i]);
            }
        }
    }
}

/// The characters of a text.
pub fn chars_of(s: &str) -> (chars: Vec<char>)
    ensures
        chars@ == s@,
{
    let n = s.unicode_len();
    let mut chars: Vec<char> = Vec::with_capacity(n);
    for i in 0..n
        invariant
            n == s@.len(),
            chars@ == s@.take(i as int),
    {
        chars.push(s.get_char(i));
        assert(chars@ =~= s@.take(i + 1));
    }
    assert(chars@ =~= s@);
    chars
}

/// Where the text without the white space around it starts and ends.
fn trim(s: &Vec<char>) -> (range: (usize, usize))
    ensures
        range.0 <= range.1 <= s@.len(),
        s@.subrange(range.0 as int, range.1 as int) == trimmed(s@),
{
    let n = s.len();
    let mut a: usize = 0;
    assert(s@.skip(0) =~= s@);
    while a < n && white(s[a])
        invariant
            n == s@.len(),
            a <= n,
            trimmed_front(s@.skip(a as int)) == trimmed_front(s@),
        decreases n - a,
    {
        assert(s@.skip(a as int).skip(1) =~= s@.skip(a + 1));
        a = a + 1;
    }
    let ghost front = s@.skip(a as int);
    assert(trimmed_front(s@) == front);
    let mut b: usize = n;
    assert(s@.subrange(a as int, n as int) =~= front);
    while b > a && white(s[b - 1])
        invariant
            n == s@.len(),
            a <= b <= n,
            trimmed_back(s@.subrange(a as int, b as int)) == trimmed_back(front),
        decreases b,
    {
        let ghost now = s@.subrange(a as int, b as int);
        assert(now.last() == s@[b - 1]);
        assert(now.drop_last() =~= s@.subrange(a as int, b - 1));
        b = b - 1;
    }
    proof {
        let now = s@.subrange(a as int, b as int);
        if now.len() > 0 {
            assert(now.last() == s@[b - 1]);
        }
    }
    (a, b)
}

proof fn lemma_digits_value_grows(s: Seq<char>, n: int)
    requires
        0 <= n <= s.len(),
        forall|i: int| 0 <= i < s.len() ==> is_digit(#[trigger] s[i]),
    ensures
        digits_value(s.take(n)) <= digits_value(s),
    decreases s.len(),
{
    if n == s.len() {
        assert(s.take(n) =~= s);
    } else {
        let shorter = s.drop_last();
        assert forall|i: int| 0 <= i < shorter.len() implies is_digit(#[trigger] shorter[i]) by {
            assert(shorter[i] == s[i]);
        }
        lemma_digits_value_grows(shorter, n);
        assert(shorter.take(n) =~= s.take(n));
    }
}

/// The number that the characters in a range write.
fn read_number(s: &Vec<char>, a: usize, b: usize) -> (n: Option<usize>)
    requires
        a <= b <= s@.len(),
    ensures
        n == number(s@.subrange(a as int, b as int)),
{
    let ghost whole = s@.subrange(a as int, b as int);
    let from: usize = if b - a > 1 && s[a] == '+' {
        a + 1
    } else {
        a
    };
    let ghost d = s@.subrange(from as int, b as int);
    assert(d =~= unsigned(whole));
    if from == b {
        return None;
    }
    let mut n: usize = 0;
    assert(d.take(0) =~= Seq::empty());
    for i in from..b
        invariant
            from <= b <= s@.len(),
            d == s@.subrange(from as int, b as int),
            d == unsigned(whole),
            whole == s@.subrange(a as int, b as int),
            d.len() > 0,
            n == digits_value(d.take(i - from)),
            forall|k: int| 0 <= k < i - from ==> is_digit(#[trigger] d[k]),
    {
        let c = s[i];
        let ghost k = i - from;
        assert(d[k] == c);
        if c < '0' || c > '9' {
            return None;
        }
        let digit = (c as u32 - '0' as u32) as usize;
        proof {
            assert(d.take(k + 1).drop_last() =~= d.take(k));
            assert(d.take(k + 1).last() == c);
            if 10 * n + digit > usize::MAX {
                if forall|j: int| 0 <= j < d.len() ==> is_digit(#[trigger] d[j]) {
                    lemma_digits_value_grows(d, k + 1);
                }
            }
        }
        if n > (usize::MAX - digit) / 10 {
            return None;
        }
        n = 10 * n + digit;
    }
    assert(d.take(d.len() as int) =~= d);
    Some(n)
}

/// The number that a text with white space around it writes.
pub fn parse_count(s: &str) -> (n: Option<usize>)
    ensures
        n == count_in(s@),
{
    let chars = chars_of(s);
    let (a, b) = trim(&chars);
    read_number(&chars, a, b)
}

fn part_count(part: &Vec<char>) -> (n: Option<usize>)
    ensures
        n == count_in(part@),
{
    let (a, b) = trim(part);
    read_number(part, a, b)
}

/// The parts of a text between its commas.
fn split(s: &Vec<char>) -> (out: Vec<Vec<char>>)
    ensures
        out@.map_values(|p: Vec<char>| p@) == parts(s@),
{
    let mut out: Vec<Vec<char>> = Vec::new();
    let mut part: Vec<char> = Vec::new();
    let ghost mut views: Seq<Seq<char>> = Seq::empty();
    assert(s@.take(0) =~= Seq::empty());
    assert(views.push(part@) =~= parts(s@.take(0)));
    for i in 0..s.len()
        invariant
            out@.map_values(|p: Vec<char>| p@) == views,
            views.push(part@) == parts(s@.take(i as int)),
    {
        let c = s[i];
        let ghost before = parts(s@.take(i as int));
        proof {
            assert(s@.take(i + 1).drop_last() =~= s@.take(i as int));
            assert(s@.take(i + 1).last() == c);
            assert(before.last() == part@);
            assert(before.drop_last() =~= views);
        }
        if c == ',' {
            proof {
                views = views.push(part@);
            }
            out.push(part);
            assert(out@.map_values(|p: Vec<char>| p@) =~= views);
            part = Vec::new();
            assert(views.push(part@) =~= before.push(Seq::empty()));
        } else {
            part.push(c);
        }
    }
    proof {
        views = views.push(part@);
        assert(s@.take(s@.len() as int) =~= s@);
    }
    out.push(part);
    assert(out@.map_values(|p: Vec<char>| p@) =~= views);
    out
}

/// Parts that begin with ones that do not all write numbers do not either.
proof fn lemma_numbers_prefix(parts: Seq<Seq<char>>, n: int)
    requires
        0 <= n <= parts.len(),
        numbers(parts.take(n)) is None,
    ensures
        numbers(parts) is None,
    decreases parts.len(),
{
    if n == parts.len() {
        assert(parts.take(n) =~= parts);
    } else {
        assert(parts.drop_last().take(n) =~= parts.take(n));
        lemma_numbers_prefix(parts.drop_last(), n);
    }
}

/// The numbers that a text with commas between them writes.
pub fn parse_list(s: &str) -> (list: Option<Vec<usize>>)
    ensures
        match list {
            Some(v) => counts_in(s@) == Some(v@),
            None => counts_in(s@) is None,
        },
{
    let chars = chars_of(s);
    let fields = split(&chars);
    let ghost views = parts(s@);
    let mut list: Vec<usize> = Vec::with_capacity(fields.len());
    assert(views.take(0) =~= Seq::empty());
    for i in 0..fields.len()
        invariant
            fields@.map_values(|p: Vec<char>| p@) == views,
            fields@.len() == views.len(),
            views == parts(s@),
            numbers(views.take(i as int)) == Some(list@),
    {
        proof {
            assert(views.take(i + 1).drop_last() =~= views.take(i as int));
            assert(views.take(i + 1).last() == fields@[i as int]@);
        }
        match part_count(&fields[i]) {
            Some(n) => {
                list.push(n);
            },
            None => {
                proof {
                    lemma_numbers_prefix(views, i + 1);
                }
                return None;
            },
        }
    }
    assert(views.take(views.len() as int) =~= views);
    Some(list)
}

} // verus!
