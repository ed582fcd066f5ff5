//! Sizes, durations and ratios against the standard library's formatting.

use translog::bench_common::Duration;
use translog::float::{is_at_most, plus, ratio};
use translog::format::{as_seconds, fmt_bytes, fmt_duration, opt_mem, push_quotient};

/// A row of numbers that looks random.
fn numbers(n: usize) -> Vec<u64> {
    let mut x: u64 = 0x9e37_79b9_7f4a_7c15;
    let mut row = Vec::new();
    for _ in 0..n {
        x ^= x << 13;
        x ^= x >> 7;
        x ^= x << 17;
        row.push(x);
    }
    row
}

fn bytes_by_hand(bytes: usize) -> String {
    let kb = 1024.0_f64;
    let b = bytes as f64;
    if b >= kb * kb * kb {
        format!("{:.2} GiB", b / (kb * kb * kb))
    } else if b >= kb * kb {
        format!("{:.2} MiB", b / (kb * kb))
    } else if b >= kb {
        format!("{:.2} KiB", b / kb)
    } else {
        format!("{bytes} B")
    }
}

fn duration_by_hand(d: std::time::Duration) -> String {
    let s = d.as_secs_f64();
    if s >= 60.0 {
        format!("{:.0}m{:04.1}s", (s / 60.0).floor(), s % 60.0)
    } else if s >= 1.0 {
        format!("{s:.3} s")
    } else {
        format!("{:.2} ms", s * 1000.0)
    }
}

fn check_duration(secs: u64, nanos: u32) {
    let d = Duration { nanos: secs as u128 * 1_000_000_000 + nanos as u128 };
    let std_d = std::time::Duration::new(secs, nanos);
    assert_eq!(fmt_duration(d), duration_by_hand(std_d));
    let s = as_seconds(d);
    assert_eq!(s.mant as f64 * 2f64.powi(s.exp), std_d.as_secs_f64());
}

#[test]
fn bytes_in_every_unit() {
    assert_eq!(fmt_bytes(0), "0 B");
    assert_eq!(fmt_bytes(1023), "1023 B");
    assert_eq!(fmt_bytes(1024), "1.00 KiB");
    assert_eq!(fmt_bytes(1536), "1.50 KiB");
    assert_eq!(fmt_bytes(1024 * 1024 - 1), "1024.00 KiB");
    assert_eq!(fmt_bytes(1024 * 1024), "1.00 MiB");
    assert_eq!(fmt_bytes(3 * 1024 * 1024 * 1024 / 2), "1.50 GiB");
    assert_eq!(fmt_bytes(usize::MAX), "17179869184.00 GiB");
}

#[test]
fn bytes_round_like_the_standard_library() {
    for k in 0..64u32 {
        for d in 0..3u64 {
            let n = (1u64 << k).wrapping_add(d).wrapping_sub(1) as usize;
            assert_eq!(fmt_bytes(n), bytes_by_hand(n));
        }
    }
    for (i, x) in numbers(20_000).into_iter().enumerate() {
        let n = (x >> (i % 64)) as usize;
        assert_eq!(fmt_bytes(n), bytes_by_hand(n));
    }
    // ties: an eighth of a unit is halfway between two hundredths
    for eighths in 0..4096usize {
        assert_eq!(fmt_bytes(1024 + eighths * 128), bytes_by_hand(1024 + eighths * 128));
    }
}

#[test]
fn durations_in_every_unit() {
    assert_eq!(fmt_duration(Duration { nanos: 0 }), "0.00 ms");
    assert_eq!(fmt_duration(Duration { nanos: 1_500_000 }), "1.50 ms");
    assert_eq!(fmt_duration(Duration { nanos: 999_999_999 }), "1000.00 ms");
    assert_eq!(fmt_duration(Duration { nanos: 1_000_000_000 }), "1.000 s");
    assert_eq!(fmt_duration(Duration { nanos: 59_999_600_000 }), "60.000 s");
    assert_eq!(fmt_duration(Duration { nanos: 65_040_000_000 }), "1m05.0s");
    assert_eq!(fmt_duration(Duration { nanos: 119_990_000_000 }), "1m60.0s");
    assert_eq!(fmt_duration(Duration { nanos: 3_723_500_000_000 }), "62m03.5s");
}

#[test]
fn durations_round_like_the_standard_library() {
    for secs in [0u64, 1, 2, 59, 60, 61, 3599, 3600, 1 << 52, 1 << 53, (1 << 53) + 1, u64::MAX] {
        for nanos in [0u32, 1, 499_999_999, 500_000_000, 999_999_999] {
            check_duration(secs, nanos);
        }
    }
    for (i, x) in numbers(20_000).into_iter().enumerate() {
        let secs = x.rotate_left(17) >> (i % 65).min(63);
        let nanos = (x % 1_000_000_000) as u32;
        check_duration(secs, nanos);
        check_duration(secs % 200, nanos);
        check_duration(0, nanos >> (i % 30));
        // halves and quarters make ties
        check_duration(secs % 100, (x % 8) as u32 * 125_000_000);
        check_duration(0, (x % 200) as u32 * 5_000);
    }
}

#[test]
fn unmeasured_memory() {
    assert_eq!(opt_mem(None), "n/a");
    assert_eq!(opt_mem(Some(2048)), "2.00 KiB");
}

#[test]
fn quotients_like_the_standard_library() {
    let row = numbers(6_000);
    for pair in row.chunks(2) {
        let (x, y) = (pair[0] % (1 << 40), pair[1] % (1 << 40));
        let a = as_seconds(Duration { nanos: x as u128 });
        let b = as_seconds(Duration { nanos: y as u128 });
        let fa = std::time::Duration::from_nanos(x).as_secs_f64();
        let fb = std::time::Duration::from_nanos(y).as_secs_f64();
        let mut text = String::new();
        push_quotient(&mut text, a, b);
        assert_eq!(text, format!("{:.2}", fa / fb));
        assert_eq!(is_at_most(a, b), fa <= fb);
        let s = plus(a, b);
        assert_eq!(s.mant as f64 * 2f64.powi(s.exp), fa + fb);
    }
    let zero = as_seconds(Duration { nanos: 0 });
    let one = ratio(1, 1, 0);
    let mut text = String::new();
    push_quotient(&mut text, one, zero);
    text.push(' ');
    push_quotient(&mut text, zero, zero);
    text.push(' ');
    push_quotient(&mut text, zero, one);
    assert_eq!(text, format!("{:.2} {:.2} {:.2}", 1.0 / 0.0_f64, 0.0 / 0.0_f64, 0.0 / 1.0_f64));
}
