use audiosilence::binary64::{difference, floor, quotient, ratio, sum, whole, INFINITY, ONE};
use audiosilence::number::{over, plus, scale, truncate, NAN, SIGN};
use audiosilence::playhead::{playhead, BEAT_WIDTH};

/// A sequence of varied 64-bit patterns.
struct Patterns(u64);

impl Patterns {
    fn next(&mut self) -> u64 {
        self.0 ^= self.0 << 13;
        self.0 ^= self.0 >> 7;
        self.0 ^= self.0 << 17;
        self.0
    }

    /// A finite non-negative number of any size.
    fn number(&mut self) -> u64 {
        self.next() % INFINITY
    }

    /// A number not too far from one.
    fn moderate(&mut self) -> u64 {
        let exponent = 1023 - 70 + self.next() % 140;
        (exponent << 52) | (self.next() >> 12)
    }
}

fn check_sum(a: u64, b: u64) {
    let expected = (f64::from_bits(a) + f64::from_bits(b)).to_bits();
    assert_eq!(sum(a, b), expected, "{:x} + {:x}", a, b);
}

fn check_difference(a: u64, b: u64) {
    let (hi, lo) = if a >= b { (a, b) } else { (b, a) };
    let expected = (f64::from_bits(hi) - f64::from_bits(lo)).to_bits();
    assert_eq!(difference(hi, lo), expected, "{:x} - {:x}", hi, lo);
}

fn check_quotient(a: u64, b: u64) {
    let expected = (f64::from_bits(a) / f64::from_bits(b)).to_bits();
    assert_eq!(quotient(a, b), expected, "{:x} / {:x}", a, b);
}

/// All patterns that stand for no number count as the same.
fn assert_same(a: u64, native: f64) {
    assert!(a == native.to_bits() || (f64::from_bits(a).is_nan() && native.is_nan()), "{:x}", a);
}

#[test]
fn constants_are_the_patterns_they_name() {
    assert_eq!(ONE, 1.0f64.to_bits());
    assert_eq!(INFINITY, f64::INFINITY.to_bits());
}

#[test]
fn sums_of_known_numbers() {
    assert_eq!(sum(0.1f64.to_bits(), 0.2f64.to_bits()), 0.30000000000000004f64.to_bits());
    assert_eq!(sum(1.0f64.to_bits(), 1.5f64.to_bits()), 2.5f64.to_bits());
    assert_eq!(sum(0, ONE), ONE);
    assert_eq!(sum(0, 0), 0);
}

#[test]
fn ties_go_to_the_even_pattern() {
    // One and one half of the gap above it.
    let half_gap = (2.0f64).powi(-53).to_bits();
    assert_eq!(sum(ONE, half_gap), ONE);
    assert_eq!(sum(ONE + 1, half_gap), ONE + 2);
    assert_eq!(sum(ONE, half_gap + 1), ONE + 1);
}

#[test]
fn sums_overflow_to_infinity() {
    let max = f64::MAX.to_bits();
    assert_eq!(sum(max, max), INFINITY);
    assert_eq!(sum(max, ONE), max);
    assert_eq!(sum(INFINITY, ONE), INFINITY);
    assert_eq!(sum(INFINITY, INFINITY), INFINITY);
    check_sum(max, (f64::MAX / 2f64.powi(54)).to_bits());
    check_sum(max, (f64::MAX / 2f64.powi(53)).to_bits());
}

#[test]
fn tiny_numbers_are_exact() {
    for a in [0u64, 1, 2, 3, (1 << 52) - 1, 1 << 52, (1 << 52) + 1, (1 << 53) - 1] {
        for b in [0u64, 1, 2, (1 << 52) - 1, 1 << 52, (1 << 53) + 1, 3 << 52] {
            check_sum(a, b);
            check_difference(a, b);
        }
    }
}

#[test]
fn sums_agree_with_the_processor() {
    let mut p = Patterns(0x9E37_79B9_7F4A_7C15);
    for _ in 0..200_000 {
        let (a, b) = (p.moderate(), p.moderate());
        check_sum(a, b);
        let (a, b) = (p.number(), p.number());
        check_sum(a, b);
        check_sum(a, a ^ (p.next() & 0xFF));
    }
}

#[test]
fn differences_agree_with_the_processor() {
    let mut p = Patterns(0x1234_5678_9ABC_DEF1);
    for _ in 0..200_000 {
        let (a, b) = (p.moderate(), p.moderate());
        check_difference(a, b);
        let (a, b) = (p.number(), p.number());
        check_difference(a, b);
        check_difference(a, a ^ (p.next() & 0xFFFF));
    }
}

#[test]
fn infinity_less_something_is_infinity() {
    assert_eq!(difference(INFINITY, ONE), INFINITY);
    assert_eq!(difference(INFINITY, f64::MAX.to_bits()), INFINITY);
    assert_eq!(difference(ONE, ONE), 0);
}

#[test]
fn quotients_agree_with_the_processor() {
    let mut p = Patterns(0xDEAD_BEEF_CAFE_F00D);
    for _ in 0..100_000 {
        check_quotient(p.moderate(), p.moderate());
        check_quotient(p.number().max(1), p.number().max(1));
        let small = (p.next() % (1 << 54)).max(1);
        check_quotient(small, p.number().max(1));
        check_quotient(p.number().max(1), small);
        check_quotient(small, p.moderate());
        check_quotient(small, (p.next() >> (11 + p.next() % 50)).max(1) % INFINITY);
        // Quotients about the smallest positive number.
        let top = (p.next() % 2000) << 52 | (p.next() >> 12);
        let shift = (1074 + p.next() % 4) << 52;
        if top + shift < INFINITY {
            check_quotient(top.max(1), top + shift);
            check_quotient((top ^ (p.next() >> 12)).max(1), top + shift);
        }
    }
    for rate in [1.0f64, 2.0, 3.0, 8000.0, 11025.0, 44100.0, 48000.0, 96000.0, 44100.5] {
        for freq in [440.0f64, 8.175798915643707, 12543.853951415975, 5e-324, f64::MAX] {
            check_quotient(freq.to_bits(), rate.to_bits());
        }
    }
}

#[test]
fn a_quotient_by_zero_is_infinite() {
    assert_eq!(quotient(ONE, 0), INFINITY);
    assert_eq!(quotient(INFINITY, 0), INFINITY);
    assert_eq!(quotient(INFINITY, 3.0f64.to_bits()), INFINITY);
    assert_eq!(quotient(0, 3.0f64.to_bits()), 0);
    assert_eq!(quotient(0, INFINITY), 0);
    assert_eq!(quotient(ONE, INFINITY), 0);
}

#[test]
fn whole_parts_agree_with_the_processor() {
    let mut p = Patterns(0x0F1E_2D3C_4B5A_6978);
    for _ in 0..100_000 {
        for b in [p.number(), p.moderate()] {
            assert_eq!(floor(b), f64::from_bits(b) as u64);
        }
    }
    for x in [0.0, 0.99, 1.0, 1.5, 9007199254740993.0, 1.8446744073709550e19, 1.8446744073709552e19] {
        assert_eq!(floor(f64::to_bits(x)), x as u64);
    }
    assert_eq!(floor(INFINITY), u64::MAX);
}

#[test]
fn numbers_of_either_sign_agree_with_the_processor() {
    let mut p = Patterns(0x7766_5544_3322_1100);
    let special = [
        0.0,
        -0.0,
        1.0,
        -1.0,
        5e-324,
        -5e-324,
        f64::MAX,
        f64::MIN,
        f64::INFINITY,
        f64::NEG_INFINITY,
        f64::NAN,
    ];
    let mut pairs: Vec<(u64, u64)> = Vec::new();
    for a in special {
        for b in special {
            pairs.push((a.to_bits(), b.to_bits()));
        }
    }
    for _ in 0..50_000 {
        let sign = p.next() & SIGN;
        pairs.push((p.next(), p.next()));
        pairs.push((p.moderate() | sign, p.moderate() | (p.next() & SIGN)));
        let a = p.moderate();
        pairs.push((a, (a ^ (p.next() & 0xFFF)) | SIGN));
    }
    for (a, b) in pairs {
        let (x, y) = (f64::from_bits(a), f64::from_bits(b));
        assert_same(plus(a, b), x + y);
        assert_same(over(a, b), x / y);
        assert_same(scale(a, 60, 1), x * 60.0);
        assert_same(scale(a, 1, 120), x / 120.0);
        assert_eq!(truncate(a), x as u64);
    }
    assert!(f64::from_bits(NAN).is_nan());
}

#[test]
fn whole_numbers_are_rounded() {
    let mut p = Patterns(0x0123_4567_89AB_CDEF);
    for n in [0u64, 1, 2, 3, 80, 1 << 53, (1 << 53) + 1, (1 << 53) + 3, u64::MAX, u64::MAX - 1] {
        assert_eq!(whole(n), (n as f64).to_bits());
    }
    for _ in 0..100_000 {
        let n = p.next() >> (p.next() % 64);
        assert_eq!(whole(n), (n as f64).to_bits());
    }
}

#[test]
fn products_agree_with_the_processor() {
    let mut p = Patterns(0xABCD_EF01_2345_6789);
    for _ in 0..100_000 {
        let a = p.number();
        let n = (p.next() >> 33) as u32;
        assert_eq!(ratio(a, n, 1), (f64::from_bits(a) * n as f64).to_bits());
        let a = p.moderate();
        assert_eq!(ratio(a, n, 1), (f64::from_bits(a) * n as f64).to_bits());
    }
    assert_eq!(ratio(INFINITY, 3, 7), INFINITY);
    assert_eq!(ratio(0, 3, 7), 0);
    assert_eq!(ratio(ONE, 0, 7), 0);
    assert_eq!(ratio(ONE, 3, 2), 1.5f64.to_bits());
}

#[test]
fn the_playhead_agrees_with_native_arithmetic() {
    let mut p = Patterns(0x1357_9BDF_0246_8ACE);
    for rate in [
        1.0,
        2.0,
        8000.0,
        11025.0,
        44100.0,
        48000.0,
        96000.0,
        44100.5,
        -48000.0,
        0.0,
        5e-324,
        1e308,
        f64::INFINITY,
        f64::NAN,
    ] {
        assert_same(playhead(0, rate.to_bits()), 0.0 / (rate * 60.0 / 120.0) * 80.0);
        for _ in 0..10_000 {
            let samples = p.next() >> (p.next() % 64);
            let beats = (samples as f64) / (rate * 60.0 / 120.0);
            assert_same(playhead(samples, rate.to_bits()), beats * 80.0);
        }
    }
}

#[test]
fn the_playhead_moves_on_evenly() {
    assert_eq!(playhead(0, 48000.0f64.to_bits()), 0);
    let mut last = 0;
    for beat in 0..1000u64 {
        let now = playhead(beat * 24000, 48000.0f64.to_bits());
        assert_eq!(f64::from_bits(now), (beat * BEAT_WIDTH as u64) as f64);
        assert!(now >= last);
        last = now;
    }
}
