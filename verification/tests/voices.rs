use audiosilence::oscillator::{Voice, CONCERT_PITCH, RELEASE_RATE, SILENCE};
use std::cell::Cell;

/// A sine voice in native floating point.
struct Native {
    active: bool,
    releasing: bool,
    phase: f64,
    freq: f64,
    rate: f64,
    gain: f64,
}

impl Native {
    fn new(rate: f64) -> Native {
        Native { active: false, releasing: false, phase: 0.0, freq: 440.0, rate, gain: 0.0 }
    }

    fn step(&mut self) -> Option<(u64, u64)> {
        if !self.active {
            return None;
        }
        let seen = (self.phase.to_bits(), self.gain.to_bits());
        self.phase += self.freq / self.rate;
        if self.phase >= 1.0 {
            self.phase -= 1.0;
        }
        if self.releasing {
            self.gain -= 0.001;
            if self.gain <= 0.0 {
                self.gain = 0.0;
                self.active = false;
                self.releasing = false;
            }
        }
        Some(seen)
    }
}

/// What a voice asks its tone for, if it asks.
fn asked(voice: &mut Voice) -> Option<(u64, u64)> {
    let seen: Cell<Option<(u64, u64)>> = Cell::new(None);
    let tone = |phase: u64, gain: u64| -> u32 {
        seen.set(Some((phase, gain)));
        77
    };
    let sample = voice.next_sample(&tone);
    assert_eq!(sample, if seen.get().is_some() { 77 } else { SILENCE });
    seen.get()
}

/// All patterns that stand for no number count as the same.
fn assert_same(a: Option<(u64, u64)>, b: Option<(u64, u64)>) {
    match (a, b) {
        (Some((phase, gain)), Some((other, same))) => {
            assert_eq!(gain, same);
            assert!(
                phase == other
                    || (f64::from_bits(phase).is_nan() && f64::from_bits(other).is_nan()),
                "{:x} {:x}",
                phase,
                other
            );
        }
        _ => assert_eq!(a, b),
    }
}

fn compare(rate: f64, freq: f64, held: usize) {
    let mut voice = Voice::new(rate.to_bits());
    let mut native = Native::new(rate);
    voice.note_on(60, freq.to_bits());
    native.active = true;
    native.freq = freq;
    native.gain = 1.0;
    for _ in 0..held {
        assert_same(asked(&mut voice), native.step());
    }
    voice.note_off();
    native.releasing = true;
    for _ in 0..1100 {
        assert_same(asked(&mut voice), native.step());
        assert_eq!(voice.is_active(), native.active);
    }
    // The phase runs on into the next note.
    voice.note_on(61, 100.0f64.to_bits());
    native.active = true;
    native.releasing = false;
    native.freq = 100.0;
    native.gain = 1.0;
    for _ in 0..200 {
        assert_same(asked(&mut voice), native.step());
    }
}

#[test]
fn voice_constants_are_the_patterns_they_name() {
    assert_eq!(CONCERT_PITCH, 440.0f64.to_bits());
    assert_eq!(RELEASE_RATE, 0.001f64.to_bits());
    assert_eq!(SILENCE, 0.0f32.to_bits());
}

#[test]
fn phase_and_gain_agree_with_native_arithmetic() {
    compare(48000.0, 440.0, 5000);
    compare(44100.0, 261.6255653005986, 5000);
    compare(8000.0, 12543.853951415975, 3000);
    compare(192000.0, 8.175798915643707, 30000);
    compare(2.0, 20_400_000.0, 2000);
    compare(1.0, 0.25, 100);
}

#[test]
fn a_fresh_voice_is_silent() {
    let mut voice = Voice::new(48000.0f64.to_bits());
    assert!(!voice.is_active());
    assert_eq!(voice.note(), 0);
    assert_eq!(asked(&mut voice), None);
}

#[test]
fn a_struck_voice_sounds_until_released() {
    let mut voice = Voice::new(48000.0f64.to_bits());
    voice.note_on(69, 440.0f64.to_bits());
    assert_eq!(voice.note(), 69);
    for _ in 0..100_000 {
        let (phase, gain) = asked(&mut voice).unwrap();
        assert!(f64::from_bits(phase) < 1.0);
        assert_eq!(f64::from_bits(gain), 1.0);
    }
    assert!(voice.is_active());
}

#[test]
fn a_release_lasts_a_thousand_samples() {
    let mut voice = Voice::new(48000.0f64.to_bits());
    voice.note_on(69, 440.0f64.to_bits());
    for _ in 0..123 {
        asked(&mut voice);
    }
    voice.note_off();
    for i in 0..1000 {
        assert!(voice.is_active(), "after {} samples", i);
        assert!(asked(&mut voice).is_some());
    }
    assert!(!voice.is_active());
    assert_eq!(asked(&mut voice), None);
}

#[test]
fn releasing_a_silent_voice_does_not_shorten_the_next_note() {
    let mut voice = Voice::new(48000.0f64.to_bits());
    voice.note_off();
    assert_eq!(asked(&mut voice), None);
    voice.note_on(1, 440.0f64.to_bits());
    for _ in 0..2000 {
        asked(&mut voice);
    }
    assert!(voice.is_active());
}

#[test]
fn striking_again_ends_the_release() {
    let mut voice = Voice::new(48000.0f64.to_bits());
    voice.note_on(1, 440.0f64.to_bits());
    voice.note_off();
    for _ in 0..999 {
        asked(&mut voice);
    }
    voice.note_on(2, 220.0f64.to_bits());
    for _ in 0..1500 {
        let (_, gain) = asked(&mut voice).unwrap();
        assert_eq!(f64::from_bits(gain), 1.0);
    }
    assert_eq!(voice.note(), 2);
}

#[test]
fn frequencies_at_the_limits_agree_with_native_arithmetic() {
    let extremes = [
        0.0,
        -0.0,
        0.1,
        -0.1,
        440.0,
        -440.0,
        1e300,
        -1e300,
        5e-324,
        -5e-324,
        f64::MIN_POSITIVE,
        f64::MAX,
        f64::MIN,
        f64::INFINITY,
        f64::NEG_INFINITY,
        f64::NAN,
        48000.5,
        -3.7,
    ];
    for rate in extremes {
        for freq in extremes {
            compare(rate, freq, 100);
        }
    }
}

#[test]
fn the_last_note_struck_wins() {
    let mut a = Voice::new(48000.0f64.to_bits());
    let mut b = Voice::new(48000.0f64.to_bits());
    for _ in 0..3 {
        a.note_off();
        a.note_on(1, f64::NAN.to_bits());
        a.note_off();
        a.note_on(2, (-5.0f64).to_bits());
        a.note_on(2, 330.0f64.to_bits());
        b.note_on(2, 330.0f64.to_bits());
        for _ in 0..50 {
            assert_eq!(asked(&mut a), asked(&mut b));
        }
        a.note_off();
        b.note_off();
        for _ in 0..600 {
            assert_eq!(asked(&mut a), asked(&mut b));
        }
    }
}

#[test]
fn samples_lie_between_minus_one_and_one() {
    let tone = |phase: u64, gain: u64| -> u32 {
        let turn = std::f64::consts::TAU * f64::from_bits(phase);
        ((turn.sin() * f64::from_bits(gain)) as f32).to_bits()
    };
    let mut voice = Voice::new(8000.0f64.to_bits());
    for (note, freq) in [(1, 0.0), (2, 440.0), (3, 7999.9), (4, -0.0), (5, 1234.5)] {
        voice.note_off();
        voice.note_on(note, f64::to_bits(freq));
        for _ in 0..2000 {
            let sample = f32::from_bits(voice.next_sample(&tone));
            assert!((-1.0..=1.0).contains(&sample));
        }
    }
}
