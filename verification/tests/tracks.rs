use audiosilence::audio_track::AudioTrack;
use audiosilence::transport::Transport;

fn transport(rate: f64) -> Transport {
    Transport::new(rate.to_bits())
}

#[test]
fn a_track_plays_once_in_order() {
    let samples: Vec<u32> = [0.5f32, -0.25, 0.125].iter().map(|s| s.to_bits()).collect();
    let mut track = AudioTrack::new(samples.clone());
    for s in samples {
        assert!(track.is_active());
        assert_eq!(track.next_sample(), s);
    }
    assert!(!track.is_active());
    assert_eq!(track.next_sample(), 0.0f32.to_bits());
    assert_eq!(track.next_sample(), 0);
    assert!(!track.is_active());
}

#[test]
fn an_empty_track_is_active_until_asked() {
    let mut track = AudioTrack::new(Vec::new());
    assert!(track.is_active());
    assert_eq!(track.next_sample(), 0);
    assert!(!track.is_active());
}

#[test]
fn beats_are_half_seconds() {
    for rate in [0u32, 1, 2, 3, 8000, 11025, 44100, 48000, 192000, u32::MAX] {
        let native = ((rate as f64 * 60.0) / 120.0) as u64;
        assert_eq!(transport(rate as f64).samples_per_beat(), native);
    }
    assert_eq!(transport(48000.0).samples_per_beat(), 24000);
    assert_eq!(transport(11025.0).samples_per_beat(), 5512);
}

#[test]
fn beats_of_any_rate_agree_with_native_arithmetic() {
    let mut rates = vec![
        0.0,
        -0.0,
        f64::NAN,
        f64::INFINITY,
        f64::NEG_INFINITY,
        f64::MAX,
        f64::MIN,
        f64::MIN_POSITIVE,
        5e-324,
        -48000.0,
        44100.5,
        1.9999999999999998,
        2.0,
        2.0000000000000004,
        3.9999999999999996,
        3.689348814741910e19,
        3.689348814741911e19,
        3.7e19,
    ];
    let mut bits = 0x9E37_79B9_7F4A_7C15u64;
    for _ in 0..50_000 {
        bits ^= bits << 13;
        bits ^= bits >> 7;
        bits ^= bits << 17;
        rates.push(f64::from_bits(bits));
        rates.push(f64::from_bits(bits % (80 << 52) + (1020 << 52)));
    }
    for rate in rates {
        let native = ((rate * 60.0) / 120.0) as u64;
        assert_eq!(transport(rate).samples_per_beat(), native, "{}", rate);
        assert_eq!(native > 0, rate >= 2.0);
    }
    assert_eq!(transport(f64::INFINITY).samples_per_beat(), u64::MAX);
}

#[test]
fn the_transport_advances_and_resets() {
    let mut transport = transport(48000.0);
    assert_eq!(transport.current_sample, 0);
    transport.advance(512);
    transport.advance(3);
    assert_eq!(transport.current_sample, 515);
    assert_eq!(transport.position(), 515);
    transport.advance(0);
    assert_eq!(transport.current_sample, 515);
    transport.reset();
    assert_eq!(transport.current_sample, 0);
}
