//! The playhead on the timeline.
use crate::binary64;
use crate::binary64::{whole, EXPONENT_UNIT, INFINITY};
use crate::number;
use crate::number::{over, scale};
use crate::transport;
use crate::transport::{beat_length, TEMPO};
use vstd::arithmetic::power2::*;
use vstd::prelude::*;

verus! {

/// The width of a beat on the timeline, in pixels.
pub const BEAT_WIDTH: u32 = 80;

/// Where the playhead stands, in pixels, once a number of samples has been played.
/// The beats are counted first and then spread over the timeline, and each of the
/// two is rounded.
pub open spec fn playhead_at(samples: nat, sample_rate: u64) -> u64 {
    number::scaled_by(
        number::over_of(
            binary64::whole_of(samples),
            transport::beat_length_of(sample_rate, TEMPO as nat),
        ),
        BEAT_WIDTH as nat,
        1,
    )
}

/// Where the playhead stands, in pixels. Both it and the number of samples per second
/// are binary64 patterns.
pub fn playhead(samples: u64, sample_rate: u64) -> (position: u64)
    ensures
        position == playhead_at(samples as nat, sample_rate),
{
    let beats = over(whole(samples), beat_length(sample_rate, TEMPO));
    scale(beats, BEAT_WIDTH, 1)
}

/// A greater number divided by the same one does not give less.
proof fn lemma_quotient_keeps_order(a: u64, b: u64, c: u64)
    requires
        a <= b <= INFINITY,
        0 < c <= INFINITY,
        b < INFINITY || c < INFINITY,
    ensures
        binary64::quotient_of(a, c) <= binary64::quotient_of(b, c) <= INFINITY,
{
    let x = binary64::scaled(a);
    let y = binary64::scaled(b);
    let one = binary64::scaled(binary64::ONE);
    let den = binary64::scaled(c);
    binary64::patterns_keep_order(b, a);
    binary64::patterns_keep_order(0, c);
    assert(x * one <= y * one) by (nonlinear_arith)
        requires
            x <= y,
    ;
    if c < INFINITY {
        assert(den > 0);
        binary64::rounding_keeps_order(x * one, y * one, den);
        binary64::rounding_keeps_bounds(x * one, den, 0);
        binary64::rounding_keeps_bounds(y * one, den, 0);
    }
}

/// The playhead does not move back while playback goes on, where a beat has a length.
pub proof fn the_playhead_does_not_move_back(earlier: nat, later: nat, sample_rate: u64)
    requires
        earlier <= later,
        0 < transport::beat_length_of(sample_rate, TEMPO as nat) <= INFINITY,
        later <= u64::MAX,
    ensures
        playhead_at(earlier, sample_rate) <= playhead_at(later, sample_rate) <= INFINITY,
{
    let one = binary64::scaled(binary64::ONE);
    let length = transport::beat_length_of(sample_rate, TEMPO as nat);
    assert(earlier * one <= later * one) by (nonlinear_arith)
        requires
            earlier <= later,
    ;
    binary64::rounding_keeps_order(earlier * one, later * one, 1);
    let a = binary64::whole_of(earlier);
    let b = binary64::whole_of(later);
    lemma_counts_are_finite(later);
    lemma_quotient_keeps_order(a, b, length);
    let x = binary64::quotient_of(a, length);
    let y = binary64::quotient_of(b, length);
    binary64::patterns_keep_order(y, x);
    let (u, w) = (binary64::scaled(x), binary64::scaled(y));
    assert(u * 80 <= w * 80);
    binary64::rounding_keeps_order(u * 80, w * 80, 1);
    binary64::rounding_keeps_bounds(u * 80, 1, 0);
    binary64::rounding_keeps_bounds(w * 80, 1, 0);
}

/// A number of samples that a counter holds is finite.
proof fn lemma_counts_are_finite(samples: nat)
    requires
        samples <= u64::MAX,
    ensures
        binary64::whole_of(samples) < INFINITY,
{
    // The pattern of two to the power 64.
    let bound: u64 = 0x43F0_0000_0000_0000;
    let one = binary64::scaled(binary64::ONE);
    lemma2_to64_rest();
    lemma_pow2_adds(64, 1022);
    let p = pow2(1022);
    assert(binary64::scaled(bound) == 0x10_0000_0000_0000 * (0x1_0000_0000_0000_0000 * p));
    assert(samples * (0x10_0000_0000_0000 * p) <= 0x10_0000_0000_0000 * (0x1_0000_0000_0000_0000
        * p)) by (nonlinear_arith)
        requires
            samples <= 0x1_0000_0000_0000_0000,
            p >= 0,
    ;
    binary64::rounding_keeps_bounds(samples * one, 1, bound);
}

/// On a beat the playhead stands exactly one width of a beat further on for every
/// beat that has passed, for a whole number of samples per second and as long as the
/// numbers are small enough to be exact.
pub proof fn beats_are_evenly_spaced(beats: nat, samples: nat, sample_rate: u32)
    requires
        sample_rate > 0,
        2 * samples == beats * sample_rate,
        samples < 2 * EXPONENT_UNIT,
        BEAT_WIDTH * beats < 2 * EXPONENT_UNIT,
    ensures
        playhead_at(samples, binary64::whole_of(sample_rate as nat)) == binary64::whole_of(
            BEAT_WIDTH as nat * beats,
        ),
{
    let one = binary64::scaled(binary64::ONE);
    let length = transport::beat_length_of(
        binary64::whole_of(sample_rate as nat),
        TEMPO as nat,
    );
    let den = binary64::scaled(length);
    let b = binary64::whole_of(beats);
    transport::lemma_whole_rate(sample_rate);
    binary64::whole_numbers_are_exact(samples);
    binary64::whole_numbers_are_exact(beats);
    binary64::whole_numbers_are_exact(BEAT_WIDTH as nat * beats);
    lemma2_to64();
    assert(binary64::scaled(0) == 0 * pow2(0));
    binary64::patterns_keep_order(0, binary64::ONE);
    assert(den > 0) by (nonlinear_arith)
        requires
            2 * den == sample_rate * one,
            sample_rate > 0,
            one > 0,
    ;
    assert((samples * one) * one == (beats * one) * den) by (nonlinear_arith)
        requires
            2 * samples == beats * sample_rate,
            2 * den == sample_rate * one,
    ;
    binary64::patterns_keep_order(0, length);
    binary64::rounding_is_exact(b, den);
    assert(binary64::quotient_of(binary64::whole_of(samples), length) == b);
    assert((beats * one) * 80 == (80 * beats) * one) by (nonlinear_arith);
}

/// The playhead stands at the samples played divided by the length of a beat and times 80
/// pixels, each rounded to the nearest number.
pub proof fn the_playhead_counts_beats(samples: nat, sample_rate: u64)
    requires
        samples <= u64::MAX,
        0 < transport::beat_length_of(sample_rate, 120) < 0x7FF0_0000_0000_0000,
    ensures
        exists|counted: u64, beats: u64|
            {
                &&& #[trigger] binary64::rounds_to(
                    samples * binary64::scaled(0x3FF0_0000_0000_0000),
                    1,
                    counted,
                )
                &&& #[trigger] binary64::rounds_to(
                    binary64::scaled(counted) * binary64::scaled(0x3FF0_0000_0000_0000),
                    binary64::scaled(transport::beat_length_of(sample_rate, 120)),
                    beats,
                )
                &&& beats < 0x7FF0_0000_0000_0000 ==> binary64::rounds_to(
                    binary64::scaled(beats) * 80,
                    1,
                    playhead_at(samples, sample_rate),
                )
                &&& beats == 0x7FF0_0000_0000_0000 ==> playhead_at(samples, sample_rate)
                    == 0x7FF0_0000_0000_0000
            },
{
    let length = transport::beat_length_of(sample_rate, 120);
    let counted = binary64::whole_of(samples);
    binary64::wholes_are_nearest(samples);
    lemma_counts_are_finite(samples);
    let beats = binary64::quotient_of(counted, length);
    binary64::quotients_are_nearest(counted, length);
    if beats < INFINITY {
        binary64::ratios_are_nearest(beats, 80, 1);
    }
}

/// With a negative number of samples per second the playhead moves the other way, just as
/// far; with an infinite one it stays at the start; and where a beat has no length, it is
/// infinitely far once anything has been played.
pub proof fn the_playhead_goes_by_the_sign_of_the_rate(samples: nat, rate: u64)
    requires
        samples <= u64::MAX,
        rate <= 0x7FF0_0000_0000_0000,
    ensures
        0 < transport::beat_length_of(rate, 120) ==> playhead_at(
            samples,
            (rate + 0x8000_0000_0000_0000) as u64,
        ) == playhead_at(samples, rate) + 0x8000_0000_0000_0000,
        rate == 0x7FF0_0000_0000_0000 ==> playhead_at(samples, rate) == 0,
        transport::beat_length_of(rate, 120) == 0 && samples > 0 ==> playhead_at(samples, rate)
            == 0x7FF0_0000_0000_0000,
        transport::beat_length_of(rate, 120) == 0 && samples == 0 ==> number::is_nan(
            playhead_at(samples, rate),
        ),
{
    let length = transport::beat_length_of(rate, 120);
    let counted = binary64::whole_of(samples);
    lemma_counts_are_finite(samples);
    transport::beats_go_by_the_sign_of_the_rate(rate, 120);
    number::scaling_goes_by_size(rate, 60, 1);
    binary64::rounding_keeps_bounds(binary64::scaled(rate) * 60, 1, 0);
    let minute = binary64::ratio_of(rate, 60, 1);
    number::scaling_goes_by_size(minute, 1, 120);
    binary64::rounding_keeps_bounds(binary64::scaled(minute) * 1, 120, 0);
    assert(length <= INFINITY);
    binary64::quotients_are_nearest(counted, length);
    let beats = binary64::quotient_of(counted, length);
    number::quotients_go_by_sign_and_size(counted, length);
    if 0 < length < INFINITY {
        binary64::rounding_keeps_bounds(
            binary64::scaled(counted) * binary64::scaled(binary64::ONE),
            binary64::scaled(length),
            0,
        );
    }
    number::scaling_goes_by_size(beats, 80, 1);
    lemma2_to64();
    assert(binary64::scaled(0) == 0 * pow2(0));
    binary64::rounding_keeps_bounds(0, 1, 0);
    binary64::rounding_keeps_bounds(binary64::scaled(0) * 80, 1, 0);
    binary64::patterns_keep_order(0, binary64::ONE);
    let one = binary64::scaled(binary64::ONE);
    if samples == 0 {
        assert(samples * one == 0) by (nonlinear_arith)
            requires
                samples == 0,
        ;
        assert(counted == 0);
    } else {
        assert(samples * one >= one) by (nonlinear_arith)
            requires
                samples >= 1,
                one >= 0,
        ;
        binary64::rounding_keeps_bounds(samples * one, 1, binary64::ONE);
        assert(counted > 0);
    }
}

}
