//! The position of playback, counted in samples, and its division into beats.
//!
//! The number of samples per second is a binary64 pattern (see `number`).
use crate::binary64;
use crate::binary64::{INFINITY, ONE};
use crate::number;
use crate::number::{scale, truncate};
use vstd::arithmetic::power2::*;
use vstd::prelude::*;

verus! {

/// The tempo, in beats per minute.
pub const TEMPO: u32 = 120;

/// The seconds in a minute.
pub const MINUTE: u32 = 60;

/// The pattern of the number two.
pub const TWO: u64 = 0x4000_0000_0000_0000;

/// The length of a beat in samples, with its fraction. The samples in a minute are
/// counted first and then shared among the beats, and each of the two is rounded.
pub open spec fn beat_length_of(sample_rate: u64, bpm: nat) -> u64 {
    number::scaled_by(number::scaled_by(sample_rate, MINUTE as nat, 1), 1, bpm)
}

/// The length of a beat in samples, with its fraction.
pub fn beat_length(sample_rate: u64, bpm: u32) -> (length: u64)
    requires
        bpm > 0,
    ensures
        length == beat_length_of(sample_rate, bpm as nat),
{
    scale(scale(sample_rate, MINUTE, 1), 1, bpm)
}

/// Where playback stands.
pub struct TransportState {
    pub bpm: nat,
    pub sample_rate: u64,
    pub current_sample: nat,
}

impl TransportState {
    /// The start of playback.
    pub open spec fn start(sample_rate: u64) -> Self {
        TransportState { bpm: TEMPO as nat, sample_rate, current_sample: 0 }
    }

    /// The tempo is positive, and the position fits its counter.
    pub open spec fn well_formed(self) -> bool {
        &&& 0 < self.bpm <= u32::MAX
        &&& self.current_sample <= u64::MAX
    }

    /// The whole samples in a beat.
    pub open spec fn beat(self) -> nat {
        number::truncated_of(beat_length_of(self.sample_rate, self.bpm)) as nat
    }

    /// The position `n` samples further on.
    pub open spec fn advanced(self, n: nat) -> Self {
        TransportState { current_sample: self.current_sample + n, ..self }
    }

    /// The position at the start.
    pub open spec fn rewound(self) -> Self {
        TransportState { current_sample: 0, ..self }
    }
}

/// The position of playback.
pub struct Transport {
    bpm: u32,
    sample_rate: u64,
    pub current_sample: u64,
}

impl View for Transport {
    type V = TransportState;

    closed spec fn view(&self) -> TransportState {
        TransportState {
            bpm: self.bpm as nat,
            sample_rate: self.sample_rate,
            current_sample: self.current_sample as nat,
        }
    }
}

impl Transport {
    /// A transport at the start, for the given number of samples per second.
    pub fn new(sample_rate: u64) -> (transport: Self)
        ensures
            transport@ == TransportState::start(sample_rate),
            transport@.well_formed(),
    {
        Transport { bpm: TEMPO, sample_rate, current_sample: 0 }
    }

    /// The position of playback.
    pub fn position(&self) -> (position: u64)
        ensures
            position == self@.current_sample,
    {
        self.current_sample
    }

    /// The whole samples in a beat.
    pub fn samples_per_beat(&self) -> (samples: u64)
        requires
            self@.well_formed(),
        ensures
            samples == self@.beat(),
    {
        truncate(beat_length(self.sample_rate, self.bpm))
    }

    /// Moves on by `n` samples.
    pub fn advance(&mut self, n: usize)
        requires
            old(self)@.well_formed(),
            old(self)@.current_sample + n <= u64::MAX,
        ensures
            final(self)@ == old(self)@.advanced(n as nat),
            final(self)@.well_formed(),
    {
        self.current_sample = self.current_sample + n as u64;
    }

    /// Goes back to the start.
    pub fn reset(&mut self)
        requires
            old(self)@.well_formed(),
        ensures
            final(self)@ == old(self)@.rewound(),
            final(self)@.well_formed(),
    {
        self.current_sample = 0;
    }
}

/// The length of a beat at the tempo of the transport, for a whole number of samples
/// per second.
pub(crate) proof fn lemma_whole_rate(samples: u32)
    ensures
        ({
            let length = beat_length_of(binary64::whole_of(samples as nat), TEMPO as nat);
            &&& length < INFINITY
            &&& 2 * binary64::scaled(length) == samples * binary64::scaled(ONE)
        }),
{
    let n = samples as nat;
    let one = binary64::scaled(ONE);
    binary64::whole_numbers_are_exact(n);
    binary64::whole_numbers_are_exact(60 * n);
    assert((n * one) * 60 == (60 * n) * one) by (nonlinear_arith);
    let minute = binary64::whole_of(60 * n);
    assert(binary64::ratio_of(binary64::whole_of(n), 60, 1) == minute);
    let half = binary64::halved(n);
    binary64::halves_are_exact(n);
    assert((60 * n) * one == 60 * (n * one)) by (nonlinear_arith);
    assert(binary64::scaled(minute) * 1 == binary64::scaled(half) * 120);
    binary64::rounding_is_exact(half, 120);
}

/// At the tempo of the transport a beat is half a second, rounded down to whole
/// samples.
pub proof fn a_beat_is_half_a_second(samples: u32)
    ensures
        TransportState::start(binary64::whole_of(samples as nat)).beat() == samples / 2,
{
    let length = beat_length_of(binary64::whole_of(samples as nat), TEMPO as nat);
    let one = binary64::scaled(ONE);
    lemma_whole_rate(samples);
    lemma_pow2_pos(1022);
    let x = binary64::scaled(length);
    let q = samples as int / 2;
    assert(one == 0x10_0000_0000_0000 * pow2(1022));
    assert(x / one == q) by (nonlinear_arith)
        requires
            2 * x == samples * one,
            q == samples as int / 2,
            one > 0,
    ;
}

/// A beat has samples exactly where there are two or more samples per second; a number
/// that is negative, or none at all, counts as less.
pub proof fn a_beat_has_samples_from_two_per_second(sample_rate: u64)
    ensures
        TransportState::start(sample_rate).beat() > 0 <==> TWO <= sample_rate <= INFINITY,
        sample_rate == INFINITY ==> TransportState::start(sample_rate).beat() == u64::MAX,
{
    if sample_rate <= INFINITY {
        lemma_from_two(sample_rate);
    } else {
        number::scaling_keeps_the_sign(sample_rate, MINUTE as nat, 1);
        number::scaling_keeps_the_sign(
            number::scaled_by(sample_rate, MINUTE as nat, 1),
            1,
            TEMPO as nat,
        );
    }
}

/// What the length of a beat comes to on either side of two samples per second.
proof fn lemma_from_two(rate: u64)
    requires
        rate <= INFINITY,
    ensures
        ({
            let length = beat_length_of(rate, TEMPO as nat);
            &&& length <= INFINITY
            &&& binary64::floor_of(length) > 0 <==> TWO <= rate
            &&& rate == INFINITY ==> binary64::floor_of(length) == u64::MAX
        }),
{
    let one = binary64::scaled(ONE);
    let p = pow2(1022);
    // The patterns of 120 and of the number before it.
    let minute: u64 = 0x405E_0000_0000_0000;
    let before: u64 = 0x405D_FFFF_FFFF_FFFF;
    let almost_two: u64 = 0x3FFF_FFFF_FFFF_FFFF;
    let almost: u64 = 0x3FEF_FFFF_FFFF_FFFF;
    lemma2_to64();
    lemma_pow2_pos(1021);
    lemma_pow2_unfold(1022);
    lemma_pow2_unfold(1023);
    lemma_pow2_adds(6, 1022);
    assert(pow2(1028) == 64 * p) by (nonlinear_arith)
        requires
            pow2(6) == 64,
            pow2(1028) == pow2(6) * p,
    ;
    assert(one == 0x10_0000_0000_0000 * p);
    assert(binary64::scaled(TWO) == 0x10_0000_0000_0000 * pow2(1023));
    assert(binary64::scaled(minute) == 0x1E_0000_0000_0000 * pow2(1028));
    assert(binary64::scaled(before) == 0x1D_FFFF_FFFF_FFFF * pow2(1028));
    assert(binary64::scaled(almost_two) == 0x1F_FFFF_FFFF_FFFF * p);
    assert(binary64::scaled(almost) == 0x1F_FFFF_FFFF_FFFF * pow2(1021));
    let x = binary64::scaled(rate);
    let sixty = binary64::ratio_of(rate, 60, 1);
    binary64::rounding_keeps_bounds(x * 60, 1, minute);
    let y = binary64::scaled(sixty);
    let length = binary64::ratio_of(sixty, 1, 120);
    binary64::rounding_keeps_bounds(y * 1, 120, ONE);
    binary64::rounding_keeps_bounds(y * 1, 120, almost);
    let z = binary64::scaled(length);
    binary64::patterns_keep_order(ONE, length);
    binary64::patterns_keep_order(rate, TWO);
    binary64::patterns_keep_order(minute, sixty);
    if rate >= TWO {
        if rate < INFINITY {
            assert(x * 60 >= binary64::scaled(minute) * 1);
            assert(sixty >= minute);
        }
        if sixty < INFINITY {
            assert(y * 1 >= one * 120);
        }
        assert(length >= ONE);
        assert(z / one >= 1) by (nonlinear_arith)
            requires
                z >= one,
                one > 0,
        ;
        if rate == INFINITY {
            lemma_infinity_is_beyond();
        }
    } else {
        binary64::patterns_keep_order(rate, almost_two);
        binary64::rounding_keeps_order(x * 60, binary64::scaled(almost_two) * 60, 1);
        binary64::rounding_within_half_gap(binary64::scaled(almost_two) * 60, 1, before);
        assert(sixty <= before);
        binary64::patterns_keep_order(before, sixty);
        assert(length <= almost);
        assert(z / one == 0) by (nonlinear_arith)
            requires
                0 <= z < one,
        ;
    }
}

/// Infinity counts as more than any `u64`.
proof fn lemma_infinity_is_beyond()
    ensures
        binary64::floor_of(INFINITY) == u64::MAX,
{
    let p = pow2(1022);
    lemma2_to64_rest();
    lemma_pow2_pos(1022);
    lemma_pow2_adds(1024, 1022);
    lemma_pow2_strictly_increases(64, 1024);
    let g = pow2(1024);
    assert(binary64::scaled(ONE) == 0x10_0000_0000_0000 * p);
    assert(binary64::scaled(INFINITY) == 0x10_0000_0000_0000 * pow2(2046));
    let one = 0x10_0000_0000_0000 * p;
    let all = 0x10_0000_0000_0000 * (g * p);
    assert(all == g * one) by (nonlinear_arith)
        requires
            all == 0x10_0000_0000_0000 * (g * p),
            one == 0x10_0000_0000_0000 * p,
    ;
    assert(all / one == g) by (nonlinear_arith)
        requires
            all == g * one,
            one > 0,
    ;
}

/// Two advances are one advance by their sum, and a reset undoes any advance.
pub proof fn advances_add_up(t: TransportState, a: nat, b: nat)
    ensures
        t.advanced(a).advanced(b) == t.advanced(a + b),
        t.advanced(a).rewound() == t.rewound(),
{
}

/// Playback starts with the first sample, at 120 beats per minute.
pub proof fn playback_starts_at_the_start(sample_rate: u64)
    ensures
        TransportState::start(sample_rate).current_sample == 0,
        TransportState::start(sample_rate).sample_rate == sample_rate,
        TransportState::start(sample_rate).bpm == 120,
{
}

/// Advancing adds to the position and to nothing else, and rewinding takes the position to
/// the start and nothing else.
pub proof fn positions_are_counted(t: TransportState, n: nat)
    ensures
        t.advanced(n).current_sample == t.current_sample + n,
        t.advanced(n).bpm == t.bpm,
        t.advanced(n).sample_rate == t.sample_rate,
        t.rewound().current_sample == 0,
        t.rewound().bpm == t.bpm,
        t.rewound().sample_rate == t.sample_rate,
{
}

/// A beat has the whole samples of a minute divided by the beats in it: the number of
/// samples per second times sixty and then divided by the tempo, each rounded to the
/// nearest number, and the fraction dropped.
pub proof fn beats_share_a_minute(t: TransportState, minute: u64, length: u64)
    requires
        t.bpm > 0,
        t.sample_rate < 0x7FF0_0000_0000_0000,
        binary64::rounds_to(binary64::scaled(t.sample_rate) * 60, 1, minute),
        minute < 0x7FF0_0000_0000_0000 ==> binary64::rounds_to(
            binary64::scaled(minute),
            t.bpm,
            length,
        ),
        minute == 0x7FF0_0000_0000_0000 ==> length == 0x7FF0_0000_0000_0000,
    ensures
        beat_length_of(t.sample_rate, t.bpm) == length,
        t.beat() <= u64::MAX,
        t.beat() * binary64::scaled(0x3FF0_0000_0000_0000) <= binary64::scaled(length),
        t.beat() < u64::MAX ==> binary64::scaled(length) < (t.beat() + 1) * binary64::scaled(
            0x3FF0_0000_0000_0000,
        ),
{
    binary64::rounding_is_unique(binary64::scaled(t.sample_rate) * 60, 1, minute);
    assert(binary64::ratio_of(t.sample_rate, 60, 1) == minute);
    if minute < INFINITY {
        binary64::rounding_is_unique(binary64::scaled(minute), t.bpm, length);
        assert(binary64::scaled(minute) * 1 == binary64::scaled(minute));
    }
    assert(beat_length_of(t.sample_rate, t.bpm) == length);
    binary64::floors_are_below(length);
    assert(t.beat() == binary64::floor_of(length));
}

/// A negative number of samples per second gives a beat of negative length, as long as
/// that of the positive number; an infinite one gives an infinite beat, and what is no
/// number gives none.
pub proof fn beats_go_by_the_sign_of_the_rate(rate: u64, bpm: nat)
    requires
        bpm > 0,
    ensures
        rate <= 0x7FF0_0000_0000_0000 ==> beat_length_of(
            (rate + 0x8000_0000_0000_0000) as u64,
            bpm,
        ) == beat_length_of(rate, bpm) + 0x8000_0000_0000_0000,
        rate == 0x7FF0_0000_0000_0000 ==> beat_length_of(rate, bpm) == 0x7FF0_0000_0000_0000,
        rate % 0x8000_0000_0000_0000 > 0x7FF0_0000_0000_0000 ==> number::is_nan(
            beat_length_of(rate, bpm),
        ),
{
    if rate <= INFINITY {
        number::scaling_goes_by_size(rate, 60, 1);
        let minute = binary64::ratio_of(rate, 60, 1);
        binary64::rounding_keeps_bounds(binary64::scaled(rate) * 60, 1, 0);
        number::scaling_goes_by_size(minute, 1, bpm);
    }
}

}
