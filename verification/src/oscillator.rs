//! One voice of the synthesiser: a sine oscillator with a release envelope.
//!
//! Phase, frequency and gain are binary64 patterns (see `number`), samples are
//! binary32 patterns. The sine itself is evaluated by the caller's `tone`.
use crate::binary64;
use crate::binary64::{difference, INFINITY, ONE};
use crate::number;
use crate::number::{over, plus, SIGN};
use vstd::arithmetic::power2::*;
use vstd::prelude::*;

verus! {

/// Silence, the pattern of the binary32 number zero.
pub const SILENCE: u32 = 0;

/// The pattern of 440 Hz, the frequency of a voice that has played nothing yet.
pub const CONCERT_PITCH: u64 = 0x407B_8000_0000_0000;

/// The pattern of 0.001, by which the gain of a released voice falls per sample.
pub const RELEASE_RATE: u64 = 0x3F50_624D_D2F1_A9FC;

/// What a voice is doing.
pub struct VoiceState {
    pub active: bool,
    pub releasing: bool,
    pub note: u8,
    pub phase: u64,
    pub freq: u64,
    pub sample_rate: u64,
    pub env_gain: u64,
}

impl VoiceState {
    /// The gain is positive exactly while the voice sounds, and it is full until
    /// the voice is released.
    pub open spec fn well_formed(self) -> bool {
        &&& self.env_gain <= ONE
        &&& self.active <==> self.env_gain > 0
        &&& self.active && !self.releasing ==> self.env_gain == ONE
    }

    /// A voice that has played nothing yet.
    pub open spec fn fresh(sample_rate: u64) -> Self {
        VoiceState {
            active: false,
            releasing: false,
            note: 0,
            phase: 0,
            freq: CONCERT_PITCH,
            sample_rate,
            env_gain: 0,
        }
    }

    /// The voice once a note has been struck. The phase runs on from where it was.
    pub open spec fn struck(self, note: u8, freq: u64) -> Self {
        VoiceState { active: true, releasing: false, note, freq, env_gain: ONE, ..self }
    }

    /// The voice once its note has been let go.
    pub open spec fn released(self) -> Self {
        VoiceState { releasing: true, ..self }
    }

    /// The part of a cycle that passes from one sample to the next.
    pub open spec fn phase_step(self) -> u64 {
        number::over_of(self.freq, self.sample_rate)
    }

    /// The phase one sample later. A phase that has reached a whole cycle is
    /// taken back by one cycle.
    pub open spec fn next_phase(self) -> u64 {
        let moved = number::plus_of(self.phase, self.phase_step());
        if ONE <= moved <= INFINITY {
            binary64::difference_of(moved, ONE)
        } else {
            moved
        }
    }

    /// The gain one sample later.
    pub open spec fn next_gain(self) -> u64 {
        if !self.releasing {
            self.env_gain
        } else if self.env_gain <= RELEASE_RATE {
            0
        } else {
            binary64::difference_of(self.env_gain, RELEASE_RATE)
        }
    }

    /// The voice one sample later: a silent one rests, a sounding one moves on and
    /// falls silent when its gain is used up.
    pub open spec fn ticked(self) -> Self {
        if !self.active {
            self
        } else {
            VoiceState {
                active: self.next_gain() > 0,
                releasing: self.releasing && self.next_gain() > 0,
                phase: self.next_phase(),
                env_gain: self.next_gain(),
                ..self
            }
        }
    }

    /// The voice `n` samples later.
    pub open spec fn after(self, n: nat) -> Self
        decreases n,
    {
        if n == 0 {
            self
        } else {
            self.after((n - 1) as nat).ticked()
        }
    }

    /// Whether `sample` is what the voice gives next: silence while it is silent,
    /// otherwise what `tone` makes of its phase and gain.
    pub open spec fn gives<T: Fn(u64, u64) -> u32>(self, tone: T, sample: u32) -> bool {
        if self.active {
            call_ensures(tone, (self.phase, self.env_gain), sample)
        } else {
            sample == SILENCE
        }
    }
}

/// A voice of the synthesiser.
pub struct Voice {
    active: bool,
    releasing: bool,
    note: u8,
    phase: u64,
    freq: u64,
    sample_rate: u64,
    env_gain: u64,
}

impl View for Voice {
    type V = VoiceState;

    closed spec fn view(&self) -> VoiceState {
        VoiceState {
            active: self.active,
            releasing: self.releasing,
            note: self.note,
            phase: self.phase,
            freq: self.freq,
            sample_rate: self.sample_rate,
            env_gain: self.env_gain,
        }
    }
}

impl Voice {
    /// A silent voice for the given number of samples per second.
    pub fn new(sample_rate: u64) -> (voice: Self)
        ensures
            voice@ == VoiceState::fresh(sample_rate),
            voice@.well_formed(),
    {
        Voice {
            active: false,
            releasing: false,
            note: 0,
            phase: 0,
            freq: CONCERT_PITCH,
            sample_rate,
            env_gain: 0,
        }
    }

    /// Strikes a note.
    pub fn note_on(&mut self, note: u8, freq: u64)
        requires
            old(self)@.well_formed(),
        ensures
            final(self)@ == old(self)@.struck(note, freq),
            final(self)@.well_formed(),
    {
        self.active = true;
        self.releasing = false;
        self.note = note;
        self.freq = freq;
        self.env_gain = ONE;
    }

    /// Lets the note go.
    pub fn note_off(&mut self)
        requires
            old(self)@.well_formed(),
        ensures
            final(self)@ == old(self)@.released(),
            final(self)@.well_formed(),
    {
        self.releasing = true;
    }

    /// Whether the voice sounds.
    pub fn is_active(&self) -> (active: bool)
        ensures
            active == self@.active,
    {
        self.active
    }

    /// The note struck last.
    pub fn note(&self) -> (note: u8)
        ensures
            note == self@.note,
    {
        self.note
    }

    /// Moves on by one sample without evaluating it.
    pub(crate) fn tick(&mut self)
        requires
            old(self)@.well_formed(),
        ensures
            final(self)@ == old(self)@.ticked(),
            final(self)@.well_formed(),
    {
        if !self.active {
            return ;
        }
        let moved = plus(self.phase, over(self.freq, self.sample_rate));
        self.phase = if ONE <= moved && moved <= INFINITY {
            difference(moved, ONE)
        } else {
            moved
        };
        if self.releasing {
            if self.env_gain <= RELEASE_RATE {
                self.env_gain = 0;
                self.active = false;
                self.releasing = false;
            } else {
                proof {
                    lemma_release_falls(self.env_gain);
                }
                self.env_gain = difference(self.env_gain, RELEASE_RATE);
            }
        }
    }

    /// The next sample; `tone` gives the sample for a phase and a gain.
    pub fn next_sample<T: Fn(u64, u64) -> u32>(&mut self, tone: &T) -> (sample: u32)
        requires
            old(self)@.well_formed(),
            forall|phase: u64, gain: u64| #[trigger] call_requires(*tone, (phase, gain)),
        ensures
            final(self)@ == old(self)@.ticked(),
            final(self)@.well_formed(),
            old(self)@.gives(*tone, sample),
    {
        if !self.active {
            return SILENCE;
        }
        let sample = (*tone)(self.phase, self.env_gain);
        self.tick();
        sample
    }
}

/// A gain above the release rate falls, but not to nothing.
proof fn lemma_release_falls(gain: u64)
    requires
        RELEASE_RATE < gain <= ONE,
    ensures
        0 < binary64::difference_of(gain, RELEASE_RATE) <= gain,
{
    let num = (binary64::scaled(gain) - binary64::scaled(RELEASE_RATE)) as nat;
    binary64::patterns_keep_order(RELEASE_RATE, gain);
    assert(binary64::scaled(1) == 1 * pow2(0));
    lemma2_to64();
    binary64::rounding_keeps_bounds(num, 1, 1);
    binary64::rounding_keeps_bounds(num, 1, gain);
}

/// Rest and motion keep a voice well-formed.
pub proof fn ticking_keeps_voices_well_formed(v: VoiceState, n: nat)
    requires
        v.well_formed(),
    ensures
        v.after(n).well_formed(),
    decreases n,
{
    if n > 0 {
        ticking_keeps_voices_well_formed(v, (n - 1) as nat);
        let w = v.after((n - 1) as nat);
        if w.env_gain > RELEASE_RATE {
            lemma_release_falls(w.env_gain);
        }
    }
}

/// A voice at rest stays at rest, and all of it stays as it is.
pub proof fn silent_voices_rest(v: VoiceState, n: nat)
    requires
        !v.active,
    ensures
        v.after(n) == v,
    decreases n,
{
    if n > 0 {
        silent_voices_rest(v, (n - 1) as nat);
    }
}

/// Moving on by `a` and then by `b` samples is moving on by `a + b` samples.
pub proof fn ticks_add_up(v: VoiceState, a: nat, b: nat)
    ensures
        v.after(a).after(b) == v.after(a + b),
    decreases b,
{
    if b > 0 {
        ticks_add_up(v, a, (b - 1) as nat);
    }
}

/// While the frequency is not negative and below the number of samples per second,
/// the phase that comes after one within a cycle is within a cycle.
proof fn lemma_phase_within(v: VoiceState)
    requires
        v.phase < ONE,
        v.is_in_range(),
    ensures
        v.next_phase() < ONE,
{
    let p = pow2(1021);
    let almost = (ONE - 1) as u64;
    let almost_two = (ONE + binary64::EXPONENT_UNIT - 1) as u64;
    lemma_pow2_pos(1021);
    lemma_pow2_unfold(1022);
    assert(binary64::scaled(ONE) == 0x10_0000_0000_0000 * pow2(1022));
    assert(binary64::scaled(almost) == 0x1F_FFFF_FFFF_FFFF * p);
    assert(binary64::scaled(almost_two) == 0x1F_FFFF_FFFF_FFFF * pow2(1022));
    if v.freq == SIGN {
        assert(binary64::scaled(0) == 0 * pow2(0));
        binary64::quotients_by_greater_numbers_are_below_one(0, v.sample_rate);
        lemma_nothing_over(v.sample_rate);
        binary64::rounding_is_exact(v.phase, 1);
    } else {
        let step = v.phase_step();
        binary64::quotients_by_greater_numbers_are_below_one(v.freq, v.sample_rate);
        binary64::patterns_keep_order(almost, v.phase);
        binary64::patterns_keep_order(almost, step);
        let num = binary64::scaled(v.phase) + binary64::scaled(step);
        binary64::rounding_keeps_bounds(num, 1, almost_two);
        let moved = binary64::sum_of(v.phase, step);
        if moved >= ONE {
            binary64::patterns_keep_order(moved, almost_two);
            binary64::patterns_keep_order(moved, ONE);
            let x = binary64::scaled(moved);
            let rest = (x - binary64::scaled(ONE)) as nat;
            assert(x - 0x10_0000_0000_0000 * (2 * p) <= 0x1F_FFFF_FFFF_FFFF * p)
                by (nonlinear_arith)
                requires
                    x <= 0x1F_FFFF_FFFF_FFFF * (2 * p),
                    p > 0,
            ;
            binary64::rounding_keeps_bounds(rest, 1, almost);
        }
    }
}

/// Zero divided by anything but zero is zero.
proof fn lemma_nothing_over(b: u64)
    requires
        0 < b <= INFINITY,
    ensures
        binary64::quotient_of(0, b) == 0,
{
    assert(binary64::scaled(0) == 0 * pow2(0));
    if b < INFINITY {
        binary64::patterns_keep_order(0, b);
        binary64::rounding_keeps_bounds(0, binary64::scaled(b), 0);
    }
}

/// While the frequency is below the number of samples per second, the phase of a
/// voice stays within one cycle.
pub proof fn phase_stays_within_a_cycle(v: VoiceState, n: nat)
    requires
        v.phase < ONE,
        v.is_in_range(),
    ensures
        v.after(n).phase < ONE,
        v.after(n).freq == v.freq,
        v.after(n).sample_rate == v.sample_rate,
    decreases n,
{
    if n > 0 {
        phase_stays_within_a_cycle(v, (n - 1) as nat);
        lemma_phase_within(v.after((n - 1) as nat));
    }
}

/// Letting a voice go before a note is struck makes no difference to the note.
pub proof fn striking_forgets_a_release(v: VoiceState, note: u8, freq: u64)
    ensures
        v.released().struck(note, freq) == v.struck(note, freq),
{
}

/// The note struck last is the one that sounds, whatever was struck before it, and
/// striking it again changes nothing.
pub proof fn the_last_note_wins(v: VoiceState, a: u8, freq_a: u64, b: u8, freq_b: u64)
    ensures
        v.struck(a, freq_a).struck(b, freq_b) == v.struck(b, freq_b),
{
}

/// Something that is done to a voice.
pub enum Gesture {
    /// A note is struck.
    Strike { note: u8, freq: u64 },
    /// The note is let go.
    LetGo,
    /// A sample is taken.
    Sample,
}

impl VoiceState {
    /// Whether the frequency is neither negative nor as great as the number of samples
    /// per second.
    pub open spec fn is_in_range(self) -> bool {
        &&& 0 < self.sample_rate <= INFINITY
        &&& self.freq < self.sample_rate || self.freq == SIGN
    }

    /// The voice once something has been done to it.
    pub open spec fn done(self, gesture: Gesture) -> Self {
        match gesture {
            Gesture::Strike { note, freq } => self.struck(note, freq),
            Gesture::LetGo => self.released(),
            Gesture::Sample => self.ticked(),
        }
    }

    /// The voice once several things have been done to it.
    pub open spec fn performed(self, gestures: Seq<Gesture>) -> Self
        decreases gestures.len(),
    {
        if gestures.len() == 0 {
            self
        } else {
            self.performed(gestures.drop_last()).done(gestures.last())
        }
    }
}

/// Whether the binary32 number behind a pattern lies from minus one to one.
pub open spec fn is_unit(sample: u32) -> bool {
    sample <= 0x3F80_0000 || 0x8000_0000 <= sample <= 0xBF80_0000
}

/// Whatever is done to a voice, its phase stays within a cycle and it sounds no
/// frequency but those struck.
proof fn lemma_performance(sample_rate: u64, gestures: Seq<Gesture>)
    requires
        0 < sample_rate <= INFINITY,
        forall|i: int|
            0 <= i < gestures.len() ==> ((#[trigger] gestures[i]) matches Gesture::Strike {
                freq,
                ..
            } ==> freq < sample_rate || freq == SIGN),
    ensures
        ({
            let v = VoiceState::fresh(sample_rate).performed(gestures);
            &&& v.well_formed()
            &&& v.phase < ONE
            &&& v.sample_rate == sample_rate
            &&& v.active ==> v.is_in_range()
        }),
    decreases gestures.len(),
{
    if gestures.len() > 0 {
        let earlier = gestures.drop_last();
        assert forall|i: int| 0 <= i < earlier.len() implies ((#[trigger] earlier[i]) matches
            Gesture::Strike { freq, .. } ==> freq < sample_rate || freq == SIGN) by {
            assert(earlier[i] == gestures[i]);
        }
        lemma_performance(sample_rate, earlier);
        let v = VoiceState::fresh(sample_rate).performed(earlier);
        assert(gestures.last() == gestures[gestures.len() - 1]);
        if gestures.last() is Sample && v.active {
            lemma_phase_within(v);
            if v.env_gain > RELEASE_RATE {
                lemma_release_falls(v.env_gain);
            }
        }
    }
}

/// Every sample of a voice lies from minus one to one, whatever was done to the voice
/// before, as long as every frequency struck is below the number of samples per second
/// and the tone of a phase within a cycle and a gain of at most one lies from minus
/// one to one.
pub proof fn samples_lie_between_minus_one_and_one<T: Fn(u64, u64) -> u32>(
    tone: T,
    sample_rate: u64,
    gestures: Seq<Gesture>,
    sample: u32,
)
    requires
        0 < sample_rate <= INFINITY,
        forall|i: int|
            0 <= i < gestures.len() ==> ((#[trigger] gestures[i]) matches Gesture::Strike {
                freq,
                ..
            } ==> freq < sample_rate || freq == SIGN),
        forall|phase: u64, gain: u64, s: u32|
            phase < ONE && gain <= ONE && #[trigger] call_ensures(tone, (phase, gain), s)
                ==> is_unit(s),
        VoiceState::fresh(sample_rate).performed(gestures).gives(tone, sample),
    ensures
        is_unit(sample),
{
    lemma_performance(sample_rate, gestures);
}

/// A voice that has played nothing yet is at rest, at the start of a cycle, and tuned to
/// 440 Hz.
pub proof fn fresh_voices_are_at_rest(sample_rate: u64)
    ensures
        ({
            let v = VoiceState::fresh(sample_rate);
            &&& !v.active
            &&& !v.releasing
            &&& v.note == 0
            &&& v.phase == 0
            &&& v.freq == 0x407B_8000_0000_0000
            &&& v.sample_rate == sample_rate
            &&& v.env_gain == 0
        }),
{
}

/// A note struck sounds at full gain with the frequency given, and its phase runs on from
/// where it was.
pub proof fn notes_struck_sound(v: VoiceState, note: u8, freq: u64)
    ensures
        v.struck(note, freq).active,
        !v.struck(note, freq).releasing,
        v.struck(note, freq).note == note,
        v.struck(note, freq).freq == freq,
        v.struck(note, freq).env_gain == 0x3FF0_0000_0000_0000,
        v.struck(note, freq).phase == v.phase,
        v.struck(note, freq).sample_rate == v.sample_rate,
{
}

/// A note let go is released and goes on as it was otherwise.
pub proof fn notes_let_go_are_released(v: VoiceState)
    ensures
        v.released().releasing,
        v.released().active == v.active,
        v.released().note == v.note,
        v.released().freq == v.freq,
        v.released().env_gain == v.env_gain,
        v.released().phase == v.phase,
        v.released().sample_rate == v.sample_rate,
{
}

/// A voice at rest gives silence; one that sounds gives what `tone` makes of its own phase
/// and gain.
pub proof fn voices_sound_their_phase_and_gain<T: Fn(u64, u64) -> u32>(
    v: VoiceState,
    tone: T,
    sample: u32,
)
    ensures
        !v.active ==> (v.gives(tone, sample) <==> sample == 0),
        v.active ==> (v.gives(tone, sample) <==> call_ensures(
            tone,
            (v.phase, v.env_gain),
            sample,
        )),
{
}

/// From sample to sample a voice keeps its note, its frequency and its number of samples
/// per second. While it is held, its gain stays as it is. While it is released, its gain
/// falls by the number nearest to 0.001, and the voice comes to rest once nothing would be
/// left.
pub proof fn gains_are_held_or_fall(v: VoiceState)
    ensures
        v.ticked().note == v.note,
        v.ticked().freq == v.freq,
        v.ticked().sample_rate == v.sample_rate,
        !v.active ==> v.ticked() == v,
        v.active && !v.releasing ==> {
            &&& v.ticked().env_gain == v.env_gain
            &&& v.ticked().active == (v.env_gain > 0)
            &&& !v.ticked().releasing
        },
        v.active && v.releasing && v.env_gain <= 0x3F50_624D_D2F1_A9FC ==> {
            &&& v.ticked().env_gain == 0
            &&& !v.ticked().active
            &&& !v.ticked().releasing
        },
        v.active && v.releasing && 0x3F50_624D_D2F1_A9FC < v.env_gain <= 0x3FF0_0000_0000_0000
            ==> {
            &&& binary64::rounds_to(
                (binary64::scaled(v.env_gain) - binary64::scaled(0x3F50_624D_D2F1_A9FC)) as nat,
                1,
                v.ticked().env_gain,
            )
            &&& v.ticked().active
            &&& v.ticked().releasing
        },
{
    if RELEASE_RATE < v.env_gain <= ONE {
        lemma_release_falls(v.env_gain);
        binary64::differences_are_nearest(v.env_gain, RELEASE_RATE);
    }
}

/// The phase of a sounding voice moves on by its frequency divided by the number of
/// samples per second, and is taken back by one cycle where it reaches one. Each step is
/// rounded to the nearest number.
pub proof fn phases_move_on_by_the_frequency(v: VoiceState)
    requires
        v.active,
        v.phase < 0x3FF0_0000_0000_0000,
        v.freq < 0x7FF0_0000_0000_0000,
        0 < v.sample_rate < 0x7FF0_0000_0000_0000,
    ensures
        exists|step: u64, moved: u64|
            {
                &&& #[trigger] binary64::rounds_to(
                    binary64::scaled(v.freq) * binary64::scaled(0x3FF0_0000_0000_0000),
                    binary64::scaled(v.sample_rate),
                    step,
                )
                &&& #[trigger] binary64::rounds_to(
                    binary64::scaled(v.phase) + binary64::scaled(step),
                    1,
                    moved,
                )
                &&& moved < 0x3FF0_0000_0000_0000 ==> v.ticked().phase == moved
                &&& 0x3FF0_0000_0000_0000 <= moved < 0x7FF0_0000_0000_0000 ==> binary64::rounds_to(
                    (binary64::scaled(moved) - binary64::scaled(0x3FF0_0000_0000_0000)) as nat,
                    1,
                    v.ticked().phase,
                )
                &&& moved == 0x7FF0_0000_0000_0000 ==> v.ticked().phase == 0x7FF0_0000_0000_0000
            },
{
    let step = v.phase_step();
    binary64::quotients_are_nearest(v.freq, v.sample_rate);
    assert(step == binary64::quotient_of(v.freq, v.sample_rate));
    let moved = binary64::sum_of(v.phase, step);
    binary64::sums_are_nearest(v.phase, step);
    if ONE <= moved < INFINITY {
        binary64::differences_are_nearest(moved, ONE);
    }
}

/// A voice some samples later is the voice after that many single samples.
pub proof fn samples_pass_one_by_one(v: VoiceState, n: nat)
    ensures
        v.after(0) == v,
        v.after(1) == v.ticked(),
        v.after(n + 1) == v.after(n).ticked(),
        v.after(n + 1) == v.ticked().after(n),
{
    reveal_with_fuel(VoiceState::after, 2);
    ticks_add_up(v, 1, n);
}

/// Whatever its frequency and the number of samples per second, the phase of a sounding
/// voice comes to the sum of itself and the one divided by the other, less a whole cycle
/// where that sum is one or more.
pub proof fn phases_move_on_whatever_the_frequency(v: VoiceState, moved: u64)
    requires
        v.active,
        moved == number::plus_of(v.phase, number::over_of(v.freq, v.sample_rate)),
    ensures
        0x3FF0_0000_0000_0000 <= moved <= 0x7FF0_0000_0000_0000 ==> v.ticked().phase
            == binary64::difference_of(moved, 0x3FF0_0000_0000_0000),
        !(0x3FF0_0000_0000_0000 <= moved <= 0x7FF0_0000_0000_0000) ==> v.ticked().phase == moved,
{
}

}
