//! A recorded track that is played once from start to end.
use crate::oscillator::SILENCE;
use vstd::prelude::*;

verus! {

/// What a track is doing.
pub struct TrackState {
    pub samples: Seq<u32>,
    pub sample_index: nat,
    pub active: bool,
}

impl TrackState {
    /// A track is at rest once all of it has been played. One without samples
    /// counts as active until it is first asked for a sample.
    pub open spec fn well_formed(self) -> bool {
        &&& self.sample_index <= self.samples.len()
        &&& self.active ==> self.sample_index < self.samples.len() || self.samples.len() == 0
        &&& !self.active ==> self.sample_index == self.samples.len()
    }

    /// A track that is about to start.
    pub open spec fn ready(samples: Seq<u32>) -> Self {
        TrackState { samples, sample_index: 0, active: true }
    }

    /// The sample the track gives next: the one it has reached, or silence.
    pub open spec fn current(self) -> u32 {
        if self.active && self.sample_index < self.samples.len() {
            self.samples[self.sample_index as int]
        } else {
            SILENCE
        }
    }

    /// The track one sample later.
    pub open spec fn ticked(self) -> Self {
        if self.active && self.sample_index < self.samples.len() {
            TrackState {
                sample_index: self.sample_index + 1,
                active: self.sample_index + 1 < self.samples.len(),
                ..self
            }
        } else {
            TrackState { active: false, ..self }
        }
    }

    /// The track `n` samples later.
    pub open spec fn after(self, n: nat) -> Self
        decreases n,
    {
        if n == 0 {
            self
        } else {
            self.after((n - 1) as nat).ticked()
        }
    }
}

/// A recorded track.
pub struct AudioTrack {
    samples: Vec<u32>,
    sample_index: usize,
    active: bool,
}

impl View for AudioTrack {
    type V = TrackState;

    closed spec fn view(&self) -> TrackState {
        TrackState {
            samples: self.samples@,
            sample_index: self.sample_index as nat,
            active: self.active,
        }
    }
}

impl AudioTrack {
    /// A track of the given samples, at its start.
    pub fn new(samples: Vec<u32>) -> (track: Self)
        ensures
            track@ == TrackState::ready(samples@),
            track@.well_formed(),
    {
        AudioTrack { samples, sample_index: 0, active: true }
    }

    /// Whether the track has anything left to play.
    pub fn is_active(&self) -> (active: bool)
        ensures
            active == self@.active,
    {
        self.active
    }

    /// The next sample, silence once the track has ended.
    pub fn next_sample(&mut self) -> (sample: u32)
        requires
            old(self)@.well_formed(),
        ensures
            sample == old(self)@.current(),
            final(self)@ == old(self)@.ticked(),
            final(self)@.well_formed(),
    {
        if !self.active || self.sample_index >= self.samples.len() {
            self.active = false;
            return SILENCE;
        }
        let s = self.samples[self.sample_index];
        self.sample_index = self.sample_index + 1;
        if self.sample_index >= self.samples.len() {
            self.active = false;
        }
        s
    }
}

/// A track gives its samples one by one, in order and once, and silence ever after;
/// it is active until its last sample has been given.
pub proof fn tracks_play_once_in_order(samples: Seq<u32>, n: nat)
    ensures
        TrackState::ready(samples).after(n).well_formed(),
        TrackState::ready(samples).after(n).current() == (if n < samples.len() {
            samples[n as int]
        } else {
            SILENCE
        }),
        TrackState::ready(samples).after(n).active <==> n == 0 || n < samples.len(),
{
    lemma_reached(samples, n);
}

/// The position of a track after `n` samples.
proof fn lemma_reached(samples: Seq<u32>, n: nat)
    ensures
        TrackState::ready(samples).after(n) == (TrackState {
            samples,
            sample_index: if n < samples.len() {
                n
            } else {
                samples.len()
            },
            active: n == 0 || n < samples.len(),
        }),
    decreases n,
{
    if n > 0 {
        lemma_reached(samples, (n - 1) as nat);
    }
}

/// Moving on by `a` and then by `b` samples is moving on by `a + b` samples.
pub proof fn ticks_add_up(t: TrackState, a: nat, b: nat)
    ensures
        t.after(a).after(b) == t.after(a + b),
    decreases b,
{
    if b > 0 {
        ticks_add_up(t, a, (b - 1) as nat);
    }
}

/// A track starts with its first sample.
pub proof fn tracks_start_at_the_start(samples: Seq<u32>)
    ensures
        TrackState::ready(samples).samples == samples,
        TrackState::ready(samples).sample_index == 0,
        TrackState::ready(samples).active,
{
}

/// A track that has something left gives the sample it has reached and goes on to the
/// next; one that has not gives silence and rests. Its samples stay as they are.
pub proof fn tracks_give_the_sample_they_have_reached(t: TrackState)
    ensures
        t.ticked().samples == t.samples,
        t.active && t.sample_index < t.samples.len() ==> {
            &&& t.current() == t.samples[t.sample_index as int]
            &&& t.ticked().sample_index == t.sample_index + 1
            &&& t.ticked().active <==> t.sample_index + 1 < t.samples.len()
        },
        !(t.active && t.sample_index < t.samples.len()) ==> {
            &&& t.current() == 0
            &&& t.ticked().sample_index == t.sample_index
            &&& !t.ticked().active
        },
{
}

/// A track some samples later is the track after that many single samples.
pub proof fn samples_pass_one_by_one(t: TrackState, n: nat)
    ensures
        t.after(0) == t,
        t.after(1) == t.ticked(),
        t.after(n + 1) == t.after(n).ticked(),
        t.after(n + 1) == t.ticked().after(n),
{
    reveal_with_fuel(TrackState::after, 2);
    ticks_add_up(t, 1, n);
}

}
