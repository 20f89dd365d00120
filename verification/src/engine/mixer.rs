//! Rendering of a block of stereo sound.
//!
//! A block is a sequence of samples, left and right in turn. The samples are
//! binary32 patterns; how they are added and scaled is left to the caller.
use crate::audio_track::{AudioTrack, TrackState};
use crate::engine::{Engine, EngineState};
use crate::oscillator::{Voice, VoiceState, SILENCE};
use crate::stereo;
use vstd::prelude::*;

verus! {

/// The number of frames that are mixed together.
pub const LANES: usize = 4;

/// The number of samples at the start of a beat that are let through while
/// nothing sounds.
pub const BEAT_ACTIVE_SAMPLES: u64 = 2000;

/// The greatest number of frames that are handed to a plugin at once.
pub const MAX_BUF_FRAMES: usize = 8192;

/// The arithmetic of samples. `tone` gives the sample of a voice for a phase and
/// a gain, `add` and `scale` add two samples and multiply one by the volume, and
/// `add_lanes` and `scale_lanes` do so for several frames at once.
pub struct Arithmetic<T, AL, SL, A, S> {
    pub tone: T,
    pub add_lanes: AL,
    pub scale_lanes: SL,
    pub add: A,
    pub scale: S,
}

/// The sample arithmetic is defined everywhere.
pub open spec fn is_total<
    T: Fn(u64, u64) -> u32,
    AL: Fn([u32; 4], [u32; 4]) -> [u32; 4],
    SL: Fn([u32; 4], u32) -> [u32; 4],
    A: Fn(u32, u32) -> u32,
    S: Fn(u32, u32) -> u32,
>(m: Arithmetic<T, AL, SL, A, S>) -> bool {
    &&& forall|a: u64, b: u64| #[trigger] call_requires(m.tone, (a, b))
    &&& forall|a: [u32; 4], b: [u32; 4]| #[trigger] call_requires(m.add_lanes, (a, b))
    &&& forall|a: [u32; 4], b: u32| #[trigger] call_requires(m.scale_lanes, (a, b))
    &&& forall|a: u32, b: u32| #[trigger] call_requires(m.add, (a, b))
    &&& forall|a: u32, b: u32| #[trigger] call_requires(m.scale, (a, b))
}

/// Four frames of silence.
pub open spec fn silent_lanes() -> [u32; 4] {
    [SILENCE, SILENCE, SILENCE, SILENCE]
}

/// Whether `totals` are the running totals of the terms: the first is `zero`, and
/// each of the others is what `add` makes of the one before it and the next term.
pub open spec fn runs_up<N, A: Fn(N, N) -> N>(
    add: A,
    zero: N,
    terms: Seq<N>,
    totals: Seq<N>,
) -> bool {
    &&& totals.len() == terms.len() + 1
    &&& totals[0] == zero
    &&& forall|i: int|
        0 <= i < terms.len() ==> call_ensures(add, (totals[i], #[trigger] terms[i]), totals[i + 1])
}

/// Whether `total` is what `add` makes of `zero` and the terms, taken one after
/// the other from the first to the last.
pub open spec fn adds_up<N, A: Fn(N, N) -> N>(add: A, zero: N, terms: Seq<N>, total: N) -> bool {
    exists|totals: Seq<N>| #[trigger]
        runs_up(add, zero, terms, totals) && totals.last() == total
}

/// No terms add up to zero.
proof fn lemma_adds_none<N, A: Fn(N, N) -> N>(add: A, zero: N)
    ensures
        adds_up(add, zero, Seq::<N>::empty(), zero),
{
    assert(runs_up(add, zero, Seq::<N>::empty(), seq![zero]));
}

/// One more term.
proof fn lemma_adds_one<N, A: Fn(N, N) -> N>(
    add: A,
    zero: N,
    terms: Seq<N>,
    part: N,
    term: N,
    total: N,
)
    requires
        adds_up(add, zero, terms, part),
        call_ensures(add, (part, term), total),
    ensures
        adds_up(add, zero, terms.push(term), total),
{
    let totals = choose|totals: Seq<N>| #[trigger]
        runs_up(add, zero, terms, totals) && totals.last() == part;
    let more = totals.push(total);
    let longer = terms.push(term);
    assert forall|i: int| 0 <= i < longer.len() implies call_ensures(
        add,
        (more[i], #[trigger] longer[i]),
        more[i + 1],
    ) by {
        if i < terms.len() {
            assert(longer[i] == terms[i]);
        }
    }
    assert(runs_up(add, zero, longer, more));
}

impl EngineState {
    /// The state `n` frames later: voices and tracks have moved on.
    pub open spec fn played(self, n: nat) -> Self {
        EngineState {
            voices: self.voices.map_values(|v: VoiceState| v.after(n)),
            tracks: self.tracks.map_values(|t: TrackState| t.after(n)),
            ..self
        }
    }

    /// The number of voices and tracks that are mixed.
    pub open spec fn sources(self) -> nat {
        self.voices.len() + self.tracks.len()
    }

    /// Whether `sample` is what a source gives `frame` frames from now. The voices
    /// come first, then the tracks.
    pub open spec fn source_gives<T: Fn(u64, u64) -> u32>(
        self,
        tone: T,
        source: int,
        frame: nat,
        sample: u32,
    ) -> bool {
        if source < self.voices.len() {
            self.voices[source].after(frame).gives(tone, sample)
        } else {
            sample == self.tracks[source - self.voices.len()].after(frame).current()
        }
    }

    /// Whether `out` holds the mix of the next four frames.
    pub open spec fn mixes_lanes<
        T: Fn(u64, u64) -> u32,
        AL: Fn([u32; 4], [u32; 4]) -> [u32; 4],
        SL: Fn([u32; 4], u32) -> [u32; 4],
        A: Fn(u32, u32) -> u32,
        S: Fn(u32, u32) -> u32,
    >(self, m: Arithmetic<T, AL, SL, A, S>, out: [u32; 4]) -> bool {
        exists|rows: Seq<[u32; 4]>, total: [u32; 4]|
            {
                &&& rows.len() == self.sources()
                &&& forall|i: int, lane: int|
                    0 <= i < rows.len() && 0 <= lane < 4 ==> self.source_gives(
                        m.tone,
                        i,
                        lane as nat,
                        #[trigger] rows[i]@[lane],
                    )
                &&& #[trigger] adds_up(m.add_lanes, silent_lanes(), rows, total)
                &&& call_ensures(m.scale_lanes, (total, self.master_gain), out)
            }
    }

    /// Whether `out` is the mix of the next frame.
    pub open spec fn mixes_frame<
        T: Fn(u64, u64) -> u32,
        AL: Fn([u32; 4], [u32; 4]) -> [u32; 4],
        SL: Fn([u32; 4], u32) -> [u32; 4],
        A: Fn(u32, u32) -> u32,
        S: Fn(u32, u32) -> u32,
    >(self, m: Arithmetic<T, AL, SL, A, S>, out: u32) -> bool {
        exists|terms: Seq<u32>, total: u32|
            {
                &&& terms.len() == self.sources()
                &&& forall|i: int|
                    0 <= i < terms.len() ==> self.source_gives(m.tone, i, 0, #[trigger] terms[i])
                &&& #[trigger] adds_up(m.add, SILENCE, terms, total)
                &&& call_ensures(m.scale, (total, self.master_gain), out)
            }
    }

    /// Whether `block` holds the mix of the frames that it has room for, the same
    /// sample left and right. The frames are mixed four at a time and what is left
    /// at the end one at a time.
    pub open spec fn mixes_block<
        T: Fn(u64, u64) -> u32,
        AL: Fn([u32; 4], [u32; 4]) -> [u32; 4],
        SL: Fn([u32; 4], u32) -> [u32; 4],
        A: Fn(u32, u32) -> u32,
        S: Fn(u32, u32) -> u32,
    >(self, m: Arithmetic<T, AL, SL, A, S>, block: Seq<u32>) -> bool {
        let frames = block.len() / 2;
        &&& forall|f: nat|
            #![trigger self.played(f)]
            f % 4 == 0 && f + 4 <= frames ==> exists|out: [u32; 4]| #[trigger]
                self.played(f).mixes_lanes(m, out) && holds_lanes(block, f, out)
        &&& forall|f: nat|
            #![trigger self.played(f)]
            frames - frames % 4 <= f < frames ==> self.played(f).mixes_frame(
                m,
                stereo::left(block, f as int),
            ) && stereo::right(block, f as int) == stereo::left(block, f as int)
    }

    /// Whether `after` is what a block becomes that held `before`: the mix, gated. A
    /// last sample that makes no whole frame is left as it was.
    pub open spec fn renders<
        T: Fn(u64, u64) -> u32,
        AL: Fn([u32; 4], [u32; 4]) -> [u32; 4],
        SL: Fn([u32; 4], u32) -> [u32; 4],
        A: Fn(u32, u32) -> u32,
        S: Fn(u32, u32) -> u32,
    >(self, m: Arithmetic<T, AL, SL, A, S>, before: Seq<u32>, after: Seq<u32>) -> bool {
        exists|mixed: Seq<u32>| #[trigger]
            is_mix_over(mixed, before) && self.mixes_block(m, mixed) && after == self.played(
                before.len() / 2,
            ).gated(mixed)
    }

    /// Whether neither a voice nor a track is active.
    pub open spec fn is_idle(self) -> bool {
        &&& forall|i: int| 0 <= i < self.voices.len() ==> !(#[trigger] self.voices[i]).active
        &&& forall|i: int| 0 <= i < self.tracks.len() ==> !(#[trigger] self.tracks[i]).active
    }

    /// Whether a frame of a block is let through: while something sounds all of them
    /// are, otherwise those at the start of a beat.
    pub open spec fn lets_through(self, frame: int) -> bool {
        !self.is_idle() || (self.transport.current_sample + 2 * frame) % (
        self.transport.beat() as int) < BEAT_ACTIVE_SAMPLES
    }

    /// The block with the frames that are not let through silenced.
    pub open spec fn gated(self, block: Seq<u32>) -> Seq<u32> {
        Seq::new(
            block.len(),
            |i: int|
                if i / 2 < block.len() / 2 && !self.lets_through(i / 2) {
                    SILENCE
                } else {
                    block[i]
                },
        )
    }
}

/// Whether `mixed` can come from mixing over the block `before`: it is as long, and
/// a last sample that makes no whole frame is kept.
pub open spec fn is_mix_over(mixed: Seq<u32>, before: Seq<u32>) -> bool {
    &&& mixed.len() == before.len()
    &&& before.len() % 2 == 1 ==> mixed.last() == before.last()
}

/// Whether four frames of a block, from frame `f` on, hold the given samples on
/// both sides.
pub open spec fn holds_lanes(block: Seq<u32>, f: nat, out: [u32; 4]) -> bool {
    forall|lane: int|
        0 <= lane < 4 ==> stereo::left(block, f + lane) == #[trigger] out@[lane]
            && stereo::right(block, f + lane) == out@[lane]
}

/// Playing `a` frames and then `b` frames is playing `a + b` frames.
pub proof fn blocks_add_up(engine: EngineState, a: nat, b: nat)
    ensures
        engine.played(a).played(b) == engine.played(a + b),
{
    assert forall|i: int| 0 <= i < engine.voices.len() implies #[trigger] engine.voices[i].after(
        a,
    ).after(b) == engine.voices[i].after(a + b) by {
        crate::oscillator::ticks_add_up(engine.voices[i], a, b);
    }
    assert forall|i: int| 0 <= i < engine.tracks.len() implies #[trigger] engine.tracks[i].after(
        a,
    ).after(b) == engine.tracks[i].after(a + b) by {
        crate::audio_track::ticks_add_up(engine.tracks[i], a, b);
    }
    assert(engine.played(a).played(b).voices =~= engine.played(a + b).voices);
    assert(engine.played(a).played(b).tracks =~= engine.played(a + b).tracks);
}

/// Playing nothing changes nothing.
proof fn lemma_played_none(engine: EngineState)
    ensures
        engine.played(0) == engine,
{
    assert(engine.played(0).voices =~= engine.voices);
    assert(engine.played(0).tracks =~= engine.tracks);
}

/// The next four samples of a voice.
fn voice_row<T: Fn(u64, u64) -> u32>(voice: &mut Voice, tone: &T) -> (row: [u32; 4])
    requires
        old(voice)@.well_formed(),
        forall|a: u64, b: u64| #[trigger] call_requires(*tone, (a, b)),
    ensures
        final(voice)@ == old(voice)@.after(4),
        final(voice)@.well_formed(),
        forall|lane: int|
            0 <= lane < 4 ==> old(voice)@.after(lane as nat).gives(*tone, #[trigger] row@[lane]),
{
    let ghost start = voice@;
    let mut row = [SILENCE; LANES];
    let mut lane: usize = 0;
    while lane < LANES
        invariant
            lane <= LANES,
            voice@ == start.after(lane as nat),
            voice@.well_formed(),
            forall|a: u64, b: u64| #[trigger] call_requires(*tone, (a, b)),
            forall|i: int| 0 <= i < lane ==> start.after(i as nat).gives(*tone, #[trigger] row@[i]),
        decreases LANES - lane,
    {
        row[lane] = voice.next_sample(tone);
        lane = lane + 1;
    }
    row
}

/// The next four samples of a track.
fn track_row(track: &mut AudioTrack) -> (row: [u32; 4])
    requires
        old(track)@.well_formed(),
    ensures
        final(track)@ == old(track)@.after(4),
        final(track)@.well_formed(),
        forall|lane: int|
            0 <= lane < 4 ==> #[trigger] row@[lane] == old(track)@.after(lane as nat).current(),
{
    let ghost start = track@;
    let mut row = [SILENCE; LANES];
    let mut lane: usize = 0;
    while lane < LANES
        invariant
            lane <= LANES,
            track@ == start.after(lane as nat),
            track@.well_formed(),
            forall|i: int| 0 <= i < lane ==> #[trigger] row@[i] == start.after(i as nat).current(),
        decreases LANES - lane,
    {
        row[lane] = track.next_sample();
        lane = lane + 1;
    }
    row
}

/// Lets a number of samples of a voice pass.
fn voice_pass(voice: &mut Voice, samples: usize)
    requires
        old(voice)@.well_formed(),
    ensures
        final(voice)@ == old(voice)@.after(samples as nat),
        final(voice)@.well_formed(),
{
    let ghost start = voice@;
    let mut done: usize = 0;
    while done < samples
        invariant
            done <= samples,
            voice@ == start.after(done as nat),
            voice@.well_formed(),
        decreases samples - done,
    {
        voice.tick();
        done = done + 1;
    }
}

/// Lets a number of samples of a track pass.
fn track_pass(track: &mut AudioTrack, samples: usize)
    requires
        old(track)@.well_formed(),
    ensures
        final(track)@ == old(track)@.after(samples as nat),
        final(track)@.well_formed(),
{
    let ghost start = track@;
    let mut done: usize = 0;
    while done < samples
        invariant
            done <= samples,
            track@ == start.after(done as nat),
            track@.well_formed(),
        decreases samples - done,
    {
        track.next_sample();
        done = done + 1;
    }
}

impl Engine {
    /// Mixes the next four frames.
    fn mix_lanes<
        T: Fn(u64, u64) -> u32,
        AL: Fn([u32; 4], [u32; 4]) -> [u32; 4],
        SL: Fn([u32; 4], u32) -> [u32; 4],
        A: Fn(u32, u32) -> u32,
        S: Fn(u32, u32) -> u32,
    >(&mut self, m: &Arithmetic<T, AL, SL, A, S>) -> (out: [u32; 4])
        requires
            old(self)@.well_formed(),
            is_total(*m),
        ensures
            final(self)@ == old(self)@.played(4),
            final(self)@.well_formed(),
            old(self)@.mixes_lanes(*m, out),
    {
        let ghost start = self@;
        let ghost mut rows: Seq<[u32; 4]> = Seq::empty();
        proof {
            lemma_adds_none(m.add_lanes, silent_lanes());
        }
        let mut sum: [u32; 4] = [SILENCE, SILENCE, SILENCE, SILENCE];
        let mut i: usize = 0;
        while i < self.voices.len()
            invariant
                start.well_formed(),
                is_total(*m),
                i <= self.voices.len() == start.voices.len(),
                rows.len() == i,
                self@ == (EngineState { voices: self@.voices, ..start }),
                forall|j: int|
                    0 <= j < i ==> (#[trigger] self.voices[j])@ == start.voices[j].after(4)
                        && self.voices[j]@.well_formed(),
                forall|j: int|
                    i <= j < start.voices.len() ==> (#[trigger] self.voices[j])@ == start.voices[j],
                forall|j: int, lane: int|
                    0 <= j < rows.len() && 0 <= lane < 4 ==> start.source_gives(
                        m.tone,
                        j,
                        lane as nat,
                        #[trigger] rows[j]@[lane],
                    ),
                adds_up(m.add_lanes, silent_lanes(), rows, sum),
            decreases self.voices.len() - i,
        {
            let ghost part = sum;
            assert(start.voices[i as int].well_formed());
            let row = voice_row(&mut self.voices[i], &m.tone);
            sum = (m.add_lanes)(sum, row);
            proof {
                lemma_adds_one(m.add_lanes, silent_lanes(), rows, part, row, sum);
                rows = rows.push(row);
            }
            i = i + 1;
        }
        let mut k: usize = 0;
        while k < self.tracks.len()
            invariant
                start.well_formed(),
                is_total(*m),
                self.voices.len() == start.voices.len(),
                k <= self.tracks.len() == start.tracks.len(),
                rows.len() == start.voices.len() + k,
                self@ == (EngineState { voices: self@.voices, tracks: self@.tracks, ..start }),
                forall|j: int|
                    0 <= j < self.voices.len() ==> (#[trigger] self.voices[j])@
                        == start.voices[j].after(4) && self.voices[j]@.well_formed(),
                forall|j: int|
                    0 <= j < k ==> (#[trigger] self.tracks[j])@ == start.tracks[j].after(4)
                        && self.tracks[j]@.well_formed(),
                forall|j: int|
                    k <= j < start.tracks.len() ==> (#[trigger] self.tracks[j])@ == start.tracks[j],
                forall|j: int, lane: int|
                    0 <= j < rows.len() && 0 <= lane < 4 ==> start.source_gives(
                        m.tone,
                        j,
                        lane as nat,
                        #[trigger] rows[j]@[lane],
                    ),
                adds_up(m.add_lanes, silent_lanes(), rows, sum),
            decreases self.tracks.len() - k,
        {
            let ghost part = sum;
            assert(start.tracks[k as int].well_formed());
            let row = track_row(&mut self.tracks[k]);
            sum = (m.add_lanes)(sum, row);
            proof {
                lemma_adds_one(m.add_lanes, silent_lanes(), rows, part, row, sum);
                rows = rows.push(row);
            }
            k = k + 1;
        }
        let out = (m.scale_lanes)(sum, self.master_gain);
        assert(self@.voices =~= start.played(4).voices);
        assert(self@.tracks =~= start.played(4).tracks);
        out
    }

    /// Mixes the next frame.
    fn mix_frame<
        T: Fn(u64, u64) -> u32,
        AL: Fn([u32; 4], [u32; 4]) -> [u32; 4],
        SL: Fn([u32; 4], u32) -> [u32; 4],
        A: Fn(u32, u32) -> u32,
        S: Fn(u32, u32) -> u32,
    >(&mut self, m: &Arithmetic<T, AL, SL, A, S>) -> (out: u32)
        requires
            old(self)@.well_formed(),
            is_total(*m),
        ensures
            final(self)@ == old(self)@.played(1),
            final(self)@.well_formed(),
            old(self)@.mixes_frame(*m, out),
    {
        let ghost start = self@;
        let ghost mut rows: Seq<u32> = Seq::empty();
        proof {
            lemma_adds_none(m.add, SILENCE);
        }
        let mut sum: u32 = SILENCE;
        let mut i: usize = 0;
        while i < self.voices.len()
            invariant
                start.well_formed(),
                is_total(*m),
                i <= self.voices.len() == start.voices.len(),
                rows.len() == i,
                self@ == (EngineState { voices: self@.voices, ..start }),
                forall|j: int|
                    0 <= j < i ==> (#[trigger] self.voices[j])@ == start.voices[j].after(1)
                        && self.voices[j]@.well_formed(),
                forall|j: int|
                    i <= j < start.voices.len() ==> (#[trigger] self.voices[j])@ == start.voices[j],
                forall|j: int|
                    0 <= j < rows.len() ==> start.source_gives(m.tone, j, 0, #[trigger] rows[j]),
                adds_up(m.add, SILENCE, rows, sum),
            decreases self.voices.len() - i,
        {
            let ghost part = sum;
            assert(start.voices[i as int].well_formed());
            proof {
                reveal_with_fuel(VoiceState::after, 2);
            }
            let row = self.voices[i].next_sample(&m.tone);
            sum = (m.add)(sum, row);
            proof {
                lemma_adds_one(m.add, SILENCE, rows, part, row, sum);
                rows = rows.push(row);
            }
            i = i + 1;
        }
        let mut k: usize = 0;
        while k < self.tracks.len()
            invariant
                start.well_formed(),
                is_total(*m),
                self.voices.len() == start.voices.len(),
                k <= self.tracks.len() == start.tracks.len(),
                rows.len() == start.voices.len() + k,
                self@ == (EngineState { voices: self@.voices, tracks: self@.tracks, ..start }),
                forall|j: int|
                    0 <= j < self.voices.len() ==> (#[trigger] self.voices[j])@
                        == start.voices[j].after(1) && self.voices[j]@.well_formed(),
                forall|j: int|
                    0 <= j < k ==> (#[trigger] self.tracks[j])@ == start.tracks[j].after(1)
                        && self.tracks[j]@.well_formed(),
                forall|j: int|
                    k <= j < start.tracks.len() ==> (#[trigger] self.tracks[j])@ == start.tracks[j],
                forall|j: int|
                    0 <= j < rows.len() ==> start.source_gives(m.tone, j, 0, #[trigger] rows[j]),
                adds_up(m.add, SILENCE, rows, sum),
            decreases self.tracks.len() - k,
        {
            let ghost part = sum;
            assert(start.tracks[k as int].well_formed());
            proof {
                reveal_with_fuel(TrackState::after, 2);
            }
            let row = self.tracks[k].next_sample();
            sum = (m.add)(sum, row);
            proof {
                lemma_adds_one(m.add, SILENCE, rows, part, row, sum);
                rows = rows.push(row);
            }
            k = k + 1;
        }
        let out = (m.scale)(sum, self.master_gain);
        assert(self@.voices =~= start.played(1).voices);
        assert(self@.tracks =~= start.played(1).tracks);
        out
    }

    /// Mixes the frames that the block has room for.
    fn mix<
        T: Fn(u64, u64) -> u32,
        AL: Fn([u32; 4], [u32; 4]) -> [u32; 4],
        SL: Fn([u32; 4], u32) -> [u32; 4],
        A: Fn(u32, u32) -> u32,
        S: Fn(u32, u32) -> u32,
    >(&mut self, data: &mut [u32], m: &Arithmetic<T, AL, SL, A, S>)
        requires
            old(self)@.well_formed(),
            is_total(*m),
        ensures
            final(self)@ == old(self)@.played(old(data)@.len() / 2),
            final(self)@.well_formed(),
            final(data)@.len() == old(data)@.len(),
            old(self)@.mixes_block(*m, final(data)@),
            old(data)@.len() % 2 == 1 ==> final(data)@.last() == old(data)@.last(),
    {
        let ghost start = self@;
        let ghost before = data@;
        let total = data.len() / 2;
        let lanes_end = total / LANES * LANES;
        let mut offset: usize = 0;
        proof {
            lemma_played_none(start);
        }
        while offset < lanes_end
            invariant
                is_total(*m),
                self@ == start.played(offset as nat),
                self@.well_formed(),
                data@.len() == before.len(),
                total == before.len() / 2,
                before.len() <= usize::MAX,
                lanes_end == total - total % 4,
                offset % 4 == 0,
                offset <= lanes_end,
                forall|i: int| 2 * offset <= i < before.len() ==> #[trigger] data@[i] == before[i],
                forall|f: nat|
                    #![trigger start.played(f)]
                    f % 4 == 0 && f + 4 <= offset ==> exists|out: [u32; 4]| #[trigger]
                        start.played(f).mixes_lanes(*m, out) && holds_lanes(data@, f, out),
            decreases lanes_end - offset,
        {
            let ghost held = data@;
            let out = self.mix_lanes(m);
            proof {
                blocks_add_up(start, offset as nat, 4);
            }
            let mut lane: usize = 0;
            while lane < LANES
                invariant
                    data@.len() == held.len() == before.len(),
                    total == before.len() / 2,
                    before.len() <= usize::MAX,
                    offset + 4 <= total,
                    lane <= LANES,
                    forall|i: int| 0 <= i < 2 * offset ==> #[trigger] data@[i] == held[i],
                    forall|i: int|
                        2 * (offset + lane) <= i < before.len() ==> #[trigger] data@[i] == held[i],
                    forall|j: int|
                        0 <= j < lane ==> data@[2 * (offset + j)] == #[trigger] out@[j] && data@[2
                            * (offset + j) + 1] == out@[j],
                decreases LANES - lane,
            {
                let s = out[lane];
                let idx = (offset + lane) * 2;
                data[idx] = s;
                data[idx + 1] = s;
                lane = lane + 1;
            }
            proof {
                assert(holds_lanes(data@, offset as nat, out));
                assert forall|f: nat|
                    #![trigger start.played(f)]
                    f % 4 == 0 && f + 4 <= offset + 4 implies exists|out: [u32; 4]| #[trigger]
                    start.played(f).mixes_lanes(*m, out) && holds_lanes(data@, f, out) by {
                    if f < offset {
                        let o = choose|o: [u32; 4]| #[trigger]
                            start.played(f).mixes_lanes(*m, o) && holds_lanes(held, f, o);
                        assert(holds_lanes(data@, f, o));
                    } else {
                        assert(start.played(f).mixes_lanes(*m, out));
                    }
                }
            }
            offset = offset + LANES;
        }
        let ghost lanes = data@;
        while offset < total
            invariant
                is_total(*m),
                self@ == start.played(offset as nat),
                self@.well_formed(),
                data@.len() == lanes.len() == before.len(),
                total == before.len() / 2,
                before.len() <= usize::MAX,
                lanes_end == total - total % 4,
                lanes_end <= offset <= total,
                forall|i: int| 0 <= i < 2 * lanes_end ==> #[trigger] data@[i] == lanes[i],
                forall|i: int| 2 * offset <= i < before.len() ==> #[trigger] data@[i] == before[i],
                forall|f: nat|
                    #![trigger start.played(f)]
                    lanes_end <= f < offset ==> start.played(f).mixes_frame(
                        *m,
                        stereo::left(data@, f as int),
                    ) && stereo::right(data@, f as int) == stereo::left(data@, f as int),
            decreases total - offset,
        {
            let s = self.mix_frame(m);
            proof {
                blocks_add_up(start, offset as nat, 1);
            }
            let idx = offset * 2;
            data[idx] = s;
            data[idx + 1] = s;
            offset = offset + 1;
        }
        proof {
            assert forall|f: nat|
                #![trigger start.played(f)]
                f % 4 == 0 && f + 4 <= total implies exists|out: [u32; 4]| #[trigger]
                start.played(f).mixes_lanes(*m, out) && holds_lanes(data@, f, out) by {
                assert(f + 4 <= lanes_end);
                let o = choose|o: [u32; 4]| #[trigger]
                    start.played(f).mixes_lanes(*m, o) && holds_lanes(lanes, f, o);
                assert(holds_lanes(data@, f, o));
            }
        }
    }

    /// Whether neither a voice nor a track is active.
    fn idle(&self) -> (idle: bool)
        ensures
            idle == self@.is_idle(),
    {
        let mut i: usize = 0;
        while i < self.voices.len()
            invariant
                i <= self.voices.len(),
                forall|j: int| 0 <= j < i ==> !(#[trigger] self@.voices[j]).active,
            decreases self.voices.len() - i,
        {
            if self.voices[i].is_active() {
                assert(self@.voices[i as int].active);
                return false;
            }
            i = i + 1;
        }
        let mut k: usize = 0;
        while k < self.tracks.len()
            invariant
                k <= self.tracks.len(),
                forall|j: int| 0 <= j < self.voices.len() ==> !(#[trigger] self@.voices[j]).active,
                forall|j: int| 0 <= j < k ==> !(#[trigger] self@.tracks[j]).active,
            decreases self.tracks.len() - k,
        {
            if self.tracks[k].is_active() {
                assert(self@.tracks[k as int].active);
                return false;
            }
            k = k + 1;
        }
        true
    }

    /// Silences, while nothing sounds, the frames that lie after the start of a beat.
    fn gate(&self, data: &mut [u32])
        requires
            self@.well_formed(),
            self@.is_idle() && old(data)@.len() >= 2 ==> self@.transport.beat() > 0,
            self@.transport.current_sample + old(data)@.len() <= u64::MAX,
        ensures
            final(data)@ == self@.gated(old(data)@),
    {
        if !self.idle() {
            assert(data@ =~= self@.gated(data@));
            return ;
        }
        let ghost before = data@;
        let total = data.len() / 2;
        let beat = self.transport.samples_per_beat();
        let position = self.transport.position();
        let mut i: usize = 0;
        while i < total
            invariant
                self@.is_idle(),
                beat == self@.transport.beat(),
                total > 0 ==> beat > 0,
                position == self@.transport.current_sample,
                position + before.len() <= u64::MAX,
                before.len() <= usize::MAX,
                total == before.len() / 2,
                i <= total,
                data@.len() == before.len(),
                forall|j: int|
                    0 <= j < 2 * i ==> #[trigger] data@[j] == self@.gated(before)[j],
                forall|j: int| 2 * i <= j < before.len() ==> #[trigger] data@[j] == before[j],
            decreases total - i,
        {
            let at = position + (i * 2) as u64;
            if at % beat >= BEAT_ACTIVE_SAMPLES {
                data[i * 2] = SILENCE;
                data[i * 2 + 1] = SILENCE;
            }
            i = i + 1;
        }
        assert(data@ =~= self@.gated(before));
    }

    /// Lets the frames that the block has room for pass in silence.
    fn pass(&mut self, data: &mut [u32])
        requires
            old(self)@.well_formed(),
        ensures
            final(self)@ == old(self)@.played(old(data)@.len() / 2),
            final(self)@.well_formed(),
            final(data)@ == Seq::new(old(data)@.len(), |i: int| SILENCE),
    {
        let ghost start = self@;
        let total = data.len() / 2;
        let mut i: usize = 0;
        while i < self.voices.len()
            invariant
                start.well_formed(),
                i <= self.voices.len() == start.voices.len(),
                self@ == (EngineState { voices: self@.voices, ..start }),
                forall|j: int|
                    0 <= j < i ==> (#[trigger] self.voices[j])@ == start.voices[j].after(
                        total as nat,
                    ) && self.voices[j]@.well_formed(),
                forall|j: int|
                    i <= j < start.voices.len() ==> (#[trigger] self.voices[j])@ == start.voices[j],
            decreases self.voices.len() - i,
        {
            assert(start.voices[i as int].well_formed());
            voice_pass(&mut self.voices[i], total);
            i = i + 1;
        }
        let mut k: usize = 0;
        while k < self.tracks.len()
            invariant
                start.well_formed(),
                self.voices.len() == start.voices.len(),
                k <= self.tracks.len() == start.tracks.len(),
                self@ == (EngineState { voices: self@.voices, tracks: self@.tracks, ..start }),
                forall|j: int|
                    0 <= j < self.voices.len() ==> (#[trigger] self.voices[j])@
                        == start.voices[j].after(total as nat) && self.voices[j]@.well_formed(),
                forall|j: int|
                    0 <= j < k ==> (#[trigger] self.tracks[j])@ == start.tracks[j].after(
                        total as nat,
                    ) && self.tracks[j]@.well_formed(),
                forall|j: int|
                    k <= j < start.tracks.len() ==> (#[trigger] self.tracks[j])@ == start.tracks[j],
            decreases self.tracks.len() - k,
        {
            assert(start.tracks[k as int].well_formed());
            track_pass(&mut self.tracks[k], total);
            k = k + 1;
        }
        assert(self@.voices =~= start.played(total as nat).voices);
        assert(self@.tracks =~= start.played(total as nat).tracks);
        let ghost len = data@.len();
        let mut i: usize = 0;
        while i < data.len()
            invariant
                data@.len() == len,
                i <= len,
                forall|j: int| 0 <= j < i ==> #[trigger] data@[j] == SILENCE,
            decreases len - i,
        {
            data[i] = SILENCE;
            i = i + 1;
        }
        assert(data@ =~= Seq::new(len, |i: int| SILENCE));
    }

    /// Fills a block with sound. While the engine is muted the block is silent, but
    /// voices and tracks go on all the same.
    pub fn render<
        T: Fn(u64, u64) -> u32,
        AL: Fn([u32; 4], [u32; 4]) -> [u32; 4],
        SL: Fn([u32; 4], u32) -> [u32; 4],
        A: Fn(u32, u32) -> u32,
        S: Fn(u32, u32) -> u32,
    >(&mut self, data: &mut [u32], m: &Arithmetic<T, AL, SL, A, S>)
        requires
            old(self)@.well_formed(),
            is_total(*m),
            !old(self)@.master_mute ==> old(self)@.transport.current_sample + old(data)@.len()
                <= u64::MAX,
            !old(self)@.master_mute && old(data)@.len() >= 2 && old(self)@.played(
                old(data)@.len() / 2,
            ).is_idle() ==> old(self)@.transport.beat() > 0,
        ensures
            final(self)@ == old(self)@.played(old(data)@.len() / 2),
            final(self)@.well_formed(),
            old(self)@.master_mute ==> final(data)@ == Seq::new(
                old(data)@.len(),
                |i: int| SILENCE,
            ),
            !old(self)@.master_mute ==> old(self)@.renders(*m, old(data)@, final(data)@),
    {
        if self.master_mute {
            self.pass(data);
        } else {
            let ghost before = data@;
            self.mix(data, m);
            let ghost mixed = data@;
            self.gate(data);
            assert(is_mix_over(mixed, before) && old(self)@.mixes_block(*m, mixed));
        }
    }

    /// Whether the position of playback can go on by a block of the given number of
    /// samples. While the engine is muted it stands still.
    pub fn has_room_for(&self, samples: usize) -> (room: bool)
        ensures
            room == (self@.master_mute || self@.transport.current_sample + samples <= u64::MAX),
    {
        self.master_mute || self.transport.position().checked_add(samples as u64).is_some()
    }

    /// Whether a block of the given number of samples can be held against the beat: a beat
    /// has samples. While the engine is muted, or the block has no frame, nothing is held
    /// against it.
    pub fn keeps_time(&self, samples: usize) -> (keeps: bool)
        requires
            self@.well_formed(),
        ensures
            keeps == (self@.master_mute || samples < 2 || self@.transport.beat() > 0),
    {
        self.master_mute || samples < 2 || self.transport.samples_per_beat() > 0
    }

    /// The number of frames of a block that go through the plugin, where they do: a
    /// plugin is connected, the engine is not muted, and the block is not too long.
    pub fn plugin_frames(&self, samples: usize) -> (frames: Option<usize>)
        ensures
            frames == (if self@.active_plugin is Some && !self@.master_mute && samples / 2
                <= MAX_BUF_FRAMES {
                Some((samples / 2) as usize)
            } else {
                None
            }),
            frames is Some <==> self@.active_plugin is Some && !self@.master_mute && samples / 2
                <= 8192,
            frames matches Some(n) ==> n == samples / 2,
    {
        if self.active_plugin.is_some() && !self.master_mute && samples / 2 <= MAX_BUF_FRAMES {
            Some(samples / 2)
        } else {
            None
        }
    }

    /// Closes a block of the given number of samples and gives the position of
    /// playback after it. The position stands still while the engine is muted.
    pub fn end_block(&mut self, samples: usize) -> (position: u64)
        requires
            old(self)@.well_formed(),
            !old(self)@.master_mute ==> old(self)@.transport.current_sample + samples <= u64::MAX,
        ensures
            final(self)@ == (if old(self)@.master_mute {
                old(self)@
            } else {
                EngineState {
                    transport: old(self)@.transport.advanced(samples as nat),
                    ..old(self)@
                }
            }),
            final(self)@.well_formed(),
            position == final(self)@.transport.current_sample,
    {
        if !self.master_mute {
            self.transport.advance(samples);
        }
        self.transport.position()
    }
}

/// Every frame of a rendered block sounds the same left and right.
#[verifier::spinoff_prover]
pub proof fn both_sides_sound_the_same<
    T: Fn(u64, u64) -> u32,
    AL: Fn([u32; 4], [u32; 4]) -> [u32; 4],
    SL: Fn([u32; 4], u32) -> [u32; 4],
    A: Fn(u32, u32) -> u32,
    S: Fn(u32, u32) -> u32,
>(
    engine: EngineState,
    m: Arithmetic<T, AL, SL, A, S>,
    before: Seq<u32>,
    after: Seq<u32>,
    frame: nat,
)
    requires
        engine.renders(m, before, after),
        frame < before.len() / 2,
    ensures
        after.len() == before.len(),
        stereo::left(after, frame as int) == stereo::right(after, frame as int),
{
    let mixed = choose|mixed: Seq<u32>| #[trigger]
        is_mix_over(mixed, before) && engine.mixes_block(m, mixed) && after == engine.played(
            before.len() / 2,
        ).gated(mixed);
    let frames = before.len() / 2;
    if frame < frames - frames % 4 {
        let f = (frame - frame % 4) as nat;
        let lane = frame - f;
        assert(f % 4 == 0 && f + 4 <= frames);
        let state = engine.played(f);
        assert(exists|out: [u32; 4]| #[trigger]
            state.mixes_lanes(m, out) && holds_lanes(mixed, f, out));
        let out = choose|out: [u32; 4]| #[trigger]
            state.mixes_lanes(m, out) && holds_lanes(mixed, f, out);
        let sample = out@[lane];
        assert(stereo::left(mixed, f + lane) == sample);
    } else {
        let state = engine.played(frame);
        assert(state.mixes_frame(m, stereo::left(mixed, frame as int)));
    }
}

/// While something sounds the mix is heard as it is, and so is what falls on the
/// start of a beat.
pub proof fn the_gate_spares_sound_and_beats(engine: EngineState, block: Seq<u32>, frame: int)
    requires
        0 <= frame < block.len() / 2,
        !engine.is_idle() || (engine.transport.current_sample + 2 * frame) % (
        engine.transport.beat() as int) < BEAT_ACTIVE_SAMPLES,
    ensures
        stereo::left(engine.gated(block), frame) == stereo::left(block, frame),
        stereo::right(engine.gated(block), frame) == stereo::right(block, frame),
{
}

/// While nothing sounds, all that lies after the start of a beat is silent.
pub proof fn the_gate_silences_the_rest(engine: EngineState, block: Seq<u32>, frame: int)
    requires
        0 <= frame < block.len() / 2,
        engine.is_idle(),
        (engine.transport.current_sample + 2 * frame) % (engine.transport.beat() as int)
            >= BEAT_ACTIVE_SAMPLES,
    ensures
        stereo::left(engine.gated(block), frame) == SILENCE,
        stereo::right(engine.gated(block), frame) == SILENCE,
{
}

/// Playing on moves every voice and every track on by as many samples as frames are
/// played, and nothing else.
pub proof fn all_sources_play_on(engine: EngineState, n: nat)
    ensures
        engine.played(n).voices.len() == engine.voices.len(),
        engine.played(n).tracks.len() == engine.tracks.len(),
        forall|i: int|
            0 <= i < engine.voices.len() ==> #[trigger] engine.played(n).voices[i]
                == engine.voices[i].after(n),
        forall|i: int|
            0 <= i < engine.tracks.len() ==> #[trigger] engine.played(n).tracks[i]
                == engine.tracks[i].after(n),
        engine.played(n).transport == engine.transport,
        engine.played(n).master_gain == engine.master_gain,
        engine.played(n).master_mute == engine.master_mute,
        engine.played(n).active_plugin == engine.active_plugin,
        engine.played(n).frequencies == engine.frequencies,
{
}

/// Gating silences exactly the frames that lie two thousand samples or more into a beat
/// while no voice and no track is active. All other frames stay as they were, and so does
/// a last sample that makes no whole frame.
pub proof fn frames_off_the_beat_are_silenced(engine: EngineState, block: Seq<u32>, frame: int)
    requires
        0 <= frame < block.len() / 2,
    ensures
        ({
            let idle = (forall|i: int|
                0 <= i < engine.voices.len() ==> !(#[trigger] engine.voices[i]).active) && (forall|
                i: int,
            |
                0 <= i < engine.tracks.len() ==> !(#[trigger] engine.tracks[i]).active);
            let into = (engine.transport.current_sample + 2 * frame) % (
            engine.transport.beat() as int);
            let after = engine.gated(block);
            &&& after.len() == block.len()
            &&& idle && into >= 2000 ==> after[2 * frame] == 0 && after[2 * frame + 1] == 0
            &&& !(idle && into >= 2000) ==> after[2 * frame] == block[2 * frame] && after[2 * frame
                + 1] == block[2 * frame + 1]
            &&& block.len() % 2 == 1 ==> after.last() == block.last()
        }),
{
}

/// What is heard of a frame that is mixed together with three others. Every voice enters
/// the sum with what `tone` makes of its own phase and gain at that frame, or with silence
/// while it is at rest; every track enters it with the sample that it has reached. All of
/// them are added up one after the other, and the sum is scaled by the volume. The frame
/// holds that on both sides, unless it is silenced: while nothing is active at the end of
/// the block, what lies two thousand samples or more into a beat is.
#[verifier::spinoff_prover]
pub proof fn every_source_is_heard_in_lanes<
    T: Fn(u64, u64) -> u32,
    AL: Fn([u32; 4], [u32; 4]) -> [u32; 4],
    SL: Fn([u32; 4], u32) -> [u32; 4],
    A: Fn(u32, u32) -> u32,
    S: Fn(u32, u32) -> u32,
>(
    engine: EngineState,
    m: Arithmetic<T, AL, SL, A, S>,
    before: Seq<u32>,
    after: Seq<u32>,
    frame: int,
)
    requires
        engine.renders(m, before, after),
        0 <= frame < before.len() / 2 - (before.len() / 2) % 4,
    ensures
        after.len() == before.len(),
        exists|rows: Seq<[u32; 4]>, totals: Seq<[u32; 4]>, out: [u32; 4]|
            {
                let first = frame - frame % 4;
                let end = before.len() / 2;
                let idle = (forall|i: int|
                    0 <= i < engine.voices.len() ==> !(#[trigger] engine.voices[i]).after(
                        end,
                    ).active) && (forall|i: int|
                    0 <= i < engine.tracks.len() ==> !(#[trigger] engine.tracks[i]).after(
                        end,
                    ).active);
                let into = (engine.transport.current_sample + 2 * frame) % (
                engine.transport.beat() as int);
                let heard = if idle && into >= 2000 {
                    0u32
                } else {
                    out@[frame % 4]
                };
                &&& #[trigger] rows.len() == engine.voices.len() + engine.tracks.len()
                &&& forall|i: int, lane: int|
                    0 <= i < engine.voices.len() && 0 <= lane < 4 ==> {
                        let v = engine.voices[i].after((first + lane) as nat);
                        let x = #[trigger] rows[i]@[lane];
                        &&& v.active ==> call_ensures(m.tone, (v.phase, v.env_gain), x)
                        &&& !v.active ==> x == 0
                    }
                &&& forall|i: int, lane: int|
                    engine.voices.len() <= i < rows.len() && 0 <= lane < 4 ==> {
                        let t = engine.tracks[i - engine.voices.len()].after((first + lane) as nat);
                        let x = #[trigger] rows[i]@[lane];
                        &&& t.active && t.sample_index < t.samples.len() ==> x
                            == t.samples[t.sample_index as int]
                        &&& !(t.active && t.sample_index < t.samples.len()) ==> x == 0
                    }
                &&& totals.len() == rows.len() + 1
                &&& forall|lane: int| 0 <= lane < 4 ==> #[trigger] totals[0]@[lane] == 0
                &&& forall|i: int|
                    0 <= i < rows.len() ==> call_ensures(
                        m.add_lanes,
                        (totals[i], #[trigger] rows[i]),
                        totals[i + 1],
                    )
                &&& #[trigger] call_ensures(m.scale_lanes, (totals.last(), engine.master_gain), out)
                &&& after[2 * frame] == heard
                &&& after[2 * frame + 1] == heard
            },
{
    let mixed = choose|mixed: Seq<u32>| #[trigger]
        is_mix_over(mixed, before) && engine.mixes_block(m, mixed) && after == engine.played(
            before.len() / 2,
        ).gated(mixed);
    let frames = before.len() / 2;
    let first = (frame - frame % 4) as nat;
    let lane = frame - first;
    let state = engine.played(first);
    assert(first % 4 == 0 && first + 4 <= frames);
    let out = choose|out: [u32; 4]| #[trigger]
        state.mixes_lanes(m, out) && holds_lanes(mixed, first, out);
    assert(state.mixes_lanes(m, out) && holds_lanes(mixed, first, out));
    assert(out@[lane] == stereo::left(mixed, first + lane));
    let (rows, total) = choose|rows: Seq<[u32; 4]>, total: [u32; 4]|
        {
            &&& rows.len() == state.sources()
            &&& forall|i: int, lane: int|
                0 <= i < rows.len() && 0 <= lane < 4 ==> state.source_gives(
                    m.tone,
                    i,
                    lane as nat,
                    #[trigger] rows[i]@[lane],
                )
            &&& #[trigger] adds_up(m.add_lanes, silent_lanes(), rows, total)
            &&& call_ensures(m.scale_lanes, (total, state.master_gain), out)
        };
    let totals = choose|totals: Seq<[u32; 4]>| #[trigger]
        runs_up(m.add_lanes, silent_lanes(), rows, totals) && totals.last() == total;
    assert forall|i: int, lane: int| 0 <= i < engine.voices.len() && 0 <= lane < 4 implies {
        let v = engine.voices[i].after((first + lane) as nat);
        let x = #[trigger] rows[i]@[lane];
        &&& v.active ==> call_ensures(m.tone, (v.phase, v.env_gain), x)
        &&& !v.active ==> x == 0
    } by {
        crate::oscillator::ticks_add_up(engine.voices[i], first, lane as nat);
        assert(state.voices[i] == engine.voices[i].after(first));
        assert(state.source_gives(m.tone, i, lane as nat, rows[i]@[lane]));
    }
    assert forall|i: int, lane: int|
        engine.voices.len() <= i < rows.len() && 0 <= lane < 4 implies {
        let t = engine.tracks[i - engine.voices.len()].after((first + lane) as nat);
        let x = #[trigger] rows[i]@[lane];
        &&& t.active && t.sample_index < t.samples.len() ==> x == t.samples[t.sample_index as int]
        &&& !(t.active && t.sample_index < t.samples.len()) ==> x == 0
    } by {
        let k = i - engine.voices.len();
        crate::audio_track::ticks_add_up(engine.tracks[k], first, lane as nat);
        assert(state.tracks[k] == engine.tracks[k].after(first));
        assert(state.source_gives(m.tone, i, lane as nat, rows[i]@[lane]));
    }
    lemma_gate(engine, mixed, frame);
}

/// What is heard of a frame that is mixed on its own, as the frames at the end of a block
/// are that make no group of four. Every voice enters the sum with what `tone` makes of
/// its own phase and gain at that frame, or with silence while it is at rest; every track
/// enters it with the sample that it has reached. All of them are added up one after the
/// other, and the sum is scaled by the volume. The frame holds that on both sides, unless
/// it is silenced.
#[verifier::spinoff_prover]
pub proof fn every_source_is_heard<
    T: Fn(u64, u64) -> u32,
    AL: Fn([u32; 4], [u32; 4]) -> [u32; 4],
    SL: Fn([u32; 4], u32) -> [u32; 4],
    A: Fn(u32, u32) -> u32,
    S: Fn(u32, u32) -> u32,
>(
    engine: EngineState,
    m: Arithmetic<T, AL, SL, A, S>,
    before: Seq<u32>,
    after: Seq<u32>,
    frame: int,
)
    requires
        engine.renders(m, before, after),
        before.len() / 2 - (before.len() / 2) % 4 <= frame < before.len() / 2,
        0 <= frame,
    ensures
        after.len() == before.len(),
        exists|terms: Seq<u32>, totals: Seq<u32>, out: u32|
            {
                let end = before.len() / 2;
                let idle = (forall|i: int|
                    0 <= i < engine.voices.len() ==> !(#[trigger] engine.voices[i]).after(
                        end,
                    ).active) && (forall|i: int|
                    0 <= i < engine.tracks.len() ==> !(#[trigger] engine.tracks[i]).after(
                        end,
                    ).active);
                let into = (engine.transport.current_sample + 2 * frame) % (
                engine.transport.beat() as int);
                let heard = if idle && into >= 2000 {
                    0u32
                } else {
                    out
                };
                &&& #[trigger] terms.len() == engine.voices.len() + engine.tracks.len()
                &&& forall|i: int|
                    0 <= i < engine.voices.len() ==> {
                        let v = engine.voices[i].after(frame as nat);
                        let x = #[trigger] terms[i];
                        &&& v.active ==> call_ensures(m.tone, (v.phase, v.env_gain), x)
                        &&& !v.active ==> x == 0
                    }
                &&& forall|i: int|
                    engine.voices.len() <= i < terms.len() ==> {
                        let t = engine.tracks[i - engine.voices.len()].after(frame as nat);
                        let x = #[trigger] terms[i];
                        &&& t.active && t.sample_index < t.samples.len() ==> x
                            == t.samples[t.sample_index as int]
                        &&& !(t.active && t.sample_index < t.samples.len()) ==> x == 0
                    }
                &&& totals.len() == terms.len() + 1
                &&& totals[0] == 0
                &&& forall|i: int|
                    0 <= i < terms.len() ==> call_ensures(
                        m.add,
                        (totals[i], #[trigger] terms[i]),
                        totals[i + 1],
                    )
                &&& #[trigger] call_ensures(m.scale, (totals.last(), engine.master_gain), out)
                &&& after[2 * frame] == heard
                &&& after[2 * frame + 1] == heard
            },
{
    let mixed = choose|mixed: Seq<u32>| #[trigger]
        is_mix_over(mixed, before) && engine.mixes_block(m, mixed) && after == engine.played(
            before.len() / 2,
        ).gated(mixed);
    let state = engine.played(frame as nat);
    let out = stereo::left(mixed, frame);
    assert(state.mixes_frame(m, out));
    let (terms, total) = choose|terms: Seq<u32>, total: u32|
        {
            &&& terms.len() == state.sources()
            &&& forall|i: int|
                0 <= i < terms.len() ==> state.source_gives(m.tone, i, 0, #[trigger] terms[i])
            &&& #[trigger] adds_up(m.add, SILENCE, terms, total)
            &&& call_ensures(m.scale, (total, state.master_gain), out)
        };
    let totals = choose|totals: Seq<u32>| #[trigger]
        runs_up(m.add, SILENCE, terms, totals) && totals.last() == total;
    assert forall|i: int| 0 <= i < engine.voices.len() implies {
        let v = engine.voices[i].after(frame as nat);
        let x = #[trigger] terms[i];
        &&& v.active ==> call_ensures(m.tone, (v.phase, v.env_gain), x)
        &&& !v.active ==> x == 0
    } by {
        assert(state.voices[i] == engine.voices[i].after(frame as nat));
        assert(state.voices[i].after(0) == state.voices[i]);
        assert(state.source_gives(m.tone, i, 0, terms[i]));
    }
    assert forall|i: int| engine.voices.len() <= i < terms.len() implies {
        let t = engine.tracks[i - engine.voices.len()].after(frame as nat);
        let x = #[trigger] terms[i];
        &&& t.active && t.sample_index < t.samples.len() ==> x == t.samples[t.sample_index as int]
        &&& !(t.active && t.sample_index < t.samples.len()) ==> x == 0
    } by {
        let k = i - engine.voices.len();
        assert(state.tracks[k] == engine.tracks[k].after(frame as nat));
        assert(state.tracks[k].after(0) == state.tracks[k]);
        assert(state.source_gives(m.tone, i, 0, terms[i]));
    }
    lemma_gate(engine, mixed, frame);
}

/// What gating makes of a frame once a whole block has been played.
proof fn lemma_gate(engine: EngineState, mixed: Seq<u32>, frame: int)
    requires
        0 <= frame < mixed.len() / 2,
    ensures
        ({
            let end = mixed.len() / 2;
            let idle = (forall|i: int|
                0 <= i < engine.voices.len() ==> !(#[trigger] engine.voices[i]).after(end).active)
                && (forall|i: int|
                0 <= i < engine.tracks.len() ==> !(#[trigger] engine.tracks[i]).after(end).active);
            let into = (engine.transport.current_sample + 2 * frame) % (
            engine.transport.beat() as int);
            let after = engine.played(end).gated(mixed);
            &&& after.len() == mixed.len()
            &&& idle && into >= 2000 ==> after[2 * frame] == 0 && after[2 * frame + 1] == 0
            &&& !(idle && into >= 2000) ==> after[2 * frame] == mixed[2 * frame] && after[2 * frame
                + 1] == mixed[2 * frame + 1]
        }),
{
    let end = mixed.len() / 2;
    let state = engine.played(end);
    frames_off_the_beat_are_silenced(state, mixed, frame);
    assert forall|i: int| 0 <= i < engine.voices.len() implies (#[trigger] state.voices[i])
        == engine.voices[i].after(end) by {}
    assert forall|i: int| 0 <= i < engine.tracks.len() implies (#[trigger] state.tracks[i])
        == engine.tracks[i].after(end) by {}
    let idle = (forall|i: int|
        0 <= i < engine.voices.len() ==> !(#[trigger] engine.voices[i]).after(end).active) && (
    forall|i: int| 0 <= i < engine.tracks.len() ==> !(#[trigger] engine.tracks[i]).after(
        end,
    ).active);
    if state.is_idle() {
        assert forall|i: int| 0 <= i < engine.voices.len() implies !(
        #[trigger] engine.voices[i]).after(end).active by {
            assert(!state.voices[i].active);
        }
        assert forall|i: int| 0 <= i < engine.tracks.len() implies !(
        #[trigger] engine.tracks[i]).after(end).active by {
            assert(!state.tracks[i].active);
        }
    }
    if idle {
        assert forall|i: int| 0 <= i < state.voices.len() implies !(
        #[trigger] state.voices[i]).active by {
            assert(!engine.voices[i].after(end).active);
        }
        assert forall|i: int| 0 <= i < state.tracks.len() implies !(
        #[trigger] state.tracks[i]).active by {
            assert(!engine.tracks[i].after(end).active);
        }
    }
}

}
