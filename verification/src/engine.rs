//! The state of the audio thread and the commands that change it.
pub mod mixer;

use crate::audio_track::{AudioTrack, TrackState};
use crate::command::Command;
use crate::oscillator::{Voice, VoiceState};
use crate::plugin_loader::Plugin;
use crate::queue::Receiver;
use crate::transport::{Transport, TransportState};
use vstd::prelude::*;

verus! {

/// The number of voices, hence of notes that can sound at once.
pub const VOICES: usize = 16;

/// The number of notes that a command can name.
pub const NOTES: usize = 256;

/// The pattern of 0.2, the volume at the start.
pub const INITIAL_GAIN: u32 = 0x3E4C_CCCD;

/// Whether `i` is the first place in `s` that satisfies `p`.
pub open spec fn is_first<A>(s: Seq<A>, p: spec_fn(A) -> bool, i: int) -> bool {
    &&& 0 <= i < s.len()
    &&& p(s[i])
    &&& forall|j: int| 0 <= j < i ==> !p(#[trigger] s[j])
}

/// The first place in `s` that satisfies `p`.
pub open spec fn first<A>(s: Seq<A>, p: spec_fn(A) -> bool) -> Option<int> {
    if exists|i: int| is_first(s, p, i) {
        Some(choose|i: int| is_first(s, p, i))
    } else {
        None
    }
}

/// The voice that takes a new note: the first one at rest.
pub open spec fn free_voice(voices: Seq<VoiceState>) -> Option<int> {
    first(voices, |v: VoiceState| !v.active)
}

/// The voice that a note is taken from: the first one that sounds it.
pub open spec fn sounding_voice(voices: Seq<VoiceState>, note: u8) -> Option<int> {
    first(voices, |v: VoiceState| v.active && v.note == note)
}

/// The voices once a note has been struck. Where no voice is free, the note is lost.
pub open spec fn struck(voices: Seq<VoiceState>, note: u8, freq: u64) -> Seq<VoiceState> {
    match free_voice(voices) {
        Some(i) => voices.update(i, voices[i].struck(note, freq)),
        None => voices,
    }
}

/// The voices once a note has been let go.
pub open spec fn released(voices: Seq<VoiceState>, note: u8) -> Seq<VoiceState> {
    match sounding_voice(voices, note) {
        Some(i) => voices.update(i, voices[i].released()),
        None => voices,
    }
}

/// The state of the audio thread.
pub struct EngineState {
    pub voices: Seq<VoiceState>,
    pub tracks: Seq<TrackState>,
    pub transport: TransportState,
    pub master_gain: u32,
    pub master_mute: bool,
    pub active_plugin: Option<Plugin>,
    pub frequencies: Seq<u64>,
}

impl EngineState {
    /// All parts are well-formed, and every note has a frequency.
    pub open spec fn well_formed(self) -> bool {
        &&& self.voices.len() == VOICES
        &&& forall|i: int| 0 <= i < self.voices.len() ==> (#[trigger] self.voices[i]).well_formed()
        &&& forall|i: int| 0 <= i < self.tracks.len() ==> (#[trigger] self.tracks[i]).well_formed()
        &&& self.transport.well_formed()
        &&& self.frequencies.len() == NOTES
    }

    /// What a note command does.
    pub open spec fn applied_note(self, command: Command) -> Self {
        match command {
            Command::NoteOn { note, .. } => EngineState {
                voices: struck(self.voices, note, self.frequencies[note as int]),
                ..self
            },
            Command::NoteOff { note } => EngineState {
                voices: released(self.voices, note),
                ..self
            },
            _ => self,
        }
    }

    /// What a command does.
    pub open spec fn applied(self, command: Command) -> Self {
        match command {
            Command::Play => EngineState { master_mute: false, ..self },
            Command::Pause => EngineState { master_mute: true, ..self },
            Command::Stop => EngineState {
                master_mute: true,
                transport: self.transport.rewound(),
                ..self
            },
            Command::SetFrequency(_) => self,
            Command::SetVolume(gain) => EngineState { master_gain: gain, ..self },
            Command::NoteOn { .. } => self.applied_note(command),
            Command::NoteOff { .. } => self.applied_note(command),
            Command::ConnectPlugin(plugin) => EngineState { active_plugin: Some(plugin), ..self },
        }
    }

    /// What the commands among the answers of a queue do, one after the other.
    pub open spec fn applied_all(self, answers: Seq<Option<Command>>) -> Self
        decreases answers.len(),
    {
        if answers.len() == 0 {
            self
        } else {
            match answers.last() {
                Some(command) => self.applied_all(answers.drop_last()).applied(command),
                None => self.applied_all(answers.drop_last()),
            }
        }
    }

    /// What the note commands among the answers of a queue do, one after the other.
    pub open spec fn applied_notes(self, answers: Seq<Option<Command>>) -> Self
        decreases answers.len(),
    {
        if answers.len() == 0 {
            self
        } else {
            match answers.last() {
                Some(command) => self.applied_notes(answers.drop_last()).applied_note(command),
                None => self.applied_notes(answers.drop_last()),
            }
        }
    }
}

/// Whether `answers` are those of a queue that was asked until it had nothing left, or
/// until it was asked `limit` times.
pub open spec fn is_drain(answers: Seq<Option<Command>>, limit: nat, emptied: bool) -> bool {
    &&& forall|i: int| 0 <= i < answers.len() - 1 ==> #[trigger] answers[i] is Some
    &&& emptied ==> 0 < answers.len() <= limit && answers.last() is None
    &&& !emptied ==> answers.len() == limit && (limit > 0 ==> answers.last() is Some)
}

/// All that the audio thread owns.
pub struct Engine {
    voices: Vec<Voice>,
    tracks: Vec<AudioTrack>,
    transport: Transport,
    master_gain: u32,
    master_mute: bool,
    /// The plugin that the mix goes through, if one is connected.
    pub active_plugin: Option<Plugin>,
    frequencies: Vec<u64>,
}

impl View for Engine {
    type V = EngineState;

    closed spec fn view(&self) -> EngineState {
        EngineState {
            voices: self.voices@.map_values(|v: Voice| v@),
            tracks: self.tracks@.map_values(|t: AudioTrack| t@),
            transport: self.transport@,
            master_gain: self.master_gain,
            master_mute: self.master_mute,
            active_plugin: self.active_plugin,
            frequencies: self.frequencies@,
        }
    }
}

/// The place of the first voice at rest.
fn find_free(voices: &Vec<Voice>) -> (found: Option<usize>)
    ensures
        match found {
            Some(i) => i < voices.len() && free_voice(voices@.map_values(|v: Voice| v@)) == Some(
                i as int,
            ),
            None => free_voice(voices@.map_values(|v: Voice| v@)) is None,
        },
{
    let ghost all = voices@.map_values(|v: Voice| v@);
    let ghost p = |v: VoiceState| !v.active;
    let mut i: usize = 0;
    while i < voices.len()
        invariant
            i <= voices.len(),
            all == voices@.map_values(|v: Voice| v@),
            p == (|v: VoiceState| !v.active),
            forall|j: int| 0 <= j < i ==> !p(#[trigger] all[j]),
        decreases voices.len() - i,
    {
        if !voices[i].is_active() {
            proof {
                lemma_first_found(all, p, i as int);
            }
            return Some(i);
        }
        i = i + 1;
    }
    None
}

/// The place of the first voice that sounds a note.
fn find_sounding(voices: &Vec<Voice>, note: u8) -> (found: Option<usize>)
    ensures
        match found {
            Some(i) => i < voices.len() && sounding_voice(
                voices@.map_values(|v: Voice| v@),
                note,
            ) == Some(i as int),
            None => sounding_voice(voices@.map_values(|v: Voice| v@), note) is None,
        },
{
    let ghost all = voices@.map_values(|v: Voice| v@);
    let ghost p = |v: VoiceState| v.active && v.note == note;
    let mut i: usize = 0;
    while i < voices.len()
        invariant
            i <= voices.len(),
            all == voices@.map_values(|v: Voice| v@),
            p == (|v: VoiceState| v.active && v.note == note),
            forall|j: int| 0 <= j < i ==> !p(#[trigger] all[j]),
        decreases voices.len() - i,
    {
        if voices[i].is_active() && voices[i].note() == note {
            proof {
                lemma_first_found(all, p, i as int);
            }
            return Some(i);
        }
        i = i + 1;
    }
    None
}

/// There is only one first place.
proof fn lemma_first_found<A>(s: Seq<A>, p: spec_fn(A) -> bool, i: int)
    requires
        is_first(s, p, i),
    ensures
        first(s, p) == Some(i),
{
    let j = choose|j: int| is_first(s, p, j);
    if j < i {
        assert(!p(s[j]));
    } else if i < j {
        assert(!p(s[i]));
    }
}

impl Engine {
    /// An engine at the start of playback. `frequencies` gives the frequency of
    /// each note, `tracks` the tracks that play from the start.
    pub fn new(sample_rate: u64, tracks: Vec<AudioTrack>, frequencies: Vec<u64>) -> (engine: Self)
        requires
            forall|i: int| 0 <= i < tracks.len() ==> (#[trigger] tracks[i])@.well_formed(),
            frequencies.len() == NOTES,
        ensures
            engine@ == (EngineState {
                voices: Seq::new(VOICES as nat, |i: int| VoiceState::fresh(sample_rate)),
                tracks: tracks@.map_values(|t: AudioTrack| t@),
                transport: TransportState::start(sample_rate),
                master_gain: INITIAL_GAIN,
                master_mute: false,
                active_plugin: None,
                frequencies: frequencies@,
            }),
            engine@.well_formed(),
            engine@.voices.len() == 16,
            forall|i: int|
                0 <= i < 16 ==> !(#[trigger] engine@.voices[i]).active
                    && engine@.voices[i].sample_rate == sample_rate,
            engine@.transport.current_sample == 0,
            engine@.transport.sample_rate == sample_rate,
            engine@.transport.bpm == 120,
            engine@.master_gain == 0x3E4C_CCCD,
            !engine@.master_mute,
    {
        let mut voices: Vec<Voice> = Vec::new();
        while voices.len() < VOICES
            invariant
                voices.len() <= VOICES,
                forall|i: int|
                    0 <= i < voices.len() ==> (#[trigger] voices[i])@ == VoiceState::fresh(
                        sample_rate,
                    ) && voices[i]@.well_formed(),
            decreases VOICES - voices.len(),
        {
            voices.push(Voice::new(sample_rate));
        }
        let engine = Engine {
            voices,
            tracks,
            transport: Transport::new(sample_rate),
            master_gain: INITIAL_GAIN,
            master_mute: false,
            active_plugin: None,
            frequencies,
        };
        assert(engine@.voices =~= Seq::new(
            VOICES as nat,
            |i: int| VoiceState::fresh(sample_rate),
        ));
        engine
    }

    /// Carries out a command that strikes a note or lets one go; other commands do
    /// nothing here.
    pub fn apply_note(&mut self, command: Command)
        requires
            old(self)@.well_formed(),
        ensures
            final(self)@ == old(self)@.applied_note(command),
            final(self)@.well_formed(),
    {
        match command {
            Command::NoteOn { note, .. } => {
                if let Some(i) = find_free(&self.voices) {
                    assert(self@.voices[i as int].well_formed());
                    self.voices[i].note_on(note, self.frequencies[note as usize]);
                }
            },
            Command::NoteOff { note } => {
                if let Some(i) = find_sounding(&self.voices, note) {
                    assert(self@.voices[i as int].well_formed());
                    self.voices[i].note_off();
                }
            },
            _ => {},
        }
        assert(self@.voices =~= old(self)@.applied_note(command).voices);
    }

    /// Carries out a command.
    pub fn apply(&mut self, command: Command)
        requires
            old(self)@.well_formed(),
        ensures
            final(self)@ == old(self)@.applied(command),
            final(self)@.well_formed(),
    {
        match command {
            Command::Play => {
                self.master_mute = false;
            },
            Command::Pause => {
                self.master_mute = true;
            },
            Command::Stop => {
                self.master_mute = true;
                self.transport.reset();
            },
            Command::SetFrequency(_) => {},
            Command::SetVolume(gain) => {
                self.master_gain = gain;
            },
            Command::NoteOn { note, velocity } => {
                self.apply_note(Command::NoteOn { note, velocity });
            },
            Command::NoteOff { note } => {
                self.apply_note(Command::NoteOff { note });
            },
            Command::ConnectPlugin(plugin) => {
                self.active_plugin = Some(plugin);
            },
        }
    }

    /// Asks the queue once for a command and carries it out. Gives `false` where the
    /// queue had none.
    pub fn poll(&mut self, commands: &mut Receiver<Command>) -> (found: bool)
        requires
            old(self)@.well_formed(),
        ensures
            final(self)@.well_formed(),
            final(commands).traffic() == old(commands).traffic(),
            old(commands).in_order() ==> final(commands).in_order(),
            final(commands).answers() == old(commands).answers().push(
                final(commands).answers().last(),
            ),
            match final(commands).answers().last() {
                Some(command) => {
                    &&& found
                    &&& final(self)@ == old(self)@.applied(command)
                    &&& final(commands)@ == old(commands)@.push(command)
                },
                None => {
                    &&& !found
                    &&& final(self)@ == old(self)@
                    &&& final(commands)@ == old(commands)@
                },
            },
    {
        match commands.receive() {
            Some(command) => {
                self.apply(command);
                true
            },
            None => false,
        }
    }

    /// Asks the queue of played notes once for a command and carries it out. Gives
    /// `false` where the queue had none.
    pub fn poll_notes(&mut self, commands: &mut Receiver<Command>) -> (found: bool)
        requires
            old(self)@.well_formed(),
        ensures
            final(self)@.well_formed(),
            final(commands).traffic() == old(commands).traffic(),
            old(commands).in_order() ==> final(commands).in_order(),
            final(commands).answers() == old(commands).answers().push(
                final(commands).answers().last(),
            ),
            match final(commands).answers().last() {
                Some(command) => {
                    &&& found
                    &&& final(self)@ == old(self)@.applied_note(command)
                    &&& final(commands)@ == old(commands)@.push(command)
                },
                None => {
                    &&& !found
                    &&& final(self)@ == old(self)@
                    &&& final(commands)@ == old(commands)@
                },
            },
    {
        match commands.receive() {
            Some(command) => {
                self.apply_note(command);
                true
            },
            None => false,
        }
    }

    /// Carries out the commands in the queue until it has none left, but asks for no more
    /// than `limit`. Gives whether the queue had none left.
    pub fn poll_up_to(&mut self, commands: &mut Receiver<Command>, limit: usize) -> (emptied: bool)
        requires
            old(self)@.well_formed(),
        ensures
            final(self)@.well_formed(),
            final(commands).traffic() == old(commands).traffic(),
            old(commands).in_order() ==> final(commands).in_order(),
            exists|more: Seq<Option<Command>>| #[trigger]
                is_drain(more, limit as nat, emptied) && final(commands).answers() == old(
                    commands,
                ).answers() + more && final(self)@ == old(self)@.applied_all(more),
    {
        let ghost before = commands.answers();
        let ghost start = self@;
        let ghost mut more: Seq<Option<Command>> = Seq::empty();
        let mut asked: usize = 0;
        assert(before + more =~= before);
        while asked < limit
            invariant
                asked <= limit,
                more.len() == asked,
                self@.well_formed(),
                start == old(self)@,
                before == old(commands).answers(),
                commands.traffic() == old(commands).traffic(),
                old(commands).in_order() ==> commands.in_order(),
                commands.answers() == before + more,
                self@ == start.applied_all(more),
                forall|i: int| 0 <= i < more.len() ==> #[trigger] more[i] is Some,
            decreases limit - asked,
        {
            let found = self.poll(commands);
            proof {
                let earlier = more;
                more = more.push(commands.answers().last());
                assert(more.drop_last() =~= earlier);
                assert(commands.answers() =~= before + more);
            }
            if !found {
                assert(is_drain(more, limit as nat, true));
                return true;
            }
            asked = asked + 1;
        }
        assert(is_drain(more, limit as nat, false));
        false
    }

    /// Carries out the commands in the queue of played notes until it has none left, but
    /// asks for no more than `limit`. Gives whether the queue had none left.
    pub fn poll_notes_up_to(
        &mut self,
        commands: &mut Receiver<Command>,
        limit: usize,
    ) -> (emptied: bool)
        requires
            old(self)@.well_formed(),
        ensures
            final(self)@.well_formed(),
            final(commands).traffic() == old(commands).traffic(),
            old(commands).in_order() ==> final(commands).in_order(),
            exists|more: Seq<Option<Command>>| #[trigger]
                is_drain(more, limit as nat, emptied) && final(commands).answers() == old(
                    commands,
                ).answers() + more && final(self)@ == old(self)@.applied_notes(more),
    {
        let ghost before = commands.answers();
        let ghost start = self@;
        let ghost mut more: Seq<Option<Command>> = Seq::empty();
        let mut asked: usize = 0;
        assert(before + more =~= before);
        while asked < limit
            invariant
                asked <= limit,
                more.len() == asked,
                self@.well_formed(),
                start == old(self)@,
                before == old(commands).answers(),
                commands.traffic() == old(commands).traffic(),
                old(commands).in_order() ==> commands.in_order(),
                commands.answers() == before + more,
                self@ == start.applied_notes(more),
                forall|i: int| 0 <= i < more.len() ==> #[trigger] more[i] is Some,
            decreases limit - asked,
        {
            let found = self.poll_notes(commands);
            proof {
                let earlier = more;
                more = more.push(commands.answers().last());
                assert(more.drop_last() =~= earlier);
                assert(commands.answers() =~= before + more);
            }
            if !found {
                assert(is_drain(more, limit as nat, true));
                return true;
            }
            asked = asked + 1;
        }
        assert(is_drain(more, limit as nat, false));
        false
    }
}

/// A note struck while every voice sounds is lost.
pub proof fn a_full_bank_takes_no_note(voices: Seq<VoiceState>, note: u8, freq: u64)
    requires
        forall|i: int| 0 <= i < voices.len() ==> (#[trigger] voices[i]).active,
    ensures
        struck(voices, note, freq) == voices,
{
}

/// A note let go that no voice sounds changes nothing.
pub proof fn letting_go_of_a_silent_note_changes_nothing(voices: Seq<VoiceState>, note: u8)
    requires
        forall|i: int|
            0 <= i < voices.len() ==> !((#[trigger] voices[i]).active && voices[i].note == note),
    ensures
        released(voices, note) == voices,
{
}

/// A note struck sounds in the first voice that was at rest, and the other voices
/// go on as they were.
pub proof fn a_note_sounds_in_the_first_free_voice(
    voices: Seq<VoiceState>,
    note: u8,
    freq: u64,
    i: int,
)
    requires
        is_first(voices, |v: VoiceState| !v.active, i),
    ensures
        struck(voices, note, freq).len() == voices.len(),
        struck(voices, note, freq)[i] == voices[i].struck(note, freq),
        forall|j: int|
            0 <= j < voices.len() && j != i ==> #[trigger] struck(voices, note, freq)[j]
                == voices[j],
{
    lemma_first_found(voices, |v: VoiceState| !v.active, i);
}

/// A note that is struck and let go again, while no other voice sounds it, is
/// released in the voice that took it, and no other voice is touched.
pub proof fn a_note_let_go_is_released(voices: Seq<VoiceState>, note: u8, freq: u64, i: int)
    requires
        is_first(voices, |v: VoiceState| !v.active, i),
        forall|j: int|
            0 <= j < voices.len() ==> !((#[trigger] voices[j]).active && voices[j].note == note),
    ensures
        released(struck(voices, note, freq), note) == voices.update(
            i,
            voices[i].struck(note, freq).released(),
        ),
{
    let after = struck(voices, note, freq);
    lemma_first_found(voices, |v: VoiceState| !v.active, i);
    let p = |v: VoiceState| v.active && v.note == note;
    assert(is_first(after, p, i));
    lemma_first_found(after, p, i);
}

/// The velocity of a note makes no difference.
pub proof fn velocity_makes_no_difference(engine: EngineState, note: u8, a: u8, b: u8)
    ensures
        engine.applied(Command::NoteOn { note, velocity: a }) == engine.applied(
            Command::NoteOn { note, velocity: b },
        ),
{
}

/// Playing undoes a pause; after a stop it starts over from the beginning.
pub proof fn play_resumes_or_starts_over(engine: EngineState)
    requires
        !engine.master_mute,
    ensures
        engine.applied(Command::Pause).applied(Command::Play) == engine,
        engine.applied(Command::Stop).applied(Command::Play) == (EngineState {
            transport: engine.transport.rewound(),
            ..engine
        }),
{
}

/// A note struck sounds, at its own frequency and with full gain, in the first voice that
/// is at rest. All else stays as it was. Which of the two queues the note comes from makes
/// no difference.
pub proof fn a_note_struck_sounds_at_its_frequency(
    engine: EngineState,
    note: u8,
    velocity: u8,
    i: int,
)
    requires
        0 <= i < engine.voices.len(),
        !engine.voices[i].active,
        forall|j: int| 0 <= j < i ==> (#[trigger] engine.voices[j]).active,
    ensures
        ({
            let after = engine.applied(Command::NoteOn { note, velocity });
            &&& after.voices.len() == engine.voices.len()
            &&& after.voices[i].active
            &&& !after.voices[i].releasing
            &&& after.voices[i].note == note
            &&& after.voices[i].freq == engine.frequencies[note as int]
            &&& after.voices[i].env_gain == 0x3FF0_0000_0000_0000
            &&& after.voices[i].phase == engine.voices[i].phase
            &&& after.voices[i].sample_rate == engine.voices[i].sample_rate
            &&& forall|j: int|
                0 <= j < engine.voices.len() && j != i ==> #[trigger] after.voices[j]
                    == engine.voices[j]
            &&& after.tracks == engine.tracks
            &&& after.transport == engine.transport
            &&& after.master_gain == engine.master_gain
            &&& after.master_mute == engine.master_mute
            &&& after.active_plugin == engine.active_plugin
            &&& after.frequencies == engine.frequencies
        }),
        engine.applied_note(Command::NoteOn { note, velocity }) == engine.applied(
            Command::NoteOn { note, velocity },
        ),
{
    assert(is_first(engine.voices, |v: VoiceState| !v.active, i));
    lemma_first_found(engine.voices, |v: VoiceState| !v.active, i);
}

/// Notes with different frequencies sound at different frequencies.
pub proof fn notes_are_told_apart(engine: EngineState, a: u8, b: u8, velocity: u8, i: int)
    requires
        0 <= i < engine.voices.len(),
        !engine.voices[i].active,
        forall|j: int| 0 <= j < i ==> (#[trigger] engine.voices[j]).active,
        engine.frequencies[a as int] != engine.frequencies[b as int],
    ensures
        engine.applied(Command::NoteOn { note: a, velocity }).voices[i].freq != engine.applied(
            Command::NoteOn { note: b, velocity },
        ).voices[i].freq,
{
    a_note_struck_sounds_at_its_frequency(engine, a, velocity, i);
    a_note_struck_sounds_at_its_frequency(engine, b, velocity, i);
}

/// A note struck while every voice sounds changes nothing at all.
pub proof fn a_full_bank_stays_as_it_is(engine: EngineState, note: u8, velocity: u8)
    requires
        forall|i: int| 0 <= i < engine.voices.len() ==> (#[trigger] engine.voices[i]).active,
    ensures
        engine.applied(Command::NoteOn { note, velocity }) == engine,
        engine.applied_note(Command::NoteOn { note, velocity }) == engine,
{
}

/// A note let go is released in the first voice that sounds it. All else stays as it was.
pub proof fn a_note_let_go_falls_in_its_voice(engine: EngineState, note: u8, i: int)
    requires
        0 <= i < engine.voices.len(),
        engine.voices[i].active,
        engine.voices[i].note == note,
        forall|j: int|
            0 <= j < i ==> !((#[trigger] engine.voices[j]).active && engine.voices[j].note == note),
    ensures
        ({
            let after = engine.applied(Command::NoteOff { note });
            &&& after.voices.len() == engine.voices.len()
            &&& after.voices[i].releasing
            &&& after.voices[i].active
            &&& after.voices[i].note == note
            &&& after.voices[i].freq == engine.voices[i].freq
            &&& after.voices[i].env_gain == engine.voices[i].env_gain
            &&& after.voices[i].phase == engine.voices[i].phase
            &&& after.voices[i].sample_rate == engine.voices[i].sample_rate
            &&& forall|j: int|
                0 <= j < engine.voices.len() && j != i ==> #[trigger] after.voices[j]
                    == engine.voices[j]
            &&& after.tracks == engine.tracks
            &&& after.transport == engine.transport
            &&& after.master_gain == engine.master_gain
            &&& after.master_mute == engine.master_mute
            &&& after.active_plugin == engine.active_plugin
            &&& after.frequencies == engine.frequencies
        }),
        engine.applied_note(Command::NoteOff { note }) == engine.applied(Command::NoteOff { note }),
{
    let p = |v: VoiceState| v.active && v.note == note;
    assert(is_first(engine.voices, p, i));
    lemma_first_found(engine.voices, p, i);
}

/// A note let go that no voice sounds changes nothing at all.
pub proof fn a_silent_note_let_go_changes_nothing(engine: EngineState, note: u8)
    requires
        forall|i: int|
            0 <= i < engine.voices.len() ==> !((#[trigger] engine.voices[i]).active
                && engine.voices[i].note == note),
    ensures
        engine.applied(Command::NoteOff { note }) == engine,
        engine.applied_note(Command::NoteOff { note }) == engine,
{
}

/// The volume set is the volume, whatever it was before, and nothing else changes.
pub proof fn the_volume_set_is_the_volume(engine: EngineState, volume: u32)
    ensures
        ({
            let after = engine.applied(Command::SetVolume(volume));
            &&& after.master_gain == volume
            &&& after.voices == engine.voices
            &&& after.tracks == engine.tracks
            &&& after.transport == engine.transport
            &&& after.master_mute == engine.master_mute
            &&& after.active_plugin == engine.active_plugin
            &&& after.frequencies == engine.frequencies
        }),
{
}

/// Of two volumes set one after the other, only the last one counts.
pub proof fn the_last_volume_counts(engine: EngineState, earlier: u32, later: u32)
    ensures
        engine.applied(Command::SetVolume(earlier)).applied(Command::SetVolume(later))
            == engine.applied(Command::SetVolume(later)),
        engine.applied(Command::SetVolume(earlier)).applied(
            Command::SetVolume(later),
        ).master_gain == later,
{
}

/// Playing and pausing mute and unmute, stopping mutes and goes back to the start, and
/// none of them does anything else.
pub proof fn playback_is_muted_and_unmuted(engine: EngineState)
    ensures
        !engine.applied(Command::Play).master_mute,
        engine.applied(Command::Pause).master_mute,
        engine.applied(Command::Stop).master_mute,
        engine.applied(Command::Play).transport == engine.transport,
        engine.applied(Command::Pause).transport == engine.transport,
        engine.applied(Command::Stop).transport.current_sample == 0,
        engine.applied(Command::Stop).transport.bpm == engine.transport.bpm,
        engine.applied(Command::Stop).transport.sample_rate == engine.transport.sample_rate,
        forall|command: Command|
            command is Play || command is Pause || command is Stop ==> {
                let after = #[trigger] engine.applied(command);
                &&& after.voices == engine.voices
                &&& after.tracks == engine.tracks
                &&& after.master_gain == engine.master_gain
                &&& after.active_plugin == engine.active_plugin
                &&& after.frequencies == engine.frequencies
            },
{
}

/// A plugin that is connected takes the place of the one before it, and nothing else
/// changes.
pub proof fn the_plugin_connected_is_the_plugin(engine: EngineState, plugin: Plugin)
    ensures
        ({
            let after = engine.applied(Command::ConnectPlugin(plugin));
            &&& after.active_plugin == Some(plugin)
            &&& after.voices == engine.voices
            &&& after.tracks == engine.tracks
            &&& after.transport == engine.transport
            &&& after.master_gain == engine.master_gain
            &&& after.master_mute == engine.master_mute
            &&& after.frequencies == engine.frequencies
        }),
{
}

/// Setting a frequency changes nothing, and the queue of played notes carries nothing but
/// notes.
pub proof fn other_commands_change_nothing(engine: EngineState, freq: u32, command: Command)
    ensures
        engine.applied(Command::SetFrequency(freq)) == engine,
        !(command is NoteOn) && !(command is NoteOff) ==> engine.applied_note(command) == engine,
{
}

/// Commands are carried out one after the other, and an empty answer does nothing.
pub proof fn answers_are_taken_in_turn(
    engine: EngineState,
    answers: Seq<Option<Command>>,
    command: Command,
)
    ensures
        engine.applied_all(Seq::empty()) == engine,
        engine.applied_all(answers.push(None)) == engine.applied_all(answers),
        engine.applied_all(answers.push(Some(command))) == engine.applied_all(answers).applied(
            command,
        ),
        engine.applied_notes(Seq::empty()) == engine,
        engine.applied_notes(answers.push(None)) == engine.applied_notes(answers),
        engine.applied_notes(answers.push(Some(command))) == engine.applied_notes(
            answers,
        ).applied_note(command),
{
    assert(answers.push(None).drop_last() =~= answers);
    assert(answers.push(Some(command)).drop_last() =~= answers);
}

/// A queue is drained until it answers that it has nothing left or has been asked as often
/// as it may be, and no further.
pub proof fn drains_stop_where_they_must(
    answers: Seq<Option<Command>>,
    limit: nat,
    emptied: bool,
    i: int,
)
    requires
        is_drain(answers, limit, emptied),
        0 <= i < answers.len(),
    ensures
        answers.len() <= limit,
        answers[i] is None <==> emptied && i == answers.len() - 1,
        !emptied ==> answers.len() == limit,
{
}

/// An engine has sixteen voices, hence takes sixteen notes at once and no more: as long as
/// one of its voices is at rest, a note struck leaves one voice less at rest.
pub proof fn sixteen_notes_sound_at_once(engine: EngineState, note: u8, velocity: u8)
    requires
        engine.well_formed(),
    ensures
        engine.voices.len() == 16,
        engine.frequencies.len() == 256,
        engine.applied(Command::NoteOn { note, velocity }).voices.len() == 16,
        (exists|i: int| 0 <= i < 16 && !(#[trigger] engine.voices[i]).active) ==> exists|i: int|
            {
                &&& 0 <= i < 16
                &&& !engine.voices[i].active
                &&& (#[trigger] engine.applied(
                    Command::NoteOn { note, velocity },
                ).voices[i]).active
            },
{
    if exists|i: int| 0 <= i < 16 && !(#[trigger] engine.voices[i]).active {
        let i = choose|i: int| 0 <= i < 16 && !(#[trigger] engine.voices[i]).active;
        let first = lemma_first_at_rest(engine.voices, i);
        a_note_struck_sounds_at_its_frequency(engine, note, velocity, first);
        assert(engine.applied(Command::NoteOn { note, velocity }).voices[first].active);
    }
}

/// Where a voice is at rest, there is a first one at rest.
proof fn lemma_first_at_rest(voices: Seq<VoiceState>, i: int) -> (first: int)
    requires
        0 <= i < voices.len(),
        !voices[i].active,
    ensures
        0 <= first < voices.len(),
        !voices[first].active,
        forall|j: int| 0 <= j < first ==> (#[trigger] voices[j]).active,
    decreases i,
{
    if exists|j: int| 0 <= j < i && !(#[trigger] voices[j]).active {
        let j = choose|j: int| 0 <= j < i && !(#[trigger] voices[j]).active;
        lemma_first_at_rest(voices, j)
    } else {
        i
    }
}

}
