//! The control panel: what the buttons and sliders of the windows do.
use crate::command::Command;
use crate::engine::EngineState;
use crate::queue::Sender;
use vstd::prelude::*;

verus! {

/// Something the user did.
pub enum PanelEvent {
    Play,
    Pause,
    Stop,
    ToggleMixer,
    /// A volume slider was moved; the volume is a binary32 pattern.
    ChannelVolume(u32),
    StartRecording,
    StopRecording,
}

/// What is to be done about it, besides sending a command.
pub struct PanelEffect {
    /// Show playback as running or not.
    pub playing: Option<bool>,
    /// Put the playhead back to the start.
    pub rewind_playhead: bool,
    /// Show or hide the mixer window.
    pub show_mixer: Option<bool>,
    /// Switch recording, and the input with it, on or off.
    pub recording: Option<bool>,
    /// Say that there is no input to record from.
    pub input_missing: bool,
}

impl PanelEffect {
    /// Nothing to be done.
    pub open spec fn nothing() -> Self {
        PanelEffect {
            playing: None,
            rewind_playhead: false,
            show_mixer: None,
            recording: None,
            input_missing: false,
        }
    }
}

/// The state of the panel.
pub struct PanelState {
    pub mixer_showing: bool,
    pub has_input: bool,
}

impl PanelState {
    /// The command that an event sends to the audio thread.
    pub open spec fn command(self, event: PanelEvent) -> Option<Command> {
        match event {
            PanelEvent::Play => Some(Command::Play),
            PanelEvent::Pause => Some(Command::Pause),
            PanelEvent::Stop => Some(Command::Stop),
            PanelEvent::ChannelVolume(volume) => Some(Command::SetVolume(volume)),
            _ => None,
        }
    }

    /// What else an event brings about.
    pub open spec fn effect(self, event: PanelEvent) -> PanelEffect {
        match event {
            PanelEvent::Play => PanelEffect { playing: Some(true), ..PanelEffect::nothing() },
            PanelEvent::Pause => PanelEffect { playing: Some(false), ..PanelEffect::nothing() },
            PanelEvent::Stop => PanelEffect {
                playing: Some(false),
                rewind_playhead: true,
                ..PanelEffect::nothing()
            },
            PanelEvent::ToggleMixer => PanelEffect {
                show_mixer: Some(!self.mixer_showing),
                ..PanelEffect::nothing()
            },
            PanelEvent::ChannelVolume(_) => PanelEffect::nothing(),
            PanelEvent::StartRecording => if self.has_input {
                PanelEffect { recording: Some(true), ..PanelEffect::nothing() }
            } else {
                PanelEffect { input_missing: true, ..PanelEffect::nothing() }
            },
            PanelEvent::StopRecording => if self.has_input {
                PanelEffect { recording: Some(false), ..PanelEffect::nothing() }
            } else {
                PanelEffect::nothing()
            },
        }
    }

    /// The panel after an event.
    pub open spec fn after(self, event: PanelEvent) -> Self {
        match event {
            PanelEvent::ToggleMixer => PanelState { mixer_showing: !self.mixer_showing, ..self },
            _ => self,
        }
    }
}

/// The control panel.
pub struct Panel {
    mixer_showing: bool,
    has_input: bool,
}

impl View for Panel {
    type V = PanelState;

    closed spec fn view(&self) -> PanelState {
        PanelState { mixer_showing: self.mixer_showing, has_input: self.has_input }
    }
}

/// Nothing to be done.
fn no_effect() -> (effect: PanelEffect)
    ensures
        effect == PanelEffect::nothing(),
{
    PanelEffect {
        playing: None,
        rewind_playhead: false,
        show_mixer: None,
        recording: None,
        input_missing: false,
    }
}

impl Panel {
    /// A panel whose mixer window is hidden, with or without an input to record from.
    pub fn new(has_input: bool) -> (panel: Self)
        ensures
            panel@ == (PanelState { mixer_showing: false, has_input }),
    {
        Panel { mixer_showing: false, has_input }
    }

    /// What an event brings about. Its command is sent once; one that finds the queue full
    /// is lost.
    pub fn handle(&mut self, event: PanelEvent, commands: &mut Sender<Command>) -> (effect:
        PanelEffect)
        ensures
            effect == old(self)@.effect(event),
            final(self)@ == old(self)@.after(event),
            final(commands).capacity() == old(commands).capacity(),
            final(commands).traffic() == old(commands).traffic(),
            old(commands).in_order() ==> final(commands).in_order(),
            match old(self)@.command(event) {
                None => final(commands).offers() == old(commands).offers(),
                Some(command) => {
                    ||| final(commands).offers() == old(commands).offers().push((command, true))
                        && final(commands)@ == old(commands)@.push(command)
                    ||| final(commands).offers() == old(commands).offers().push((command, false))
                        && final(commands)@ == old(commands)@ && old(commands)@.len() >= old(
                        commands,
                    ).capacity()
                },
            },
    {
        match event {
            PanelEvent::Play => {
                let _ = commands.send(Command::Play);
                PanelEffect { playing: Some(true), ..no_effect() }
            },
            PanelEvent::Pause => {
                let _ = commands.send(Command::Pause);
                PanelEffect { playing: Some(false), ..no_effect() }
            },
            PanelEvent::Stop => {
                let _ = commands.send(Command::Stop);
                PanelEffect { playing: Some(false), rewind_playhead: true, ..no_effect() }
            },
            PanelEvent::ToggleMixer => {
                self.mixer_showing = !self.mixer_showing;
                PanelEffect { show_mixer: Some(self.mixer_showing), ..no_effect() }
            },
            PanelEvent::ChannelVolume(volume) => {
                let _ = commands.send(Command::SetVolume(volume));
                no_effect()
            },
            PanelEvent::StartRecording => {
                if self.has_input {
                    PanelEffect { recording: Some(true), ..no_effect() }
                } else {
                    PanelEffect { input_missing: true, ..no_effect() }
                }
            },
            PanelEvent::StopRecording => {
                if self.has_input {
                    PanelEffect { recording: Some(false), ..no_effect() }
                } else {
                    no_effect()
                }
            },
        }
    }
}

/// What the panel shows of playback is what the engine does once it has carried out
/// the command: it is muted exactly where playback is shown as not running, and it
/// stands at the start where the playhead is put back.
pub proof fn the_panel_shows_what_the_engine_does(
    panel: PanelState,
    engine: EngineState,
    event: PanelEvent,
    playing: bool,
)
    requires
        panel.effect(event).playing == Some(playing),
    ensures
        panel.command(event) is Some,
        engine.applied(panel.command(event).unwrap()).master_mute == !playing,
        panel.effect(event).rewind_playhead ==> engine.applied(
            panel.command(event).unwrap(),
        ).transport.current_sample == 0,
{
}

/// Toggling the mixer window twice leaves it as it was.
pub proof fn toggling_twice_restores_the_mixer(panel: PanelState)
    ensures
        panel.after(PanelEvent::ToggleMixer).after(PanelEvent::ToggleMixer) == panel,
{
}

/// Without an input nothing is ever recorded.
pub proof fn nothing_is_recorded_without_input(panel: PanelState, event: PanelEvent)
    requires
        !panel.has_input,
    ensures
        panel.effect(event).recording is None,
        !panel.after(event).has_input,
{
}

/// Each button of playback sends its own command and shows what it does; only stopping
/// puts the playhead back. Nothing else happens.
pub proof fn playback_buttons_do_what_they_say(panel: PanelState)
    ensures
        panel.command(PanelEvent::Play) == Some(Command::Play),
        panel.command(PanelEvent::Pause) == Some(Command::Pause),
        panel.command(PanelEvent::Stop) == Some(Command::Stop),
        panel.effect(PanelEvent::Play).playing == Some(true),
        panel.effect(PanelEvent::Pause).playing == Some(false),
        panel.effect(PanelEvent::Stop).playing == Some(false),
        !panel.effect(PanelEvent::Play).rewind_playhead,
        !panel.effect(PanelEvent::Pause).rewind_playhead,
        panel.effect(PanelEvent::Stop).rewind_playhead,
        forall|event: PanelEvent|
            event is Play || event is Pause || event is Stop ==> {
                let effect = #[trigger] panel.effect(event);
                &&& effect.show_mixer is None
                &&& effect.recording is None
                &&& !effect.input_missing
                &&& panel.after(event).mixer_showing == panel.mixer_showing
                &&& panel.after(event).has_input == panel.has_input
            },
{
}

/// A volume slider sends the volume that it was moved to, and nothing else happens.
pub proof fn sliders_send_their_volume(panel: PanelState, volume: u32)
    ensures
        panel.command(PanelEvent::ChannelVolume(volume)) == Some(Command::SetVolume(volume)),
        panel.effect(PanelEvent::ChannelVolume(volume)).playing is None,
        !panel.effect(PanelEvent::ChannelVolume(volume)).rewind_playhead,
        panel.effect(PanelEvent::ChannelVolume(volume)).show_mixer is None,
        panel.effect(PanelEvent::ChannelVolume(volume)).recording is None,
        !panel.effect(PanelEvent::ChannelVolume(volume)).input_missing,
        panel.after(PanelEvent::ChannelVolume(volume)) == panel,
{
}

/// The mixer window is shown where it was hidden and hidden where it was shown, and nothing
/// else happens.
pub proof fn the_mixer_is_shown_or_hidden(panel: PanelState)
    ensures
        panel.command(PanelEvent::ToggleMixer) is None,
        panel.effect(PanelEvent::ToggleMixer).show_mixer == Some(!panel.mixer_showing),
        panel.effect(PanelEvent::ToggleMixer).playing is None,
        !panel.effect(PanelEvent::ToggleMixer).rewind_playhead,
        panel.effect(PanelEvent::ToggleMixer).recording is None,
        !panel.effect(PanelEvent::ToggleMixer).input_missing,
        panel.after(PanelEvent::ToggleMixer).mixer_showing == !panel.mixer_showing,
        panel.after(PanelEvent::ToggleMixer).has_input == panel.has_input,
{
}

/// Recording is switched on and off where there is an input; where there is none, it is
/// said so when recording is to start. Nothing else happens.
pub proof fn recording_is_switched_on_and_off(panel: PanelState)
    ensures
        panel.has_input ==> {
            &&& panel.effect(PanelEvent::StartRecording).recording == Some(true)
            &&& panel.effect(PanelEvent::StopRecording).recording == Some(false)
            &&& !panel.effect(PanelEvent::StartRecording).input_missing
        },
        !panel.has_input ==> {
            &&& panel.effect(PanelEvent::StartRecording).recording is None
            &&& panel.effect(PanelEvent::StopRecording).recording is None
            &&& panel.effect(PanelEvent::StartRecording).input_missing
        },
        !panel.effect(PanelEvent::StopRecording).input_missing,
        forall|event: PanelEvent|
            event is StartRecording || event is StopRecording ==> {
                let effect = #[trigger] panel.effect(event);
                &&& panel.command(event) is None
                &&& effect.playing is None
                &&& !effect.rewind_playhead
                &&& effect.show_mixer is None
                &&& panel.after(event) == panel
            },
{
}

}
