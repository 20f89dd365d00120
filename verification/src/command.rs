//! What the audio thread can be told to do.
use crate::plugin_loader::Plugin;
use vstd::prelude::*;

verus! {

/// A request to the audio thread. Numbers with a fraction are binary32 patterns.
pub enum Command {
    Play,
    Pause,
    Stop,
    SetFrequency(u32),
    SetVolume(u32),
    NoteOn { note: u8, velocity: u8 },
    NoteOff { note: u8 },
    ConnectPlugin(Plugin),
}

}
