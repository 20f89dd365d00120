//! The sound engine of a small digital audio workstation.
pub mod audio_track;
pub mod binary64;
pub mod command;
pub mod engine;
pub mod midi;
pub mod number;
pub mod oscillator;
pub mod panel;
pub mod playhead;
pub mod plugin_loader;
pub mod queue;
pub mod recording;
pub mod release;
pub mod stereo;
pub mod transport;
