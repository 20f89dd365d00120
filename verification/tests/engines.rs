use audiosilence::audio_track::AudioTrack;
use audiosilence::command::Command;
use audiosilence::engine::mixer::{Arithmetic, BEAT_ACTIVE_SAMPLES, MAX_BUF_FRAMES};
use audiosilence::engine::{Engine, INITIAL_GAIN, NOTES, VOICES};
use audiosilence::plugin_loader::{load_scanned, Host, ScanOutcome};
use audiosilence::queue::queue;
use plugin_host::descriptor::{PluginCategory, PluginDescriptor, PluginFormat};
use std::f64::consts::TAU;
use wide::f32x4;

fn frequencies() -> Vec<u64> {
    (0..NOTES)
        .map(|note| (440.0 * 2.0f64.powf((note as f64 - 69.0) / 12.0)).to_bits())
        .collect()
}

fn engine(rate: u32, tracks: Vec<Vec<u32>>) -> Engine {
    Engine::new((rate as f64).to_bits(), tracks.into_iter().map(AudioTrack::new).collect(), frequencies())
}

fn tone(phase: u64, gain: u64) -> u32 {
    (((TAU * f64::from_bits(phase)).sin() * f64::from_bits(gain)) as f32).to_bits()
}

fn floats(bits: [u32; 4]) -> f32x4 {
    f32x4::new(bits.map(f32::from_bits))
}

fn add_lanes(a: [u32; 4], b: [u32; 4]) -> [u32; 4] {
    (floats(a) + floats(b)).to_array().map(f32::to_bits)
}

fn scale_lanes(a: [u32; 4], gain: u32) -> [u32; 4] {
    (floats(a) * f32x4::splat(f32::from_bits(gain))).to_array().map(f32::to_bits)
}

fn add(a: u32, b: u32) -> u32 {
    (f32::from_bits(a) + f32::from_bits(b)).to_bits()
}

fn scale(a: u32, gain: u32) -> u32 {
    (f32::from_bits(a) * f32::from_bits(gain)).to_bits()
}

fn render(engine: &mut Engine, data: &mut [u32]) {
    let m = Arithmetic {
        tone: |p: u64, g: u64| tone(p, g),
        add_lanes: |a: [u32; 4], b: [u32; 4]| add_lanes(a, b),
        scale_lanes: |a: [u32; 4], g: u32| scale_lanes(a, g),
        add: |a: u32, b: u32| add(a, b),
        scale: |a: u32, g: u32| scale(a, g),
    };
    engine.render(data, &m);
}

/// Renders one block and counts its samples.
fn block(engine: &mut Engine, samples: usize) -> Vec<f32> {
    let mut data = vec![1.0f32.to_bits(); samples];
    render(engine, &mut data);
    engine.end_block(samples);
    data.into_iter().map(f32::from_bits).collect()
}

fn note_on(note: u8) -> Command {
    Command::NoteOn { note, velocity: 100 }
}

fn bits(samples: &[f32]) -> Vec<u32> {
    samples.iter().map(|s| s.to_bits()).collect()
}

/// A sine of full gain, in native arithmetic.
fn sine(rate: f64, freq: f64, n: usize) -> Vec<f32> {
    let mut phase = 0.0f64;
    let mut out = Vec::new();
    for _ in 0..n {
        out.push(((TAU * phase).sin() * 1.0) as f32);
        phase += freq / rate;
        if phase >= 1.0 {
            phase -= 1.0;
        }
    }
    out
}

#[test]
fn the_initial_gain_is_a_fifth() {
    assert_eq!(INITIAL_GAIN, 0.2f32.to_bits());
    assert_eq!(INITIAL_GAIN, (0.2f64 as f32).to_bits());
}

#[test]
fn one_note_is_a_sine() {
    for samples in [2usize, 6, 8, 10, 64, 94] {
        let mut e = engine(48000, Vec::new());
        e.apply(note_on(69));
        let out = block(&mut e, samples);
        let expected = sine(48000.0, 440.0, samples / 2);
        for f in 0..samples / 2 {
            assert_eq!(out[2 * f], (0.0 + expected[f]) * 0.2);
            assert_eq!(out[2 * f + 1], out[2 * f]);
        }
    }
}

#[test]
fn blocks_follow_each_other_without_a_gap() {
    let mut whole = engine(44100, vec![bits(&[0.5, 0.25, -0.5, 0.125, 1.0, -1.0, 0.75])]);
    whole.apply(note_on(60));
    let mut parts = engine(44100, vec![bits(&[0.5, 0.25, -0.5, 0.125, 1.0, -1.0, 0.75])]);
    parts.apply(note_on(60));
    let expected = block(&mut whole, 32);
    let mut got = block(&mut parts, 6);
    got.extend(block(&mut parts, 10));
    got.extend(block(&mut parts, 16));
    assert_eq!(got, expected);
}

#[test]
fn voices_and_tracks_are_added() {
    let mut e = engine(48000, vec![bits(&[0.5, 0.25, 0.5, 0.5, 0.5]), bits(&[0.125, 0.125])]);
    e.apply(Command::SetVolume(1.0f32.to_bits()));
    let out = block(&mut e, 10);
    let left: Vec<f32> = out.iter().step_by(2).cloned().collect();
    assert_eq!(left, vec![0.625, 0.375, 0.5, 0.5, 0.5]);
}

#[test]
fn the_volume_scales_the_mix() {
    let mut e = engine(48000, vec![bits(&[0.5, 0.25, 1.0, -1.0, 0.5])]);
    e.apply(Command::SetVolume(0.5f32.to_bits()));
    let out = block(&mut e, 10);
    assert_eq!(out, vec![0.25, 0.25, 0.125, 0.125, 0.5, 0.5, -0.5, -0.5, 0.25, 0.25]);
}

#[test]
fn a_frequency_command_does_nothing() {
    let mut a = engine(48000, Vec::new());
    a.apply(note_on(50));
    a.apply(Command::SetFrequency(1000.0f32.to_bits()));
    let mut b = engine(48000, Vec::new());
    b.apply(note_on(50));
    assert_eq!(block(&mut a, 64), block(&mut b, 64));
}

#[test]
fn a_block_of_odd_length_keeps_its_last_sample() {
    let mut e = engine(48000, vec![bits(&[0.5, 0.25])]);
    e.apply(Command::SetVolume(1.0f32.to_bits()));
    assert_eq!(block(&mut e, 3), vec![0.5, 0.5, 1.0]);
    e.apply(Command::Pause);
    assert_eq!(block(&mut e, 3), vec![0.0, 0.0, 0.0]);
}

#[test]
fn an_empty_block_is_left_alone() {
    let mut e = engine(0, Vec::new());
    assert_eq!(block(&mut e, 0), Vec::<f32>::new());
    assert_eq!(block(&mut e, 1), vec![1.0]);
}

#[test]
fn a_muted_engine_is_silent_but_goes_on() {
    let mut muted = engine(48000, vec![bits(&[0.5, 0.25, 0.125, 0.0625, 1.0, 0.5])]);
    let mut open = engine(48000, vec![bits(&[0.5, 0.25, 0.125, 0.0625, 1.0, 0.5])]);
    muted.apply(note_on(69));
    open.apply(note_on(69));
    muted.apply(Command::Pause);
    assert!(block(&mut muted, 8).iter().all(|s| *s == 0.0));
    block(&mut open, 8);
    muted.apply(Command::Play);
    assert_eq!(block(&mut muted, 16), block(&mut open, 16));
}

#[test]
fn the_position_stands_still_while_muted() {
    let mut e = engine(48000, Vec::new());
    assert_eq!(e.end_block(512), 512);
    e.apply(Command::Pause);
    assert_eq!(e.end_block(512), 512);
    e.apply(Command::Play);
    assert_eq!(e.end_block(100), 612);
    e.apply(Command::Stop);
    assert_eq!(e.end_block(512), 0);
    e.apply(Command::Play);
    assert_eq!(e.end_block(10), 10);
}

#[test]
fn an_idle_engine_is_gated_after_the_start_of_a_beat() {
    // Without sources the arithmetic below makes every frame sound.
    let mut e = engine(8000, Vec::new());
    let m = Arithmetic {
        tone: |_: u64, _: u64| 0u32,
        add_lanes: |a: [u32; 4], _: [u32; 4]| a,
        scale_lanes: |_: [u32; 4], _: u32| [9u32; 4],
        add: |a: u32, _: u32| a,
        scale: |_: u32, _: u32| 9u32,
    };
    let mut position: u64 = 0;
    for samples in [1000usize, 2002, 998, 4000, 6, 4001, 3] {
        let mut data = vec![5u32; samples];
        e.render(&mut data, &m);
        for f in 0..samples / 2 {
            let open = (position + 2 * f as u64) % 4000 < BEAT_ACTIVE_SAMPLES;
            let expected = if open { 9 } else { 0 };
            assert_eq!(data[2 * f], expected, "{} {}", position, f);
            assert_eq!(data[2 * f + 1], expected);
        }
        if samples % 2 == 1 {
            assert_eq!(data[samples - 1], 5);
        }
        position += samples as u64;
        assert_eq!(e.end_block(samples), position);
    }
}

#[test]
fn a_sounding_engine_is_not_gated() {
    let mut e = engine(8000, Vec::new());
    e.end_block(3000);
    let m = Arithmetic {
        tone: |_: u64, _: u64| 0u32,
        add_lanes: |a: [u32; 4], _: [u32; 4]| a,
        scale_lanes: |_: [u32; 4], _: u32| [9u32; 4],
        add: |a: u32, _: u32| a,
        scale: |_: u32, _: u32| 9u32,
    };
    let mut data = vec![5u32; 8];
    e.render(&mut data, &m);
    assert_eq!(data, vec![0u32; 8]);
    e.apply(note_on(69));
    e.render(&mut data, &m);
    assert_eq!(data, vec![9u32; 8]);
}

#[test]
fn notes_take_the_first_free_voice_and_are_lost_when_none_is() {
    let mut e = engine(48000, Vec::new());
    e.apply(Command::SetVolume(1.0f32.to_bits()));
    for _ in 0..VOICES {
        e.apply(note_on(69));
    }
    let full = block(&mut e, 20);
    let one = sine(48000.0, 440.0, 10);
    let mut expected = Vec::new();
    for s in &one {
        let mut total = 0.0f32;
        for _ in 0..VOICES {
            total += *s;
        }
        expected.push(total);
    }
    let left: Vec<f32> = full.iter().step_by(2).cloned().collect();
    assert_eq!(left, expected);
    // A note more changes nothing.
    let mut more = engine(48000, Vec::new());
    more.apply(Command::SetVolume(1.0f32.to_bits()));
    for _ in 0..VOICES {
        more.apply(note_on(69));
    }
    more.apply(note_on(100));
    assert_eq!(block(&mut more, 20), full);
}

#[test]
fn a_released_note_fades_and_frees_its_voice() {
    let mut e = engine(48000, Vec::new());
    for note in 0..VOICES as u8 {
        e.apply(note_on(60 + note));
    }
    e.apply(Command::NoteOff { note: 63 });
    block(&mut e, 1998);
    // One sample before the release ends the voice is still taken.
    e.apply(note_on(100));
    e.apply(Command::NoteOff { note: 100 });
    block(&mut e, 2);
    e.apply(note_on(101));
    for note in 0..VOICES as u8 {
        e.apply(Command::NoteOff { note: 60 + note });
    }
    block(&mut e, 2000);
    // Only the last note goes on.
    let out = block(&mut e, 200);
    assert!(out.iter().any(|s| *s != 0.0));
    e.apply(Command::NoteOff { note: 101 });
    block(&mut e, 2000);
    assert!(block(&mut e, 200).iter().all(|s| *s == 0.0));
}

#[test]
fn letting_go_touches_one_voice_only() {
    let mut e = engine(48000, Vec::new());
    e.apply(note_on(69));
    e.apply(note_on(69));
    e.apply(Command::NoteOff { note: 69 });
    // The second time the first voice is still fading and is found again.
    e.apply(Command::NoteOff { note: 69 });
    block(&mut e, 2000);
    assert!(block(&mut e, 200).iter().any(|s| *s != 0.0));
    e.apply(Command::NoteOff { note: 69 });
    block(&mut e, 2000);
    assert!(block(&mut e, 200).iter().all(|s| *s == 0.0));
}

#[test]
fn letting_go_of_another_note_changes_nothing() {
    let mut a = engine(48000, Vec::new());
    let mut b = engine(48000, Vec::new());
    a.apply(note_on(40));
    b.apply(note_on(40));
    a.apply(Command::NoteOff { note: 41 });
    assert_eq!(block(&mut a, 400), block(&mut b, 400));
}

#[test]
fn velocity_is_ignored() {
    let mut a = engine(48000, Vec::new());
    let mut b = engine(48000, Vec::new());
    a.apply(Command::NoteOn { note: 40, velocity: 1 });
    b.apply(Command::NoteOn { note: 40, velocity: 127 });
    assert_eq!(block(&mut a, 64), block(&mut b, 64));
}

#[test]
fn queued_commands_are_carried_out_in_order() {
    let mut e = engine(48000, vec![bits(&[0.5; 8])]);
    let (mut tx, mut rx) = queue::<Command>(256);
    assert!(!e.poll(&mut rx));
    assert!(tx.send(Command::SetVolume(0.25f32.to_bits())).is_ok());
    assert!(tx.send(Command::SetVolume(1.0f32.to_bits())).is_ok());
    assert!(tx.send(Command::Pause).is_ok());
    assert!(tx.send(Command::Play).is_ok());
    let mut n = 0;
    while e.poll(&mut rx) {
        n += 1;
    }
    assert_eq!(n, 4);
    assert_eq!(block(&mut e, 2), vec![0.5, 0.5]);
}

#[test]
fn the_queue_of_notes_carries_notes_only() {
    let mut e = engine(48000, vec![bits(&[0.5; 64])]);
    let (mut tx, mut rx) = queue::<Command>(16);
    assert!(tx.send(Command::Pause).is_ok());
    assert!(tx.send(Command::SetVolume(0)).is_ok());
    assert!(tx.send(note_on(69)).is_ok());
    while e.poll_notes(&mut rx) {}
    let out = block(&mut e, 4);
    assert_eq!(out[0], 0.5 * 0.2);
    assert_eq!(out[2], (sine(48000.0, 440.0, 2)[1] + 0.5) * 0.2);
    assert!(tx.send(Command::NoteOff { note: 69 }).is_ok());
    assert!(e.poll_notes(&mut rx));
    assert!(!e.poll_notes(&mut rx));
}

#[test]
fn a_connected_plugin_gets_blocks_that_fit() {
    let mut e = engine(48000, Vec::new());
    assert_eq!(e.plugin_frames(512), None);
    let descriptor = PluginDescriptor {
        id: "test".to_string(),
        name: "test".to_string(),
        vendor: String::new(),
        version: String::new(),
        description: String::new(),
        category: PluginCategory::Effect,
        format: PluginFormat::Clap,
        path: "/nowhere".into(),
        index: 0,
        audio_inputs: 2,
        audio_outputs: 2,
        has_midi_in: false,
        has_gui: false,
        file_hash: 0,
    };
    let plugin = load_scanned(&mut Host::new(), ScanOutcome::Found(vec![descriptor]), 48000, 9).unwrap();
    e.apply(Command::ConnectPlugin(plugin));
    assert_eq!(e.active_plugin.as_ref().unwrap().number(), 9);
    assert_eq!(e.plugin_frames(512), Some(256));
    assert_eq!(e.plugin_frames(513), Some(256));
    assert_eq!(e.plugin_frames(2 * MAX_BUF_FRAMES + 1), Some(MAX_BUF_FRAMES));
    assert_eq!(e.plugin_frames(2 * MAX_BUF_FRAMES + 2), None);
    e.apply(Command::Pause);
    assert_eq!(e.plugin_frames(512), None);
}

#[test]
fn a_muted_engine_has_room_for_any_block() {
    let mut e = engine(48000, Vec::new());
    assert!(e.has_room_for(512));
    assert_eq!(e.end_block(usize::MAX - 100), u64::MAX - 100);
    assert!(e.has_room_for(100));
    assert!(!e.has_room_for(101));
    e.apply(Command::Pause);
    assert!(e.has_room_for(101));
    assert_eq!(e.end_block(101), u64::MAX - 100);
    e.apply(Command::Stop);
    e.apply(Command::Play);
    assert!(e.has_room_for(101));
}

#[test]
fn a_queue_is_drained_up_to_a_limit() {
    let mut e = engine(48000, vec![bits(&[0.5; 64])]);
    let (mut tx, mut rx) = queue::<Command>(8);
    assert!(e.poll_up_to(&mut rx, 5));
    assert!(!e.poll_up_to(&mut rx, 0));
    for gain in [0.25f32, 0.5, 1.0] {
        assert!(tx.send(Command::SetVolume(gain.to_bits())).is_ok());
    }
    assert!(!e.poll_up_to(&mut rx, 2));
    assert_eq!(block(&mut e, 2), vec![0.25, 0.25]);
    assert!(e.poll_up_to(&mut rx, 2));
    assert_eq!(block(&mut e, 2), vec![0.5, 0.5]);

    assert!(tx.send(Command::Pause).is_ok());
    assert!(tx.send(note_on(69)).is_ok());
    assert!(!e.poll_notes_up_to(&mut rx, 2));
    assert!(e.poll_notes_up_to(&mut rx, usize::MAX));
    assert_eq!(block(&mut e, 2), vec![0.5, 0.5]);
}

#[test]
fn time_is_kept_from_two_samples_per_second() {
    assert!(engine(2, Vec::new()).keeps_time(512));
    let mut slow = engine(1, Vec::new());
    assert!(!slow.keeps_time(2));
    assert!(slow.keeps_time(1));
    slow.apply(Command::Pause);
    assert!(slow.keeps_time(512));
}
