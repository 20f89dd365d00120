use audiosilence::command::Command;
use audiosilence::midi::{choose_port, decode, forward};
use audiosilence::panel::{Panel, PanelEvent};
use audiosilence::queue::queue;

fn names(list: &[Option<&str>]) -> Vec<Option<String>> {
    list.iter().map(|n| n.map(|s| s.to_string())).collect()
}

#[test]
fn notes_are_decoded() {
    assert!(matches!(decode(&[0x90, 60, 100]), Some(Command::NoteOn { note: 60, velocity: 100 })));
    assert!(matches!(decode(&[0x90, 60, 1, 7]), Some(Command::NoteOn { note: 60, velocity: 1 })));
    assert!(matches!(decode(&[0x80, 61, 64]), Some(Command::NoteOff { note: 61 })));
    assert!(matches!(decode(&[0x80, 61, 0]), Some(Command::NoteOff { note: 61 })));
}

#[test]
fn a_note_without_velocity_is_let_go() {
    assert!(matches!(decode(&[0x90, 60, 0]), Some(Command::NoteOff { note: 60 })));
}

#[test]
fn other_messages_are_ignored() {
    assert!(decode(&[]).is_none());
    assert!(decode(&[0x90, 60]).is_none());
    assert!(decode(&[0x91, 60, 100]).is_none());
    assert!(decode(&[0xB0, 7, 100]).is_none());
    assert!(decode(&[0xF8, 0, 0]).is_none());
}

#[test]
fn messages_are_forwarded() {
    let (mut tx, mut rx) = queue::<Command>(2);
    assert!(forward(&[0xB0, 7, 100], &mut tx).is_none());
    assert!(rx.receive().is_none());
    assert!(forward(&[0x90, 1, 100], &mut tx).is_none());
    assert!(forward(&[0x80, 2, 100], &mut tx).is_none());
    assert!(matches!(
        forward(&[0x90, 3, 9], &mut tx),
        Some(Command::NoteOn { note: 3, velocity: 9 })
    ));
    assert!(matches!(rx.receive(), Some(Command::NoteOn { note: 1, velocity: 100 })));
    assert!(matches!(rx.receive(), Some(Command::NoteOff { note: 2 })));
    assert!(rx.receive().is_none());
}

#[test]
fn the_first_port_of_its_own_is_chosen() {
    let list = names(&[Some("Midi Through Port-0"), None, Some("Keystation"), Some("Other")]);
    assert_eq!(choose_port(&list), Some(2));
    assert_eq!(choose_port(&names(&[Some("A"), Some("B")])), Some(0));
    assert_eq!(choose_port(&names(&[Some("x Midi Through"), Some("midi through")])), Some(1));
}

#[test]
fn failing_that_the_first_port_is_chosen() {
    assert_eq!(choose_port(&names(&[Some("Midi Through"), Some("Midi Through 2")])), Some(0));
    assert_eq!(choose_port(&names(&[None, None])), Some(0));
    assert_eq!(choose_port(&[]), None);
}

#[test]
fn queues_keep_order_and_turn_away_when_full() {
    let (mut tx, mut rx) = queue::<u32>(3);
    assert_eq!(rx.receive(), None);
    for i in 0..3 {
        assert_eq!(tx.send(i), Ok(()));
    }
    assert_eq!(tx.send(9), Err(9));
    assert_eq!(rx.receive(), Some(0));
    assert_eq!(tx.send(3), Ok(()));
    assert_eq!(tx.send(4), Err(4));
    assert_eq!(rx.receive(), Some(1));
    assert_eq!(rx.receive(), Some(2));
    assert_eq!(rx.receive(), Some(3));
    assert_eq!(rx.receive(), None);
}

#[test]
fn a_queue_accepts_as_many_items_as_it_holds() {
    let (mut tx, _rx) = queue::<u32>(65536);
    for i in 0..65536 {
        assert!(tx.send(i).is_ok());
    }
    assert!(tx.send(0).is_err());
}

#[test]
fn the_panel_plays_pauses_and_stops() {
    let (mut tx, mut rx) = queue::<Command>(8);
    let mut panel = Panel::new(true);
    let e = panel.handle(PanelEvent::Play, &mut tx);
    assert_eq!(e.playing, Some(true));
    assert!(!e.rewind_playhead && e.show_mixer.is_none() && e.recording.is_none());
    assert!(matches!(rx.receive(), Some(Command::Play)));
    let e = panel.handle(PanelEvent::Pause, &mut tx);
    assert_eq!(e.playing, Some(false));
    assert!(!e.rewind_playhead);
    assert!(matches!(rx.receive(), Some(Command::Pause)));
    let e = panel.handle(PanelEvent::Stop, &mut tx);
    assert_eq!(e.playing, Some(false));
    assert!(e.rewind_playhead);
    assert!(matches!(rx.receive(), Some(Command::Stop)));
    assert!(rx.receive().is_none());
}

#[test]
fn the_panel_sets_the_volume() {
    let (mut tx, mut rx) = queue::<Command>(1);
    let mut panel = Panel::new(false);
    let half = 0.5f32.to_bits();
    let e = panel.handle(PanelEvent::ChannelVolume(half), &mut tx);
    assert!(e.playing.is_none() && e.recording.is_none() && !e.input_missing);
    // The queue is full now; the next command is lost.
    panel.handle(PanelEvent::ChannelVolume(0), &mut tx);
    assert!(matches!(rx.receive(), Some(Command::SetVolume(g)) if g == half));
    assert!(rx.receive().is_none());
}

#[test]
fn the_mixer_window_toggles() {
    let (mut tx, mut rx) = queue::<Command>(1);
    let mut panel = Panel::new(false);
    assert_eq!(panel.handle(PanelEvent::ToggleMixer, &mut tx).show_mixer, Some(true));
    assert_eq!(panel.handle(PanelEvent::ToggleMixer, &mut tx).show_mixer, Some(false));
    assert_eq!(panel.handle(PanelEvent::ToggleMixer, &mut tx).show_mixer, Some(true));
    assert!(rx.receive().is_none());
}

#[test]
fn recording_needs_an_input() {
    let (mut tx, _rx) = queue::<Command>(1);
    let mut with = Panel::new(true);
    let e = with.handle(PanelEvent::StartRecording, &mut tx);
    assert!(e.recording == Some(true) && !e.input_missing);
    let e = with.handle(PanelEvent::StopRecording, &mut tx);
    assert!(e.recording == Some(false) && !e.input_missing);
    let mut without = Panel::new(false);
    let e = without.handle(PanelEvent::StartRecording, &mut tx);
    assert!(e.recording.is_none() && e.input_missing);
    let e = without.handle(PanelEvent::StopRecording, &mut tx);
    assert!(e.recording.is_none() && !e.input_missing);
}
