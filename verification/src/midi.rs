//! Notes that come in from a MIDI keyboard.
use crate::command::Command;
use crate::queue::Sender;
use vstd::prelude::*;

verus! {

/// The status byte of a note struck on the first channel.
pub const NOTE_ON: u8 = 0x90;

/// The status byte of a note let go on the first channel.
pub const NOTE_OFF: u8 = 0x80;

/// The name part by which a port is known that only passes messages through.
pub const THROUGH_PORT: &'static str = "Midi Through";

/// The command that a message stands for. A note struck with velocity zero is a
/// note let go. Short messages and messages of any other kind stand for none.
pub open spec fn decoded(message: Seq<u8>) -> Option<Command> {
    if message.len() < 3 {
        None
    } else if message[0] == NOTE_ON && message[2] > 0 {
        Some(Command::NoteOn { note: message[1], velocity: message[2] })
    } else if message[0] == NOTE_ON || message[0] == NOTE_OFF {
        Some(Command::NoteOff { note: message[1] })
    } else {
        None
    }
}

/// The command that a message stands for.
pub fn decode(message: &[u8]) -> (command: Option<Command>)
    ensures
        command == decoded(message@),
        message@.len() >= 3 && message@[0] == 0x90 && message@[2] > 0 ==> command == Some(
            Command::NoteOn { note: message@[1], velocity: message@[2] },
        ),
        message@.len() >= 3 && (message@[0] == 0x80 || (message@[0] == 0x90 && message@[2] == 0))
            ==> command == Some(Command::NoteOff { note: message@[1] }),
        message@.len() < 3 || (message@[0] != 0x80 && message@[0] != 0x90) ==> command is None,
{
    if message.len() < 3 {
        return None;
    }
    let status = message[0];
    let note = message[1];
    let velocity = message[2];
    if status == NOTE_ON && velocity > 0 {
        Some(Command::NoteOn { note, velocity })
    } else if status == NOTE_ON || status == NOTE_OFF {
        Some(Command::NoteOff { note })
    } else {
        None
    }
}

/// Sends the command that a message stands for, once. A command that finds the queue
/// full is given back.
pub fn forward(message: &[u8], commands: &mut Sender<Command>) -> (lost: Option<Command>)
    ensures
        final(commands).capacity() == old(commands).capacity(),
        final(commands).traffic() == old(commands).traffic(),
        old(commands).in_order() ==> final(commands).in_order(),
        match decoded(message@) {
            None => lost is None && final(commands).offers() == old(commands).offers(),
            Some(command) => final(commands).offers() == old(commands).offers().push(
                (command, lost is None),
            ),
        },
        match decoded(message@) {
            None => final(commands)@ == old(commands)@,
            Some(command) => {
                ||| lost is None && final(commands)@ == old(commands)@.push(command)
                ||| lost == Some(command) && final(commands)@ == old(commands)@ && old(
                    commands,
                )@.len() >= old(commands).capacity()
            },
        },
{
    match decode(message) {
        Some(command) => match commands.send(command) {
            Ok(()) => None,
            Err(back) => Some(back),
        },
        None => None,
    }
}

/// Whether `part` occurs in `text`.
pub open spec fn occurs_in(part: Seq<char>, text: Seq<char>) -> bool {
    exists|i: int|
        #![trigger text.skip(i)]
        0 <= i && i + part.len() <= text.len() && text.skip(i).take(part.len() as int) == part
}

/// Calls `str::contains`, which tells whether the pattern matches some part of the
/// text.
#[verifier::external_body]
fn contains(text: &str, part: &str) -> (found: bool)
    ensures
        found == occurs_in(part@, text@),
{
    text.contains(part)
}

/// Whether a port of this name, if it has one that can be read, is a source of its
/// own.
pub open spec fn is_source(name: Option<String>) -> bool {
    name matches Some(text) && !occurs_in(THROUGH_PORT@, text@)
}

/// Which of the ports to listen to: the first that is a source of its own, failing
/// that the first, and none where there are no ports. A name that could not be
/// read is `None`.
pub fn choose_port(names: &[Option<String>]) -> (port: Option<usize>)
    ensures
        match port {
            None => names@.len() == 0,
            Some(i) => i < names@.len() && {
                ||| is_source(names@[i as int]) && forall|j: int|
                    0 <= j < i ==> !is_source(#[trigger] names@[j])
                ||| i == 0 && forall|j: int|
                    0 <= j < names@.len() ==> !is_source(#[trigger] names@[j])
            },
        },
{
    if names.len() == 0 {
        return None;
    }
    let mut i: usize = 0;
    while i < names.len()
        invariant
            i <= names@.len(),
            forall|j: int| 0 <= j < i ==> !is_source(#[trigger] names@[j]),
        decreases names@.len() - i,
    {
        if let Some(name) = &names[i] {
            if !contains(name.as_str(), THROUGH_PORT) {
                return Some(i);
            }
        }
        i = i + 1;
    }
    Some(0)
}

/// A note struck with velocity zero is the same as the note let go.
pub proof fn striking_without_velocity_lets_go(note: u8, rest: u8)
    ensures
        decoded(seq![NOTE_ON, note, 0u8]) == decoded(seq![NOTE_OFF, note, rest]),
{
}

/// Only the first three bytes of a message matter.
pub proof fn only_three_bytes_matter(message: Seq<u8>)
    requires
        message.len() >= 3,
    ensures
        decoded(message) == decoded(message.take(3)),
{
}

/// A key that is struck gives its own note with its own velocity, whatever follows in
/// the message.
pub proof fn a_key_struck_gives_its_note(note: u8, velocity: u8, rest: Seq<u8>)
    requires
        velocity > 0,
    ensures
        decoded(seq![0x90u8, note, velocity] + rest) == Some(Command::NoteOn { note, velocity }),
{
}

/// A key that is let go gives its own note, at whatever speed it was let go, and so does
/// one that is struck without velocity.
pub proof fn a_key_let_go_gives_its_note(note: u8, velocity: u8, rest: Seq<u8>)
    ensures
        decoded(seq![0x80u8, note, velocity] + rest) == Some(Command::NoteOff { note }),
        decoded(seq![0x90u8, note, 0u8] + rest) == Some(Command::NoteOff { note }),
{
}

/// Nothing else gives a command: not a message that is too short, and not one whose
/// status is neither that of a key struck nor that of one let go.
pub proof fn other_messages_give_nothing(message: Seq<u8>)
    requires
        message.len() < 3 || (message[0] != 0x80 && message[0] != 0x90),
    ensures
        decoded(message) is None,
{
}

/// Different keys give different commands.
pub proof fn keys_are_told_apart(a: Seq<u8>, b: Seq<u8>)
    requires
        a.len() >= 3,
        b.len() >= 3,
        a[1] != b[1],
        decoded(a) is Some,
    ensures
        decoded(a) != decoded(b),
{
}

/// A part occurs in every text that is made up of it and something before and after
/// it, and in no other text.
pub proof fn parts_occur_where_they_were_put(part: Seq<char>, text: Seq<char>)
    ensures
        occurs_in(part, text) <==> exists|head: Seq<char>, tail: Seq<char>|
            text == #[trigger] (head + part + tail),
{
    if occurs_in(part, text) {
        let i = choose|i: int|
            #![trigger text.skip(i)]
            0 <= i && i + part.len() <= text.len() && text.skip(i).take(part.len() as int) == part;
        let head = text.take(i);
        let tail = text.skip(i + part.len());
        assert forall|j: int| 0 <= j < part.len() implies #[trigger] text[i + j] == part[j] by {
            assert(text.skip(i).take(part.len() as int)[j] == part[j]);
        }
        assert forall|k: int| 0 <= k < text.len() implies #[trigger] text[k] == (head + part
            + tail)[k] by {
            if i <= k < i + part.len() {
                assert(text[i + (k - i)] == part[k - i]);
            }
        }
        assert(text =~= head + part + tail);
    }
    if exists|head: Seq<char>, tail: Seq<char>| text == #[trigger] (head + part + tail) {
        let (head, tail) = choose|head: Seq<char>, tail: Seq<char>|
            text == #[trigger] (head + part + tail);
        let i = head.len() as int;
        assert(text.skip(i).take(part.len() as int) =~= part);
    }
}

/// A port is a source of its own unless its name cannot be read or tells that it only
/// passes messages through.
pub proof fn through_ports_are_no_sources(name: Option<String>)
    ensures
        name is None ==> !is_source(name),
        name matches Some(text) ==> (is_source(name) <==> !exists|
            head: Seq<char>,
            tail: Seq<char>,
        |
            text@ == #[trigger] (head + "Midi Through"@ + tail)),
{
    if let Some(text) = name {
        parts_occur_where_they_were_put("Midi Through"@, text@);
    }
}

}
