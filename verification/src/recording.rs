//! Recording of the input: what is kept of it, and when a file is written.
use crate::queue;
use crate::queue::Sender;
use vstd::prelude::*;

verus! {

/// Whether `mono` is a block of input reduced to one channel: of two or more
/// channels the samples are averaged in pairs, one channel is taken as it is.
pub open spec fn is_downmix<F: Fn(u32, u32) -> u32>(
    data: Seq<u32>,
    channels: u16,
    average: F,
    mono: Seq<u32>,
) -> bool {
    if channels >= 2 {
        &&& mono.len() == data.len() / 2
        &&& forall|i: int|
            0 <= i < mono.len() ==> call_ensures(
                average,
                (data[2 * i], data[2 * i + 1]),
                #[trigger] mono[i],
            )
    } else {
        mono == data
    }
}

/// Offers one sample.
fn offer(
    samples: &mut Sender<u32>,
    item: u32,
    Ghost(before): Ghost<Seq<(u32, bool)>>,
    Ghost(items): Ghost<Seq<u32>>,
)
    requires
        queue::were_offered(before, items, old(samples).offers(), old(samples).capacity()),
    ensures
        final(samples).capacity() == old(samples).capacity(),
        final(samples).traffic() == old(samples).traffic(),
        old(samples).in_order() ==> final(samples).in_order(),
        queue::were_offered(
            before,
            items.push(item),
            final(samples).offers(),
            final(samples).capacity(),
        ),
{
    let ghost part = samples.offers();
    let result = samples.send(item);
    proof {
        queue::lemma_offered_one(before, items, part, item, result is Ok, samples.capacity());
    }
}

/// Offers a block of input to the queue of the recording, reduced to one channel, each
/// sample once and in order. Samples that find the queue full are lost, and so is all
/// input while nothing is recorded. `average` gives the mean of two samples.
pub fn capture<F: Fn(u32, u32) -> u32>(
    samples: &mut Sender<u32>,
    recording: bool,
    channels: u16,
    data: &[u32],
    average: &F,
)
    requires
        forall|a: u32, b: u32| #[trigger] call_requires(*average, (a, b)),
    ensures
        final(samples).capacity() == old(samples).capacity(),
        final(samples).traffic() == old(samples).traffic(),
        old(samples).in_order() ==> final(samples).in_order(),
        !recording ==> final(samples).offers() == old(samples).offers(),
        recording ==> exists|mono: Seq<u32>| #[trigger]
            is_downmix(data@, channels, *average, mono) && queue::were_offered(
                old(samples).offers(),
                mono,
                final(samples).offers(),
                old(samples).capacity(),
            ),
        recording && channels >= 2 ==> final(samples).offers().len() == old(samples).offers().len()
            + data@.len() / 2,
        recording && channels >= 2 ==> forall|i: int|
            0 <= i < data@.len() / 2 ==> call_ensures(
                *average,
                (data@[2 * i], data@[2 * i + 1]),
                (#[trigger] final(samples).offers()[old(samples).offers().len() + i]).0,
            ),
        recording && channels < 2 ==> final(samples).offers().len() == old(samples).offers().len()
            + data@.len(),
        recording && channels < 2 ==> forall|i: int|
            0 <= i < data@.len() ==> (#[trigger] final(samples).offers()[old(
                samples,
            ).offers().len() + i]).0 == data@[i],
{
    if !recording {
        return ;
    }
    let ghost before = samples.offers();
    let ghost capacity = samples.capacity();
    let ghost mut mono: Seq<u32> = Seq::empty();
    let mut i: usize = 0;
    if channels >= 2 {
        let pairs = data.len() / 2;
        while i < pairs
            invariant
                pairs == data@.len() / 2,
                data@.len() <= usize::MAX,
                i <= pairs,
                mono.len() == i,
                samples.capacity() == capacity,
                forall|a: u32, b: u32| #[trigger] call_requires(*average, (a, b)),
                forall|j: int|
                    0 <= j < mono.len() ==> call_ensures(
                        *average,
                        (data@[2 * j], data@[2 * j + 1]),
                        #[trigger] mono[j],
                    ),
                samples.traffic() == old(samples).traffic(),
                old(samples).in_order() ==> samples.in_order(),
                queue::were_offered(before, mono, samples.offers(), capacity),
            decreases pairs - i,
        {
            let mean = (*average)(data[i * 2], data[i * 2 + 1]);
            offer(samples, mean, Ghost(before), Ghost(mono));
            proof {
                mono = mono.push(mean);
            }
            i = i + 1;
        }
    } else {
        while i < data.len()
            invariant
                i <= data@.len(),
                mono == data@.take(i as int),
                samples.capacity() == capacity,
                samples.traffic() == old(samples).traffic(),
                old(samples).in_order() ==> samples.in_order(),
                queue::were_offered(before, mono, samples.offers(), capacity),
            decreases data@.len() - i,
        {
            offer(samples, data[i], Ghost(before), Ghost(mono));
            proof {
                mono = mono.push(data@[i as int]);
                assert(mono =~= data@.take(i + 1));
            }
            i = i + 1;
        }
        assert(mono =~= data@);
    }
    assert(is_downmix(data@, channels, *average, mono));
    proof {
        if channels >= 2 {
            every_pair_is_recorded(
                data@,
                channels,
                *average,
                mono,
                before,
                samples.offers(),
                capacity,
            );
        } else {
            every_sample_is_recorded(
                data@,
                channels,
                *average,
                mono,
                before,
                samples.offers(),
                capacity,
            );
        }
    }
}

/// What the thread that writes to disk does in one of its turns, in this order.
pub struct DiskStep {
    /// Open a new file.
    pub open: bool,
    /// Write what the queue holds to the file that is open.
    pub drain: bool,
    /// Close the file.
    pub finish: bool,
}

/// What a turn of the disk thread brings, from whether it recorded in the last turn
/// and whether it records now.
pub open spec fn disk_step(was_recording: bool, now_recording: bool) -> DiskStep {
    DiskStep {
        open: now_recording && !was_recording,
        drain: now_recording || was_recording,
        finish: was_recording && !now_recording,
    }
}

/// The thread that writes recordings to disk.
pub struct Recorder {
    was_recording: bool,
    writing: bool,
}

impl Recorder {
    /// Whether the thread recorded in its last turn.
    pub closed spec fn recording(&self) -> bool {
        self.was_recording
    }

    /// Whether a file is open.
    pub closed spec fn file_open(&self) -> bool {
        self.writing
    }

    /// Between turns a file is open exactly where the last turn recorded.
    pub open spec fn well_formed(&self) -> bool {
        self.file_open() == self.recording()
    }

    /// A thread that has not recorded anything.
    pub fn new() -> (recorder: Self)
        ensures
            recorder.well_formed(),
            !recorder.recording(),
    {
        Recorder { was_recording: false, writing: false }
    }

    /// A turn of the thread, given whether recording is switched on.
    pub fn step(&mut self, now_recording: bool) -> (step: DiskStep)
        requires
            old(self).well_formed(),
        ensures
            step == disk_step(old(self).recording(), now_recording),
            step.open ==> !old(self).file_open(),
            final(self).recording() == now_recording,
            final(self).well_formed(),
    {
        let open = now_recording && !self.was_recording;
        if open {
            self.writing = true;
        }
        let drain = self.writing;
        let finish = !now_recording && self.was_recording && self.writing;
        if finish {
            self.writing = false;
        }
        self.was_recording = now_recording;
        DiskStep { open, drain, finish }
    }

    /// The end of the thread: gives whether a file is open, which is then to be
    /// filled with what the queue holds and closed.
    pub fn stop(self) -> (finish: bool)
        requires
            self.well_formed(),
        ensures
            finish == self.file_open(),
            finish == self.recording(),
    {
        self.writing
    }
}

/// A file is drained in every turn in which it is open, the one that closes it
/// included, and the turn after one that closes a file does not close one again.
pub proof fn files_are_drained_until_closed(a: bool, b: bool, c: bool)
    ensures
        disk_step(a, b).open || disk_step(a, b).finish ==> disk_step(a, b).drain,
        !(disk_step(a, b).open && disk_step(a, b).finish),
        disk_step(a, b).finish ==> !disk_step(b, c).finish,
        disk_step(a, b).open ==> !disk_step(b, c).open,
{
}

/// The numeral of a digit.
pub open spec fn numeral(digit: nat) -> Seq<char> {
    if digit == 0 {
        "0"@
    } else if digit == 1 {
        "1"@
    } else if digit == 2 {
        "2"@
    } else if digit == 3 {
        "3"@
    } else if digit == 4 {
        "4"@
    } else if digit == 5 {
        "5"@
    } else if digit == 6 {
        "6"@
    } else if digit == 7 {
        "7"@
    } else if digit == 8 {
        "8"@
    } else {
        "9"@
    }
}

/// A number in decimal.
pub open spec fn decimal(n: nat) -> Seq<char>
    decreases n,
{
    if n < 10 {
        numeral(n)
    } else {
        decimal(n / 10) + numeral(n % 10)
    }
}

/// The name of the file of a recording that starts at the given second.
pub open spec fn file_name(seconds: nat) -> Seq<char> {
    "recording_"@ + decimal(seconds) + ".wav"@
}

fn numeral_str(digit: u64) -> (text: &'static str)
    requires
        digit < 10,
    ensures
        text@ == numeral(digit as nat),
{
    if digit == 0 {
        "0"
    } else if digit == 1 {
        "1"
    } else if digit == 2 {
        "2"
    } else if digit == 3 {
        "3"
    } else if digit == 4 {
        "4"
    } else if digit == 5 {
        "5"
    } else if digit == 6 {
        "6"
    } else if digit == 7 {
        "7"
    } else if digit == 8 {
        "8"
    } else {
        "9"
    }
}

/// Appends a number in decimal.
fn append_decimal(text: &mut String, n: u64)
    ensures
        final(text)@ == old(text)@ + decimal(n as nat),
    decreases n,
{
    let ghost before = text@;
    if n >= 10 {
        append_decimal(text, n / 10);
    }
    text.append(numeral_str(n % 10));
    assert(text@ =~= before + decimal(n as nat));
}

/// The name of the file of a recording that starts at the given second.
pub fn recording_name(seconds: u64) -> (name: String)
    ensures
        name@ == file_name(seconds as nat),
{
    let mut name = String::from_str("recording_");
    append_decimal(&mut name, seconds);
    name.append(".wav");
    name
}

/// Numerals have one character each, and differ.
proof fn lemma_numerals(a: nat, b: nat)
    requires
        a < 10,
        b < 10,
    ensures
        numeral(a).len() == 1,
        numeral(a) == numeral(b) ==> a == b,
{
    reveal_strlit("0");
    reveal_strlit("1");
    reveal_strlit("2");
    reveal_strlit("3");
    reveal_strlit("4");
    reveal_strlit("5");
    reveal_strlit("6");
    reveal_strlit("7");
    reveal_strlit("8");
    reveal_strlit("9");
    assert(numeral(a)[0] == numeral(b)[0] ==> a == b);
}

/// Different numbers are written differently.
proof fn lemma_decimals_differ(a: nat, b: nat)
    requires
        decimal(a) == decimal(b),
    ensures
        a == b,
        decimal(a).len() > 0,
    decreases a + b,
{
    lemma_decimal_length(a);
    lemma_decimal_length(b);
    lemma_numerals(a % 10, b % 10);
    lemma_numerals(b % 10, a % 10);
    let s = decimal(a);
    let t = decimal(b);
    if a >= 10 && b >= 10 {
        assert(s.drop_last() =~= decimal(a / 10));
        assert(t.drop_last() =~= decimal(b / 10));
        assert(numeral(a % 10) =~= seq![s.last()]);
        assert(numeral(b % 10) =~= seq![t.last()]);
        lemma_decimals_differ(a / 10, b / 10);
    }
}

/// A number below ten has one digit, any other has more.
proof fn lemma_decimal_length(n: nat)
    ensures
        n < 10 ==> decimal(n).len() == 1,
        n >= 10 ==> decimal(n).len() > 1,
    decreases n,
{
    lemma_numerals(n % 10, 0);
    if n >= 10 {
        lemma_decimal_length(n / 10);
    }
}

/// Recordings that start at different seconds go to different files.
pub proof fn file_names_differ(a: nat, b: nat)
    requires
        file_name(a) == file_name(b),
    ensures
        a == b,
{
    reveal_strlit("recording_");
    reveal_strlit(".wav");
    let s = file_name(a);
    let t = file_name(b);
    assert(s.subrange(10, s.len() - 4) =~= decimal(a));
    assert(t.subrange(10, t.len() - 4) =~= decimal(b));
    lemma_decimals_differ(a, b);
}

/// Of a block with two or more channels, every pair of samples is offered once, as its
/// mean and in order, however long the block is, and nothing else is offered.
pub proof fn every_pair_is_recorded<F: Fn(u32, u32) -> u32>(
    data: Seq<u32>,
    channels: u16,
    average: F,
    mono: Seq<u32>,
    before: Seq<(u32, bool)>,
    after: Seq<(u32, bool)>,
    capacity: nat,
)
    requires
        channels >= 2,
        is_downmix(data, channels, average, mono),
        queue::were_offered(before, mono, after, capacity),
    ensures
        after.len() == before.len() + data.len() / 2,
        forall|i: int| 0 <= i < before.len() ==> #[trigger] after[i] == before[i],
        forall|i: int|
            0 <= i < data.len() / 2 ==> call_ensures(
                average,
                (data[2 * i], data[2 * i + 1]),
                (#[trigger] after[before.len() + i]).0,
            ),
{
    assert forall|i: int| 0 <= i < data.len() / 2 implies call_ensures(
        average,
        (data[2 * i], data[2 * i + 1]),
        (#[trigger] after[before.len() + i]).0,
    ) by {
        assert(after[before.len() + i].0 == mono[i]);
    }
}

/// Of a block with one channel, every sample is offered once, as it is and in order, and
/// nothing else is offered.
pub proof fn every_sample_is_recorded<F: Fn(u32, u32) -> u32>(
    data: Seq<u32>,
    channels: u16,
    average: F,
    mono: Seq<u32>,
    before: Seq<(u32, bool)>,
    after: Seq<(u32, bool)>,
    capacity: nat,
)
    requires
        channels < 2,
        is_downmix(data, channels, average, mono),
        queue::were_offered(before, mono, after, capacity),
    ensures
        after.len() == before.len() + data.len(),
        forall|i: int| 0 <= i < before.len() ==> #[trigger] after[i] == before[i],
        forall|i: int| 0 <= i < data.len() ==> (#[trigger] after[before.len() + i]).0 == data[i],
{
}

/// A file is opened where recording starts and closed where it ends, and the queue is
/// emptied into it in every turn in which there is a file.
pub proof fn files_follow_the_recording(was_recording: bool, now_recording: bool)
    ensures
        disk_step(was_recording, now_recording).open <==> now_recording && !was_recording,
        disk_step(was_recording, now_recording).finish <==> was_recording && !now_recording,
        disk_step(was_recording, now_recording).drain <==> was_recording || now_recording,
{
}

/// The number that a text of decimal digits stands for.
pub open spec fn value_of(digits: Seq<char>) -> nat
    decreases digits.len(),
{
    if digits.len() == 0 {
        0
    } else {
        (10 * value_of(digits.drop_last()) + (digits.last() as int - '0' as int)) as nat
    }
}

/// The name of a file holds the second of its recording in decimal, without leading
/// zeros, and reading it gives the second back.
pub proof fn file_names_tell_the_second(seconds: nat)
    ensures
        exists|digits: Seq<char>|
            {
                &&& file_name(seconds) == "recording_"@ + digits + ".wav"@
                &&& #[trigger] value_of(digits) == seconds
                &&& digits.len() > 0
                &&& digits.len() > 1 ==> digits[0] != '0'
                &&& forall|i: int| 0 <= i < digits.len() ==> '0' <= #[trigger] digits[i] <= '9'
            },
{
    lemma_decimal_value(seconds);
    assert(value_of(decimal(seconds)) == seconds);
}

/// What the decimal digits of a number are.
proof fn lemma_decimal_value(n: nat)
    ensures
        value_of(decimal(n)) == n,
        decimal(n).len() > 0,
        n > 0 ==> decimal(n)[0] != '0',
        decimal(n).len() > 1 ==> n > 0,
        forall|i: int| 0 <= i < decimal(n).len() ==> '0' <= #[trigger] decimal(n)[i] <= '9',
    decreases n,
{
    let digit = numeral(n % 10);
    lemma_numeral_value(n % 10);
    if n >= 10 {
        lemma_decimal_value(n / 10);
        assert(decimal(n).drop_last() =~= decimal(n / 10));
        assert(decimal(n).last() == digit[0]);
        assert(decimal(n)[0] == decimal(n / 10)[0]);
    } else {
        assert(decimal(n).drop_last() =~= Seq::empty());
        reveal_with_fuel(value_of, 2);
    }
}

/// The character of a digit.
proof fn lemma_numeral_value(digit: nat)
    requires
        digit < 10,
    ensures
        numeral(digit).len() == 1,
        numeral(digit)[0] as int == '0' as int + digit,
{
    reveal_strlit("0");
    reveal_strlit("1");
    reveal_strlit("2");
    reveal_strlit("3");
    reveal_strlit("4");
    reveal_strlit("5");
    reveal_strlit("6");
    reveal_strlit("7");
    reveal_strlit("8");
    reveal_strlit("9");
}

}
