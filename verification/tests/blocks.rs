use audiosilence::queue::{queue, Receiver};
use audiosilence::recording::{capture, recording_name, Recorder};
use audiosilence::stereo::{deinterleave, interleave};

fn average(a: u32, b: u32) -> u32 {
    ((f32::from_bits(a) + f32::from_bits(b)) * 0.5).to_bits()
}

fn drain(rx: &mut Receiver<u32>) -> Vec<f32> {
    let mut out = Vec::new();
    while let Some(s) = rx.receive() {
        out.push(f32::from_bits(s));
    }
    out
}

fn bits(samples: &[f32]) -> Vec<u32> {
    samples.iter().map(|s| s.to_bits()).collect()
}

#[test]
fn sides_are_taken_apart() {
    let mut left = [0u32; 4];
    let mut right = [9u32; 3];
    deinterleave(&[1, 2, 3, 4, 5], &mut left, &mut right);
    assert_eq!(left, [1, 3, 0, 0]);
    assert_eq!(right, [2, 4, 9]);
}

#[test]
fn sides_are_put_together() {
    let mut data = [0u32, 0, 0, 0, 7];
    interleave(&[1, 3, 50], &[2, 4], &mut data);
    assert_eq!(data, [1, 2, 3, 4, 7]);
}

#[test]
fn a_block_survives_the_round_trip() {
    let block: Vec<u32> = (100..131).collect();
    let (mut left, mut right) = (vec![0u32; 20], vec![0u32; 20]);
    deinterleave(&block, &mut left, &mut right);
    let mut data = block.clone();
    for s in data.iter_mut().take(30) {
        *s = 0;
    }
    interleave(&left, &right, &mut data);
    assert_eq!(data, block);
}

#[test]
fn stereo_input_is_averaged() {
    let (mut tx, mut rx) = queue::<u32>(16);
    let data = bits(&[1.0, 0.0, 0.5, 0.25, -1.0, 1.0, 0.75]);
    capture(&mut tx, true, 2, &data, &average);
    assert_eq!(drain(&mut rx), vec![0.5, 0.375, 0.0]);
    capture(&mut tx, true, 6, &bits(&[1.0, 0.5]), &average);
    assert_eq!(drain(&mut rx), vec![0.75]);
}

#[test]
fn mono_input_is_kept_as_it_is() {
    let (mut tx, mut rx) = queue::<u32>(16);
    capture(&mut tx, true, 1, &bits(&[1.0, 0.0, 0.5]), &average);
    assert_eq!(drain(&mut rx), vec![1.0, 0.0, 0.5]);
    capture(&mut tx, true, 0, &bits(&[0.25]), &average);
    assert_eq!(drain(&mut rx), vec![0.25]);
}

#[test]
fn nothing_is_captured_while_not_recording() {
    let (mut tx, mut rx) = queue::<u32>(16);
    capture(&mut tx, false, 1, &bits(&[1.0, 0.0, 0.5]), &average);
    capture(&mut tx, false, 2, &bits(&[1.0, 0.0, 0.5]), &average);
    assert_eq!(drain(&mut rx), Vec::<f32>::new());
}

#[test]
fn input_that_finds_the_queue_full_is_lost() {
    let (mut tx, mut rx) = queue::<u32>(2);
    capture(&mut tx, true, 1, &bits(&[1.0, 2.0, 3.0, 4.0]), &average);
    assert_eq!(drain(&mut rx), vec![1.0, 2.0]);
    capture(&mut tx, true, 1, &bits(&[5.0]), &average);
    assert_eq!(drain(&mut rx), vec![5.0]);
}

#[test]
fn a_file_is_open_while_recording() {
    let mut recorder = Recorder::new();
    let steps = [
        (false, (false, false, false)),
        (true, (true, true, false)),
        (true, (false, true, false)),
        (false, (false, true, true)),
        (false, (false, false, false)),
        (true, (true, true, false)),
        (false, (false, true, true)),
        (true, (true, true, false)),
    ];
    for (now, (open, drain, finish)) in steps {
        let step = recorder.step(now);
        assert_eq!((step.open, step.drain, step.finish), (open, drain, finish));
    }
    assert!(recorder.stop());
    assert!(!Recorder::new().stop());
}

#[test]
fn recordings_are_named_by_the_second() {
    assert_eq!(recording_name(0), "recording_0.wav");
    assert_eq!(recording_name(7), "recording_7.wav");
    assert_eq!(recording_name(10), "recording_10.wav");
    assert_eq!(recording_name(1700000000), "recording_1700000000.wav");
    for n in [9u64, 99, 100, 1234567890, u64::MAX, u64::MAX - 5] {
        assert_eq!(recording_name(n), format!("recording_{}.wav", n));
    }
}
