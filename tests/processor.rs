use firewheel_graph::processor::{callback_end, callback_start, next_block, FirewheelProcessorStatus};
use firewheel_graph::silence::{record_silence, silence_mask_of};

#[test]
fn block_splitting() {
    let (frames, max, num_in, num_out) = (200usize, 64usize, 2usize, 3usize);
    let mut done = 0usize;
    let mut sizes = Vec::new();
    while let Some(b) = next_block(done, frames, max, num_in, num_out) {
        assert_eq!(b.start_frame, done);
        assert_eq!(b.in_start, done * num_in);
        assert_eq!(b.in_end, (done + b.frames) * num_in);
        assert_eq!(b.out_start, done * num_out);
        assert_eq!(b.out_end, (done + b.frames) * num_out);
        sizes.push(b.frames);
        done += b.frames;
    }
    assert_eq!(sizes, vec![64, 64, 64, 8]);
    assert_eq!(done, 200);
}

#[test]
fn block_exact_multiple() {
    let b = next_block(64, 128, 64, 1, 1).unwrap();
    assert_eq!(b.frames, 64);
    assert_eq!(b.in_start, 64);
    assert_eq!(b.out_end, 128);
    assert!(next_block(128, 128, 64, 1, 1).is_none());
}

#[test]
fn callback_decisions() {
    assert_eq!(callback_start(false, true, 10), Some(FirewheelProcessorStatus::DropProcessor));
    assert_eq!(callback_start(true, false, 10), Some(FirewheelProcessorStatus::Continue));
    assert_eq!(callback_start(true, true, 0), Some(FirewheelProcessorStatus::Continue));
    assert_eq!(callback_start(true, true, 10), None);
    assert_eq!(callback_end(true), FirewheelProcessorStatus::Continue);
    assert_eq!(callback_end(false), FirewheelProcessorStatus::DropProcessor);
}

#[test]
fn silence_masks_follow_buffers() {
    let mut silent = vec![false, true, false, true];
    let inputs = vec![1usize, 2, 3, 0];
    assert_eq!(silence_mask_of(&silent, &inputs), 0b0101);
    assert_eq!(silence_mask_of(&silent, &Vec::new()), 0);
    // A node that left its outputs untouched reports them silent.
    let outputs = vec![2usize, 0];
    record_silence(&mut silent, &outputs, 0b11);
    assert_eq!(silent, vec![true, true, true, true]);
    record_silence(&mut silent, &outputs, 0b10);
    assert_eq!(silent, vec![true, true, false, true]);
    assert_eq!(silence_mask_of(&silent, &vec![2usize, 0, 2]), 0b010);
}

#[test]
fn silence_mask_tracks_first_sixty_four_channels() {
    let silent = vec![true];
    let inputs = vec![0usize; 70];
    assert_eq!(silence_mask_of(&silent, &inputs), u64::MAX);
}
