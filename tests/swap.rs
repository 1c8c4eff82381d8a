use firewheel_graph::ids::NodeID;
use firewheel_graph::swap::{apply_schedule_swap, running_after, ControlMessageKind, SwapError};

fn id(idx: usize, generation: u64) -> NodeID {
    NodeID { idx, generation }
}

#[test]
fn schedule_swap_hands_back_removed_node() {
    let a = id(0, 0);
    let n = id(1, 0);
    let mut installed = vec![Some(a), Some(n)];
    let mut evict = Vec::new();
    let r = apply_schedule_swap(&mut installed, &mut evict, true, 64, 64, &vec![n], &vec![]);
    assert_eq!(r, Ok(()));
    assert_eq!(evict, vec![n]);
    assert_eq!(installed, vec![Some(a), None]);
}

#[test]
fn stale_handle_does_not_evict_newer_node() {
    let newer = id(1, 1);
    let mut installed = vec![Some(id(0, 0)), Some(newer)];
    let mut evict = Vec::new();
    let r = apply_schedule_swap(&mut installed, &mut evict, true, 64, 64, &vec![id(1, 0)], &vec![]);
    assert_eq!(r, Ok(()));
    assert!(evict.is_empty());
    assert_eq!(installed[1], Some(newer));
}

#[test]
fn evicted_slot_takes_new_node() {
    let n = id(1, 0);
    let x = id(1, 1);
    let mut installed = vec![Some(id(0, 0)), Some(n)];
    let mut evict = Vec::new();
    let r = apply_schedule_swap(&mut installed, &mut evict, true, 64, 64, &vec![n, n], &vec![x]);
    assert_eq!(r, Ok(()));
    assert_eq!(evict, vec![n]);
    assert_eq!(installed, vec![Some(id(0, 0)), Some(x)]);
}

#[test]
fn new_node_grows_the_slots() {
    let mut installed = Vec::new();
    let mut evict = Vec::new();
    let x = id(3, 0);
    let r = apply_schedule_swap(&mut installed, &mut evict, false, 32, 32, &vec![], &vec![x]);
    assert_eq!(r, Ok(()));
    assert_eq!(installed, vec![None, None, None, Some(x)]);
}

#[test]
fn removals_need_an_old_schedule() {
    let n = id(0, 0);
    let mut installed = vec![Some(n)];
    let mut evict = Vec::new();
    let r = apply_schedule_swap(&mut installed, &mut evict, false, 64, 64, &vec![n], &vec![]);
    assert_eq!(r, Ok(()));
    assert!(evict.is_empty());
    assert_eq!(installed, vec![Some(n)]);
}

#[test]
fn occupied_slot_is_refused() {
    let a = id(0, 0);
    let mut installed = vec![Some(a)];
    let mut evict = Vec::new();
    let r = apply_schedule_swap(&mut installed, &mut evict, true, 64, 64, &vec![], &vec![id(0, 1)]);
    assert_eq!(r, Err(SwapError::SlotOccupied(id(0, 1))));
    let mut installed = Vec::new();
    let r = apply_schedule_swap(&mut installed, &mut evict, true, 64, 64, &vec![], &vec![id(2, 0), id(2, 1)]);
    assert_eq!(r, Err(SwapError::SlotOccupied(id(2, 1))));
}

#[test]
fn block_size_mismatch_is_refused() {
    let mut installed = vec![Some(id(0, 0))];
    let mut evict = Vec::new();
    let r = apply_schedule_swap(&mut installed, &mut evict, true, 128, 64, &vec![id(0, 0)], &vec![]);
    assert_eq!(r, Err(SwapError::BlockSizeMismatch));
    assert_eq!(installed, vec![Some(id(0, 0))]);
    assert!(evict.is_empty());
}

#[test]
fn stop_ends_running() {
    assert!(!running_after(true, ControlMessageKind::Stop));
    assert!(running_after(true, ControlMessageKind::NewSchedule));
    let after_stop = running_after(true, ControlMessageKind::Stop);
    assert!(!running_after(after_stop, ControlMessageKind::NewSchedule));
}
