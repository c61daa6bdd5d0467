use stannum::observe::{Area, IoStack};
use stannum::progress::{
    ambuildphasename, Progress, Slot, SUBPHASE_HEAP_SCAN, SUBPHASE_MERGE_FINISH,
    SUBPHASE_SEGMENT_FLUSH,
};

#[test]
fn frames_count_only_while_pushed_and_only_two_areas() {
    let mut stack = IoStack::new();
    stack.add_pages(Area::Dictionary, 3);
    assert_eq!(stack.top_pages(), None);
    let guard = stack.push_io();
    stack.add_pages(Area::Dictionary, 2);
    stack.add_pages(Area::Postings, 5);
    stack.add_pages(Area::Payload, 100);
    stack.add_pages(Area::Other, 100);
    assert_eq!(stack.top_pages(), Some((2, 5)));
    stack.add_pages(Area::Dictionary, 2);
    assert_eq!(stack.top_pages(), Some((4, 5)));
    stack.release(guard);
    assert_eq!(stack.top_pages(), None);
}

#[test]
fn frames_remove_by_identity_when_siblings_end_in_order() {
    let mut stack = IoStack::new();
    let first = stack.push_io();
    stack.add_pages(Area::Dictionary, 1);
    let second = stack.push_io();
    stack.add_pages(Area::Dictionary, 10);
    assert_eq!(stack.top_pages(), Some((10, 0)));
    stack.release(first);
    assert_eq!(stack.top_pages(), Some((10, 0)));
    stack.release(second);
    assert_eq!(stack.top_pages(), None);
}

#[test]
fn updates_are_inert_outside_a_build() {
    let mut progress = Progress::new();
    assert_eq!(progress.update_subphase(SUBPHASE_HEAP_SCAN), None);
    assert_eq!(progress.set_blocks_total(3), None);
    assert_eq!(progress.set_blocks_done(1), None);
    assert!(!progress.in_build);
    progress.enter_build();
    assert!(progress.in_build);
    assert_eq!(
        progress.update_subphase(SUBPHASE_SEGMENT_FLUSH),
        Some((Slot::Subphase, 2))
    );
    assert_eq!(progress.set_blocks_total(4), Some((Slot::BlocksTotal, 4)));
    assert_eq!(progress.set_blocks_done(3), Some((Slot::BlocksDone, 3)));
    progress.leave_build();
    assert!(!progress.in_build);
}

#[test]
fn subphases_have_names() {
    assert_eq!(ambuildphasename(SUBPHASE_HEAP_SCAN), Some("heap scan"));
    assert_eq!(ambuildphasename(SUBPHASE_SEGMENT_FLUSH), Some("segment flush"));
    assert_eq!(ambuildphasename(SUBPHASE_MERGE_FINISH), Some("final merge-finish"));
    assert_eq!(ambuildphasename(0), None);
    assert_eq!(ambuildphasename(4), None);
}

#[test]
fn a_full_counter_leaves_the_others_counting() {
    let mut stack = IoStack::new();
    let guard = stack.push_io();
    stack.add_pages(Area::Dictionary, u64::MAX);
    stack.add_pages(Area::Postings, 2);
    stack.add_pages(Area::Payload, u64::MAX);
    stack.add_pages(Area::Other, 1);
    assert_eq!(stack.top_pages(), Some((u64::MAX, 2)));
    stack.release(guard);
}

#[test]
fn updates_in_a_build_write_one_slot_each() {
    let mut progress = Progress::new();
    let mut slots = [0_i64; 3];
    let place = |slot: Slot| match slot {
        Slot::Subphase => 0,
        Slot::BlocksTotal => 1,
        Slot::BlocksDone => 2,
    };
    for (building, expected) in [(false, [0, 0, 0]), (true, [1, 9, 4])] {
        if building {
            progress.enter_build();
        }
        for update in [
            progress.update_subphase(SUBPHASE_HEAP_SCAN),
            progress.set_blocks_total(9),
            progress.set_blocks_done(4),
        ] {
            if let Some((slot, value)) = update {
                slots[place(slot)] = value;
            }
        }
        assert_eq!(slots, expected);
    }
    assert_eq!(progress.update(Slot::BlocksDone, 5), Some((Slot::BlocksDone, 5)));
    progress.leave_build();
    assert_eq!(progress.update(Slot::BlocksDone, 5), None);
    assert_eq!(progress.set_blocks_done(5), None);
}
