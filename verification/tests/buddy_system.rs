use allocators::frame::buddy_system::{prev_power_of_two, FrameAlloc};

#[test]
fn powers_below() {
    assert_eq!(prev_power_of_two(1), 1);
    assert_eq!(prev_power_of_two(2), 2);
    assert_eq!(prev_power_of_two(3), 2);
    assert_eq!(prev_power_of_two(1023), 512);
    assert_eq!(prev_power_of_two(1024), 1024);
}

#[test]
fn an_empty_allocator_has_nothing() {
    let mut frames = FrameAlloc::new();
    assert_eq!(frames.allocate(1), None);
    assert!(!frames.has_room(1));
    let mut frames = FrameAlloc::default();
    assert_eq!(frames.allocate(0), None);
}

#[test]
fn blocks_are_split() {
    let mut frames = FrameAlloc::new();
    frames.insert(0..16);
    assert_eq!(frames.allocate(1), Some(0));
    assert_eq!(frames.allocate(2), Some(2));
    assert_eq!(frames.allocate(1), Some(1));
    assert_eq!(frames.allocate(3), Some(4));
    assert!(frames.has_room(8));
    assert_eq!(frames.allocate(8), Some(8));
    assert!(!frames.has_room(1));
    assert_eq!(frames.allocate(1), None);
    frames.dealloc(8, 8);
    assert_eq!(frames.allocate(8), Some(8));
}

#[test]
fn ranges_are_cut_where_blocks_can_start() {
    let mut frames = FrameAlloc::new();
    frames.add_frame(3, 10);
    assert_eq!(frames.allocate(1), Some(3));
    assert_eq!(frames.allocate(4), Some(4));
    assert_eq!(frames.allocate(2), Some(8));
    assert_eq!(frames.allocate(1), None);
}

#[test]
fn a_range_from_frame_zero_starts_with_a_small_block() {
    let mut frames = FrameAlloc::new();
    frames.add_frame(0, 64);
    assert_eq!(frames.allocate(64), None);
    assert_eq!(frames.allocate(32), Some(0));
    assert_eq!(frames.allocate(32), Some(32));
}

#[test]
fn buddies_are_joined() {
    let mut frames = FrameAlloc::new();
    frames.add_frame(0, 2);
    assert_eq!(frames.allocate(1), Some(0));
    assert_eq!(frames.allocate(2), None);
    frames.dealloc(0, 1);
    assert_eq!(frames.allocate(2), Some(0));
}

#[test]
fn joined_frames_are_handed_out_once() {
    let mut frames = FrameAlloc::new();
    frames.add_frame(0, 2);
    assert_eq!(frames.allocate(1), Some(0));
    frames.dealloc(0, 1);
    assert_eq!(frames.allocate(1), Some(0));
    assert_eq!(frames.allocate(2), None);
    assert_eq!(frames.allocate(1), Some(1));
    assert_eq!(frames.allocate(1), None);
}

#[test]
fn runs_start_at_multiples_of_their_length() {
    let mut frames = FrameAlloc::new();
    frames.add_frame(5, 101);
    let mut live: Vec<(usize, usize)> = Vec::new();
    for round in 0..300usize {
        let count = round % 7 + 1;
        match frames.allocate(count) {
            Some(start) => {
                let size = count.next_power_of_two();
                assert_eq!(start % size, 0);
                assert!(5 <= start && start + size <= 101);
                for (other, n) in &live {
                    let end = other + n.next_power_of_two();
                    assert!(start + size <= *other || end <= start);
                }
                live.push((start, count));
            }
            None => {
                let (start, count) = live.swap_remove(round % live.len());
                frames.dealloc(start, count);
            }
        }
    }
    for (start, count) in live {
        frames.dealloc(start, count);
    }
    assert!(format!("{:?}", frames).contains("allocated: 0"));
    assert_eq!(frames.allocate(32), Some(32));
    assert_eq!(frames.allocate(32), Some(64));
}

#[test]
fn the_upper_buddy_is_joined_to_the_lower() {
    let mut frames = FrameAlloc::new();
    frames.add_frame(4, 8);
    assert_eq!(frames.allocate(2), Some(4));
    assert_eq!(frames.allocate(2), Some(6));
    frames.dealloc(4, 2);
    assert_eq!(frames.allocate(4), None);
    frames.dealloc(6, 2);
    assert_eq!(frames.allocate(4), Some(4));
}

#[test]
fn sizes_beyond_all_classes_are_refused() {
    let mut frames = FrameAlloc::new();
    frames.add_frame(0, 16);
    assert_eq!(frames.allocate(1 << 32), None);
    assert!(!frames.has_room(1 << 40));
    assert_eq!(frames.allocate(17), None);
    assert_eq!(frames.allocate(0), Some(0));
}

#[test]
fn statistics_are_kept() {
    let mut frames = FrameAlloc::new();
    frames.add_frame(0, 7);
    let shown = format!("{:?}", frames);
    assert!(shown.contains("allocated: 0"));
    assert!(shown.contains("total: 7"));
    assert_eq!(frames.allocate(3), Some(0));
    assert!(format!("{:?}", frames).contains("allocated: 4"));
    frames.dealloc(0, 3);
    assert!(format!("{:?}", frames).contains("allocated: 0"));
}

#[test]
fn every_added_frame_comes_out_once() {
    for (start, end) in [(0, 1), (0, 33), (3, 70), (64, 64), (5, 8)] {
        let mut frames = FrameAlloc::new();
        frames.add_frame(start, end);
        let mut out: Vec<usize> = (start..end).map(|_| frames.allocate(1).unwrap()).collect();
        assert_eq!(frames.allocate(1), None);
        out.sort();
        assert_eq!(out, (start..end).collect::<Vec<usize>>());
    }
}
