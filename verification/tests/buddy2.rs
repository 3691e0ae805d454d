use allocators::frame::buddy2::{left_child, parent, right_child, FrameAlloc};

#[test]
fn test_new() {
    let mut buf = [0i8; 64];

    {
        let buddy = FrameAlloc::new(&mut buf);
        assert_eq!(buddy.frames(), 32);
        assert_eq!(buddy.allocated_frames(), 0);
        assert_eq!(buddy.available_frames(), 32);
        assert_eq!(buddy.in_used_frames(), 0);
    }

    assert_eq!(FrameAlloc::new(&mut buf[..63]).frames(), 32);

    assert_eq!(FrameAlloc::new(&mut buf[..33]).frames(), 16);
}

#[test]
fn test_alloc_free() {
    let mut buf = [0i8; 64];
    let mut buddy = FrameAlloc::new(&mut buf);

    assert_eq!(buddy.frames(), 32);

    assert_eq!(buddy.allocate(5), Some(0));
    assert_eq!(buddy.allocated_frames(), 8);
    assert_eq!(buddy.in_used_frames(), 5);
    assert_eq!(buddy.available_frames(), 24);

    assert_eq!(buddy.allocate(1), Some(8));

    buddy.free(0, 5);
    buddy.free(8, 1);

    assert_eq!(buddy.allocated_frames(), 0);
    assert_eq!(buddy.in_used_frames(), 0);
    assert_eq!(buddy.allocated_frames(), 0);

    assert!(buddy.allocate(15).is_some());
    assert!(buddy.allocate(15).is_some());

    assert_eq!(buddy.allocated_frames(), 32);

    assert_eq!(buddy.allocate(1), None);
    assert_eq!(buddy.allocate(1), None);
}

#[test]
fn test_alloc_at() {
    let mut buf = [0i8; 64];
    let mut buddy = FrameAlloc::new(&mut buf);

    assert_eq!(buddy.frames(), 32);

    buddy.alloc_at(8, 8);

    let offsets = core::iter::repeat_with(|| buddy.allocate(8))
        .take_while(Option::is_some)
        .flatten()
        .collect::<Vec<_>>();

    assert_eq!(offsets.len(), 3);
    assert!(!offsets.contains(&8));
}

#[test]
fn nodes_know_their_neighbours() {
    assert_eq!(left_child(0), 1);
    assert_eq!(right_child(0), 2);
    assert_eq!(left_child(5), 11);
    assert_eq!(right_child(5), 12);
    assert_eq!(parent(11), 5);
    assert_eq!(parent(12), 5);
    assert_eq!(parent(1), 0);
}

#[test]
fn shows_free_and_taken_frames() {
    let mut buf = [0i8; 15];
    let mut buddy = FrameAlloc::new(&mut buf);
    assert_eq!(buddy.frames(), 8);
    assert_eq!(buddy.to_string().len(), 10);
    let all_free = buddy.to_string();
    assert_eq!(buddy.allocate(2), Some(0));
    assert_eq!(buddy.allocate(4), Some(4));
    let shown: Vec<char> = buddy.to_string().chars().collect();
    let free: Vec<char> = all_free.chars().collect();
    assert_eq!(shown[0], '[');
    assert_eq!(shown[9], ']');
    for f in 0..8 {
        assert_eq!(shown[f + 1] == free[f + 1], f == 2 || f == 3);
        assert_eq!(free[f + 1], '_');
    }
}

#[test]
fn freeing_restores_what_can_be_allocated() {
    let mut buf = [0i8; 31];
    let mut buddy = FrameAlloc::new(&mut buf);
    let before = buddy.to_string();
    assert_eq!(buddy.allocate(3), Some(0));
    assert_eq!(buddy.allocate(4), Some(4));
    assert_eq!(buddy.allocate(8), Some(8));
    assert_eq!(buddy.allocate(1), None);
    buddy.free(4, 4);
    assert_eq!(buddy.allocate(4), Some(4));
    buddy.free(4, 4);
    buddy.free(0, 3);
    buddy.free(8, 8);
    assert_eq!(buddy.to_string(), before);
    assert_eq!(buddy.allocate(16), Some(0));
}

#[test]
fn more_frames_than_there_are_cannot_be_allocated() {
    let mut buf = [0i8; 7];
    let mut buddy = FrameAlloc::new(&mut buf);
    assert_eq!(buddy.frames(), 4);
    assert_eq!(buddy.allocate(5), None);
    assert_eq!(buddy.allocated_frames(), 0);
    assert_eq!(buddy.in_used_frames(), 0);
    assert_eq!(buddy.allocate(4), Some(0));
}

#[test]
fn every_frame_is_counted() {
    let mut buf = [0i8; 31];
    let mut buddy = FrameAlloc::new(&mut buf);
    let mut live = Vec::new();
    for count in [3, 1, 2, 5] {
        live.push((buddy.allocate(count).unwrap(), count));
        let free = buddy.to_string().matches('_').count();
        assert_eq!(buddy.available_frames(), free);
        assert_eq!(buddy.allocated_frames() + free, 16);
        assert!(buddy.in_used_frames() <= buddy.allocated_frames());
    }
    assert_eq!(buddy.allocated_frames(), 15);
    assert_eq!(buddy.in_used_frames(), 11);
    for (offset, count) in live {
        buddy.free(offset, count);
        assert_eq!(buddy.available_frames(), buddy.to_string().matches('_').count());
        assert!(buddy.in_used_frames() <= buddy.allocated_frames());
    }
    assert_eq!(buddy.available_frames(), 16);
}

#[test]
fn what_lies_behind_the_nodes_is_kept() {
    let mut buf = [7i8; 20];
    {
        let buddy = FrameAlloc::new(&mut buf);
        assert_eq!(buddy.frames(), 10);
    }
    assert_eq!(buf[19], 7);
    let mut buf = [7i8; 9];
    {
        let mut buddy = FrameAlloc::new(&mut buf);
        assert_eq!(buddy.frames(), 4);
        assert_eq!(buddy.allocate(3), Some(0));
        buddy.free(0, 3);
    }
    assert_eq!(buf[..7], [2, 1, 1, 0, 0, 0, 0]);
    assert_eq!(buf[7..], [7, 7]);
}
