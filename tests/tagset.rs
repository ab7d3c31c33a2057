use hanyuu::tagset::{Busy, TagSet};

#[test]
fn fresh_tagset_hands_out_lowest_tags_then_busy() {
    let mut tags = TagSet::new(1, 4, 1);
    assert_eq!(tags.queue_count(), 1);
    assert_eq!(tags.queue_depth(), 4);
    assert_eq!(tags.hw_contexts(), 1);
    for expected in 0..4u32 {
        assert_eq!(tags.acquire(0), Ok(expected));
    }
    assert_eq!(tags.acquire(0), Err(Busy));
    assert_eq!(tags.outstanding(0), 4);
}

#[test]
fn acquire_release_cycles_never_busy() {
    let depth: u32 = 4;
    let mut tags = TagSet::new(1, depth, 1);
    for _ in 0..(depth + 1) {
        let t = tags.acquire(0).expect("a tag is free");
        assert_eq!(t, 0);
        tags.release(0, t);
    }
    assert!(tags.is_idle());
}

#[test]
fn burst_of_depth_plus_one_has_exactly_one_busy() {
    let depth: u32 = 8;
    let mut tags = TagSet::new(1, depth, 1);
    let mut admitted = 0;
    let mut busy = 0;
    for _ in 0..(depth + 1) {
        match tags.acquire(0) {
            Ok(_) => admitted += 1,
            Err(Busy) => busy += 1,
        }
    }
    assert_eq!(admitted, depth);
    assert_eq!(busy, 1);
}

#[test]
fn released_tag_is_reused_first() {
    let mut tags = TagSet::new(1, 4, 1);
    assert_eq!(tags.acquire(0), Ok(0));
    assert_eq!(tags.acquire(0), Ok(1));
    assert_eq!(tags.acquire(0), Ok(2));
    tags.release(0, 1);
    assert!(!tags.is_held(0, 1));
    assert_eq!(tags.outstanding(0), 2);
    assert_eq!(tags.acquire(0), Ok(1));
    assert!(tags.is_held(0, 1));
}

#[test]
fn queues_have_independent_pools() {
    let mut tags = TagSet::new(2, 1, 1);
    assert_eq!(tags.acquire(0), Ok(0));
    assert_eq!(tags.acquire(0), Err(Busy));
    assert_eq!(tags.acquire(1), Ok(0));
    assert_eq!(tags.outstanding(1), 1);
    assert!(!tags.is_idle());
}

#[test]
fn zero_depth_is_always_busy() {
    let mut tags = TagSet::new(1, 0, 1);
    assert_eq!(tags.acquire(0), Err(Busy));
    assert!(tags.is_idle());
}
