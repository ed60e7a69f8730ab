use slot_generator::{PoolExhausted, SlotGenerator};
use std::ops::Range;

fn assert_well_formed(ranges: &[Range<u16>]) {
    for r in ranges {
        assert!(r.start < r.end);
    }
    for pair in ranges.windows(2) {
        assert!(pair[0].end < pair[1].start);
    }
}

fn free_count(ranges: &[Range<u16>]) -> usize {
    ranges.iter().map(|r| (r.end - r.start) as usize).sum()
}

// A small deterministic generator of pseudo-random numbers.
fn next(state: &mut u32) -> u32 {
    *state = state.wrapping_mul(1_103_515_245).wrapping_add(12_345);
    (*state >> 16) & 0x7fff
}

#[test]
fn invariant_holds_through_interleaved_calls() {
    let mut slots = SlotGenerator::new(100u16..164);
    let mut held: Vec<u16> = Vec::new();
    let mut state = 7u32;
    for _ in 0..2000 {
        if next(&mut state) % 2 == 0 {
            if let Ok(id) = slots.get_slot() {
                assert!(!held.contains(&id));
                held.push(id);
            } else {
                assert_eq!(64, held.len());
            }
        } else if !held.is_empty() {
            let at = next(&mut state) as usize % held.len();
            let id = held.swap_remove(at);
            assert_eq!(Ok(()), slots.replace_slot(id));
        }
        assert_well_formed(&slots.ranges());
    }
}

#[test]
fn held_and_free_add_up_to_the_domain() {
    let mut slots = SlotGenerator::new(100u16..164);
    let mut held: Vec<u16> = Vec::new();
    let mut state = 99u32;
    assert_eq!(64, free_count(&slots.ranges()));
    for _ in 0..2000 {
        if next(&mut state) % 3 != 0 {
            if let Ok(id) = slots.get_slot() {
                held.push(id);
            }
        } else if !held.is_empty() {
            let at = next(&mut state) as usize % held.len();
            let id = held.swap_remove(at);
            assert_eq!(Ok(()), slots.replace_slot(id));
        }
        let ranges = slots.ranges();
        assert_eq!(64, held.len() + free_count(&ranges));
        for id in &held {
            assert!((100..164).contains(id));
            assert!(ranges.iter().all(|r| !r.contains(id)));
        }
    }
}

#[test]
fn consecutive_acquires_differ() {
    let mut slots = SlotGenerator::new(0u16..8);
    assert_eq!(Ok(()), slots.replace_slot(20));
    let mut previous = slots.get_slot().unwrap();
    while let Ok(id) = slots.get_slot() {
        assert_ne!(previous, id);
        previous = id;
    }
}

#[test]
fn round_trip_restores_the_range() {
    let orders: [[u16; 5]; 6] = [
        [10, 11, 12, 13, 14],
        [14, 13, 12, 11, 10],
        [12, 10, 14, 11, 13],
        [11, 13, 10, 14, 12],
        [10, 14, 12, 13, 11],
        [13, 11, 14, 10, 12],
    ];
    for order in orders {
        let mut slots = SlotGenerator::new(10u16..1000);
        for expected in 10..15u16 {
            assert_eq!(Ok(expected), slots.get_slot());
        }
        assert_eq!(vec![15..1000], slots.ranges());
        for id in order {
            assert_eq!(Ok(()), slots.replace_slot(id));
        }
        assert_eq!(vec![10..1000], slots.ranges());
    }
}

#[test]
fn round_trip_restores_a_split_free_list() {
    let mut slots = SlotGenerator::new(0u16..6);
    while slots.get_slot().is_ok() {}
    for id in [1u16, 3, 4] {
        assert_eq!(Ok(()), slots.replace_slot(id));
    }
    assert_eq!(vec![1..2, 3..5], slots.ranges());
    assert_eq!(Ok(3), slots.get_slot());
    assert_eq!(Ok(4), slots.get_slot());
    assert_eq!(Ok(1), slots.get_slot());
    for id in [4u16, 1, 3] {
        assert_eq!(Ok(()), slots.replace_slot(id));
    }
    assert_eq!(vec![1..2, 3..5], slots.ranges());
}

#[test]
fn domain_of_n_serves_n_acquires() {
    let mut slots = SlotGenerator::new(40u16..47);
    for expected in 40..47u16 {
        assert_eq!(Ok(expected), slots.get_slot());
    }
    assert_eq!(Err(PoolExhausted), slots.get_slot());
    assert_eq!(Err(PoolExhausted), slots.get_slot());
    assert!(slots.ranges().is_empty());
}

#[test]
fn whole_of_u8_but_the_greatest() {
    let mut slots = SlotGenerator::new(u8::MIN..u8::MAX);
    for expected in 0..255u8 {
        assert_eq!(Ok(expected), slots.get_slot());
    }
    assert_eq!(Err(PoolExhausted), slots.get_slot());
    for id in (0..255u8).rev() {
        assert_eq!(Ok(()), slots.replace_slot(id));
    }
    assert_eq!(vec![0..255u8], slots.ranges());
}
