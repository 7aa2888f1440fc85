use group_aggregator::arena::{Arena, StateAddr};
use group_aggregator::layout::{get_layout_offsets, is_power_of_two, StateLayout};

#[test]
fn states_are_packed_at_their_alignment() {
    let layouts = vec![StateLayout::new(8, 8), StateLayout::new(1, 1), StateLayout::new(4, 4)];
    let (block, offsets) = get_layout_offsets(&layouts).unwrap();
    assert_eq!(offsets, vec![0, 8, 12]);
    assert_eq!(block, StateLayout { size: 16, align: 8 });
}

#[test]
fn a_small_state_before_a_large_one_leaves_a_gap() {
    let layouts = vec![StateLayout::new(1, 1), StateLayout::new(8, 8), StateLayout::new(2, 2)];
    let (block, offsets) = get_layout_offsets(&layouts).unwrap();
    assert_eq!(offsets, vec![0, 8, 16]);
    assert_eq!(block, StateLayout { size: 18, align: 8 });
}

#[test]
fn no_states_pack_into_an_empty_block() {
    let (block, offsets) = get_layout_offsets(&vec![]).unwrap();
    assert_eq!(offsets, Vec::<usize>::new());
    assert_eq!(block, StateLayout { size: 0, align: 1 });
}

#[test]
fn packed_states_are_aligned_and_apart() {
    let layouts = vec![
        StateLayout::new(3, 1),
        StateLayout::new(16, 16),
        StateLayout::new(0, 4),
        StateLayout::new(5, 2),
        StateLayout::new(8, 8),
    ];
    let (block, offsets) = get_layout_offsets(&layouts).unwrap();
    assert_eq!(block.align, 16);
    for i in 0..layouts.len() {
        assert_eq!(offsets[i] % layouts[i].align, 0);
        assert!(offsets[i] + layouts[i].size <= block.size);
        for j in i + 1..layouts.len() {
            assert!(offsets[i] + layouts[i].size <= offsets[j]);
        }
    }
}

#[test]
fn an_alignment_that_is_no_power_of_two_is_refused() {
    assert!(get_layout_offsets(&vec![StateLayout::new(8, 8), StateLayout::new(4, 3)]).is_none());
    assert!(get_layout_offsets(&vec![StateLayout::new(4, 0)]).is_none());
    assert!(!StateLayout::new(4, 12).is_valid());
    assert!(StateLayout::new(4, 4).is_valid());
}

#[test]
fn a_block_beyond_the_address_space_is_refused() {
    let layouts = vec![StateLayout::new(usize::MAX, 1), StateLayout::new(1, 1)];
    assert!(get_layout_offsets(&layouts).is_none());
    let layouts = vec![StateLayout::new(usize::MAX - 2, 1), StateLayout::new(1, 8)];
    assert!(get_layout_offsets(&layouts).is_none());
    let layouts = vec![StateLayout::new(usize::MAX, 1)];
    assert_eq!(get_layout_offsets(&layouts).unwrap().0.size, usize::MAX);
}

#[test]
fn powers_of_two() {
    for n in [1usize, 2, 4, 8, 1024, 1 << 40] {
        assert!(is_power_of_two(n));
    }
    for n in [0usize, 3, 6, 12, 1023, usize::MAX] {
        assert!(!is_power_of_two(n));
    }
}

#[test]
fn handles_step_by_offsets() {
    let place = StateAddr::new(40);
    assert_eq!(place.addr(), 40);
    assert_eq!(place.next(12).addr(), 52);
    assert_eq!(StateAddr::null().addr(), 0);
}

#[test]
fn blocks_are_aligned_zeroed_and_never_at_zero() {
    let mut arena = Arena::new();
    assert_eq!(arena.len(), 0);
    let first = arena.alloc_layout(StateLayout::new(3, 1));
    assert_eq!(first.addr(), 1);
    assert_eq!(arena.len(), 4);
    let second = arena.alloc_layout(StateLayout::new(8, 8));
    assert_eq!(second.addr(), 8);
    assert_eq!(arena.len(), 16);
    let third = arena.alloc_layout(StateLayout::new(0, 4));
    assert_eq!(third.addr(), 16);
    assert_eq!(arena.len(), 16);
    assert_eq!(arena.read(first, 3), vec![0, 0, 0]);
    assert_eq!(arena.read(second, 8), vec![0; 8]);
}

#[test]
fn the_first_block_of_a_wide_alignment_starts_at_the_alignment() {
    let mut arena = Arena::new();
    let place = arena.alloc_layout(StateLayout::new(16, 16));
    assert_eq!(place.addr(), 16);
    assert_eq!(arena.len(), 32);
}

#[test]
fn a_block_keeps_its_content_while_the_arena_grows() {
    let mut arena = Arena::new();
    let first = arena.alloc_layout(StateLayout::new(4, 4));
    arena.write(first, &vec![1, 2, 3, 4]);
    let mut places = Vec::new();
    for i in 0..2000u64 {
        let place = arena.alloc_layout(StateLayout::new(8, 8));
        arena.write_u64(place, i * 7);
        places.push(place);
    }
    assert_eq!(arena.read(first, 4), vec![1, 2, 3, 4]);
    for (i, place) in places.iter().enumerate() {
        assert_eq!(arena.read_u64(*place), i as u64 * 7);
    }
}

#[test]
fn writing_changes_the_written_bytes_only() {
    let mut arena = Arena::new();
    let place = arena.alloc_layout(StateLayout::new(6, 2));
    arena.write(place, &vec![9, 9, 9, 9, 9, 9]);
    arena.write(place.next(2), &vec![1, 2]);
    assert_eq!(arena.read(place, 6), vec![9, 9, 1, 2, 9, 9]);
}

#[test]
fn numbers_are_stored_lowest_byte_first() {
    let mut arena = Arena::new();
    let place = arena.alloc_layout(StateLayout::new(8, 8));
    arena.write_u64(place, 0x0102_0304_0506_0708);
    assert_eq!(arena.read(place, 8), vec![8, 7, 6, 5, 4, 3, 2, 1]);
    assert_eq!(arena.read_u64(place), 0x0102_0304_0506_0708);
}
