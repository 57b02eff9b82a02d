use red_black_knights::spiral::{isqrt_u32, isqrt_u64};
use red_black_knights::spiral::{
    index_to_ring_offset, index_to_xy, ring_offset_to_index, spiral_step, xy_to_index,
    xy_to_ring_offset, RingOffset,
};

#[test]
fn round_trip_near_origin() {
    for index in 0..20_000 {
        let (x, y) = index_to_xy(index);
        assert_eq!(xy_to_index(x, y), index, "index {index} -> ({x},{y})");
    }
}

#[test]
fn step_matches_index_sequence() {
    let mut xy = (0, 0);
    for index in 1..20_000 {
        xy = spiral_step(xy);
        assert_eq!(xy, index_to_xy(index));
    }
}

#[test]
fn ring_offset_round_trip() {
    for index in 0..50_000 {
        let ro = index_to_ring_offset(index);
        assert_eq!(ring_offset_to_index(ro), index, "index {index}");
        let (x, y) = index_to_xy(index);
        assert_eq!(xy_to_ring_offset(x, y), ro, "index {index} ({x},{y})");
        assert_eq!(xy_to_index(x, y), ring_offset_to_index(xy_to_ring_offset(x, y)));
    }
}

#[test]
fn oesis_diagram_1_based_mapping() {
    assert_eq!(index_to_xy(0), (0, 0));
    assert_eq!(index_to_xy(1), (1, 0));
    assert_eq!(index_to_xy(2), (1, 1));
    assert_eq!(index_to_xy(3), (0, 1));
    assert_eq!(index_to_xy(4), (-1, 1));
    assert_eq!(index_to_xy(5), (-1, 0));
}

#[test]
fn spiral_extremes_of_u32_domain() {
    let last = index_to_xy(u32::MAX);
    assert_eq!(xy_to_index(last.0, last.1), u32::MAX);
    assert_eq!(index_to_xy(9), (2, -1));
    assert_eq!(index_to_ring_offset(9), RingOffset { ring: 2, offset: 0 });
    assert_eq!(index_to_ring_offset(0), RingOffset { ring: 0, offset: 0 });
    assert_eq!(ring_offset_to_index(RingOffset { ring: 0, offset: 7 }), 0);
    assert_eq!(xy_to_index(1, -1), 8);
    assert_eq!(spiral_step((1, -1)), (2, -1));
}

#[test]
fn isqrt_matches_float_free_bounds() {
    assert_eq!(isqrt_u32(0), 0);
    assert_eq!(isqrt_u32(15), 3);
    assert_eq!(isqrt_u32(16), 4);
    assert_eq!(isqrt_u32(u32::MAX), 65535);
    assert_eq!(isqrt_u64(u64::MAX), 0xFFFF_FFFF);
    assert_eq!(isqrt_u64(1_000_000_000_000), 1_000_000);
}

#[test]
fn spiral_step_far_from_the_origin() {
    assert_eq!(spiral_step((1_000_000_000, 5)), (1_000_000_000, 6));
    assert_eq!(spiral_step((i32::MAX, i32::MAX)), (i32::MAX - 1, i32::MAX));
    assert_eq!(spiral_step((-i32::MAX, 0)), (-i32::MAX, -1));
}
