use red_black_knights::index_order::{IndexOrder, SquareSpiral, VisitOrder};
use std::collections::HashSet;

fn assert_scan_walk(order: VisitOrder, limit: u32) {
    let mut xy = (0, 0);
    for index in 0..limit {
        assert_eq!(order.index_to_xy(index), xy, "{order:?} index {index}");
        let at = xy;
        xy = order.scan_step_xy(index, xy);
        assert_eq!(
            order.index_to_xy(index.wrapping_add(1)),
            xy,
            "{order:?} after index {index} at {at:?}"
        );
    }
}

fn assert_round_trip(order: VisitOrder, limit: u32) {
    for index in 0..limit {
        let (x, y) = order.index_to_xy(index);
        assert_eq!(order.xy_to_index(x, y), index, "{order:?} index {index}");
    }
}

fn assert_unique_cells(order: VisitOrder, limit: u32) {
    let mut seen = HashSet::new();
    for index in 0..limit {
        let xy = order.index_to_xy(index);
        assert!(seen.insert(xy), "{order:?} duplicate {xy:?} at {index}");
    }
}

#[test]
fn all_orders_scan_and_round_trip_near_origin() {
    for order in VisitOrder::ALL {
        assert_scan_walk(order, 20_000);
        assert_round_trip(order, 10_000);
        assert_unique_cells(order, 5_000);
    }
}

#[test]
fn square_spiral_ccw_scan_and_round_trip() {
    assert_scan_walk(VisitOrder::SquareSpiral, 20_000);
    assert_round_trip(VisitOrder::SquareSpiral, 10_000);
}

#[test]
fn square_spiral_cw_scan_and_round_trip() {
    assert_scan_walk(VisitOrder::SquareSpiralClockwise, 20_000);
    assert_round_trip(VisitOrder::SquareSpiralClockwise, 10_000);
}

#[test]
fn square_rings_scanline_scan_and_round_trip() {
    assert_scan_walk(VisitOrder::SquareRingsScanline, 20_000);
    assert_round_trip(VisitOrder::SquareRingsScanline, 10_000);
}

#[test]
fn diamond_rings_scan_and_round_trip() {
    assert_scan_walk(VisitOrder::DiamondRings, 20_000);
    assert_round_trip(VisitOrder::DiamondRings, 10_000);
}

#[test]
fn visit_order_prev_next_cycles_all() {
    for (i, &order) in VisitOrder::ALL.iter().enumerate() {
        assert_eq!(order.prev().next(), order);
        assert_eq!(order.next().prev(), order);
        assert_eq!(order.next(), VisitOrder::ALL[(i + 1) % VisitOrder::ALL.len()]);
    }
}

#[test]
fn clockwise_differs_from_ccw_after_first_steps() {
    assert_eq!(VisitOrder::SquareSpiral.index_to_xy(2), (1, 1));
    assert_eq!(VisitOrder::SquareSpiralClockwise.index_to_xy(2), (1, -1));
}

#[test]
fn square_spiral_matches_spiral_module() {
    for index in 0..10_000 {
        assert_eq!(
            VisitOrder::SquareSpiral.index_to_xy(index),
            red_black_knights::spiral::index_to_xy(index)
        );
        let (x, y) = red_black_knights::spiral::index_to_xy(index);
        assert_eq!(VisitOrder::SquareSpiral.xy_to_index(x, y), index);
    }
}

#[test]
fn visit_order_labels_and_default() {
    assert_eq!(VisitOrder::default(), VisitOrder::SquareSpiral);
    assert_eq!(VisitOrder::SquareSpiral.label(), "Square spiral (CCW)");
    assert_eq!(VisitOrder::DiamondRings.label(), "Diamond rings (Manhattan)");
    assert_eq!(VisitOrder::SquareRingsScanline.slot(), 2);
    assert_eq!(VisitOrder::SquareSpiral.prev(), VisitOrder::DiamondRings);
}

#[test]
fn orders_reach_the_end_of_the_u32_domain() {
    for order in VisitOrder::ALL {
        let (x, y) = order.index_to_xy(u32::MAX);
        assert_eq!(order.xy_to_index(x, y), u32::MAX, "{order:?}");
    }
    assert_eq!(VisitOrder::DiamondRings.index_to_xy(1), (-1, 0));
    assert_eq!(VisitOrder::DiamondRings.index_to_xy(2), (0, 1));
    assert_eq!(VisitOrder::DiamondRings.index_to_xy(4), (1, 0));
    assert_eq!(VisitOrder::SquareRingsScanline.index_to_xy(1), (-1, -1));
    assert_eq!(VisitOrder::SquareRingsScanline.index_to_xy(4), (-1, 0));
    assert_eq!(VisitOrder::SquareRingsScanline.index_to_xy(5), (1, 0));
}

#[test]
fn square_spiral_type_order_matches_enum() {
    assert_eq!(SquareSpiral::name(), "square_spiral");
    let mut xy = (0, 0);
    for index in 0..1_000u32 {
        assert_eq!(SquareSpiral::index_to_xy(index), xy);
        assert_eq!(SquareSpiral::xy_to_index(xy.0, xy.1), index);
        xy = SquareSpiral::scan_step_xy(index, xy);
    }
}

#[test]
fn diamond_scan_step_far_from_the_origin() {
    assert_eq!(VisitOrder::DiamondRings.scan_step_xy(0, (2_000_000_000, 1)), (2_000_000_000, -1));
    assert_eq!(VisitOrder::SquareSpiral.scan_step_xy(0, (1_000_000_000, 5)), (1_000_000_000, 6));
}
