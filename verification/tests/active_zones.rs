use vtt::active_zones::{active_object_zones, ActiveZone};
use vtt::object_zones::ZoneCellRange;

fn range(min_x: i32, max_x: i32, min_y: i32, max_y: i32, min_z: i32, max_z: i32) -> ZoneCellRange {
    ZoneCellRange { min_x, max_x, min_y, max_y, min_z, max_z }
}

fn zone(x: i32, y: i32, z: i32, first_object: i32, final_object: i32) -> ActiveZone {
    ActiveZone { x, y, z, first_object, final_object }
}

#[test]
fn shared_cell_lists_both_objects() {
    let objects = vec![range(0, 2, 0, 1, 0, 1), range(1, 3, 0, 1, 0, 1)];
    let layout = active_object_zones(&objects, 8);
    assert_eq!(layout.num_zones, 3);
    assert_eq!(layout.zone_objects, vec![0, 0, 1, 1]);
    assert_eq!(
        layout.zones,
        vec![zone(0, 0, 0, 0, 1), zone(1, 0, 0, 1, 3), zone(2, 0, 0, 3, 4)]
    );
}

#[test]
fn no_objects_gives_padding() {
    let layout = active_object_zones(&Vec::new(), 8);
    assert_eq!(layout.num_zones, 0);
    assert_eq!(layout.zone_objects, vec![0]);
    assert_eq!(layout.zones, vec![zone(0, 0, 0, 0, 0)]);
}

#[test]
fn cells_past_the_last_zone_are_dropped() {
    let objects = vec![range(7, 12, 0, 1, 0, 1)];
    let layout = active_object_zones(&objects, 8);
    assert_eq!(layout.num_zones, 2);
    assert_eq!(layout.zones, vec![zone(7, 0, 0, 0, 1), zone(8, 0, 0, 1, 2)]);
    assert_eq!(layout.zone_objects, vec![0, 0]);
}

#[test]
fn cells_below_zero_are_kept() {
    let objects = vec![range(-2, 0, 0, 1, 3, 4)];
    let layout = active_object_zones(&objects, 8);
    assert_eq!(layout.num_zones, 2);
    assert_eq!(layout.zones, vec![zone(-2, 0, 3, 0, 1), zone(-1, 0, 3, 1, 2)]);
}

#[test]
fn empty_range_reaches_nothing() {
    let objects = vec![range(3, 3, 0, 1, 0, 1), range(2, 1, 0, 4, 0, 4)];
    let layout = active_object_zones(&objects, 8);
    assert_eq!(layout.num_zones, 0);
    assert_eq!(layout.zone_objects, vec![0]);
    assert_eq!(layout.zones.len(), 1);
}

#[test]
fn walk_order_is_x_then_y_then_z() {
    let objects = vec![range(0, 2, 0, 2, 0, 1)];
    let layout = active_object_zones(&objects, 8);
    assert_eq!(
        layout.zones,
        vec![zone(0, 0, 0, 0, 1), zone(0, 1, 0, 1, 2), zone(1, 0, 0, 2, 3), zone(1, 1, 0, 3, 4)]
    );
}
