use vtt::object_zones::{process_object_zones, ZoneCellRange};

/// Bounds of an object: the centre and radius of its bounding sphere.
struct Bounds {
    center: [f32; 3],
    radius: f32,
}

/// The zone cells reached by an object's bounding sphere in a zoned world
/// of side `size` centred on `origin`, with `n` zones per axis.
fn cell_range(bounds: &Bounds, size: f32, n: i32, origin: [f32; 3]) -> ZoneCellRange {
    let zone_size = (size / n as f32).abs();
    let mut lo = [0i32; 3];
    let mut hi = [0i32; 3];
    for axis in 0..3 {
        let bounds_min = origin[axis] - size / 2.;
        let min = bounds.center[axis] - bounds.radius;
        let max = bounds.center[axis] + bounds.radius;
        lo[axis] = ((min - bounds_min) / zone_size).floor() as i32;
        hi[axis] = ((max - bounds_min) / zone_size).ceil() as i32;
    }
    ZoneCellRange {
        min_x: lo[0],
        max_x: hi[0],
        min_y: lo[1],
        max_y: hi[1],
        min_z: lo[2],
        max_z: hi[2],
    }
}

#[test]
fn with_no_objects_all_zones_are_empty() {
    let objects = Vec::new();
    let result = process_object_zones(&objects, 3);
    assert_eq!(result.zone_objects.len(), 1);
    assert_eq!(result.num_zones, 27);
    assert_eq!(result.zones.len(), result.num_zones);
    for zone in result.zones.iter() {
        assert_eq!(zone.final_object, zone.first_object);
    }
}

#[test]
fn with_one_object_only_containing_zone_has_references() {
    let objects = vec![cell_range(
        &Bounds { center: [0., 0., 0.], radius: 0.2 },
        10.,
        3,
        [0., 0., 0.],
    )];
    let result = process_object_zones(&objects, 3);
    assert_eq!(result.zone_objects.len(), 1);
    assert_eq!(result.num_zones, 27);
    assert_eq!(result.zones.len(), result.num_zones);
    let contain_item = [13];
    for (i, zone) in result.zones.iter().enumerate() {
        println!("{} {} {}", i, zone.final_object, zone.first_object);
        if contain_item.contains(&i) {
            assert_eq!(zone.final_object, zone.first_object + 1);
        } else {
            assert_eq!(zone.final_object, zone.first_object);
        }
    }
}

#[test]
fn with_two_objects_only_containing_zone_has_references() {
    let objects = vec![
        cell_range(&Bounds { center: [0., 0., 0.], radius: 0.2 }, 10., 3, [0., 0., 0.]),
        cell_range(&Bounds { center: [0., 4., 0.], radius: 0.2 }, 10., 3, [0., 0., 0.]),
    ];
    let result = process_object_zones(&objects, 3);
    assert_eq!(result.zone_objects.len(), 2);
    assert_eq!(result.num_zones, 27);
    assert_eq!(result.zones.len(), result.num_zones);
    let contain_item = [13, 16];
    for (i, zone) in result.zones.iter().enumerate() {
        println!("{} {} {}", i, zone.final_object, zone.first_object);
        if contain_item.contains(&i) {
            assert_eq!(zone.final_object, zone.first_object + 1);
        } else {
            assert_eq!(zone.final_object, zone.first_object);
        }
    }
}

#[test]
fn witn_only_one_object_and_a_non_centered_origin_only_containing_zones_have_object() {
    let objects = vec![cell_range(
        &Bounds { center: [0., 0., 0.], radius: 0.2 },
        10.,
        3,
        [0., -4., 0.],
    )];
    let result = process_object_zones(&objects, 3);
    assert_eq!(result.zone_objects.len(), 1);
    assert_eq!(result.num_zones, 27);
    assert_eq!(result.zones.len(), result.num_zones);
    let contain_item = [16];
    for (i, zone) in result.zones.iter().enumerate() {
        println!("{} {} {}", i, zone.final_object, zone.first_object);
        if contain_item.contains(&i) {
            assert_eq!(zone.final_object, zone.first_object + 1);
        } else {
            assert_eq!(zone.final_object, zone.first_object);
        }
    }
}

#[test]
fn object_spanning_zones_is_listed_in_each_in_zone_order() {
    let wide = ZoneCellRange { min_x: -5, max_x: 9, min_y: 0, max_y: 1, min_z: 1, max_z: 2 };
    let point = ZoneCellRange { min_x: 1, max_x: 2, min_y: 0, max_y: 1, min_z: 1, max_z: 2 };
    let result = process_object_zones(&vec![wide, point], 2);
    assert_eq!(result.num_zones, 8);
    // zone (0,0,1) is 1, zone (1,0,1) is 5
    assert_eq!(result.zone_objects, vec![0, 0, 1]);
    assert_eq!((result.zones[1].first_object, result.zones[1].final_object), (0, 1));
    assert_eq!((result.zones[5].first_object, result.zones[5].final_object), (1, 3));
    for i in [0usize, 2, 3, 4, 6, 7] {
        assert_eq!((result.zones[i].first_object, result.zones[i].final_object), (0, 0));
    }
}

#[test]
fn no_zones_gives_one_empty_zone() {
    let point = ZoneCellRange { min_x: 0, max_x: 1, min_y: 0, max_y: 1, min_z: 0, max_z: 1 };
    let result = process_object_zones(&vec![point], 0);
    assert_eq!(result.num_zones, 0);
    assert_eq!(result.zones.len(), 1);
    assert_eq!((result.zones[0].first_object, result.zones[0].final_object), (0, 0));
    assert_eq!(result.zone_objects, vec![0]);
}
