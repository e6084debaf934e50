use vtt::zone_hierarchy::{mark_dirty_zones, zone_hierarchies, ZoneLink};

fn link(entity: u64, parent: Option<u64>) -> ZoneLink {
    ZoneLink { entity, parent }
}

#[test]
fn hierarchy_lists_outermost_zone_then_ancestors() {
    // 1 is outermost, 2 in 1, 3 in 2, 4 in 1; listed child-first
    let zones = vec![link(3, Some(2)), link(4, Some(1)), link(2, Some(1)), link(1, None)];
    let h = zone_hierarchies(&zones);
    assert_eq!(h[0], vec![1, 1, 2]);
    assert_eq!(h[1], vec![1, 1]);
    assert_eq!(h[2], vec![1, 1]);
    assert_eq!(h[3], vec![1]);
}

#[test]
fn hierarchy_does_not_depend_on_order() {
    let a = vec![link(1, None), link(2, Some(1)), link(3, Some(2))];
    let b = vec![link(3, Some(2)), link(2, Some(1)), link(1, None)];
    let ha = zone_hierarchies(&a);
    let hb = zone_hierarchies(&b);
    assert_eq!(ha[0], hb[2]);
    assert_eq!(ha[1], hb[1]);
    assert_eq!(ha[2], hb[0]);
}

#[test]
fn parent_that_is_not_a_zone_ends_the_chain() {
    let zones = vec![link(5, Some(99)), link(6, Some(5))];
    let h = zone_hierarchies(&zones);
    assert_eq!(h[0], vec![5]);
    assert_eq!(h[1], vec![5, 5]);
}

#[test]
fn dirty_marks_follow_parents() {
    let zones = vec![link(1, Some(50)), link(2, Some(1)), link(3, None)];
    let marked = mark_dirty_zones(&zones, &vec![2, 3, 77]);
    assert_eq!(marked, vec![2, 1, 50, 3, 77]);
}
