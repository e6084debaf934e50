use vtt::zone_ordering::ZoneOrderingId;

#[test]
fn generate_correct_zone_ordering_id() {
    let order = [13, 5, 6];
    let ordering = ZoneOrderingId::from_zone_orders(&order);
    assert!(ordering.is_some());
    assert_eq!(ordering.unwrap().order, 13005006000000000000000000000000000u128);
}

#[test]
fn get_correct_shared_zone_id() {
    let a = ZoneOrderingId::from_zone_orders(&[12, 5, 6]).unwrap();
    let b = ZoneOrderingId::from_zone_orders(&[12, 7, 10]).unwrap();
    let shared_expected = ZoneOrderingId::from_zone_orders(&[12]).unwrap();
    let shared_result = a.nearest_shared_zone(&b);
    assert!(shared_result.is_some());
    assert_eq!(shared_result.unwrap(), shared_expected);
}

#[test]
fn too_many_layers_give_no_id() {
    let order = [1usize; 12];
    assert!(ZoneOrderingId::from_zone_orders(&order).is_none());
    let order = [1usize; 11];
    assert!(ZoneOrderingId::from_zone_orders(&order).is_some());
}

#[test]
fn layer_order_above_limit_gives_no_id() {
    assert!(ZoneOrderingId::from_zone_orders(&[3, 1001]).is_none());
    let at_limit = ZoneOrderingId::from_zone_orders(&[0, 1000]).unwrap();
    let carried = ZoneOrderingId::from_zone_orders(&[1]).unwrap();
    assert_eq!(at_limit, carried);
}

#[test]
fn empty_path_is_id_zero() {
    assert_eq!(ZoneOrderingId::from_zone_orders(&[]).unwrap().order, 0);
}

#[test]
fn deepest_layer_has_weight_one_thousand() {
    let id = ZoneOrderingId::from_zone_orders(&[0, 0, 0, 0, 0, 0, 0, 0, 0, 0, 7]).unwrap();
    assert_eq!(id.order, 7000);
}

#[test]
fn largest_id_fits() {
    let id = ZoneOrderingId::from_zone_orders(&[1000; 11]).unwrap();
    assert_eq!(id.order, 1_001_001_001_001_001_001_001_001_001_001_000_000u128);
}

#[test]
fn shared_zone_of_a_zone_and_itself_is_itself() {
    let a = ZoneOrderingId::from_zone_orders(&[4, 2]).unwrap();
    assert_eq!(a.nearest_shared_zone(&a), Some(a));
}

#[test]
fn zones_with_different_outer_layers_share_nothing() {
    let a = ZoneOrderingId::from_zone_orders(&[1, 2]).unwrap();
    let b = ZoneOrderingId::from_zone_orders(&[2, 2]).unwrap();
    assert_eq!(a.nearest_shared_zone(&b), None);
}

#[test]
fn shared_zone_is_symmetric_and_ordered_first() {
    let a = ZoneOrderingId::from_zone_orders(&[3, 9, 1, 4]).unwrap();
    let b = ZoneOrderingId::from_zone_orders(&[3, 9, 2]).unwrap();
    let s = a.nearest_shared_zone(&b).unwrap();
    assert_eq!(b.nearest_shared_zone(&a), Some(s));
    assert_eq!(s, ZoneOrderingId::from_zone_orders(&[3, 9]).unwrap());
    assert!(s <= a && s <= b);
}

#[test]
fn outer_zone_orders_before_inner_zone() {
    let outer = ZoneOrderingId::from_zone_orders(&[5, 1]).unwrap();
    let inner = ZoneOrderingId::from_zone_orders(&[5, 1, 999]).unwrap();
    assert!(outer < inner);
}

#[test]
fn ids_order_as_layer_paths() {
    let id = |layers: &[usize]| ZoneOrderingId::from_zone_orders(layers).unwrap();
    assert!(id(&[1, 999]) < id(&[2]));
    assert!(id(&[2, 0, 5]) < id(&[2, 1]));
    assert!(id(&[0, 0, 0, 0, 0, 0, 0, 0, 0, 0, 1]) > id(&[]));
    assert_eq!(id(&[4, 2, 0, 0]), id(&[4, 2]));
    assert!(id(&[998, 999, 999]) < id(&[999]));
}
