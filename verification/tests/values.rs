use station_agg::values::StationValues;

#[test]
fn new_holds_single_value() {
    let v = StationValues::new(50);
    assert_eq!(v.min, 50);
    assert_eq!(v.max, 50);
    assert_eq!(v.sum, 50);
    assert_eq!(v.count, 1);
}

#[test]
fn update_folds_values() {
    let mut v = StationValues::new(10);
    v.update(30);
    v.update(20);
    assert_eq!(v.min, 10);
    assert_eq!(v.max, 30);
    assert_eq!(v.sum, 60);
    assert_eq!(v.count, 3);
}

#[test]
fn update_tracks_negative_minimum() {
    let mut v = StationValues::new(0);
    v.update(-9999);
    v.update(9999);
    assert_eq!(v.min, -9999);
    assert_eq!(v.max, 9999);
    assert_eq!(v.sum, 0);
    assert_eq!(v.count, 3);
}

#[test]
fn merge_combines_aggregates() {
    let mut a = StationValues::new(10);
    a.update(20);
    let mut b = StationValues::new(-50);
    b.update(40);
    a.merge(&b);
    assert_eq!(a.min, -50);
    assert_eq!(a.max, 40);
    assert_eq!(a.sum, 20);
    assert_eq!(a.count, 4);
}

#[test]
fn merge_is_commutative_on_fields() {
    let mut a1 = StationValues::new(13);
    a1.update(-7);
    let mut b1 = StationValues::new(200);
    b1.update(5);
    let mut ab = a1;
    ab.merge(&b1);
    let mut ba = b1;
    ba.merge(&a1);
    assert_eq!(ab.min, ba.min);
    assert_eq!(ab.max, ba.max);
    assert_eq!(ab.sum, ba.sum);
    assert_eq!(ab.count, ba.count);
}

#[test]
fn mean_exact() {
    let mut v = StationValues::new(10);
    v.update(30);
    v.update(20);
    assert_eq!(v.mean_tenths(), 20);
}

#[test]
fn mean_rounds_half_away_from_zero() {
    let mut up = StationValues::new(0);
    up.update(1);
    assert_eq!(up.mean_tenths(), 1);
    let mut down = StationValues::new(0);
    down.update(-1);
    assert_eq!(down.mean_tenths(), -1);
}

#[test]
fn mean_stays_between_min_and_max() {
    let mut v = StationValues::new(-3);
    v.update(8);
    v.update(8);
    let m = v.mean_tenths();
    assert!((v.min as i64) <= m && m <= v.max as i64);
}
