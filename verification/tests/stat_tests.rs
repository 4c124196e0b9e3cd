use chunkstats::stat::StatRecord;

#[test]
fn from_item_holds_one_reading() {
    let r = StatRecord::from_item(105);
    assert_eq!(r.count, 1);
    assert_eq!(r.min, 105);
    assert_eq!(r.max, 105);
    assert_eq!(r.sum, 105);
}

#[test]
fn update_folds_a_reading() {
    let mut r = StatRecord::from_item(100);
    r.update(300);
    r.update(-50);
    assert_eq!(r.count, 3);
    assert_eq!(r.min, -50);
    assert_eq!(r.max, 300);
    assert_eq!(r.sum, 350);
}

#[test]
fn merge_combines_both_records() {
    let mut a = StatRecord::from_item(10);
    a.update(40);
    let b = StatRecord::from_item(-7);
    let m = a.merge(b);
    assert_eq!(m.count, 3);
    assert_eq!(m.min, -7);
    assert_eq!(m.max, 40);
    assert_eq!(m.sum, 43);
}

#[test]
fn merge_is_commutative_on_values() {
    let mut a = StatRecord::from_item(12);
    a.update(-3);
    let mut b = StatRecord::from_item(99);
    b.update(5);
    b.update(5);
    let ab = a.merge(b);
    let ba = b.merge(a);
    assert_eq!(ab.count, ba.count);
    assert_eq!(ab.min, ba.min);
    assert_eq!(ab.max, ba.max);
    assert_eq!(ab.sum, ba.sum);
}

#[test]
fn merge_is_associative_on_values() {
    let a = StatRecord::from_item(1);
    let b = StatRecord::from_item(-20);
    let c = StatRecord::from_item(300);
    let left = a.merge(b).merge(c);
    let right = a.merge(b.merge(c));
    assert_eq!(left.count, right.count);
    assert_eq!(left.min, right.min);
    assert_eq!(left.max, right.max);
    assert_eq!(left.sum, right.sum);
}

#[test]
fn mean_of_one_reading_is_the_reading() {
    assert_eq!(StatRecord::from_item(-55).mean(), -55);
    assert_eq!(StatRecord::from_item(0).mean(), 0);
}

#[test]
fn mean_rounds_half_away_from_zero() {
    let mut up = StatRecord::from_item(1);
    up.update(2);
    assert_eq!(up.mean(), 2);
    let mut down = StatRecord::from_item(-1);
    down.update(-2);
    assert_eq!(down.mean(), -2);
}

#[test]
fn mean_rounds_to_nearest() {
    let mut r = StatRecord::from_item(1);
    r.update(0);
    r.update(0);
    assert_eq!(r.mean(), 0);
    let mut s = StatRecord::from_item(2);
    s.update(0);
    s.update(0);
    assert_eq!(s.mean(), 1);
    let mut t = StatRecord::from_item(-2);
    t.update(0);
    t.update(0);
    assert_eq!(t.mean(), -1);
}

#[test]
fn mean_at_the_ends_of_the_range() {
    let mut r = StatRecord::from_item(i64::MAX);
    r.update(i64::MAX);
    assert_eq!(r.mean(), i64::MAX);
    let mut s = StatRecord::from_item(i64::MIN);
    s.update(i64::MIN);
    assert_eq!(s.mean(), i64::MIN);
    assert_eq!(s.sum, 2 * (i64::MIN as i128));
}
