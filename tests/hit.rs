use raytracer::hit::{closest_hit, FAR_LIMIT_KEY, NEAR_LIMIT_KEY};

fn key(d: f64) -> Option<u64> {
    Some(d.to_bits())
}

#[test]
fn limit_keys_are_the_distance_bounds() {
    assert_eq!(NEAR_LIMIT_KEY, 0.01f64.to_bits());
    assert_eq!(FAR_LIMIT_KEY, f64::INFINITY.to_bits());
}

#[test]
fn closest_hit_all_miss_is_sky() {
    assert_eq!(closest_hit(&vec![None, None, None]), None);
    assert_eq!(closest_hit(&vec![]), None);
}

#[test]
fn closest_hit_single_sphere_in_front() {
    // a sphere of radius 1 centred 5 ahead: met at distance 4
    assert_eq!(closest_hit(&vec![key(4.0)]), Some(0));
}

#[test]
fn closest_hit_picks_nearest() {
    assert_eq!(closest_hit(&vec![key(10.0), None, key(3.5), key(7.25)]), Some(2));
}

#[test]
fn closest_hit_first_of_equal_distances() {
    assert_eq!(closest_hit(&vec![None, key(2.0), key(2.0)]), Some(1));
}

#[test]
fn closest_hit_ignores_hits_at_origin() {
    assert_eq!(closest_hit(&vec![key(0.005), key(0.01), key(0.5)]), Some(2));
    assert_eq!(closest_hit(&vec![key(0.0), key(0.01)]), None);
}

#[test]
fn closest_hit_ignores_infinite_negative_and_nan() {
    let keys = vec![key(f64::INFINITY), key(-3.0), key(f64::NAN), key(-0.0)];
    assert_eq!(closest_hit(&keys), None);
    let mut more = keys.clone();
    more.push(key(1e300));
    assert_eq!(closest_hit(&more), Some(4));
}

#[test]
fn closest_hit_orders_as_distances() {
    let ds = [5.0f64, 0.02, 123.0, 0.75, 1e-3, 42.0];
    let keys: Vec<Option<u64>> = ds.iter().map(|d| key(*d)).collect();
    assert_eq!(closest_hit(&keys), Some(1));
}
