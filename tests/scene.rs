use raytrace::scene::{closest_hit, order_key, SIGN_BIT};

fn key(t: f64) -> u64 {
    order_key(t.to_bits())
}

#[test]
fn keys_order_as_hit_parameters() {
    let ts = [-1.0e300, -2.5, -1.0, -0.001, 0.0, 0.001, 1.0, 2.5, 4.5, 1.0e300, f64::INFINITY];
    for w in ts.windows(2) {
        assert!(key(w[0]) < key(w[1]), "{} < {}", w[0], w[1]);
    }
}

#[test]
fn negative_zero_keys_as_zero() {
    assert_eq!(key(-0.0), key(0.0));
    assert_eq!(key(0.0), SIGN_BIT);
}

#[test]
fn no_surface_hit() {
    assert_eq!(closest_hit(&vec![]), None);
    assert_eq!(closest_hit(&vec![None, None, None]), None);
}

#[test]
fn nearest_of_two_overlapping_spheres_either_order() {
    // Two spheres on the ray's path: the near one is hit at t = 3.0, the far one at t = 4.5.
    let near = Some(key(3.0));
    let far = Some(key(4.5));
    assert_eq!(closest_hit(&vec![near, far]), Some(0));
    assert_eq!(closest_hit(&vec![far, near]), Some(1));
}

#[test]
fn misses_are_skipped() {
    assert_eq!(closest_hit(&vec![None, Some(key(7.0)), None, Some(key(2.0)), None]), Some(3));
}

#[test]
fn equal_parameters_keep_the_first() {
    assert_eq!(closest_hit(&vec![Some(key(5.0)), Some(key(2.0)), Some(key(2.0))]), Some(1));
}
