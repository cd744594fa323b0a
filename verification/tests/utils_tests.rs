use marline::palantir::utils::{lcm_checked, lcm_vec};

#[test]
fn lcm_of_tier_sizes() {
    assert_eq!(lcm_vec(&[4, 3, 2]), Some(12));
    assert_eq!(lcm_vec(&[12, 6, 4, 3, 2]), Some(12));
    assert_eq!(lcm_vec(&[8, 4, 2]), Some(8));
    assert_eq!(lcm_vec(&[]), Some(1));
}

#[test]
fn lcm_checked_values() {
    assert_eq!(lcm_checked(4, 6), Some(12));
    assert_eq!(lcm_checked(7, 3), Some(21));
    assert_eq!(lcm_checked(0, 5), Some(0));
    assert_eq!(lcm_checked(u32::MAX, u32::MAX - 1), None);
}

#[test]
fn lcm_vec_overflow_is_none() {
    assert_eq!(lcm_vec(&[65536, 65537, 3]), None);
}
