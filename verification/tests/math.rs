use projekto::math::{self, IVec3};

#[test]
fn is_within_cubic_bounds() {
    assert!(math::is_within_cubic_bounds((1, 2, 3).into(), 0, 15));
    assert!(!math::is_within_cubic_bounds((-1, 2, 3).into(), 0, 15));
    assert!(math::is_within_cubic_bounds((0, 0, 0).into(), 0, 15));
    assert!(math::is_within_cubic_bounds((15, 15, 15).into(), 0, 15));
    assert!(!math::is_within_cubic_bounds((15, 16, 15).into(), 0, 15));
}

#[test]
fn euclid_rem() {
    let rem = math::euclid_rem((16, -1, -17).into(), 15);
    assert_eq!(rem, (1, 14, 13).into());

    let rem = math::euclid_rem((14, 0, 0).into(), 15);
    assert_eq!(rem, (14, 0, 0).into());

    let rem = math::euclid_rem((-15, 16, 0).into(), 15);
    assert_eq!(rem, (0, 1, 0).into());
}

#[test]
fn to_unit_dir() {
    let dirs = math::to_unit_dir((0, 0, 0).into());
    assert_eq!(dirs, Vec::<IVec3>::new());

    let dirs = math::to_unit_dir((1, 0, 0).into());
    assert_eq!(dirs, vec![(1, 0, 0).into()]);

    let dirs = math::to_unit_dir((1, 1, 0).into());
    assert_eq!(dirs, vec![(1, 0, 0).into(), (0, 1, 0).into()]);

    let dirs = math::to_unit_dir((1, 1, -1).into());
    assert_eq!(
        dirs,
        vec![(1, 0, 0).into(), (0, 1, 0).into(), (0, 0, -1).into()]
    );
}

#[test]
fn ivec3_plus_minus() {
    let a = IVec3::new(1, -2, 3);
    let b = IVec3::new(-4, 5, 6);
    assert_eq!(a.plus(b), IVec3::new(-3, 3, 9));
    assert_eq!(a.minus(b), IVec3::new(5, -7, -3));
    assert_eq!(IVec3::zero(), IVec3::new(0, 0, 0));
}
