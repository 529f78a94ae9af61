use projekto::math::IVec3;
use projekto::query;

fn sample_points() -> Vec<IVec3> {
    let mut points = vec![];
    let mut seed: u32 = 4242;
    for _ in 0..100 {
        let mut next = || {
            seed = seed.wrapping_mul(1103515245).wrapping_add(12345);
            ((seed >> 16) % 10) as i32 - 5
        };
        points.push(IVec3::new(next(), next(), next()));
    }
    points
}

#[test]
fn range() {
    let items = query::range((0, 0, 0).into(), (1, 1, 1).into());
    assert_eq!(items, vec![(0, 0, 0).into()]);

    let items = query::range((1, 1, 1).into(), (1, 1, 1).into());
    assert_eq!(items, Vec::<IVec3>::new());

    let points = sample_points();
    for pair in points.chunks(2) {
        let (begin, end) = (pair[0], pair[1]);
        let items = query::range(begin, end);
        let mut loop_items = vec![];
        for x in begin.x..end.x {
            for z in begin.z..end.z {
                for y in begin.y..end.y {
                    loop_items.push(IVec3::new(x, y, z));
                }
            }
        }

        assert_eq!(items, loop_items, "Wrong values on range {:?} {:?}", begin, end);
    }
}

#[test]
fn range_inclusive() {
    let items = query::range_inclusive((0, 0, 0).into(), (0, 0, 0).into());
    assert_eq!(items, vec![(0, 0, 0).into()]);

    let items = query::range_inclusive((1, 2, 1).into(), (1, 1, 1).into());
    assert_eq!(items, Vec::<IVec3>::new());

    let points = sample_points();
    for pair in points.chunks(2) {
        let (begin, end_inclusive) = (pair[0], pair[1]);
        let items = query::range_inclusive(begin, end_inclusive);
        let mut loop_items = vec![];
        for x in begin.x..=end_inclusive.x {
            for z in begin.z..=end_inclusive.z {
                for y in begin.y..=end_inclusive.y {
                    loop_items.push(IVec3::new(x, y, z));
                }
            }
        }

        assert_eq!(
            items, loop_items,
            "Wrong values on range {:?} {:?}",
            begin, end_inclusive
        );
    }
}
