use projekto::perf::{
    print_perf_counter, PerfCounterGuard, PerfCounterMap, PerfMeasureGuard, PerfReport,
};

#[test]
fn guard_samples() {
    let mut guard = PerfCounterGuard::new("scope");
    assert_eq!(guard.name, "scope");
    assert_eq!(guard.min, u64::MAX);
    guard.add_sample(0);
    assert_eq!(guard.counter, 0);
    guard.add_sample(30);
    guard.add_sample(10);
    guard.add_sample(20);
    assert_eq!(guard.counter, 3);
    assert_eq!(guard.elapsed, 60);
    assert_eq!(guard.min, 10);
    assert_eq!(guard.max, 30);
    guard.set_meta(100);
    assert_eq!(guard.meta, 40);
    guard.set_meta(5);
    assert_eq!(guard.meta, 0);
}

#[test]
fn measure_records_when_time_passed() {
    let mut guard = PerfCounterGuard::new("measure");
    let run = guard.measure();
    let recorded = run.finish(&mut guard);
    if recorded == 0 {
        assert_eq!(guard.counter, 0);
    } else {
        assert_eq!(guard.counter, 1);
        assert_eq!(guard.elapsed, recorded);
    }
    let run = PerfMeasureGuard::new();
    let _ = run.finish(&mut guard);
    guard.calc_meta();
}

#[test]
fn map_insert_merges_by_name() {
    let mut map = PerfCounterMap::new();
    let mut a = PerfCounterGuard::new("a");
    a.add_sample(5);
    a.add_sample(7);
    a.meta = 3;
    map.insert(&a);
    map.insert(&a);
    let mut b = PerfCounterGuard::new("b");
    b.add_sample(100);
    assert!(map.can_insert(&b));
    map.insert(&b);

    let sorted = map.sorted_by_elapsed();
    assert_eq!(sorted.len(), 2);
    assert_eq!(sorted[0].name, "b");
    assert_eq!(sorted[0].elapsed, 100);
    assert_eq!(sorted[1].name, "a");
    assert_eq!(sorted[1].elapsed, 24);
    assert_eq!(sorted[1].counter, 4);
    assert_eq!(sorted[1].min, 5);
    assert_eq!(sorted[1].max, 7);
    assert_eq!(sorted[1].meta, 6);
}

#[test]
fn map_refuses_overflow() {
    let mut map = PerfCounterMap::new();
    let mut a = PerfCounterGuard::new("a");
    a.add_sample(u64::MAX - 1);
    map.insert(&a);
    let mut b = PerfCounterGuard::new("a");
    b.add_sample(10);
    assert!(!map.can_insert(&b));
    assert!(!b.finish(&mut map));
}

#[test]
fn report_decisions() {
    let mut map = PerfCounterMap::new();
    let mut a = PerfCounterGuard::new("a");
    a.add_sample(1);
    map.insert(&a);
    assert!(matches!(print_perf_counter(&mut map, false, false), PerfReport::Nothing));
    match print_perf_counter(&mut map, false, true) {
        PerfReport::Counters(v) => assert_eq!(v.len(), 1),
        _ => panic!("counters expected"),
    }
    assert!(matches!(print_perf_counter(&mut map, true, true), PerfReport::Cleared));
    assert!(map.sorted_by_elapsed().is_empty());
}

#[test]
fn map_insert_order_keeps_counters() {
    let mut a = PerfCounterGuard::new("a");
    a.add_sample(5);
    let mut a2 = PerfCounterGuard::new("a");
    a2.add_sample(9);
    let mut b = PerfCounterGuard::new("b");
    b.add_sample(100);

    let mut first = PerfCounterMap::new();
    first.insert(&a);
    first.insert(&b);
    first.insert(&a2);
    let mut second = PerfCounterMap::new();
    second.insert(&a2);
    second.insert(&b);
    second.insert(&a);

    let key = |c: &projekto::perf::PerfCounter| (c.name.clone(), c.elapsed, c.counter, c.min, c.max, c.meta);
    let mut x = first.sorted_by_elapsed().iter().map(key).collect::<Vec<_>>();
    let mut y = second.sorted_by_elapsed().iter().map(key).collect::<Vec<_>>();
    x.sort();
    y.sort();
    assert_eq!(x, y);
    assert_eq!(x[0], ("a".to_string(), 14, 2, 5, 9, 0));
}
