use xml_events::{memory_axis_limit, record_sample, BenchmarkResult};

#[test]
fn memory_used_is_peak_above_start() {
    let r = BenchmarkResult::from_samples("run".to_string(), 1500, 200, 350);
    assert_eq!(r.name, "run");
    assert_eq!(r.duration_nanos, 1500);
    assert_eq!(r.memory_used_kb, 150);
    assert_eq!(r.peak_memory_kb, 350);
}

#[test]
fn memory_used_is_zero_when_peak_is_lower() {
    let r = BenchmarkResult::from_samples("run".to_string(), 1, 400, 350);
    assert_eq!(r.memory_used_kb, 0);
    assert_eq!(r.peak_memory_kb, 350);
}

#[test]
fn peak_only_rises() {
    let mut peak = 10;
    record_sample(&mut peak, 5);
    assert_eq!(peak, 10);
    record_sample(&mut peak, 30);
    assert_eq!(peak, 30);
}

#[test]
fn axis_limit_is_largest_use_plus_margin() {
    let results = vec![
        BenchmarkResult::from_samples("a".to_string(), 1, 0, 300),
        BenchmarkResult::from_samples("b".to_string(), 1, 0, 7000),
        BenchmarkResult::from_samples("c".to_string(), 1, 0, 20),
    ];
    assert_eq!(memory_axis_limit(&results), 7100);
    let small = vec![BenchmarkResult::from_samples("a".to_string(), 1, 0, 20)];
    assert_eq!(memory_axis_limit(&small), 120);
    assert_eq!(memory_axis_limit(&vec![]), 1100);
}
