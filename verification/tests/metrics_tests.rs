use taskflowrs::metrics::Metrics;

const MS: u128 = 1_000_000;

#[test]
fn test_metrics_basic() {
    let mut metrics = Metrics::new(4);
    metrics.start(0);

    metrics.record_task_start(1, 0);
    metrics.record_task_completion(1, 0, 10 * MS);

    assert_eq!(metrics.total_tasks_executed(), 1);
    assert_eq!(metrics.total_tasks_failed(), 0);
    let total = metrics.total_tasks_executed() + metrics.total_tasks_failed();
    assert_eq!(metrics.total_tasks_executed(), total);
}

#[test]
fn test_worker_metrics() {
    let mut metrics = Metrics::new(2);

    metrics.record_task_start(1, 0);
    metrics.record_task_completion(1, 0, 10 * MS);

    metrics.record_task_start(2, 10 * MS);
    metrics.record_task_completion(2, 1, 20 * MS);

    assert_eq!(metrics.worker_task_count(0), 1);
    assert_eq!(metrics.worker_task_count(1), 1);
}

#[test]
fn completion_times_run_from_the_recorded_start() {
    let mut m = Metrics::new(2);
    m.record_task_start(7, 1_000);
    m.record_task_completion(7, 1, 251_000);
    assert_eq!(m.worker_times(1), (250_000, 0));
    assert_eq!(m.average_task_duration(), 250_000);
    // no recorded start: a zero-length task
    m.record_task_completion(8, 0, 900_000);
    assert_eq!(m.average_task_duration(), 125_000);
    // an unknown worker is counted in the totals only
    m.record_task_start(9, 0);
    m.record_task_completion(9, 5, 30_000);
    assert_eq!(m.total_tasks_executed(), 3);
    assert_eq!(m.worker_task_count(5), 0);
    assert_eq!(m.worker_times(5), (0, 0));
}

#[test]
fn failure_forgets_the_start() {
    let mut m = Metrics::new(1);
    m.record_task_start(3, 100);
    m.record_task_failure(3);
    m.record_task_completion(3, 0, 1_000);
    assert_eq!(m.total_tasks_failed(), 1);
    assert_eq!(m.average_task_duration(), 0);
}

#[test]
fn peak_memory_keeps_the_largest_reading() {
    let mut m = Metrics::new(1);
    m.record_memory_usage(500);
    m.record_memory_usage(2_000);
    m.record_memory_usage(800);
    assert_eq!(m.current_memory_bytes(), 800);
    assert_eq!(m.peak_memory_bytes(), 2_000);
    m.reset(5);
    assert_eq!(m.peak_memory_bytes(), 0);
    assert_eq!(m.start_time(), Some(5));
}

#[test]
fn histogram_buckets_by_hundred_microseconds() {
    let mut m = Metrics::new(1);
    let times: [(usize, u128); 5] = [(1, 50_000), (2, 150_000), (3, 99_999), (4, 420_000), (5, 180_000)];
    for (id, d) in times {
        m.record_task_start(id, 0);
        m.record_task_completion(id, 0, d);
    }
    m.record_worker_idle(0, 30);
    assert_eq!(m.task_timing_histogram(), vec![(0, 2), (100_000, 2), (400_000, 1)]);
    // a task timed again replaces its earlier timing
    m.record_task_start(4, 0);
    m.record_task_completion(4, 0, 10_000);
    assert_eq!(m.task_timing_histogram(), vec![(0, 3), (100_000, 2)]);
    assert_eq!(m.worker_times(0).1, 30);
    m.reset(0);
    assert!(m.task_timing_histogram().is_empty());
}
