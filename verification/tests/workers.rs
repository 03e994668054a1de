use mandelbrot::workers::{worker_count, workers_for};

#[test]
fn workers_for_is_one_per_processor() {
    assert_eq!(workers_for(1), 1);
    assert_eq!(workers_for(8), 8);
    assert_eq!(workers_for(usize::MAX), usize::MAX);
}

#[test]
fn workers_for_is_one_where_no_processor_is_reported() {
    assert_eq!(workers_for(0), 1);
}

#[test]
fn worker_count_is_at_least_one() {
    assert!(worker_count() >= 1);
    assert_eq!(worker_count(), workers_for(num_cpus::get()));
}
