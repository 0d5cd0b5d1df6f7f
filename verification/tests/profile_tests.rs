use http_probe::profile::{run_profile, ProfileReport, RequestOutcome};

fn success(byte_len: usize, elapsed_millis: u64) -> RequestOutcome {
    RequestOutcome::Success {
        byte_len,
        elapsed_millis,
    }
}

fn failure(status_code: u16) -> RequestOutcome {
    RequestOutcome::Failure { status_code }
}

#[test]
fn every_attempt_is_classified() {
    let outcomes = vec![
        success(100, 5),
        failure(404),
        success(250, 9),
        failure(500),
        failure(404),
    ];
    let report = run_profile(&outcomes);
    assert_eq!(report.total_requests, 5);
    // successes + failed attempts account for every attempt
    assert_eq!(report.latencies.len() + 3, 5);
    assert_eq!(report.latencies, vec![5, 9]);
}

#[test]
fn error_codes_are_distinct_in_first_occurrence_order() {
    let outcomes = vec![
        failure(500),
        failure(404),
        failure(500),
        failure(403),
        failure(404),
    ];
    let report = run_profile(&outcomes);
    assert_eq!(report.error_codes, vec![500, 404, 403]);
}

#[test]
fn size_bounds_track_successes_only() {
    let outcomes = vec![success(300, 2), failure(404), success(120, 8), success(200, 4)];
    let report = run_profile(&outcomes);
    assert_eq!(report.min_response_bytes, Some(120));
    assert_eq!(report.max_response_bytes, Some(300));
}

#[test]
fn all_successes_give_no_errors_and_a_rate_of_exactly_100() {
    let outcomes = vec![success(10, 1), success(20, 2), success(30, 3)];
    let report = run_profile(&outcomes);
    assert!(report.error_codes.is_empty());
    assert_eq!(report.latencies.len(), report.total_requests);
    let rate = report.latencies.len() as f32 / report.total_requests as f32 * 100.0;
    assert_eq!(rate, 100.0);
}

#[test]
fn all_failures_give_no_latency_or_size_stats() {
    let outcomes = vec![failure(500), failure(502), failure(500)];
    let report = run_profile(&outcomes);
    assert!(report.latencies.is_empty());
    assert!(report.latency_stats().is_none());
    assert_eq!(report.min_response_bytes, None);
    assert_eq!(report.max_response_bytes, None);
    assert_eq!(report.error_codes, vec![500, 502]);
}

#[test]
fn empty_run_has_no_stats() {
    let report = run_profile(&Vec::new());
    assert_eq!(report.total_requests, 0);
    assert!(report.latency_stats().is_none());
    assert_eq!(report.sorted_latencies(), Vec::<u64>::new());
    assert_eq!(report.latency_sum(), 0);
}

#[test]
fn median_of_five_is_the_middle_element() {
    let outcomes = vec![
        success(1, 50),
        success(1, 10),
        success(1, 40),
        success(1, 30),
        success(1, 20),
    ];
    let report = run_profile(&outcomes);
    assert_eq!(report.sorted_latencies(), vec![10, 20, 30, 40, 50]);
    let stats = report.latency_stats().unwrap();
    assert_eq!(stats.median, 30);
    assert_eq!(stats.fastest, 10);
    assert_eq!(stats.slowest, 50);
    assert_eq!(stats.total_millis, 150);
    assert_eq!(stats.count, 5);
}

#[test]
fn median_of_four_is_the_upper_median() {
    let outcomes = vec![success(1, 30), success(1, 10), success(1, 40), success(1, 20)];
    let report = run_profile(&outcomes);
    assert_eq!(report.sorted_latencies(), vec![10, 20, 30, 40]);
    let stats = report.latency_stats().unwrap();
    // index 2 of the sorted sequence, not the average of 20 and 30
    assert_eq!(stats.median, 30);
}

#[test]
fn mean_is_sum_over_count() {
    let outcomes = vec![success(1, 4), success(1, 5)];
    let report = run_profile(&outcomes);
    let stats = report.latency_stats().unwrap();
    let mean = stats.total_millis as f32 / stats.count as f32;
    assert_eq!(mean, 4.5);
}

#[test]
fn record_folds_one_outcome_at_a_time() {
    let mut report = ProfileReport::new();
    assert_eq!(report.total_requests, 0);
    report.record(success(42, 7));
    report.record(failure(418));
    assert_eq!(report.total_requests, 2);
    assert_eq!(report.latencies, vec![7]);
    assert_eq!(report.error_codes, vec![418]);
    assert_eq!(report.min_response_bytes, Some(42));
    assert_eq!(report.max_response_bytes, Some(42));
}
