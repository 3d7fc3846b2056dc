use heartrate_tree::HeartRateTree;

/// The floating-point mean of a `(sum, count)` aggregate, with the zero
/// average standing for an empty window.
fn average_of(aggregate: (u64, u64)) -> f64 {
    let (sum, count) = aggregate;
    if count == 0 {
        0.0
    } else {
        sum as f64 / count as f64
    }
}

#[test]
fn test_insertion() {
    let mut tree = HeartRateTree::new();
    tree.insert(1625150000, 70);
    let current_time = 1625150300;
    assert_eq!(average_of(tree.average_last_minute(current_time)), 0.0);
}

#[test]
fn test_multiple_insertions() {
    let mut tree = HeartRateTree::new();
    tree.insert(1625150000, 70);
    tree.insert(1625150250, 75);
    tree.insert(1625150300, 80);
    let current_time = 1625150300;
    assert_eq!(average_of(tree.average_last_minute(current_time)), 77.5); // (75+80)/2
}

#[test]
fn test_edge_case_no_data_in_interval() {
    let mut tree = HeartRateTree::new();
    tree.insert(1625150000, 70);
    let current_time = 1625150600; // No data in the last minute
    assert_eq!(average_of(tree.average_last_minute(current_time)), 0.0);
}

#[test]
fn test_edge_case_single_data_point() {
    let mut tree = HeartRateTree::new();
    tree.insert(1625150540, 70);
    let current_time = 1625150600; // Only one data point in the last minute
    assert_eq!(average_of(tree.average_last_minute(current_time)), 70.0);
}

#[test]
fn test_display_trait() {
    let mut tree = HeartRateTree::new();
    tree.insert(1625150000, 72);
    tree.insert(1625150300, 75);
    tree.insert(1625150600, 78);

    let expected_output = "2021-07-01T14:33:20+00:00 - 72\n\
2021-07-01T14:38:20+00:00 - 75\n\
2021-07-01T14:43:20+00:00 - 78\n";

    let output = tree.render();
    assert_eq!(output, expected_output);
}

#[test]
fn empty_tree_yields_zero_average() {
    let tree = HeartRateTree::new();
    assert_eq!(tree.average_last_minute(1625150300), (0, 0));
    assert_eq!(average_of(tree.average_last_minute(1625150300)), 0.0);
    assert_eq!(tree.sum_and_count(0, i64::MAX), (0, 0));
}

#[test]
fn empty_tree_renders_empty() {
    let tree = HeartRateTree::new();
    assert_eq!(tree.render(), "");
}

#[test]
fn sample_exactly_at_now_is_included() {
    let mut tree = HeartRateTree::new();
    tree.insert(1625150300, 88);
    assert_eq!(tree.average_last_minute(1625150300), (88, 1));
}

#[test]
fn sample_exactly_at_window_start_is_included() {
    let mut tree = HeartRateTree::new();
    tree.insert(1625150240, 88);
    assert_eq!(tree.average_last_minute(1625150300), (88, 1));
}

#[test]
fn samples_just_outside_both_ends_are_excluded() {
    let mut tree = HeartRateTree::new();
    tree.insert(1625150239, 60);
    tree.insert(1625150301, 90);
    assert_eq!(tree.average_last_minute(1625150300), (0, 0));
}

#[test]
fn aggregate_matches_naive_linear_scan() {
    let data: [(u64, u64); 9] = [
        (500, 61),
        (100, 62),
        (300, 63),
        (300, 64),
        (900, 65),
        (250, 66),
        (700, 67),
        (301, 68),
        (299, 69),
    ];
    let mut tree = HeartRateTree::new();
    for &(ts, hr) in data.iter() {
        tree.insert(ts, hr);
    }
    let windows: [(i64, i64); 6] = [(250, 300), (0, 1000), (300, 300), (301, 250), (-50, 120), (600, 950)];
    for &(from, to) in windows.iter() {
        let mut sum: u64 = 0;
        let mut count: u64 = 0;
        for &(ts, hr) in data.iter() {
            let t = ts as i64;
            if from <= t && t <= to {
                sum += hr;
                count += 1;
            }
        }
        assert_eq!(tree.sum_and_count(from, to), (sum, count));
    }
}

#[test]
fn window_length_is_configurable() {
    let mut tree = HeartRateTree::new();
    tree.insert(1625150000, 70);
    // outside a 60-second window, inside a 300-second one
    assert_eq!(tree.average_in_trailing_window(1625150300, 60), (0, 0));
    assert_eq!(tree.average_in_trailing_window(1625150300, 300), (70, 1));
    // a zero-length window holds exactly the samples at `now`
    assert_eq!(tree.average_in_trailing_window(1625150000, 0), (70, 1));
    assert_eq!(tree.average_in_trailing_window(1625150001, 0), (0, 0));
}

#[test]
fn equal_timestamps_all_counted_in_insertion_order() {
    let mut tree = HeartRateTree::new();
    tree.insert(1625150300, 70);
    tree.insert(1625150300, 80);
    tree.insert(1625150300, 90);
    assert_eq!(tree.average_last_minute(1625150300), (240, 3));
    assert_eq!(average_of(tree.average_last_minute(1625150300)), 80.0);
    // later inserts of an equal timestamp land deeper in the right chain,
    // so the pre-order dump keeps insertion order
    let expected = "2021-07-01T14:38:20+00:00 - 70\n\
2021-07-01T14:38:20+00:00 - 80\n\
2021-07-01T14:38:20+00:00 - 90\n";
    assert_eq!(tree.render(), expected);
}

#[test]
fn unrepresentable_timestamp_is_silently_skipped() {
    let mut tree = HeartRateTree::new();
    // one second past the largest representable instant
    tree.insert(8210266876800, 70);
    assert_eq!(tree.sum_and_count(i64::MIN, i64::MAX), (0, 0));
    assert_eq!(tree.render(), "");
    // a representable sample still lands afterwards
    tree.insert(1625150300, 75);
    assert_eq!(tree.sum_and_count(i64::MIN, i64::MAX), (75, 1));
}

#[test]
fn unrepresentable_query_time_yields_zero() {
    let mut tree = HeartRateTree::new();
    tree.insert(1625150300, 75);
    assert_eq!(tree.average_last_minute(8210266876800), (0, 0));
    assert_eq!(average_of(tree.average_last_minute(8210266876800)), 0.0);
}

#[test]
fn timestamps_above_i64_are_skipped_not_wrapped() {
    let mut tree = HeartRateTree::new();
    // u64::MAX stands for no epoch-seconds instant; it must not be
    // reinterpreted as a second before the epoch
    tree.insert(u64::MAX, 70);
    assert_eq!(tree.sum_and_count(i64::MIN, i64::MAX), (0, 0));
    assert_eq!(tree.render(), "");
    // a query at such a timestamp yields the zero aggregate, not a window
    // before the epoch
    assert_eq!(tree.average_last_minute(u64::MAX), (0, 0));
}

#[test]
fn window_reaching_past_the_representable_range_is_safe() {
    let mut tree = HeartRateTree::new();
    tree.insert(30, 70);
    // `now - window` falls far below the earliest representable instant
    assert_eq!(tree.average_in_trailing_window(60, u64::MAX), (70, 1));
}

#[test]
fn render_shows_readings_in_decimal() {
    let mut tree = HeartRateTree::new();
    tree.insert(1625150000, 0);
    tree.insert(1625150300, 18446744073709551615);
    let expected = "2021-07-01T14:33:20+00:00 - 0\n\
2021-07-01T14:38:20+00:00 - 18446744073709551615\n";
    assert_eq!(tree.render(), expected);
}

#[test]
fn render_is_pre_order_not_chronological() {
    let mut tree = HeartRateTree::new();
    tree.insert(1625150300, 75);
    tree.insert(1625150000, 72);
    tree.insert(1625150600, 78);
    // the root comes first even though an earlier sample exists
    let expected = "2021-07-01T14:38:20+00:00 - 75\n\
2021-07-01T14:33:20+00:00 - 72\n\
2021-07-01T14:43:20+00:00 - 78\n";
    assert_eq!(tree.render(), expected);
}
