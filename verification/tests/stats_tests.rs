use image3d::stats::channel_stats;

#[test]
fn stats_of_small_channel() {
    let st = channel_stats(&[3, 1, 2, 2]);
    assert_eq!(st.count, 4);
    assert_eq!(st.sum, 8);
    assert_eq!(st.min, 1);
    assert_eq!(st.max, 3);
    assert_eq!(st.median, 2);
    assert_eq!(st.histogram.len(), 256);
    assert_eq!(st.histogram[1], 1);
    assert_eq!(st.histogram[2], 2);
    assert_eq!(st.histogram[3], 1);
    assert_eq!(st.histogram.iter().map(|&c| c as u64).sum::<u64>(), 4);
}

#[test]
fn stats_of_empty_channel() {
    let st = channel_stats(&[]);
    assert_eq!(st.count, 0);
    assert_eq!(st.sum, 0);
    assert_eq!(st.min, 0);
    assert_eq!(st.max, 255);
    assert_eq!(st.median, 0);
    assert!(st.histogram.iter().all(|&c| c == 0));
}

#[test]
fn median_of_single_value_is_that_value() {
    let st = channel_stats(&[200]);
    assert_eq!(st.min, 200);
    assert_eq!(st.max, 200);
    assert_eq!(st.median, 200);
}

#[test]
fn median_of_odd_count_is_middle_value() {
    let st = channel_stats(&[10, 20, 30]);
    assert_eq!(st.median, 20);
    assert_eq!(st.min, 10);
    assert_eq!(st.max, 30);
    assert_eq!(st.sum, 60);
    assert_eq!(st.histogram[10], 1);
    assert_eq!(st.histogram[20], 1);
    assert_eq!(st.histogram[30], 1);
    assert_eq!(channel_stats(&[30, 10, 20, 20, 90]).median, 20);
}

#[test]
fn median_lies_between_extremes() {
    let vals: Vec<u8> = vec![10, 250, 40, 40, 90, 200, 13];
    let st = channel_stats(&vals);
    assert_eq!(st.min, 10);
    assert_eq!(st.max, 250);
    // Sorted: 10 13 40 40 90 200 250; the 4th smallest is 40.
    assert_eq!(st.median, 40);
    assert!(st.min <= st.median && st.median <= st.max);
}

#[test]
fn histogram_total_is_count() {
    let vals: Vec<u8> = (0..1000u32).map(|i| (i * 37 % 256) as u8).collect();
    let st = channel_stats(&vals);
    assert_eq!(st.histogram.iter().map(|&c| c as u64).sum::<u64>(), 1000);
    assert_eq!(st.sum, vals.iter().map(|&v| v as u64).sum::<u64>());
}

#[test]
fn median_of_even_count_takes_lower_middle() {
    let st = channel_stats(&[5, 9]);
    assert_eq!(st.median, 5);
    assert_eq!(channel_stats(&[1, 2, 3, 4]).median, 2);
}
