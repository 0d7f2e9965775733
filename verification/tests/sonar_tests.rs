use sound_locator::sonar_localization::{first_zero_crossing, second_zero_crossing, split_channels};

#[test]
fn split_channels_separates_left_and_right() {
    let data: Vec<(i32, i32)> = (0..256).map(|i| (i, -i)).collect();
    let (left, right) = split_channels(&data);
    for i in 0..256 {
        assert_eq!(left[i], -(i as i32));
        assert_eq!(right[i], i as i32);
    }
}

#[test]
fn split_channels_ignores_samples_past_the_buffer() {
    let data: Vec<(i32, i32)> = (0..300).map(|i| (2 * i, 3 * i)).collect();
    let (left, right) = split_channels(&data);
    assert_eq!(left[255], 765);
    assert_eq!(right[255], 510);
}

#[test]
fn zero_crossings_of_a_square_wave() {
    let data = [5, 3, -1, -4, 2, 6, 0, 1, -2];
    assert_eq!(first_zero_crossing(&data), Some(2));
    assert_eq!(second_zero_crossing(&data), Some(6));
}

#[test]
fn zero_crossings_need_a_positive_sample_before() {
    // A rise from non-positive does not count, nor does a first sample <= 0.
    let data = [0, -3, 0, 4, 0];
    assert_eq!(first_zero_crossing(&data), Some(4));
    assert_eq!(second_zero_crossing(&data), None);
}

#[test]
fn zero_crossings_absent() {
    assert_eq!(first_zero_crossing(&[]), None);
    assert_eq!(second_zero_crossing(&[]), None);
    assert_eq!(first_zero_crossing(&[3, 2, 1]), None);
    assert_eq!(first_zero_crossing(&[-3, -2, 1]), None);
    assert_eq!(second_zero_crossing(&[3, -2, -1]), None);
}

#[test]
fn second_zero_crossing_follows_the_first() {
    let data: Vec<i32> = (0..256).map(|i| if (i / 10) % 2 == 0 { 100 } else { -100 }).collect();
    let first = first_zero_crossing(&data).unwrap();
    let second = second_zero_crossing(&data).unwrap();
    assert_eq!((first, second), (10, 30));
    assert!(first < second);
}
