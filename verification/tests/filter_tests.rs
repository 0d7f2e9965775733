use sound_locator::filter::{fir_filter, fir_filter_fits, init_audio_buffer, is_active, THRESHOLD, AUDIO_BUF_LENGTH, MULTIPLIER};

#[test]
fn init_audio_buffer_is_zero() {
    let b = init_audio_buffer();
    assert!(b.data_raw.iter().all(|s| *s == (0, 0)));
    assert!(b.data_filter.iter().all(|s| *s == (0, 0)));
    assert_eq!(AUDIO_BUF_LENGTH, 256);
    assert_eq!(MULTIPLIER.len(), 33);
    assert_eq!(MULTIPLIER[16], 7349);
}

#[test]
fn fir_filter_of_zero_buffer_stays_zero() {
    let mut b = init_audio_buffer();
    fir_filter(&mut b, 100);
    assert_eq!(b.data_filter[100], (0, 0));
}

#[test]
fn fir_filter_sums_the_last_33_samples() {
    let mut b = init_audio_buffer();
    for i in 0..AUDIO_BUF_LENGTH {
        b.data_raw[i] = (i as i32, -2 * i as i32);
    }
    fir_filter(&mut b, 40);
    // samples 8..=40
    let right: i32 = (8..=40).sum();
    assert_eq!(b.data_filter[40], (right, -2 * right));
    for i in 0..AUDIO_BUF_LENGTH {
        if i != 40 {
            assert_eq!(b.data_filter[i], (0, 0));
        }
        assert_eq!(b.data_raw[i], (i as i32, -2 * i as i32));
    }
}

#[test]
fn fir_filter_wraps_around_the_buffer_start() {
    let mut b = init_audio_buffer();
    for i in 0..AUDIO_BUF_LENGTH {
        b.data_raw[i] = (1, i as i32);
    }
    fir_filter(&mut b, 0);
    // samples 0 and 224..=255
    let left: i32 = (224..=255).sum();
    assert_eq!(b.data_filter[0], (33, left));
    fir_filter(&mut b, 255);
    let left: i32 = (223..=255).sum();
    assert_eq!(b.data_filter[255], (33, left));
}

#[test]
fn fir_filter_on_extreme_16_bit_audio() {
    let mut b = init_audio_buffer();
    for i in 0..AUDIO_BUF_LENGTH {
        b.data_raw[i] = (-32768, 32767);
    }
    fir_filter(&mut b, 17);
    assert_eq!(b.data_filter[17], (-32768 * 33, 32767 * 33));
}

#[test]
fn fir_filter_fits_detects_overflowing_windows() {
    let mut b = init_audio_buffer();
    assert!(fir_filter_fits(&b, 0));
    for i in 0..AUDIO_BUF_LENGTH {
        b.data_raw[i] = (-32768, 32767);
    }
    assert!(fir_filter_fits(&b, 200));
    b.data_raw[10] = (i32::MAX, 0);
    // at index 10 the large sample is summed first and the others only lower the sum
    assert!(fir_filter_fits(&b, 10));
    // at index 20 ten samples of -32768 come before it
    assert!(fir_filter_fits(&b, 20));
    b.data_raw[11] = (i32::MAX, 0);
    // at index 11 the first summand is i32::MAX, the second overflows
    assert!(!fir_filter_fits(&b, 11));
    // the window at 40 reaches both large samples, after 28 of -32768
    assert!(!fir_filter_fits(&b, 40));
    let mut c = init_audio_buffer();
    c.data_raw[40] = (0, i32::MIN);
    assert!(fir_filter_fits(&c, 40));
    c.data_raw[39] = (0, -1);
    assert!(!fir_filter_fits(&c, 40));
    assert!(fir_filter_fits(&c, 38));
}

#[test]
fn recording_becomes_active_at_the_threshold() {
    assert!(!is_active((0, 0), false));
    assert!(!is_active((399, -399), false));
    assert!(is_active((400, 0), false));
    assert!(is_active((0, -400), false));
    assert!(is_active((-400, 0), false));
    assert!(is_active((0, 400), false));
    assert!(is_active((0, 0), true));
    assert_eq!(THRESHOLD, 400);
}
