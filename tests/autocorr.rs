use microdsp::autocorr::{autocorr_fft_size, validate_window_size_lag_count};
use microdsp::config::ConfigError;

#[test]
fn fft_size_is_the_smallest_power_of_two_without_wraparound() {
    assert_eq!(autocorr_fft_size(8, 4), 16);
    assert_eq!(autocorr_fft_size(0, 0), 8);
    assert_eq!(autocorr_fft_size(1, 0), 8);
    assert_eq!(autocorr_fft_size(1, 1), 8);
    assert_eq!(autocorr_fft_size(5, 4), 8);
    assert_eq!(autocorr_fft_size(5, 5), 16);
    assert_eq!(autocorr_fft_size(1024, 512), 2048);
    assert_eq!(autocorr_fft_size(1024, 1), 1024);
    assert_eq!(autocorr_fft_size(1024, 2), 2048);
    assert_eq!(autocorr_fft_size(2048, 2048), 4096);
}

#[test]
fn lag_count_must_not_exceed_window_size() {
    assert_eq!(validate_window_size_lag_count(4, 4), Ok(()));
    assert_eq!(validate_window_size_lag_count(4, 0), Ok(()));
    assert_eq!(
        validate_window_size_lag_count(4, 5),
        Err(ConfigError::LagCountTooLarge)
    );
}
