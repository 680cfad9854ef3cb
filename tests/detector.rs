use microdsp::config::ConfigError;
use microdsp::detector::{validate_options, DetectorSizes};

#[test]
fn test_zero_downsampling_factor() {
    assert_eq!(validate_options(512, 256, 256, 0), Err(ConfigError::ZeroDownsampling));
}

#[test]
fn test_nondivisible_downsampling_factor_1() {
    // The window size is not evenly divisible by the downsampling factor
    assert_eq!(
        validate_options(521, 256, 256, 4),
        Err(ConfigError::WindowSizeNotDivisible)
    );
}

#[test]
fn test_nondivisible_downsampling_factor_2() {
    // The window distance is not evenly divisible by the downsampling factor
    assert_eq!(
        validate_options(512, 250, 256, 4),
        Err(ConfigError::HopSizeNotDivisible)
    );
}

#[test]
fn detector_test_zero_window_size() {
    assert_eq!(validate_options(0, 0, 0, 1), Err(ConfigError::ZeroWindowSize));
}

#[test]
fn detector_test_zero_window_distance() {
    assert_eq!(validate_options(10, 0, 5, 1), Err(ConfigError::ZeroHopSize));
}

#[test]
fn detector_test_too_large_window_distance() {
    assert_eq!(validate_options(10, 11, 5, 1), Err(ConfigError::HopSizeTooLarge));
}

#[test]
fn lag_count_larger_than_window_is_refused() {
    assert_eq!(validate_options(10, 5, 11, 1), Err(ConfigError::LagCountTooLarge));
}

#[test]
fn valid_options_give_downsampled_sizes() {
    assert_eq!(
        validate_options(2048, 2048, 1024, 4),
        Ok(DetectorSizes {
            downsampled_window_size: 512,
            downsampled_hop_size: 512,
            downsampled_lag_count: 256,
            downsampling: 4,
        })
    );
    assert_eq!(
        validate_options(1024, 512, 512, 1),
        Ok(DetectorSizes {
            downsampled_window_size: 1024,
            downsampled_hop_size: 512,
            downsampled_lag_count: 512,
            downsampling: 1,
        })
    );
}

#[test]
fn window_beyond_the_largest_transform_is_refused() {
    // 4096 + 2 - 1 = 4097 lags of transform do not fit 4096
    assert_eq!(validate_options(4096, 1024, 2, 1), Err(ConfigError::WindowTooLarge));
    // 4096 + 1 - 1 = 4096 fits
    assert!(validate_options(4096, 1024, 1, 1).is_ok());
    assert!(validate_options(2048, 1024, 2048, 1).is_ok());
    // Downsampling brings larger windows in range: 8192 / 2 + 2 / 2 - 1 fits
    assert!(validate_options(8192, 1024, 2, 2).is_ok());
    assert_eq!(validate_options(8192, 1024, 2048, 2), Err(ConfigError::WindowTooLarge));
    assert_eq!(validate_options(8196, 2, 0, 2), Err(ConfigError::WindowTooLarge));
    assert!(validate_options(4097, 1, 0, 1).is_ok());
}
