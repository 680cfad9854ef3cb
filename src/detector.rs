//! The sizes of a pitch detector, checked at construction time.
use vstd::prelude::*;
use vstd::arithmetic::div_mod::lemma_div_is_ordered;
use vstd::arithmetic::div_mod::lemma_div_non_zero;
use vstd::arithmetic::div_mod::lemma_fundamental_div_mod_converse;
use vstd::arithmetic::div_mod::lemma_small_mod;

use crate::autocorr::{is_autocorr_fft_size, min_autocorr_length, MAX_FFT_SIZE};
use crate::config::ConfigError;
use crate::window_processor::size_error;

verus! {

/// The sizes a pitch detector works with after downsampling.
#[derive(Debug, Clone, Copy, PartialEq, Eq, Structural)]
pub struct DetectorSizes {
    pub downsampled_window_size: usize,
    pub downsampled_hop_size: usize,
    pub downsampled_lag_count: usize,
    pub downsampling: usize,
}

/// The first fault of a pitch detector's options, given in input samples, if
/// any: the window size must be positive, the hop size positive and at most the
/// window size, the downsampling factor positive and a divisor of both sizes,
/// the lag count at most the window size, and the autocorrelation of the
/// downsampled window must fit the largest supported transform.
pub open spec fn options_error(window_size: nat, hop_size: nat, lag_count: nat, downsampling: nat) -> Option<ConfigError> {
    if window_size == 0 {
        Some(ConfigError::ZeroWindowSize)
    } else if hop_size == 0 {
        Some(ConfigError::ZeroHopSize)
    } else if hop_size > window_size {
        Some(ConfigError::HopSizeTooLarge)
    } else if downsampling == 0 {
        Some(ConfigError::ZeroDownsampling)
    } else if window_size % downsampling != 0 {
        Some(ConfigError::WindowSizeNotDivisible)
    } else if hop_size % downsampling != 0 {
        Some(ConfigError::HopSizeNotDivisible)
    } else if lag_count > window_size {
        Some(ConfigError::LagCountTooLarge)
    } else if min_autocorr_length(window_size / downsampling, lag_count / downsampling) > MAX_FFT_SIZE {
        Some(ConfigError::WindowTooLarge)
    } else {
        None
    }
}

/// Checks a pitch detector's options, given in input samples, and returns
/// the sizes after downsampling. Valid sizes make a valid window processor and
/// ask for no more lags than the downsampled window has samples.
pub fn validate_options(window_size: usize, hop_size: usize, lag_count: usize, downsampling: usize) -> (r: Result<DetectorSizes, ConfigError>)
    ensures
        r is Ok <==> options_error(window_size as nat, hop_size as nat, lag_count as nat, downsampling as nat) is None,
        r matches Err(e) ==> options_error(window_size as nat, hop_size as nat, lag_count as nat, downsampling as nat) == Some(e),
        r matches Ok(s) ==> {
            &&& s.downsampling == downsampling
            &&& s.downsampled_window_size == window_size / downsampling
            &&& s.downsampled_hop_size == hop_size / downsampling
            &&& s.downsampled_lag_count == lag_count / downsampling
            &&& size_error(s.downsampled_window_size as nat, s.downsampled_hop_size as nat, downsampling as nat) is None
            &&& s.downsampled_lag_count <= s.downsampled_window_size
            &&& forall|size: nat| is_autocorr_fft_size(size, min_autocorr_length(
                s.downsampled_window_size as nat,
                s.downsampled_lag_count as nat,
            )) ==> size <= MAX_FFT_SIZE
        },
{
    if window_size == 0 {
        return Err(ConfigError::ZeroWindowSize);
    }
    if hop_size == 0 {
        return Err(ConfigError::ZeroHopSize);
    }
    if hop_size > window_size {
        return Err(ConfigError::HopSizeTooLarge);
    }
    if downsampling == 0 {
        return Err(ConfigError::ZeroDownsampling);
    }
    if window_size % downsampling != 0 {
        return Err(ConfigError::WindowSizeNotDivisible);
    }
    if hop_size % downsampling != 0 {
        return Err(ConfigError::HopSizeNotDivisible);
    }
    if lag_count > window_size {
        return Err(ConfigError::LagCountTooLarge);
    }
    let downsampled_window_size = window_size / downsampling;
    let downsampled_lag_count = lag_count / downsampling;
    proof {
        lemma_div_is_ordered(lag_count as int, window_size as int, downsampling as int);
    }
    if downsampled_window_size > MAX_FFT_SIZE + 1
        || downsampled_window_size + downsampled_lag_count > MAX_FFT_SIZE + 1 {
        return Err(ConfigError::WindowTooLarge);
    }
    proof {
        assert forall|size: nat| is_autocorr_fft_size(size, min_autocorr_length(
            downsampled_window_size as nat,
            downsampled_lag_count as nat,
        )) implies size <= MAX_FFT_SIZE by {
            crate::autocorr::lemma_autocorr_fft_size_supported(size, min_autocorr_length(
                downsampled_window_size as nat,
                downsampled_lag_count as nat,
            ));
        }
        if hop_size < downsampling {
            lemma_small_mod(hop_size as nat, downsampling as nat);
        }
        lemma_div_non_zero(hop_size as int, downsampling as int);
        lemma_div_is_ordered(hop_size as int, window_size as int, downsampling as int);
        lemma_div_is_ordered(lag_count as int, window_size as int, downsampling as int);
    }
    Ok(DetectorSizes {
        downsampled_window_size,
        downsampled_hop_size: hop_size / downsampling,
        downsampled_lag_count,
        downsampling,
    })
}

/// Options given as downsampled sizes `n`, `h`, `l` times the factor `d` are
/// refused exactly when the window is empty, the hop is empty or longer than
/// the window, the factor is zero, more lags than window samples are asked
/// for, or the autocorrelation would not fit the largest transform; otherwise
/// the sizes after downsampling are `n`, `h` and `l`.
pub proof fn lemma_downsampled_options(n: nat, h: nat, l: nat, d: nat)
    ensures
        options_error(n * d, h * d, l * d, d) is None <==> (n > 0 && h > 0 && h <= n && d > 0 && l <= n
            && min_autocorr_length(n, l) <= MAX_FFT_SIZE),
        options_error(n * d, h * d, l * d, d) is None ==> (n * d) / d == n && (h * d) / d == h && (l * d) / d == l,
{
    if d > 0 {
        lemma_fundamental_div_mod_converse((n * d) as int, d as int, n as int, 0);
        lemma_fundamental_div_mod_converse((h * d) as int, d as int, h as int, 0);
        lemma_fundamental_div_mod_converse((l * d) as int, d as int, l as int, 0);
        assert(n * d == 0 <==> n == 0) by (nonlinear_arith)
            requires
                d > 0,
        ;
        assert(h * d == 0 <==> h == 0) by (nonlinear_arith)
            requires
                d > 0,
        ;
        assert(h * d > n * d <==> h > n) by (nonlinear_arith)
            requires
                d > 0,
        ;
        assert(l * d > n * d <==> l > n) by (nonlinear_arith)
            requires
                d > 0,
        ;
    } else {
        assert(n * d == 0) by (nonlinear_arith)
            requires
                d == 0,
        ;
    }
}

} // verus!
