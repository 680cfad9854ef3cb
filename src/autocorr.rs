use vstd::prelude::*;

use crate::config::ConfigError;

verus! {

/// The smallest transform size that the spectral kernel supports.
pub const MIN_FFT_SIZE: usize = 8;

/// The largest transform size that the spectral kernel supports.
pub const MAX_FFT_SIZE: usize = 4096;

/// `n` is a power of two.
pub open spec fn is_power_of_two(n: nat) -> bool
    decreases n,
{
    if n == 1 {
        true
    } else if n == 0 || n % 2 == 1 {
        false
    } else {
        is_power_of_two(n / 2)
    }
}

/// The least transform length that keeps `lag_count` lags of the
/// autocorrelation of a `window_size` window free of circular wrap-around.
pub open spec fn min_autocorr_length(window_size: nat, lag_count: nat) -> int {
    window_size + lag_count - 1
}

/// `size` is the smallest supported transform size of at least `min_length`.
pub open spec fn is_autocorr_fft_size(size: nat, min_length: int) -> bool {
    &&& is_power_of_two(size)
    &&& size >= MIN_FFT_SIZE
    &&& size >= min_length
    &&& (size == MIN_FFT_SIZE || size / 2 < min_length)
}

/// Of two powers of two, the larger is at least twice the smaller.
proof fn lemma_power_of_two_gap(a: nat, b: nat)
    requires
        is_power_of_two(a),
        is_power_of_two(b),
        a < b,
    ensures
        2 * a <= b,
    decreases b,
{
    if a != 1 {
        lemma_power_of_two_gap(a / 2, b / 2);
    }
}

/// The size that [`autocorr_fft_size`] picks is the least supported one: no
/// smaller power of two of at least `MIN_FFT_SIZE` reaches `min_length`.
pub proof fn lemma_autocorr_fft_size_is_least(size: nat, min_length: int, other: nat)
    requires
        is_autocorr_fft_size(size, min_length),
        is_power_of_two(other),
        other >= MIN_FFT_SIZE,
        other >= min_length,
    ensures
        size <= other,
{
    if other < size {
        lemma_power_of_two_gap(other, size);
    }
}

/// The size picked for a length of at most `MAX_FFT_SIZE` is supported: it
/// is at most `MAX_FFT_SIZE`.
pub proof fn lemma_autocorr_fft_size_supported(size: nat, min_length: int)
    requires
        is_autocorr_fft_size(size, min_length),
        min_length <= MAX_FFT_SIZE,
    ensures
        size <= MAX_FFT_SIZE,
{
    reveal_with_fuel(is_power_of_two, 13);
    assert(is_power_of_two(4096));
    lemma_autocorr_fft_size_is_least(size, min_length, 4096);
}

/// Checks that at most `window_size` lags are requested.
pub fn validate_window_size_lag_count(window_size: usize, lag_count: usize) -> (r: Result<(), ConfigError>)
    ensures
        r is Ok <==> lag_count <= window_size,
        r is Err ==> r == Err::<(), ConfigError>(ConfigError::LagCountTooLarge),
{
    if lag_count > window_size {
        Err(ConfigError::LagCountTooLarge)
    } else {
        Ok(())
    }
}

/// Computes the length of the FFT needed to compute `lag_count` lags of the
/// autocorrelation of a `window_size` window without circular convolution effects:
/// the smallest supported power of two of at least `window_size + lag_count - 1`.
pub fn autocorr_fft_size(window_size: usize, lag_count: usize) -> (r: usize)
    requires
        lag_count <= window_size,
        window_size + lag_count <= usize::MAX / 2,
    ensures
        is_autocorr_fft_size(r as nat, min_autocorr_length(window_size as nat, lag_count as nat)),
{
    let min_length: usize = if window_size == 0 { 0 } else { window_size + lag_count - 1 };
    let mut result: usize = MIN_FFT_SIZE;
    proof {
        reveal_with_fuel(is_power_of_two, 4);
    }
    while result < min_length
        invariant
            min_length == if window_size == 0 { 0 } else { window_size + lag_count - 1 },
            min_length <= usize::MAX / 2,
            is_power_of_two(result as nat),
            result >= MIN_FFT_SIZE,
            result == MIN_FFT_SIZE || result / 2 < min_length,
        decreases usize::MAX - result,
    {
        assert(is_power_of_two((result * 2) as nat));
        result = result * 2;
    }
    result
}

} // verus!
