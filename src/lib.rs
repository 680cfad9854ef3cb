//! Verified building blocks of a streaming pitch detector based on the
//! McLeod pitch method: FFT sizing for the autocorrelation, windowing of a
//! sample stream with downsampling and overlap, checks of the detector's
//! sizes, and the order-based peak picking on the normalized square
//! difference function.

pub mod autocorr;
pub mod config;
pub mod detector;
pub mod peak;
pub mod window_processor;
