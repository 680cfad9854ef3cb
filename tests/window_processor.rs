use microdsp::config::ConfigError;
use microdsp::window_processor::{validate_sizes, LatestWindow, WindowProcessor, WindowRecorder};

#[test]
fn window_processor_test_zero_window_size() {
    assert_eq!(
        WindowProcessor::new(1, 0, 256, 0.0_f32).err(),
        Some(ConfigError::ZeroWindowSize)
    );
}

#[test]
fn test_zero_hop_size() {
    assert_eq!(
        WindowProcessor::new(1, 256, 0, 0.0_f32).err(),
        Some(ConfigError::ZeroHopSize)
    );
}

#[test]
fn test_too_large_hop_size() {
    assert_eq!(
        WindowProcessor::new(1, 256, 257, 0.0_f32).err(),
        Some(ConfigError::HopSizeTooLarge)
    );
}

#[test]
fn test_zero_downsampling() {
    assert_eq!(
        WindowProcessor::new(0, 256, 256, 0.0_f32).err(),
        Some(ConfigError::ZeroDownsampling)
    );
}

#[test]
fn validate_sizes_accepts_valid_sizes() {
    assert_eq!(validate_sizes(256, 256, 1), Ok(()));
    assert_eq!(validate_sizes(256, 1, 9), Ok(()));
    assert_eq!(validate_sizes(0, 0, 0), Err(ConfigError::ZeroWindowSize));
    assert_eq!(validate_sizes(4, 0, 0), Err(ConfigError::ZeroHopSize));
    assert_eq!(validate_sizes(4, 5, 0), Err(ConfigError::ZeroDownsampling));
}

#[test]
fn test_hop_size_equals_window_size() {
    let hop_size = 128;
    let window_size = 128;
    let downsampling = 2;
    let chunk_size = 256;
    let window_count = 10;
    let sample_count = chunk_size * window_count;
    let samples = vec![0.0_f32; sample_count];
    let mut processor = WindowProcessor::new(downsampling, window_size, hop_size, 0.0).unwrap();
    let mut recorder = WindowRecorder::new();
    let mut first_idx = 0;
    while first_idx < sample_count {
        let chunk = &samples[first_idx..(first_idx + chunk_size)];
        processor.process(chunk, &mut recorder);
        first_idx += chunk_size;
    }
    assert_eq!(recorder.windows.len(), window_count);
}

#[test]
fn test_window_processing() {
    let window_size = 15;

    // An input buffer with values 0, 1, 2, 3, 4....
    let input_buffer: Vec<f32> = (0..(5 * window_size)).map(|v| v as f32).collect();
    assert_eq!(input_buffer.len(), 5 * window_size);

    // Test various combinations of downsampling, hop size and chunk size.
    for downsampling in 1..10 {
        for hop_size in 1..=window_size {
            for chunk_size in 1..5 * window_size {
                let mut processor =
                    WindowProcessor::new(downsampling, window_size, hop_size, 0.0).unwrap();
                let mut recorder = WindowRecorder::new();
                let mut input_buffer_pos = 0;
                // Feed the processor chunks of chunk_size samples
                while input_buffer_pos < input_buffer.len() {
                    let chunk_start_idx = input_buffer_pos;
                    let current_chunk_size = chunk_size.min(input_buffer.len() - chunk_start_idx);
                    let chunk_end_idx = input_buffer_pos + current_chunk_size;
                    let chunk = &input_buffer[chunk_start_idx..chunk_end_idx];
                    assert_eq!(chunk.len(), current_chunk_size);

                    processor.process(chunk, &mut recorder);

                    input_buffer_pos += chunk_size
                }
                for (processed_window_count, window) in recorder.windows.iter().enumerate() {
                    // The first sample of the extracted window corresponds to
                    // the expected input_buffer value.
                    assert_eq!(
                        window[0],
                        input_buffer[downsampling * processed_window_count * hop_size]
                    );
                    assert_eq!(window.len(), window_size);
                }
            }
        }
    }
}

#[test]
fn chunking_does_not_change_the_windows() {
    let input: Vec<u32> = (0..100).collect();
    let mut whole = WindowProcessor::new(3, 8, 3, 0_u32).unwrap();
    let mut expected = WindowRecorder::new();
    whole.process(&input, &mut expected);
    for chunk_size in 1..40 {
        let mut chunked = WindowProcessor::new(3, 8, 3, 0_u32).unwrap();
        let mut got = WindowRecorder::new();
        for chunk in input.chunks(chunk_size) {
            chunked.process(chunk, &mut got);
        }
        assert_eq!(got.windows, expected.windows);
    }
    // 34 samples are kept (0, 3, ..., 99); windows start every 3 kept samples.
    assert_eq!(expected.windows.len(), (34 - 8) / 3 + 1);
    assert_eq!(expected.windows[0], vec![0, 3, 6, 9, 12, 15, 18, 21]);
    assert_eq!(expected.windows[1], vec![9, 12, 15, 18, 21, 24, 27, 30]);
}

#[test]
fn no_window_before_the_buffer_is_full() {
    let mut processor = WindowProcessor::new(1, 4, 2, 0_u32).unwrap();
    let mut got = WindowRecorder::new();
    processor.process(&[1, 2, 3], &mut got);
    assert!(got.windows.is_empty());
    processor.process(&[4], &mut got);
    assert_eq!(got.windows, vec![vec![1, 2, 3, 4]]);
    processor.process(&[5, 6, 7, 8], &mut got);
    assert_eq!(got.windows, vec![vec![1, 2, 3, 4], vec![3, 4, 5, 6], vec![5, 6, 7, 8]]);
}

#[test]
fn reset_starts_over() {
    let mut processor = WindowProcessor::new(2, 3, 3, 0_u32).unwrap();
    let mut got = WindowRecorder::new();
    processor.process(&[1, 2, 3], &mut got);
    processor.reset();
    processor.process(&[10, 11, 12, 13, 14, 15], &mut got);
    assert_eq!(got.windows, vec![vec![10, 12, 14]]);
    assert_eq!(processor.downsampling(), 2);
    assert_eq!(processor.downsampled_window_size(), 3);
    assert_eq!(processor.downsampled_hop_size(), 3);
}

#[test]
fn recorder_keeps_every_window() {
    // Window 10, hop 4: windows start at input 0, 4 and 8 of 20 samples.
    let input: Vec<f32> = (0..20).map(|v| v as f32).collect();
    let mut processor = WindowProcessor::new(1, 10, 4, 0.0_f32).unwrap();
    let mut recorder = WindowRecorder::new();
    processor.process(&input, &mut recorder);
    assert_eq!(recorder.windows.len(), 3);
    for (k, window) in recorder.windows.iter().enumerate() {
        assert_eq!(window.as_slice(), &input[4 * k..4 * k + 10]);
    }
}

#[test]
fn unfilled_downsampled_window_calls_no_handler() {
    // 4096 inputs downsampled by 4 give 1024 samples, short of 2048.
    let mut processor = WindowProcessor::new(4, 2048, 2048, 0.0_f32).unwrap();
    let mut recorder = WindowRecorder::new();
    processor.process(&vec![1.0_f32; 2048], &mut recorder);
    processor.process(&vec![1.0_f32; 2048], &mut recorder);
    assert!(recorder.windows.is_empty());
}

#[test]
fn latest_window_holds_the_last_window() {
    let mut processor = WindowProcessor::new(1, 3, 1, 0_u32).unwrap();
    let mut latest = LatestWindow::new(3, 0_u32);
    assert!(!latest.take_pending());
    processor.process(&[1, 2], &mut latest);
    assert!(!latest.take_pending());
    processor.process(&[3, 4, 5], &mut latest);
    assert!(latest.take_pending());
    assert_eq!(latest.window(), &[3, 4, 5]);
    assert!(!latest.take_pending());
}
