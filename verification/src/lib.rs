//! Verified front end of an acoustic echo canceller.
//!
//! `audio_buffer` takes 10 ms chunks of audio in and hands them out again,
//! `echo_canceller3` leads the render and the capture signal through the
//! canceller sub-frame by sub-frame, and `echo_remover` leads a block of the
//! capture signal through echo removal. Samples are binary32 values with correctly
//! rounded arithmetic (`sample`).

pub mod audio_buffer;
pub mod block_delay_buffer;
pub mod capture_scratch;
pub mod common;
pub mod conversion;
pub mod echo_canceller3;
pub mod echo_path_variability;
pub mod echo_remover;
pub mod fft_data;
pub mod frame;
pub mod planes;
pub mod render_writer;
pub mod rounding;
pub mod sample;
pub mod stream_config;
pub mod subtractor_output;
