# sonora

The front end of an acoustic echo canceller: audio buffers, the framing of the
render and capture signals, and the decisions of the canceller and of the echo
remover. The library in `src/` is verified with Verus: every function is proved
to do what its contract says, and not to panic on the inputs that it admits.

## Samples

A `Sample` is an IEEE 754 binary32 value, held by its bit pattern. Its
arithmetic runs in integer registers and is proved to be correctly rounded, so
that averages, format conversions and fades have exact contracts.

## Layout

- `rounding`, `sample`, `conversion`: samples, their arithmetic, their formats
- `planes`, `frame`: nested sample storage, frames and sub-frames
- `stream_config`, `audio_buffer`: the buffer that audio comes in and goes out by
- `block_delay_buffer`: a fixed delay of the capture signal
- `render_writer`, `echo_canceller3`: the top level of the canceller
- `fft_data`, `subtractor_output`, `capture_scratch`, `echo_path_variability`,
  `echo_remover`: echo removal block by block
- `common`: rates and sizes

`EchoCanceller3` and `EchoRemover` are state machines. They say what is to be
done next and prepare the samples for it; a driver performs the action and
reports back. `AudioBuffer` works the same way where a resampler or a filter
bank comes in. `app/` holds such drivers, for `f32` streams; the components that
they drive are its traits.

What holds across several functions is stated by public proof functions, next to
the functions that it is about.
