use sonora::audio_buffer::AudioBuffer;
use sonora::block_delay_buffer::BlockDelayBuffer;
use sonora::echo_canceller3::{
    detect_saturation, Action, ActiveConfig, EchoCanceller3, Event, ProcessorCall,
};
use sonora::frame::{
    copy_buffer_into_frame, fill_sub_frame_from_audio_buffer, fill_sub_frame_from_render_frame,
    write_sub_frame_to_audio_buffer,
};
use sonora::sample::Sample;
use std::collections::VecDeque;

fn s(v: f32) -> Sample {
    Sample::from_bits(v.to_bits())
}

fn f(v: Sample) -> f32 {
    f32::from_bits(v.to_bits())
}

fn create_audio_buffer(sample_rate_hz: usize, num_channels: usize) -> AudioBuffer {
    AudioBuffer::new(
        sample_rate_hz,
        num_channels,
        sample_rate_hz,
        num_channels,
        sample_rate_hz,
    )
}

fn default_config() -> ActiveConfig {
    ActiveConfig {
        fixed_capture_delay_samples: 0,
        high_pass_filter_echo_reference: false,
        export_linear_aec_output: false,
    }
}

/// Performs what the canceller asks for, with sub-frames of 80 and blocks of 64
/// samples, and negates the capture signal.
struct Driver {
    queue: VecDeque<Vec<Vec<Vec<Sample>>>>,
    detections: VecDeque<(bool, bool, bool)>,
    temporary: bool,
    render_samples: usize,
    capture_samples: usize,
    render_sub_frames: Vec<Vec<Vec<Vec<Sample>>>>,
    render_blocks: usize,
    calls: Vec<ProcessorCall>,
    reinitialised: Vec<(bool, usize)>,
    rejected: bool,
}

impl Driver {
    fn new() -> Self {
        Self {
            queue: VecDeque::new(),
            detections: VecDeque::new(),
            temporary: false,
            render_samples: 0,
            capture_samples: 0,
            render_sub_frames: Vec::new(),
            render_blocks: 0,
            calls: Vec::new(),
            reinitialised: Vec::new(),
            rejected: false,
        }
    }

    fn analyze_render(&mut self, ec3: &mut EchoCanceller3, render: &AudioBuffer) {
        ec3.analyze_render(render);
        self.queue.push_back(ec3.render_input_frame_mut().clone());
    }

    fn process_capture(
        &mut self,
        ec3: &mut EchoCanceller3,
        capture: &mut AudioBuffer,
        linear_output: bool,
        level_change: bool,
    ) -> usize {
        let mut action = ec3.process_capture(capture, linear_output, level_change);
        let mut events = 0;
        loop {
            let event = match action {
                Action::RejectLinearOutput => {
                    self.rejected = true;
                    return events;
                }
                Action::Finish => return events,
                Action::TakeRenderFrame => match self.queue.pop_front() {
                    Some(frame) => {
                        *ec3.render_frame_mut() = frame;
                        Event::FrameTaken
                    }
                    None => Event::QueueEmpty { temporary: self.temporary },
                },
                Action::DetectContent => {
                    let (changed, proper, temporary) =
                        self.detections.pop_front().unwrap_or((false, false, self.temporary));
                    self.temporary = temporary;
                    Event::Detected { changed, proper, temporary }
                }
                Action::Reinitialise { proper, num_render_channels } => {
                    self.reinitialised.push((proper, num_render_channels));
                    self.render_samples = 0;
                    Event::Reinitialised { delays_capture: false }
                }
                Action::BufferRenderSubFrame => {
                    self.render_sub_frames.push(ec3.render_sub_frame_view().clone());
                    self.render_samples += 80 - 64;
                    self.render_blocks += 1;
                    Event::Done
                }
                Action::CheckRenderBlock => {
                    Event::BlockAvailable { available: self.render_samples >= 64 }
                }
                Action::BufferRenderBlock => {
                    self.render_samples -= 64;
                    self.render_blocks += 1;
                    Event::Done
                }
                Action::ProcessSubFrame { call } => {
                    self.calls.push(call);
                    self.capture_samples += 80 - 64;
                    for band in ec3.capture_sub_frame_mut() {
                        for channel in band {
                            for v in channel {
                                *v = v.negated();
                            }
                        }
                    }
                    Event::Done
                }
                Action::CheckCaptureBlock => {
                    Event::BlockAvailable { available: self.capture_samples >= 64 }
                }
                Action::ProcessBlock { call } => {
                    self.calls.push(call);
                    self.capture_samples -= 64;
                    Event::Done
                }
            };
            events += 1;
            action = ec3.resume(capture, event);
        }
    }
}

#[test]
fn construct_default_config_16khz() {
    let ec3 = EchoCanceller3::new(default_config(), 16000, 1, 1);
    assert_eq!(ec3.num_bands(), 1);
    assert_eq!(ec3.num_render_input_channels(), 1);
    assert_eq!(ec3.num_capture_channels(), 1);
    assert!(ec3.active_processing());
}

#[test]
fn construct_default_config_48khz() {
    let ec3 = EchoCanceller3::new(default_config(), 48000, 1, 1);
    assert_eq!(ec3.num_bands(), 3);
}

#[test]
fn construct_stereo() {
    let ec3 = EchoCanceller3::new(default_config(), 48000, 2, 2);
    assert_eq!(ec3.num_render_input_channels(), 2);
    assert_eq!(ec3.num_capture_channels(), 2);
    // Initially mono until stereo content is detected.
    assert_eq!(ec3.num_render_channels_to_aec(), 1);
}

#[test]
fn analyze_and_process_mono_16khz() {
    let mut ec3 = EchoCanceller3::new(default_config(), 16000, 1, 1);
    let mut driver = Driver::new();

    let render = create_audio_buffer(16000, 1);
    let mut capture = create_audio_buffer(16000, 1);

    for _ in 0..10 {
        driver.analyze_render(&mut ec3, &render);
        ec3.analyze_capture(&capture);
        driver.process_capture(&mut ec3, &mut capture, false, false);
    }
    // Ten frames of 160 samples make 25 blocks.
    assert_eq!(driver.render_blocks, 25);
    assert_eq!(driver.calls.len(), 25);
}

#[test]
fn analyze_and_process_mono_48khz() {
    let mut ec3 = EchoCanceller3::new(default_config(), 48000, 1, 1);
    let mut driver = Driver::new();

    let render = create_audio_buffer(48000, 1);
    let mut capture = create_audio_buffer(48000, 1);

    for _ in 0..10 {
        driver.analyze_render(&mut ec3, &render);
        ec3.analyze_capture(&capture);
        driver.process_capture(&mut ec3, &mut capture, false, false);
    }
    assert_eq!(driver.render_blocks, 25);
    assert_eq!(driver.calls.len(), 25);
}

#[test]
fn saturation_detection() {
    let mut ec3 = EchoCanceller3::new(default_config(), 16000, 1, 1);

    let mut capture = create_audio_buffer(16000, 1);

    // No saturation with normal signal.
    ec3.analyze_capture(&capture);
    assert!(!ec3.saturated_microphone_signal());

    // Saturated signal.
    let data = capture.channel_mut(0);
    data[0] = s(32700.0);
    ec3.analyze_capture(&capture);
    assert!(ec3.saturated_microphone_signal());
}

#[test]
fn saturation_has_two_sides() {
    assert!(detect_saturation(&[s(0.0), s(-32700.0)]));
    assert!(detect_saturation(&[s(f32::INFINITY)]));
    assert!(!detect_saturation(&[s(32699.998), s(-32699.998), s(f32::NAN)]));
    assert!(!detect_saturation(&[]));
}

#[test]
fn block_delay_buffer_basic() {
    let mut buf = BlockDelayBuffer::new(1, 1, 160, 10);
    let mut audio = create_audio_buffer(16000, 1);

    for i in 0..160 {
        audio.split_band_mut(0, 0)[i] = s((i + 1) as f32);
    }

    buf.delay_signal(&mut audio);

    // First 10 samples should be zeros (the delay).
    for i in 0..10 {
        assert_eq!(f(audio.split_band(0, 0)[i]), 0.0, "sample {i} should be delayed");
    }
    // Samples 10..160 should be the first ones, 1..151.
    for i in 10..160 {
        assert_eq!(f(audio.split_band(0, 0)[i]), (i - 9) as f32, "sample {i} mismatch");
    }
}

#[test]
fn block_delay_buffer_zero_delay() {
    let mut buf = BlockDelayBuffer::new(1, 1, 160, 0);
    let mut audio = create_audio_buffer(16000, 1);

    for i in 0..160 {
        audio.split_band_mut(0, 0)[i] = s((i + 1) as f32);
    }

    buf.delay_signal(&mut audio);

    // No delay: the signal should be unchanged.
    for i in 0..160 {
        assert_eq!(f(audio.split_band(0, 0)[i]), (i + 1) as f32);
    }
}

#[test]
fn block_delay_buffer_shifts_a_stream() {
    // More than a frame of delay, over several frames, bands and channels.
    let delay = 230;
    let mut buf = BlockDelayBuffer::new(2, 2, 160, delay);
    for frame in 0..6usize {
        let mut audio = create_audio_buffer(32000, 2);
        for c in 0..2 {
            for b in 0..2 {
                for i in 0..160 {
                    let n = frame * 160 + i + 1;
                    audio.split_band_mut(c, b)[i] = s((n * (1 + c + 2 * b)) as f32);
                }
            }
        }
        buf.delay_signal(&mut audio);
        for c in 0..2 {
            for b in 0..2 {
                for i in 0..160 {
                    let n = frame * 160 + i + 1;
                    let expected = if n > delay { (n - delay) * (1 + c + 2 * b) } else { 0 };
                    assert_eq!(audio.split_band(c, b)[i], s(expected as f32));
                }
            }
        }
    }
}

#[test]
fn capture_signal_is_replaced_by_the_processed_one() {
    let mut ec3 = EchoCanceller3::new(default_config(), 32000, 1, 2);
    let mut driver = Driver::new();
    let mut capture = create_audio_buffer(32000, 2);
    for c in 0..2 {
        for b in 0..2 {
            for i in 0..160 {
                capture.split_band_mut(c, b)[i] = s((1 + i + 1000 * c + 3000 * b) as f32);
            }
        }
    }
    // No render frame: the queue, two sub-frames, and the check for a block.
    assert_eq!(driver.process_capture(&mut ec3, &mut capture, false, false), 4);
    for c in 0..2 {
        for b in 0..2 {
            for i in 0..160 {
                assert_eq!(
                    capture.split_band(c, b)[i],
                    s(-((1 + i + 1000 * c + 3000 * b) as f32))
                );
            }
        }
    }
}

#[test]
fn every_queued_frame_is_buffered_before_the_capture_signal() {
    let mut ec3 = EchoCanceller3::new(default_config(), 16000, 1, 1);
    let mut driver = Driver::new();
    let mut render = create_audio_buffer(16000, 1);
    for n in 0..3 {
        for i in 0..160 {
            render.channel_mut(0)[i] = s((n * 160 + i) as f32);
        }
        driver.analyze_render(&mut ec3, &render);
    }
    let mut capture = create_audio_buffer(16000, 1);
    let events = driver.process_capture(&mut ec3, &mut capture, false, false);
    // Five events for each frame, one more for the block that four sub-frames
    // leave, and four for the capture signal.
    assert_eq!(events, 3 * 5 + 1 + 4);
    assert_eq!(driver.render_sub_frames.len(), 6);
    for (n, view) in driver.render_sub_frames.iter().enumerate() {
        assert_eq!(view[0][0][0], s((n * 80) as f32));
        assert_eq!(view[0][0][79], s((n * 80 + 79) as f32));
    }
}

#[test]
fn stereo_render_is_mixed_down_until_it_is_detected() {
    let mut ec3 = EchoCanceller3::new(default_config(), 16000, 2, 1);
    let mut driver = Driver::new();
    let mut render = create_audio_buffer(16000, 2);
    for i in 0..160 {
        render.channel_mut(0)[i] = s(1.0);
        render.channel_mut(1)[i] = s(4.0);
    }
    for _ in 0..3 {
        driver.analyze_render(&mut ec3, &render);
    }
    // Mono content, stereo for the time being, proper stereo.
    driver.detections.push_back((false, false, false));
    driver.detections.push_back((false, false, true));
    driver.detections.push_back((true, true, false));
    let mut capture = create_audio_buffer(16000, 1);
    driver.process_capture(&mut ec3, &mut capture, false, false);

    let views = &driver.render_sub_frames;
    assert_eq!(views.len(), 6);
    for view in &views[0..2] {
        assert_eq!(view[0], vec![vec![s(1.0); 80]]);
    }
    for view in &views[2..4] {
        assert_eq!(view[0], vec![vec![s(2.5); 80]]);
    }
    for view in &views[4..6] {
        assert_eq!(view[0], vec![vec![s(1.0); 80], vec![s(4.0); 80]]);
    }
    assert_eq!(driver.reinitialised, vec![(true, 2)]);
    assert_eq!(ec3.num_render_channels_to_aec(), 2);

    // And back again.
    driver.analyze_render(&mut ec3, &render);
    driver.detections.push_back((true, false, false));
    driver.process_capture(&mut ec3, &mut capture, false, false);
    assert_eq!(ec3.num_render_channels_to_aec(), 1);
}

#[test]
fn block_processor_is_told_of_changes() {
    let mut ec3 = EchoCanceller3::new(default_config(), 16000, 1, 1);
    let mut driver = Driver::new();
    let mut capture = create_audio_buffer(16000, 1);
    capture.channel_mut(0)[5] = s(-32768.0);
    ec3.analyze_capture(&capture);
    driver.process_capture(&mut ec3, &mut capture, false, true);
    assert_eq!(
        driver.calls,
        vec![
            ProcessorCall {
                echo_path_gain_change: true,
                capture_signal_saturation: true,
                linear_output: false,
            };
            2
        ]
    );
    driver.calls.clear();
    driver.temporary = true;
    ec3.analyze_capture(&create_audio_buffer(16000, 1));
    driver.process_capture(&mut ec3, &mut capture, false, false);
    assert_eq!(
        driver.calls,
        vec![
            ProcessorCall {
                echo_path_gain_change: true,
                capture_signal_saturation: false,
                linear_output: false,
            };
            3
        ]
    );
}

#[test]
fn linear_output_has_to_be_configured() {
    let mut capture = create_audio_buffer(16000, 1);
    let mut plain = EchoCanceller3::new(default_config(), 16000, 1, 1);
    assert!(!plain.exports_linear_output());
    assert!(plain.linear_output_sub_frame_mut().is_none());
    let mut driver = Driver::new();
    driver.process_capture(&mut plain, &mut capture, true, false);
    assert!(driver.rejected);
    assert!(driver.calls.is_empty());

    let config = ActiveConfig { export_linear_aec_output: true, ..default_config() };
    let mut exporting = EchoCanceller3::new(config, 16000, 1, 1);
    assert!(exporting.exports_linear_output());
    assert_eq!(exporting.linear_output_sub_frame_mut().unwrap()[0][0].len(), 80);
    let mut driver = Driver::new();
    driver.process_capture(&mut exporting, &mut capture, true, false);
    assert!(!driver.rejected);
    assert!(driver.calls.iter().all(|call| call.linear_output));
}

#[test]
fn capture_signal_is_delayed() {
    let config = ActiveConfig { fixed_capture_delay_samples: 10, ..default_config() };
    let mut ec3 = EchoCanceller3::new(config, 16000, 1, 1);
    let mut driver = Driver::new();
    let mut capture = create_audio_buffer(16000, 1);
    for i in 0..160 {
        capture.channel_mut(0)[i] = s((i + 1) as f32);
    }
    driver.process_capture(&mut ec3, &mut capture, false, false);
    assert_eq!(f(capture.channel(0)[9]), 0.0);
    assert_eq!(f(capture.channel(0)[10]), -1.0);
    assert_eq!(f(capture.channel(0)[159]), -150.0);
}

#[test]
fn high_pass_filter_is_asked_for() {
    let config = ActiveConfig { high_pass_filter_echo_reference: true, ..default_config() };
    let render = create_audio_buffer(16000, 1);
    assert!(EchoCanceller3::new(config, 16000, 1, 1).analyze_render(&render));
    assert!(!EchoCanceller3::new(default_config(), 16000, 1, 1).analyze_render(&render));
}

#[test]
fn sub_frames_are_read_and_written() {
    let mut audio = create_audio_buffer(48000, 1);
    for b in 0..3 {
        for i in 0..160 {
            audio.split_band_mut(0, b)[i] = s((b * 200 + i) as f32);
        }
    }
    let mut view = vec![vec![vec![s(0.0); 80]]; 3];
    fill_sub_frame_from_audio_buffer(&audio, 1, &mut view);
    assert_eq!(view[2][0][0], s(480.0));
    write_sub_frame_to_audio_buffer(&view, 0, &mut audio);
    assert_eq!(audio.split_band(0, 2)[0], s(480.0));
    assert_eq!(audio.split_band(0, 2)[79], s(559.0));
    assert_eq!(audio.split_band(0, 2)[80], s(480.0));

    let mut frame = vec![vec![vec![s(0.0); 160]]; 3];
    copy_buffer_into_frame(&audio, 3, 1, &mut frame);
    assert_eq!(frame[1][0].as_slice(), audio.split_band(0, 1));

    let mut stereo = vec![vec![vec![s(1.0); 160], vec![s(2.0); 160]]];
    let mut mono = vec![vec![vec![s(0.0); 80]]];
    fill_sub_frame_from_render_frame(true, &mut stereo, 1, &mut mono);
    assert_eq!(mono[0][0], vec![s(1.5); 80]);
    assert_eq!(stereo[0][0][79], s(1.0));
    assert_eq!(stereo[0][0][80], s(1.5));
}

#[test]
fn untouched_capture_signal_is_kept() {
    let mut ec3 = EchoCanceller3::new(default_config(), 48000, 1, 1);
    let mut capture = create_audio_buffer(48000, 1);
    for b in 0..3 {
        for i in 0..160 {
            capture.split_band_mut(0, b)[i] = s((b * 160 + i) as f32);
        }
    }
    let mut action = ec3.process_capture(&mut capture, false, false);
    while action != Action::Finish {
        let event = match action {
            Action::TakeRenderFrame => Event::QueueEmpty { temporary: false },
            Action::CheckCaptureBlock => Event::BlockAvailable { available: true },
            _ => Event::Done,
        };
        action = ec3.resume(&mut capture, event);
    }
    for b in 0..3 {
        for i in 0..160 {
            assert_eq!(capture.split_band(0, b)[i], s((b * 160 + i) as f32));
        }
    }
}

#[test]
fn mixing_down_one_sub_frame_keeps_the_other() {
    let mut render = vec![vec![vec![s(2.0); 160], vec![s(6.0); 160]]];
    let mut view = vec![vec![vec![s(0.0); 80]]];
    fill_sub_frame_from_render_frame(true, &mut render, 0, &mut view);
    assert_eq!(view[0][0], vec![s(4.0); 80]);
    fill_sub_frame_from_render_frame(true, &mut render, 1, &mut view);
    assert_eq!(view[0][0], vec![s(4.0); 80]);
}

#[test]
fn reason_of_a_gain_change_does_not_matter() {
    let mut results = Vec::new();
    for (level_change, temporary) in [(true, false), (false, true), (true, true)] {
        let mut ec3 = EchoCanceller3::new(default_config(), 16000, 1, 1);
        let mut driver = Driver::new();
        driver.temporary = temporary;
        let mut capture = create_audio_buffer(16000, 1);
        for i in 0..160 {
            capture.channel_mut(0)[i] = s(i as f32);
        }
        driver.process_capture(&mut ec3, &mut capture, false, level_change);
        results.push((driver.calls, capture.channel(0).to_vec()));
    }
    assert!(results[0].0.iter().all(|call| call.echo_path_gain_change));
    assert_eq!(results[0], results[1]);
    assert_eq!(results[0], results[2]);
}

#[test]
fn capture_call_keeps_full_band_channels_and_saturation() {
    let mut ec3 = EchoCanceller3::new(default_config(), 32000, 1, 1);
    let mut driver = Driver::new();
    let mut capture = create_audio_buffer(32000, 1);
    capture.channel_mut(0)[7] = s(32767.0);
    capture.split_band_mut(0, 1)[7] = s(5.0);
    ec3.analyze_capture(&capture);
    driver.process_capture(&mut ec3, &mut capture, false, false);
    assert_eq!(capture.split_band(0, 1)[7], s(-5.0));
    assert_eq!(capture.channel(0)[7], s(32767.0));
    assert!(ec3.saturated_microphone_signal());
}

#[test]
fn sub_frame_step_changes_its_own_samples() {
    let mut ec3 = EchoCanceller3::new(default_config(), 16000, 1, 1);
    let mut capture = create_audio_buffer(16000, 1);
    ec3.process_capture(&mut capture, false, false);
    ec3.resume(&mut capture, Event::QueueEmpty { temporary: false });
    for step in 0..2 {
        for v in &mut ec3.capture_sub_frame_mut()[0][0] {
            *v = s(1.0 + step as f32);
        }
        ec3.resume(&mut capture, Event::Done);
        assert_eq!(f(capture.channel(0)[0]), 1.0);
        assert_eq!(f(capture.channel(0)[79]), 1.0);
        assert_eq!(f(capture.channel(0)[80]), 2.0 * step as f32);
        assert_eq!(f(capture.channel(0)[159]), 2.0 * step as f32);
    }
}

#[test]
fn empty_queue_leaves_the_render_side() {
    let mut ec3 = EchoCanceller3::new(default_config(), 16000, 2, 1);
    let mut driver = Driver::new();
    let mut render = create_audio_buffer(16000, 2);
    for i in 0..160 {
        render.channel_mut(0)[i] = s(i as f32);
    }
    driver.analyze_render(&mut ec3, &render);
    driver.detections.push_back((true, true, false));
    let mut capture = create_audio_buffer(16000, 1);
    driver.process_capture(&mut ec3, &mut capture, false, false);
    let frame = ec3.render_frame_mut().clone();
    let view = ec3.render_sub_frame_view().clone();
    driver.process_capture(&mut ec3, &mut capture, false, false);
    assert_eq!(ec3.render_frame_mut(), &frame);
    assert_eq!(ec3.render_sub_frame_view(), &view);
    assert_eq!(ec3.num_render_channels_to_aec(), 2);
    assert_eq!(driver.render_sub_frames.len(), 2);
}
