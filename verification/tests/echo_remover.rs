use sonora::capture_scratch::CaptureScratch;
use sonora::echo_path_variability::{DelayAdjustment, EchoPathVariability};
use sonora::echo_remover::{
    EchoRemover, EchoSpectrum, FilteredSpectra, NearendSpectrum, RemoverAction, RemoverConfig,
    RemoverEvent,
};
use sonora::fft_data::{linear_echo_power, FftData};
use sonora::sample::Sample;
use sonora::subtractor_output::{
    form_linear_filter_output, signal_transition, use_refined_filter_output, SubtractorOutput,
};

fn s(v: f32) -> Sample {
    Sample::from_bits(v.to_bits())
}

fn f(v: Sample) -> f32 {
    f32::from_bits(v.to_bits())
}

fn default_config() -> RemoverConfig {
    RemoverConfig {
        enable_coarse_filter_output_usage: true,
        has_clock_drift: false,
    }
}

/// Performs what the remover asks for; `fill` stands for the components that
/// work on the buffers.
fn run<F: FnMut(&mut EchoRemover, RemoverAction)>(
    remover: &mut EchoRemover,
    variability: EchoPathVariability,
    saturated: bool,
    linear_output: bool,
    state: (bool, bool, bool),
    capture: &Vec<Vec<Sample>>,
    mut fill: F,
) -> Vec<RemoverAction> {
    let (triggered, use_linear_filter_output, usable_linear_estimate) = state;
    let mut actions = Vec::new();
    let mut action = remover.process_capture(variability, saturated, linear_output);
    while action != RemoverAction::Finish {
        actions.push(action);
        fill(remover, action);
        let event = match action {
            RemoverAction::CheckTransition => RemoverEvent::Transition { triggered },
            RemoverAction::UpdateState => RemoverEvent::StateUpdated {
                use_linear_filter_output,
                usable_linear_estimate,
            },
            _ => RemoverEvent::Done,
        };
        action = remover.resume(capture, event);
    }
    actions
}

fn unchanged() -> EchoPathVariability {
    EchoPathVariability::new(false, DelayAdjustment::Unchanged, false)
}

#[test]
fn basic_api_calls() {
    for num_render_channels in [1, 2] {
        for num_capture_channels in [1, 2] {
            for &rate in &[16000, 32000, 48000] {
                let mut remover = EchoRemover::new(
                    default_config(),
                    rate,
                    num_render_channels,
                    num_capture_channels,
                );
                let capture = vec![vec![s(0.0); 64]; num_capture_channels];

                for k in 0..100 {
                    let echo_path_variability = EchoPathVariability::new(
                        k % 3 == 0,
                        if k % 5 == 0 {
                            DelayAdjustment::NewDetectedDelay
                        } else {
                            DelayAdjustment::Unchanged
                        },
                        false,
                    );
                    let actions = run(
                        &mut remover,
                        echo_path_variability,
                        k % 2 == 0,
                        false,
                        (false, false, false),
                        &capture,
                        |_, _| {},
                    );
                    assert_eq!(
                        actions[0],
                        RemoverAction::UpdateCaptureSaturation { saturated: k % 2 == 0 }
                    );
                }
                assert_eq!(remover.block_counter(), 100);
                assert_eq!(remover.num_render_channels(), num_render_channels);
                assert_eq!(remover.num_capture_channels(), num_capture_channels);
            }
        }
    }
}

#[test]
fn echo_remover_set_capture_output_usage() {
    let mut remover = EchoRemover::new(default_config(), 16000, 1, 1);
    remover.set_capture_output_usage(false);
    assert!(!remover.capture_output_used());
    remover.set_capture_output_usage(true);
    assert!(remover.capture_output_used());
}

#[test]
fn update_echo_leakage_status() {
    let mut remover = EchoRemover::new(default_config(), 16000, 1, 1);
    remover.update_echo_leakage_status(true);
    assert!(remover.echo_leakage_detected());
    remover.update_echo_leakage_status(false);
    assert!(!remover.echo_leakage_detected());
}

#[test]
fn signal_transition_same_buffer() {
    let a = [s(1.0f32); 64];
    let mut out = vec![s(0.0f32); 64];
    signal_transition(&a, &a, true, &mut out);
    assert_eq!(out.as_slice(), &a);
}

#[test]
fn signal_transition_crossfade() {
    let from = [s(0.0f32); 64];
    let to = [s(1.0f32); 64];
    let mut out = vec![s(0.0f32); 64];
    signal_transition(&from, &to, false, &mut out);
    // First sample should be close to 0, last sample in transition close to 1.
    assert!(f(out[0]) > 0.0 && f(out[0]) < 0.1);
    assert!(f(out[29]) > 0.9 && f(out[29]) < 1.0);
    // After transition, should be exactly 1.0.
    for &v in &out[30..] {
        assert_eq!(f(v), 1.0);
    }
}

#[test]
fn transition_weights_are_exact() {
    let from: Vec<Sample> = (0..64).map(|k| s(100.0 - k as f32)).collect();
    let to: Vec<Sample> = (0..64).map(|k| s(k as f32 * 0.37 - 4.0)).collect();
    let mut out = vec![s(0.0f32); 64];
    signal_transition(&from, &to, false, &mut out);
    for k in 0..30 {
        let a = (k + 1) as f32 * (1.0 / 31.0f32);
        assert_eq!(out[k], s(a * f(to[k]) + (1.0 - a) * f(from[k])));
    }
    assert_eq!(&out[30..], &to[30..]);
}

fn output(
    e2_coarse_sum: f32,
    e2_refined_sum: f32,
    y2: f32,
    s2_refined: f32,
    s2_coarse: f32,
) -> SubtractorOutput {
    let mut o = SubtractorOutput::new();
    o.e2_coarse_sum = s(e2_coarse_sum);
    o.e2_refined_sum = s(e2_refined_sum);
    o.y2 = s(y2);
    o.s2_refined = s(s2_refined);
    o.s2_coarse = s(s2_coarse);
    o
}

#[test]
fn refined_output_is_used_unless_the_coarse_one_is_clearly_better() {
    // Better by the margin, on a loud signal and a loud echo.
    assert!(!use_refined_filter_output(&output(89.0, 100.0, 57601.0, 230401.0, 0.0)));
    assert!(!use_refined_filter_output(&output(89.0, 100.0, 57601.0, 0.0, 230401.0)));
    // Margin, signal and echo each at the threshold.
    assert!(use_refined_filter_output(&output(90.0, 100.0, 57601.0, 230401.0, 0.0)));
    assert!(use_refined_filter_output(&output(89.0, 100.0, 57600.0, 230401.0, 0.0)));
    assert!(use_refined_filter_output(&output(89.0, 100.0, 57601.0, 230400.0, 230400.0)));
    // Diverged refined filter.
    assert!(!use_refined_filter_output(&output(99.0, 100.0, 99.0, 0.0, 0.0)));
    assert!(use_refined_filter_output(&output(100.0, 100.0, 99.0, 0.0, 0.0)));
    assert!(use_refined_filter_output(&output(99.0, 100.0, 100.0, 0.0, 0.0)));
    // Comparisons with what is not a number fail.
    assert!(use_refined_filter_output(&output(f32::NAN, 100.0, 99.0, 0.0, 0.0)));
}

#[test]
fn filter_output_is_faded_in_where_it_changes() {
    let mut o = SubtractorOutput::new();
    o.e_refined = vec![s(1.0); 64];
    o.e_coarse = vec![s(-1.0); 64];
    let mut e = vec![s(0.0); 64];
    form_linear_filter_output(true, true, &o, &mut e);
    assert_eq!(e, o.e_refined);
    form_linear_filter_output(false, false, &o, &mut e);
    assert_eq!(e, o.e_coarse);
    form_linear_filter_output(true, false, &o, &mut e);
    assert!(f(e[0]) > 0.9 && f(e[29]) < -0.9);
    assert_eq!(&e[30..], &o.e_coarse[30..]);
}

#[test]
fn echo_power_is_the_squared_distance() {
    let mut e = FftData::new();
    let mut y = FftData::new();
    y.re[3] = s(5.0);
    e.re[3] = s(2.0);
    y.im[3] = s(-1.0);
    e.im[3] = s(3.0);
    let mut s2 = vec![s(9.0); 65];
    linear_echo_power(&e, &y, &mut s2);
    assert_eq!(s2[3], s(25.0));
    assert_eq!(s2[4], s(0.0));
}

#[test]
fn scratch_is_reset_to_what_it_was() {
    let mut scratch = CaptureScratch::new(2);
    scratch.e[1][5] = s(1.0);
    scratch.r2[0][64] = s(2.0);
    scratch.y_fft[1].im[0] = s(3.0);
    scratch.comfort_noise[0].re[7] = s(4.0);
    scratch.subtractor_output[1].e_coarse[9] = s(5.0);
    scratch.subtractor_output[0].y2 = s(6.0);
    scratch.reset();
    let fresh = CaptureScratch::new(2);
    assert_eq!(scratch.e, fresh.e);
    assert_eq!(scratch.r2, fresh.r2);
    for (ours, theirs) in [
        (&scratch.y2, &fresh.y2),
        (&scratch.e2, &fresh.e2),
        (&scratch.r2_unbounded, &fresh.r2_unbounded),
        (&scratch.s2_linear, &fresh.s2_linear),
    ] {
        assert_eq!(ours, theirs);
    }
    for (ours, theirs) in [
        (&scratch.y_fft, &fresh.y_fft),
        (&scratch.e_fft, &fresh.e_fft),
        (&scratch.comfort_noise, &fresh.comfort_noise),
        (&scratch.high_band_comfort_noise, &fresh.high_band_comfort_noise),
    ] {
        assert_eq!(format!("{ours:?}"), format!("{theirs:?}"));
    }
    assert_eq!(
        format!("{:?}", scratch.subtractor_output),
        format!("{:?}", fresh.subtractor_output)
    );
}

#[test]
fn gain_change_is_acted_on_once_per_frame() {
    let mut remover = EchoRemover::new(default_config(), 16000, 1, 1);
    let capture = vec![vec![s(0.0); 64]];
    let mut acted = Vec::new();
    for change in [true, true, true, true, false, true, true, false, true] {
        let variability = EchoPathVariability::new(change, DelayAdjustment::Unchanged, false);
        let actions =
            run(&mut remover, variability, false, false, (false, false, false), &capture, |_, _| {});
        acted.push(actions.iter().any(|a| {
            matches!(a, RemoverAction::HandleEchoPathChange { variability } if variability.gain_change)
        }));
        // The change is told whether or not it is acted on.
        assert_eq!(
            actions
                .iter()
                .any(|a| matches!(a, RemoverAction::HandleEchoPathChange { .. })),
            change
        );
    }
    assert_eq!(acted, [true, false, false, true, false, false, true, false, false]);
}

#[test]
fn steps_follow_what_is_reported() {
    let mut remover = EchoRemover::new(default_config(), 16000, 1, 1);
    let capture = vec![vec![s(0.0); 64]];
    let actions =
        run(&mut remover, unchanged(), false, false, (false, false, false), &capture, |_, _| {});
    assert_eq!(
        actions,
        vec![
            RemoverAction::UpdateCaptureSaturation { saturated: false },
            RemoverAction::AnalyzeRender,
            RemoverAction::CheckTransition,
            RemoverAction::Subtract,
            RemoverAction::Transform,
            RemoverAction::UpdateState,
            RemoverAction::EstimateResidualEcho,
            RemoverAction::ComputeComfortNoise { nearend: NearendSpectrum::Capture },
            RemoverAction::ComputeGain {
                nearend: NearendSpectrum::Capture,
                echo: EchoSpectrum::Residual,
                clock_drift: false,
            },
            RemoverAction::ApplyGain { spectra: FilteredSpectra::Capture },
            RemoverAction::UpdateMetrics,
        ]
    );

    let flushed = EchoPathVariability::new(false, DelayAdjustment::BufferFlush, true);
    let actions = run(&mut remover, flushed, false, true, (true, true, true), &capture, |_, _| {});
    assert_eq!(
        actions,
        vec![
            RemoverAction::UpdateCaptureSaturation { saturated: false },
            RemoverAction::HandleEchoPathChange { variability: flushed },
            RemoverAction::EnterInitialState,
            RemoverAction::AnalyzeRender,
            RemoverAction::CheckTransition,
            RemoverAction::ExitInitialState,
            RemoverAction::Subtract,
            RemoverAction::Transform,
            RemoverAction::ReturnLinearOutput,
            RemoverAction::UpdateState,
            RemoverAction::EstimateResidualEcho,
            RemoverAction::ComputeComfortNoise { nearend: NearendSpectrum::LinearOutput },
            RemoverAction::ComputeGain {
                nearend: NearendSpectrum::LinearOutput,
                echo: EchoSpectrum::Linear,
                clock_drift: true,
            },
            RemoverAction::ApplyGain { spectra: FilteredSpectra::LinearOutput },
            RemoverAction::UpdateMetrics,
        ]
    );
}

#[test]
fn unused_output_gets_no_gain() {
    let mut remover = EchoRemover::new(default_config(), 16000, 1, 1);
    let capture = vec![vec![s(0.0); 64]];
    run(&mut remover, unchanged(), false, false, (false, false, false), &capture, |r, a| {
        if matches!(a, RemoverAction::ComputeGain { .. }) {
            r.gain_mut()[2] = s(0.5);
        }
    });
    assert_eq!(remover.gain()[2], s(0.5));
    remover.set_capture_output_usage(false);
    let actions =
        run(&mut remover, unchanged(), false, false, (false, false, true), &capture, |_, _| {});
    assert_eq!(remover.gain(), &vec![s(0.0); 65]);
    assert!(!actions.contains(&RemoverAction::EstimateResidualEcho));
    assert!(!actions
        .iter()
        .any(|a| matches!(a, RemoverAction::ComputeGain { .. } | RemoverAction::ApplyGain { .. })));
}

#[test]
fn block_is_worked_on_step_by_step() {
    let mut remover = EchoRemover::new(default_config(), 16000, 1, 2);
    let capture = vec![vec![s(7.0); 64], vec![s(8.0); 64]];
    let mut linear = vec![vec![s(0.0); 64]; 2];
    run(&mut remover, unchanged(), false, true, (false, true, true), &capture, |r, a| match a {
        RemoverAction::Subtract => {
            let scratch = r.scratch_mut();
            for c in 0..2 {
                scratch.subtractor_output[c].e_refined = vec![s(1.0 + c as f32); 64];
                scratch.subtractor_output[c].e_coarse = vec![s(-1.0); 64];
            }
            // Channel 0 favors the coarse filter, channel 1 does not.
            scratch.subtractor_output[0].e2_refined_sum = s(100.0);
            scratch.subtractor_output[0].e2_coarse_sum = s(1.0);
        }
        RemoverAction::Transform => {
            assert_eq!(r.y_old(), &vec![vec![s(0.0); 64]; 2]);
            assert_eq!(r.e_old(), &vec![vec![s(0.0); 64]; 2]);
            let scratch = r.scratch_mut();
            scratch.y_fft[1].re[0] = s(4.0);
            scratch.e_fft[1].re[0] = s(1.0);
            scratch.y2[1][0] = s(16.0);
            scratch.e2[1][0] = s(20.0);
            scratch.y2[1][1] = s(16.0);
            scratch.e2[1][1] = s(3.0);
        }
        RemoverAction::ReturnLinearOutput => r.copy_linear_output(&mut linear),
        _ => {}
    });
    assert_eq!(linear, vec![vec![s(1.0); 64], vec![s(2.0); 64]]);
    assert_eq!(remover.e_old(), &linear);
    assert_eq!(remover.y_old(), &capture);
    assert_eq!(remover.scratch().s2_linear[1][0], s(9.0));
    assert_eq!(remover.scratch().s2_linear[0][0], s(0.0));
    assert_eq!(remover.scratch().e2[1][0], s(16.0));
    assert_eq!(remover.scratch().e2[1][1], s(3.0));

    // No channel favors the refined filter: all fade to the coarse one.
    run(&mut remover, unchanged(), false, false, (false, true, false), &capture, |r, a| match a {
        RemoverAction::Subtract => {
            let scratch = r.scratch_mut();
            assert_eq!(scratch.e2[1][0], s(0.0));
            for c in 0..2 {
                scratch.subtractor_output[c].e_refined = vec![s(1.0); 64];
                scratch.subtractor_output[c].e_coarse = vec![s(-1.0); 64];
                scratch.subtractor_output[c].e2_refined_sum = s(100.0);
            }
        }
        RemoverAction::Transform => {
            r.scratch_mut().y2[1][0] = s(16.0);
            r.scratch_mut().e2[1][0] = s(20.0);
        }
        _ => {}
    });
    assert!(f(remover.e_old()[0][0]) > 0.9);
    assert_eq!(remover.e_old()[0][30], s(-1.0));
    // An estimate that is not usable is not bounded.
    assert_eq!(remover.scratch().e2[1][0], s(20.0));
}

#[test]
fn coarse_output_has_to_be_enabled() {
    let config = RemoverConfig { enable_coarse_filter_output_usage: false, has_clock_drift: true };
    let mut remover = EchoRemover::new(config, 16000, 1, 1);
    let capture = vec![vec![s(0.0); 64]];
    let actions =
        run(&mut remover, unchanged(), false, false, (false, false, false), &capture, |r, a| {
            if a == RemoverAction::Subtract {
                let o = &mut r.scratch_mut().subtractor_output[0];
                o.e_refined = vec![s(1.0); 64];
                o.e2_refined_sum = s(100.0);
            }
        });
    assert_eq!(remover.e_old()[0], vec![s(1.0); 64]);
    assert!(actions
        .iter()
        .any(|a| matches!(a, RemoverAction::ComputeGain { clock_drift: true, .. })));
}

#[test]
fn linear_output_does_not_depend_on_the_use_of_the_output() {
    let capture = vec![vec![s(3.0); 64]];
    let mut outputs = Vec::new();
    for unused in [false, true] {
        let mut remover = EchoRemover::new(default_config(), 16000, 1, 1);
        let mut linear = vec![vec![s(0.0); 64]];
        let mut blocks = Vec::new();
        for k in 0..12 {
            if unused {
                remover.set_capture_output_usage(k % 3 == 0);
                remover.update_echo_leakage_status(k % 2 == 0);
            }
            let state = (unused, unused, !unused);
            run(&mut remover, unchanged(), unused, true, state, &capture, |r, a| match a {
                RemoverAction::Subtract => {
                    let o = &mut r.scratch_mut().subtractor_output[0];
                    o.e_refined = vec![s(k as f32); 64];
                    o.e_coarse = vec![s(-1.0); 64];
                    // Every fourth block favors the coarse filter.
                    o.e2_refined_sum = s(if k % 4 == 3 { 100.0 } else { 0.0 });
                }
                RemoverAction::ReturnLinearOutput => {
                    r.copy_linear_output(&mut linear);
                    blocks.push(linear.clone());
                }
                _ => {}
            });
        }
        assert_eq!(blocks.len(), 12);
        outputs.push(blocks);
    }
    assert_eq!(outputs[0], outputs[1]);
    assert_eq!(outputs[0][3][0][63], s(-1.0));
    assert_eq!(outputs[0][4][0][63], s(4.0));
}

#[test]
fn coarse_output_is_chosen_only_with_a_lower_error() {
    for k in 0..200u32 {
        // Down into the subnormal values, where a product rounds coarsely.
        let refined = f32::from_bits(1 + k * k * 40_000);
        for coarse in [refined, refined * 1.5, f32::INFINITY] {
            assert!(use_refined_filter_output(&output(coarse, refined, 60000.0, 3e5, 3e5)));
        }
    }
    // The smallest power times the margin rounds to itself.
    assert!(!use_refined_filter_output(&output(0.0, f32::from_bits(1), 60000.0, 3e5, 3e5)));
}
