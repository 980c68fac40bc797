use sonora::audio_buffer::{num_bands_from_frames_per_channel, AudioBuffer};
use sonora::sample::Sample;
use sonora::stream_config::StreamConfig;

fn s(v: f32) -> Sample {
    Sample::from_bits(v.to_bits())
}

fn f(v: Sample) -> f32 {
    f32::from_bits(v.to_bits())
}

fn plane(values: &[f32]) -> Vec<Sample> {
    values.iter().map(|&v| s(v)).collect()
}

/// Stretches a plane by linear interpolation.
fn stretch(samples: &[Sample], frames: usize) -> Vec<Sample> {
    (0..frames)
        .map(|i| {
            let at = i as f32 * samples.len() as f32 / frames as f32;
            let k = at as usize;
            let next = if k + 1 < samples.len() { f(samples[k + 1]) } else { f(samples[k]) };
            s(f(samples[k]) + (at - k as f32) * (next - f(samples[k])))
        })
        .collect()
}

#[test]
fn copy_without_resampling() {
    let mut ab1 = AudioBuffer::new(32000, 2, 32000, 2, 32000);
    let mut ab2 = AudioBuffer::new(32000, 2, 32000, 2, 32000);

    let num_ch = ab1.num_channels();
    let num_fr = ab1.num_frames();
    for ch in 0..num_ch {
        let channel = ab1.channel_mut(ch);
        for (i, sample) in channel.iter_mut().enumerate().take(num_fr) {
            *sample = s((i + ch) as f32);
        }
    }

    assert!(ab1.copy_to_buffer(&mut ab2));

    for ch in 0..ab2.num_channels() {
        let channel = ab2.channel(ch);
        for (i, &sample) in channel.iter().enumerate() {
            assert_eq!(f(sample), (i + ch) as f32);
        }
    }
}

#[test]
fn copy_with_resampling() {
    let mut ab1 = AudioBuffer::new(32000, 2, 32000, 2, 48000);
    let mut ab2 = AudioBuffer::new(48000, 2, 48000, 2, 48000);

    let pi = std::f32::consts::PI;
    let mut energy_ab1 = 0.0f32;
    let num_ch = ab1.num_channels();
    let num_fr = ab1.num_frames();
    for ch in 0..num_ch {
        let channel = ab1.channel_mut(ch);
        for (i, sample) in channel.iter_mut().enumerate().take(num_fr) {
            let v = (2.0 * pi * 100.0 / 32000.0 * i as f32).sin();
            *sample = s(v);
            energy_ab1 += v * v;
        }
    }

    assert_eq!(ab1.output_resampler_frames(), Some((320, 480)));
    assert!(!ab1.copy_to_buffer(&mut ab2));
    let planes: Vec<Vec<Sample>> = (0..num_ch).map(|ch| stretch(ab1.channel(ch), 480)).collect();
    ab1.finish_copy_to_buffer(&planes, &mut ab2);

    let mut energy_ab2 = 0.0f32;
    for ch in 0..ab2.num_channels() {
        for &sample in ab2.channel(ch) {
            energy_ab2 += f(sample) * f(sample);
        }
    }

    let expected = energy_ab2 * 32000.0 / 48000.0;
    assert!(
        (energy_ab1 - expected).abs() < 0.01 * energy_ab1,
        "energy mismatch: ab1={energy_ab1}, ab2_scaled={expected}",
    );
}

#[test]
fn band_splitting() {
    let mut ab = AudioBuffer::new(48000, 1, 48000, 1, 48000);
    assert_eq!(ab.num_bands(), 3);
    assert_eq!(ab.num_frames_per_band(), 160);
    assert!(ab.has_split_bands());

    for (i, sample) in ab.channel_mut(0).iter_mut().enumerate() {
        *sample = s((i as f32 / 48.0).sin() * 8192.0);
    }

    // Phase by phase, every third sample.
    let full: Vec<Sample> = ab.channel(0).to_vec();
    let bands: Vec<Vec<Sample>> = (0..3)
        .map(|b| full.iter().skip(b).step_by(3).copied().collect())
        .collect();
    ab.split_into_frequency_bands(&vec![bands]);

    let energy: f32 = ab.split_band(0, 0).iter().map(|&x| f(x) * f(x)).sum();
    assert!(energy > 0.0, "band 0 should have energy after splitting");
    for b in 0..3 {
        assert_eq!(ab.split_band(0, b)[7], full[7 * 3 + b]);
    }

    let merged = vec![full.iter().map(|&v| v.negated()).collect::<Vec<Sample>>()];
    ab.merge_frequency_bands(&merged);
    assert_eq!(ab.channel(0), merged[0].as_slice());
}

#[test]
fn single_band_no_splitting_filter() {
    let mut ab = AudioBuffer::new(16000, 1, 16000, 1, 16000);
    assert_eq!(ab.num_bands(), 1);
    assert_eq!(ab.num_frames(), 160);
    assert_eq!(ab.num_frames_per_band(), 160);
    assert!(!ab.has_split_bands());

    // Nothing to split or to merge.
    ab.channel_mut(0)[3] = s(5.0);
    ab.split_into_frequency_bands(&Vec::new());
    ab.merge_frequency_bands(&Vec::new());
    assert_eq!(ab.split_band(0, 0)[3], s(5.0));
}

#[test]
fn two_band_32khz() {
    let ab = AudioBuffer::new(32000, 1, 32000, 1, 32000);
    assert_eq!(ab.num_bands(), 2);
    assert_eq!(ab.num_frames(), 320);
    assert_eq!(ab.num_frames_per_band(), 160);
}

#[test]
fn downmix_by_averaging() {
    let mut ab = AudioBuffer::new(16000, 2, 16000, 1, 16000);
    ab.set_downmixing_by_averaging();

    let ch0 = vec![s(0.25f32); 160];
    let ch1 = vec![s(0.75f32); 160];
    let channels: Vec<&[Sample]> = vec![&ch0, &ch1];
    let config = StreamConfig::new(16000, 2);

    assert!(ab.copy_from_float(&channels, &config).is_empty());

    let channel = ab.channel(0);
    for &v in channel.iter() {
        let expected = 0.5 * 32768.0;
        let v = f(v);
        assert!((v - expected).abs() < 1.0, "expected ~{expected}, got {v}");
    }
    assert_eq!(channel[0], s(16384.0));
}

#[test]
fn downmix_specific_channel() {
    let mut ab = AudioBuffer::new(16000, 2, 16000, 1, 16000);
    ab.set_downmixing_to_specific_channel(1);

    let ch0 = vec![s(0.25f32); 160];
    let ch1 = vec![s(0.75f32); 160];
    let channels: Vec<&[Sample]> = vec![&ch0, &ch1];
    let config = StreamConfig::new(16000, 2);

    assert!(ab.copy_from_float(&channels, &config).is_empty());

    let channel = ab.channel(0);
    for &v in channel.iter() {
        let expected = 0.75 * 32768.0;
        let v = f(v);
        assert!((v - expected).abs() < 1.0, "expected ~{expected}, got {v}");
    }
    assert_eq!(channel[0], s(24576.0));
}

#[test]
fn a_channel_that_is_not_there_is_the_last_one() {
    let mut ab = AudioBuffer::new(16000, 2, 16000, 1, 16000);
    ab.set_downmixing_to_specific_channel(7);
    let mut data = vec![0i16; 320];
    data[1] = 11;
    assert!(ab
        .copy_from_interleaved_i16(&data, &StreamConfig::new(16000, 2))
        .is_empty());
    assert_eq!(ab.channel(0)[0], s(11.0));
}

#[test]
fn bands_come_from_frames() {
    assert_eq!(num_bands_from_frames_per_channel(160), 1);
    assert_eq!(num_bands_from_frames_per_channel(320), 2);
    assert_eq!(num_bands_from_frames_per_channel(480), 3);
    assert_eq!(num_bands_from_frames_per_channel(441), 1);
}

#[test]
fn interleaved_input_is_averaged() {
    let mut ab = AudioBuffer::new(16000, 2, 16000, 1, 16000);
    let mut data = vec![0i16; 320];
    data[0] = 3;
    data[1] = -8;
    data[2] = 32767;
    data[3] = 32767;
    assert!(ab
        .copy_from_interleaved_i16(&data, &StreamConfig::new(16000, 2))
        .is_empty());
    assert_eq!(ab.channel(0)[0], s(-2.5));
    assert_eq!(ab.channel(0)[1], s(32767.0));
}

#[test]
fn interleaved_data_comes_back() {
    let config = StreamConfig::new(16000, 2);
    let mut ab = AudioBuffer::new(16000, 2, 16000, 2, 16000);
    let data: Vec<i16> = (0..320).map(|i| (i * 205 - 32768) as i16).collect();
    assert!(ab.copy_from_interleaved_i16(&data, &config).is_empty());
    assert_eq!(ab.channel(1)[2], s(data[5] as f32));
    let mut out = vec![1i16; 322];
    assert!(ab.copy_to_interleaved_i16(&config, &mut out));
    assert_eq!(&out[..320], data.as_slice());
    assert_eq!(&out[320..], &[1, 1]);
}

#[test]
fn float_data_comes_back() {
    let config = StreamConfig::new(16000, 2);
    let mut ab = AudioBuffer::new(16000, 2, 16000, 2, 16000);
    let left: Vec<Sample> = (0..160).map(|i| s(i as f32 / 160.0 - 0.5)).collect();
    let right: Vec<Sample> = (0..160).map(|i| s(1.0 - i as f32 / 80.0)).collect();
    assert!(ab.copy_from_float(&[&left, &right], &config).is_empty());
    let mut out = vec![vec![s(0.0); 160], vec![s(0.0); 160]];
    assert!(ab.copy_to_float(&config, &mut out));
    assert_eq!(out, vec![left, right]);
}

#[test]
fn one_channel_goes_to_all_outputs() {
    let mut ab = AudioBuffer::new(16000, 1, 16000, 1, 16000);
    ab.channel_mut(0)[0] = s(8192.0);
    ab.channel_mut(0)[1] = s(40000.0);

    let config = StreamConfig::new(16000, 3);
    let mut out = vec![vec![s(9.0); 161]; 3];
    assert!(ab.copy_to_float(&config, &mut out));
    for c in 0..3 {
        assert_eq!(out[c][0], s(0.25));
        assert_eq!(out[c][1], s(1.0));
        assert_eq!(out[c][160], s(9.0));
    }

    let mut data = vec![0i16; 480];
    assert!(ab.copy_to_interleaved_i16(&config, &mut data));
    assert_eq!(&data[..7], &[8192, 8192, 8192, 32767, 32767, 32767, 0]);

    let mut wide = AudioBuffer::new(16000, 3, 16000, 3, 16000);
    assert!(ab.copy_to_buffer(&mut wide));
    assert_eq!(wide.channel(2)[0], s(8192.0));
}

#[test]
fn channels_are_repeated_in_interleaved_output() {
    let mut ab = AudioBuffer::new(16000, 2, 16000, 2, 16000);
    ab.channel_mut(0)[0] = s(10.0);
    ab.channel_mut(1)[0] = s(20.0);
    let mut data = vec![0i16; 160 * 5];
    assert!(ab.copy_to_interleaved_i16(&StreamConfig::new(16000, 5), &mut data));
    assert_eq!(&data[..5], &[10, 20, 10, 20, 10]);
}

#[test]
fn input_waits_for_the_resampler() {
    let config = StreamConfig::new(48000, 2);
    let mut ab = AudioBuffer::new(48000, 2, 16000, 2, 16000);
    assert_eq!(ab.input_resampler_frames(), Some((480, 160)));
    assert_eq!(ab.output_resampler_frames(), None);

    let left = vec![s(0.5); 480];
    let right = vec![s(2.0); 480];
    let pending = ab.copy_from_float(&[&left, &right], &config);
    assert_eq!(pending, vec![left, right]);
    assert_eq!(ab.channel(0)[0], s(0.0));
    ab.store_resampled_float(&vec![vec![s(0.5); 160], vec![s(2.0); 160]]);
    assert_eq!(ab.channel(0)[159], s(16384.0));
    assert_eq!(ab.channel(1)[0], s(32768.0));

    let mut data = vec![7i16; 960];
    data[1] = -3;
    let pending = ab.copy_from_interleaved_i16(&data, &config);
    assert_eq!(pending.len(), 2);
    assert_eq!(pending[0][0], s(7.0));
    assert_eq!(pending[1][0], s(-3.0));
    ab.store_resampled_s16(&vec![vec![s(7.0); 160], vec![s(-3.0); 160]]);
    assert_eq!(ab.channel(1)[0], s(-3.0));
}

#[test]
fn output_waits_for_the_resampler() {
    let config = StreamConfig::new(48000, 1);
    let mut ab = AudioBuffer::new(16000, 1, 16000, 1, 48000);
    for v in ab.channel_mut(0) {
        *v = s(16384.0);
    }
    let mut data = vec![0i16; 480];
    assert!(!ab.copy_to_interleaved_i16(&config, &mut data));
    let stretched = vec![stretch(ab.channel(0), 480)];
    ab.finish_copy_to_interleaved_i16(&stretched, &config, &mut data);
    assert_eq!(data, vec![16384i16; 480]);

    let mut out = vec![vec![s(0.0); 480]];
    assert!(!ab.copy_to_float(&config, &mut out));
    // The channel itself is float now.
    assert_eq!(ab.channel(0)[0], s(0.5));
    let stretched = vec![stretch(ab.channel(0), 480)];
    ab.finish_copy_to_float(&stretched, &config, &mut out);
    assert_eq!(out, vec![vec![s(0.5); 480]]);
}

#[test]
fn hidden_channels_are_restored() {
    let mut ab = AudioBuffer::new(16000, 2, 16000, 2, 16000);
    ab.set_num_channels(1);
    assert_eq!(ab.num_channels(), 1);
    let mut out = vec![plane(&[0.0; 160]), plane(&[0.25; 160])];
    ab.channel_mut(0)[0] = s(-32768.0);
    assert!(ab.copy_to_float(&StreamConfig::new(16000, 1), &mut out));
    assert_eq!(out[0][0], s(-1.0));
    assert_eq!(out[1][0], s(0.25));
    ab.restore_num_channels();
    assert_eq!(ab.num_channels(), 2);
}
