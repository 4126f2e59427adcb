use native_audio_capture::resampler::{
    clamp_pcm, coefficient_at, Resampler, COEFFICIENT_SCALE, OUTPUT_RATE, PCM_MAX, PCM_MIN,
    TAP_COUNT,
};

/// The mean of two channels in single precision.
fn mix(left: f32, right: f32) -> f32 {
    (left + right) * 0.5
}

/// The coefficient set in single precision.
fn taps() -> [f32; 15] {
    let mut taps = [0.0f32; 15];
    for i in 0..15 {
        taps[i] = coefficient_at(i) as f32 / COEFFICIENT_SCALE as f32;
    }
    taps
}

/// The filter value of a delay line, scaled to full scale and rounded.
fn filter(window: &Vec<f32>) -> i64 {
    let taps = taps();
    let mut filtered = 0.0f32;
    for i in 0..15 {
        filtered += window[i] * taps[i];
    }
    (filtered * PCM_MAX as f32).round() as i64
}

fn process(r: &mut Resampler<f32>, input: &[f32], channels: u32, input_rate: u32) -> Vec<i16> {
    r.process(input, channels, input_rate, mix, filter)
}

/// The whole pipeline written in one piece, for comparison.
fn in_one_piece(input: &[f32], channels: usize, input_rate: u32) -> Vec<i16> {
    let taps: [f32; 15] = [
        0.0024, 0.0060, 0.0177, 0.0393, 0.0694, 0.1013, 0.1268, 0.1372, 0.1268, 0.1013, 0.0694,
        0.0393, 0.0177, 0.0060, 0.0024,
    ];
    let factor = (input_rate / 16000) as usize;
    let mut out = Vec::new();
    if factor == 0 {
        return out;
    }
    let mut delay = vec![0.0f32; 15];
    let mut phase = 0usize;
    for frame in 0..input.len() / channels {
        let mono = if channels >= 2 {
            (input[frame * channels] + input[frame * channels + 1]) * 0.5
        } else {
            input[frame * channels]
        };
        delay.remove(0);
        delay.push(mono);
        phase += 1;
        if phase >= factor {
            phase = 0;
            let mut filtered = 0.0f32;
            for i in 0..15 {
                filtered += delay[i] * taps[i];
            }
            out.push((filtered * 32767.0).round().clamp(-32768.0, 32767.0) as i16);
        }
    }
    out
}

#[test]
fn test_decimation_ratio() {
    let mut r = Resampler::new(0.0f32);
    // 4800 mono samples at 48kHz = 100ms → should produce ~1600 samples at 16kHz
    let input = vec![0.0f32; 4800];
    let output = process(&mut r, &input, 1, 48000);
    assert_eq!(output.len(), 1600);
}

#[test]
fn test_stereo_to_mono() {
    let mut r = Resampler::new(0.0f32);
    // Stereo input: left=0.5, right=-0.5 → mono should be ~0.0
    let mut input = Vec::new();
    for _ in 0..4800 {
        input.push(0.5f32);
        input.push(-0.5f32);
    }
    let output = process(&mut r, &input, 2, 48000);
    // After filter settles, output should be near 0
    for &s in &output[10..] {
        assert!(s.abs() < 100, "Expected near-zero, got {}", s);
    }
}

#[test]
fn test_clipping_protection() {
    let mut r = Resampler::new(0.0f32);
    let input = vec![2.0f32; 4800]; // Over-range input
    let output = process(&mut r, &input, 1, 48000);
    for &s in &output {
        assert!(s <= 32767 && s >= -32768);
    }
}

#[test]
fn constants_are_those_of_the_pipeline() {
    assert_eq!(TAP_COUNT, 15);
    assert_eq!(OUTPUT_RATE, 16000);
    assert_eq!((PCM_MIN, PCM_MAX), (-32768, 32767));
    assert_eq!(COEFFICIENT_SCALE, 10000);
}

#[test]
fn coefficient_table_holds_the_decimal_set() {
    let table: Vec<u32> = (0..15).map(coefficient_at).collect();
    assert_eq!(
        table,
        vec![24, 60, 177, 393, 694, 1013, 1268, 1372, 1268, 1013, 694, 393, 177, 60, 24]
    );
    assert_eq!(table.iter().sum::<u32>(), 8630);
    assert_eq!(coefficient_at(15), 0);
    assert_eq!(coefficient_at(usize::MAX), 0);
    let decimal: [f32; 15] = [
        0.0024, 0.0060, 0.0177, 0.0393, 0.0694, 0.1013, 0.1268, 0.1372, 0.1268, 0.1013, 0.0694,
        0.0393, 0.0177, 0.0060, 0.0024,
    ];
    assert_eq!(taps(), decimal);
}

#[test]
fn clamp_keeps_the_range_and_cuts_beyond() {
    assert_eq!(clamp_pcm(0), 0);
    assert_eq!(clamp_pcm(1), 1);
    assert_eq!(clamp_pcm(-1), -1);
    assert_eq!(clamp_pcm(32766), 32766);
    assert_eq!(clamp_pcm(32767), 32767);
    assert_eq!(clamp_pcm(32768), 32767);
    assert_eq!(clamp_pcm(65536), 32767);
    assert_eq!(clamp_pcm(-32767), -32767);
    assert_eq!(clamp_pcm(-32768), -32768);
    assert_eq!(clamp_pcm(-32769), -32768);
    assert_eq!(clamp_pcm(-65536), -32768);
    assert_eq!(clamp_pcm(i64::MAX), 32767);
    assert_eq!(clamp_pcm(i64::MIN), -32768);
}

#[test]
fn stereo_of_opposite_channels_is_silent_from_the_first_sample() {
    let mut r = Resampler::new(0.0f32);
    let mut input = Vec::new();
    for _ in 0..300 {
        input.push(0.5f32);
        input.push(-0.5f32);
    }
    assert_eq!(process(&mut r, &input, 2, 48000), vec![0i16; 100]);
}

#[test]
fn unit_step_settles_at_the_filter_gain() {
    let mut r = Resampler::new(0.0f32);
    let output = process(&mut r, &[1.0f32; 30], 1, 48000);
    assert_eq!(output, vec![855, 7736, 20542, 27423, 28278, 28278, 28278, 28278, 28278, 28278]);
}

#[test]
fn impulse_response_is_the_coefficient_set() {
    let mut input = vec![0.0f32; 17];
    input[0] = 1.0;
    let output = process(&mut Resampler::new(0.0f32), &input, 1, 16000);
    assert_eq!(
        output,
        vec![79, 197, 580, 1288, 2274, 3319, 4155, 4496, 4155, 3319, 2274, 1288, 580, 197, 79, 0, 0]
    );
}

#[test]
fn samples_are_carried_as_they_are() {
    // A sample between two steps of any fixed grid, just below the rounding
    // boundary of the first tap.
    let x = f32::from_bits(0x3bd0_56e0);
    assert_eq!(process(&mut Resampler::new(0.0f32), &[x], 1, 16000), vec![0]);
    // Large channels that nearly cancel: the mean is one half.
    let input = [1000.0f32, -999.0, 1000.0, -999.0, 1000.0, -999.0];
    assert_eq!(process(&mut Resampler::new(0.0f32), &input, 2, 48000), vec![428]);
    // Far over range, clamped at the output only.
    let input = [200.0f32, 0.0, 0.0];
    assert_eq!(process(&mut Resampler::new(0.0f32), &input, 1, 16000), vec![15728, 32767, 32767]);
}

#[test]
fn stereo_is_averaged() {
    let mut input = Vec::new();
    for _ in 0..24 {
        input.push(0.5f32);
        input.push(0.25f32);
    }
    let output = process(&mut Resampler::new(0.0f32), &input, 2, 48000);
    assert_eq!(output, vec![321, 2901, 7703, 10284, 10604, 10604, 10604, 10604]);
}

#[test]
fn channels_beyond_the_second_are_ignored() {
    let mut input = Vec::new();
    for _ in 0..6 {
        input.push(0.5f32);
        input.push(0.25f32);
        input.push(-1.0f32);
    }
    assert_eq!(process(&mut Resampler::new(0.0f32), &input, 3, 48000), vec![321, 2901]);
}

#[test]
fn trailing_part_of_a_frame_is_left_out() {
    let input = [0.5f32, 0.25, 0.5, 0.25, 0.5, 0.25, 1.0];
    assert_eq!(process(&mut Resampler::new(0.0f32), &input, 2, 48000), vec![321]);
}

#[test]
fn over_range_input_is_clamped_on_both_sides() {
    let output = process(&mut Resampler::new(0.0f32), &[2.0f32; 30], 1, 48000);
    assert_eq!(output, vec![1710, 15473, 32767, 32767, 32767, 32767, 32767, 32767, 32767, 32767]);
    let output = process(&mut Resampler::new(0.0f32), &[-2.0f32; 30], 1, 48000);
    assert_eq!(
        output,
        vec![-1710, -15473, -32768, -32768, -32768, -32768, -32768, -32768, -32768, -32768]
    );
    let output = process(&mut Resampler::new(0.0f32), &[f32::INFINITY; 30], 1, 48000);
    assert_eq!(output, vec![32767; 10]);
    let output = process(&mut Resampler::new(0.0f32), &[f32::NEG_INFINITY; 30], 1, 48000);
    assert_eq!(output, vec![-32768; 10]);
    let output = process(&mut Resampler::new(0.0f32), &[-1.0e30f32; 30], 1, 48000);
    assert_eq!(output, vec![-32768; 10]);
}

#[test]
fn not_a_number_gives_zero_while_it_is_in_the_delay_line() {
    let mut input = vec![1.0f32; 18];
    input[0] = f32::NAN;
    let output = process(&mut Resampler::new(0.0f32), &input, 1, 16000);
    assert_eq!(&output[..15], &[0i16; 15]);
    assert_eq!(&output[15..], &[28278, 28278, 28278]);
}

#[test]
fn rate_below_the_output_rate_gives_nothing_and_changes_nothing() {
    let mut r = Resampler::new(0.0f32);
    assert_eq!(process(&mut r, &[1.0f32; 10], 1, 15999), Vec::<i16>::new());
    assert_eq!(process(&mut r, &[1.0f32; 10], 1, 0), Vec::<i16>::new());
    // No channel at all is accepted at such a rate.
    assert_eq!(process(&mut r, &[1.0f32; 10], 0, 15999), Vec::<i16>::new());
    assert_eq!(process(&mut r, &[], 0, 0), Vec::<i16>::new());
    // The history is still silent and the phase still zero.
    assert_eq!(process(&mut r, &[1.0f32; 6], 1, 48000), vec![855, 7736]);
}

#[test]
fn rate_that_is_no_multiple_uses_the_whole_quotient() {
    let output = process(&mut Resampler::new(0.0f32), &[0.25f32; 9], 1, 44100);
    assert_eq!(output, vec![69, 536, 1934, 4097]);
}

#[test]
fn empty_input_gives_nothing() {
    let mut r = Resampler::new(0.0f32);
    assert_eq!(process(&mut r, &[], 1, 48000), Vec::<i16>::new());
    assert_eq!(process(&mut r, &[], 2, 48000), Vec::<i16>::new());
    assert_eq!(process(&mut r, &[1.0f32], 2, 48000), Vec::<i16>::new());
}

#[test]
fn other_factors_keep_the_gate() {
    let ramp: Vec<f32> = (0..64).map(|i| i as f32 / 64.0 - 0.5).collect();
    assert_eq!(
        process(&mut Resampler::new(0.0f32), &ramp, 1, 32000),
        vec![
            -136, -1053, -3747, -7765, -10925, -11925, -11447, -10604, -9721, -8837, -7953, -7069,
            -6186, -5302, -4418, -3535, -2651, -1767, -884, 0, 884, 1767, 2651, 3535, 4418, 5302,
            6186, 7069, 7953, 8837, 9721, 10604
        ]
    );
    assert_eq!(
        process(&mut Resampler::new(0.0f32), &ramp[..20], 1, 16000),
        vec![
            -39, -136, -422, -1053, -2156, -3747, -5703, -7765, -9587, -10925, -11690, -11925,
            -11787, -11447, -11046, -10604, -10162, -9721, -9279, -8837
        ]
    );
}

#[test]
fn phase_left_by_a_larger_factor_fires_at_the_next_frame() {
    let mut r = Resampler::new(0.0f32);
    assert_eq!(process(&mut r, &[1.0f32; 2], 1, 48000), Vec::<i16>::new());
    assert_eq!(process(&mut r, &[1.0f32; 3], 1, 16000), vec![855, 2143, 4417]);
    let mut r = Resampler::new(0.0f32);
    assert_eq!(process(&mut r, &[0.5f32; 5], 1, 96000), Vec::<i16>::new());
    assert_eq!(process(&mut r, &[0.5f32; 5], 1, 32000), vec![3868, 8193, 11930]);
}

#[test]
fn chunking_does_not_change_results() {
    let input: Vec<f32> = (0..600).map(|i| ((i * 37 % 201) as f32 - 100.0) / 90.0).collect();
    for &(channels, rate) in &[(1u32, 48000u32), (2, 48000), (1, 32000), (2, 96000), (3, 16000)] {
        let mut whole = Resampler::new(0.0f32);
        let expected = process(&mut whole, &input, channels, rate);
        let after = process(&mut whole, &input[..30], channels, rate);
        assert!(!expected.is_empty());
        let frames = input.len() / channels as usize;
        for cut in 0..=frames {
            let at = cut * channels as usize;
            let mut r = Resampler::new(0.0f32);
            let mut got = process(&mut r, &input[..at], channels, rate);
            got.extend(process(&mut r, &input[at..], channels, rate));
            assert_eq!(got, expected, "cut at frame {}", cut);
            // The state is the same too: what follows is the same.
            assert_eq!(process(&mut r, &input[..30], channels, rate), after);
        }
    }
}

#[test]
fn many_small_chunks_give_the_stream_of_one_call() {
    let input: Vec<f32> = (0..999).map(|i| ((i * 53 % 173) as f32 - 86.0) / 100.0).collect();
    let expected = process(&mut Resampler::new(0.0f32), &input, 1, 48000);
    assert_eq!(expected.len(), 333);
    let mut r = Resampler::new(0.0f32);
    let mut got = Vec::new();
    let mut at = 0;
    let mut size = 1;
    while at < input.len() {
        let end = (at + size).min(input.len());
        got.extend(process(&mut r, &input[at..end], 1, 48000));
        at = end;
        size = size % 7 + 1;
    }
    assert_eq!(got, expected);
}

#[test]
fn reset_gives_the_fresh_resampler() {
    let mut r = Resampler::new(0.0f32);
    process(&mut r, &[1.0f32; 31], 1, 48000);
    r.reset();
    let zeros = [0.0f32; 48];
    let after_reset = process(&mut r, &zeros, 1, 48000);
    assert_eq!(after_reset, vec![0i16; 16]);
    assert_eq!(after_reset, process(&mut Resampler::new(0.0f32), &zeros, 1, 48000));
    // Phase and history are those of a new resampler for any input.
    r.reset();
    process(&mut r, &[0.7f32; 2], 1, 48000);
    r.reset();
    let input = [0.3f32, -0.2, 0.9, 0.1, 0.0, -0.6, 0.4];
    assert_eq!(process(&mut r, &input, 1, 48000), vec![205, 1711]);
    assert_eq!(process(&mut Resampler::new(0.0f32), &input, 1, 48000), vec![205, 1711]);
    // A second reset changes nothing.
    r.reset();
    r.reset();
    assert_eq!(process(&mut r, &input, 1, 48000), vec![205, 1711]);
}

#[test]
fn without_reset_the_history_is_kept() {
    let mut r = Resampler::new(0.0f32);
    process(&mut r, &[1.0f32; 30], 1, 48000);
    assert_eq!(process(&mut r, &[0.0f32; 3], 1, 48000), vec![27423]);
}

#[test]
fn is_the_pipeline_in_one_piece() {
    let mut seed: u32 = 12345;
    let mut next = move || {
        seed = seed.wrapping_mul(1664525).wrapping_add(1013904223);
        (seed >> 8) as f32 / 8388608.0 - 1.0
    };
    for &(channels, rate) in
        &[(1usize, 48000u32), (2, 48000), (1, 16000), (2, 32000), (3, 96000), (2, 44100)]
    {
        for &scale in &[1.1f32, 1.0e-6, 300.0, 1.0e20] {
            let input: Vec<f32> = (0..3000).map(|_| next() * scale).collect();
            let expected = in_one_piece(&input, channels, rate);
            let got = process(&mut Resampler::new(0.0f32), &input, channels as u32, rate);
            assert_eq!(got, expected);
        }
    }
    // Every kind of bit pattern, not numbers included.
    let mut bits: u32 = 0x9e37_79b9;
    let input: Vec<f32> = (0..6000)
        .map(|_| {
            bits = bits.wrapping_mul(1664525).wrapping_add(1013904223);
            f32::from_bits(bits)
        })
        .collect();
    assert_eq!(
        process(&mut Resampler::new(0.0f32), &input, 2, 48000),
        in_one_piece(&input, 2, 48000)
    );
}
