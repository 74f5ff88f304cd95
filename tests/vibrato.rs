use vibrato::vibrato::delay_line_capacity;
use vibrato::{Error, Param, VFilter, ONE};

// Samples in these tests carry ONE as full scale, so 1.0 is ONE and 0.5 is
// ONE / 2; times are in microseconds and frequencies in millihertz.
fn to_fixed(x: f32) -> i32 {
    (x * ONE as f32).round() as i32
}

fn to_f32(x: i32) -> f32 {
    x as f32 / ONE as f32
}

fn run(vibrato: &mut VFilter, input: &Vec<Vec<i32>>) -> Vec<Vec<i32>> {
    let mut output: Vec<Vec<i32>> = input.iter().map(|c| vec![0; c.len()]).collect();
    vibrato.process(input, &mut output);
    output
}

#[test]
fn test_vibrato() {
    let sample_rate_hz = 44100;
    let delay_us = 10_000; // 0.01 s
    let width_us = 5_000; // 0.005 s
    let mod_freq_mhz = 5_000; // 5 Hz
    let num_channels = 2;
    let vibrato = VFilter::new(sample_rate_hz, delay_us, width_us, mod_freq_mhz, num_channels).unwrap();
    let (delay_check, width_check, mod_freq_check) = vibrato.get_param();
    assert_eq!(delay_check, 10_000);
    assert_eq!(width_check, 5_000);
    assert_eq!(mod_freq_check, 5_000);
}

#[test]
fn test_set_param() {
    let mut vibrato = VFilter::new(44100, 10_000, 5_000, 5_000, 2).unwrap();
    let (delay_1, width_1, mod_freq_1) = vibrato.get_param();
    vibrato.set_param(20_000, 10_000, 10_000).unwrap();
    let (delay_2, width_2, mod_freq_2) = vibrato.get_param();
    assert_eq!(delay_1 * 2, delay_2);
    assert_eq!(width_1 * 2, width_2);
    assert_eq!(mod_freq_1 * 2, mod_freq_2);
}

#[test]
fn test_reset() {
    let mut vibrato = VFilter::new(44100, 10_000, 5_000, 5_000, 1).unwrap();
    let input = vec![vec![to_fixed(1.0); 44100]; 1];
    let output = run(&mut vibrato, &input);
    vibrato.reset();
    assert_eq!(output[0][0], 0);
}

#[test]
fn output_equals_delayed_input_with_zero_modulation() {
    let sample_rate_hz = 3;
    let delay_us = 1_000_000; // 3 samples of delay
    let width_us = 0; // No modulation
    let mod_freq_mhz = 5_000; // irrelevant here due to zero width
    let num_channels = 1;
    let mut vibrato = VFilter::new(sample_rate_hz, delay_us, width_us, mod_freq_mhz, num_channels).unwrap();
    let input_len = 5;
    let input = vec![vec![to_fixed(1.0); input_len]; num_channels];
    let output = run(&mut vibrato, &input);
    let delay_samples = 3;
    for i in 0..input_len {
        if i < delay_samples {
            assert_eq!(output[0][i], 0, "Output should be 0 for initial delay period");
        } else {
            assert_eq!(
                to_f32(output[0][i]),
                1.0,
                "Output should match delayed input after initial delay period"
            );
        }
    }
}

#[test]
fn dc_input_results_in_dc_output() {
    let mut vibrato = VFilter::new(44100, 10_000, 5_000, 5_000, 1).unwrap();
    let input_len = 441;
    let dc_value = 0.5;
    let input = vec![vec![to_fixed(dc_value); input_len]; 1];
    let output = run(&mut vibrato, &input);
    let transient_samples = 441;
    for channel in output.iter() {
        for &sample in channel.iter().skip(transient_samples) {
            assert!(
                (to_f32(sample) - dc_value).abs() < 0.001,
                "Output should remain constant (DC) after initial transient"
            );
        }
    }
}

#[test]
fn varying_input_block_size() {
    let mut vibrato = VFilter::new(44100, 10_000, 5_000, 5_000, 1).unwrap();
    for &input_len in &[100, 500, 1000] {
        let input = vec![vec![to_fixed(1.0); input_len]; 1];
        let output = run(&mut vibrato, &input);
        let transient_samples = 441;
        for channel in output.iter() {
            for &sample in channel.iter().skip(transient_samples) {
                assert!(
                    (to_f32(sample) - 1.0).abs() < 0.001,
                    "Output should remain constant (DC) after initial transient"
                );
            }
        }
    }
}

#[test]
fn zero_input_signal() {
    let mut vibrato = VFilter::new(44100, 10_000, 5_000, 5_000, 1).unwrap();
    let input = vec![vec![0; 441]; 1];
    let output = run(&mut vibrato, &input);
    for channel in output.iter() {
        for &sample in channel.iter() {
            assert_eq!(sample, 0, "Output should be 0 for zero input signal");
        }
    }
}

#[test]
fn vibrato_with_zero_delay() {
    let mut vibrato = VFilter::new(3, 0, 0, 5_000, 1).unwrap();
    let input = vec![vec![to_fixed(0.5); 5]; 1];
    let output = run(&mut vibrato, &input);
    for (input_channel, output_channel) in input.iter().zip(output.iter()) {
        for (input_sample, output_sample) in input_channel.iter().zip(output_channel.iter()) {
            assert_eq!(
                input_sample, output_sample,
                "The output should match the input exactly when delay is 0."
            );
        }
    }
}

fn ramp(n: usize, channels: usize) -> Vec<Vec<i32>> {
    (0..channels)
        .map(|c| (0..n).map(|i| ((i * 37 + c * 11) % 1000) as i32 * 50 - 25_000).collect())
        .collect()
}

#[test]
fn zero_delay_passes_any_input_on_every_channel() {
    let mut vibrato = VFilter::new(48000, 0, 0, 1_000, 3).unwrap();
    let input = ramp(300, 3);
    assert_eq!(run(&mut vibrato, &input), input);
}

#[test]
fn zero_width_delays_a_varying_input() {
    // 2 ms at 1 kHz: two samples of delay.
    let mut vibrato = VFilter::new(1000, 2_000, 0, 3_000, 1).unwrap();
    let input = vec![vec![5, -7, 9, 11, -13, 15]];
    let output = run(&mut vibrato, &input);
    assert_eq!(output, vec![vec![0, 0, 5, -7, 9, 11]]);
}

#[test]
fn block_size_does_not_matter() {
    let input = ramp(1000, 2);
    let mut whole = VFilter::new(44100, 10_000, 5_000, 5_000, 2).unwrap();
    let expected = run(&mut whole, &input);
    let mut chunked = VFilter::new(44100, 10_000, 5_000, 5_000, 2).unwrap();
    let mut got: Vec<Vec<i32>> = vec![Vec::new(), Vec::new()];
    for start in (0..1000).step_by(100) {
        let block: Vec<Vec<i32>> = input.iter().map(|c| c[start..start + 100].to_vec()).collect();
        let out = run(&mut chunked, &block);
        for c in 0..2 {
            got[c].extend_from_slice(&out[c]);
        }
    }
    assert_eq!(got, expected);
}

#[test]
fn channels_share_the_modulation() {
    let mut vibrato = VFilter::new(44100, 10_000, 5_000, 7_000, 2).unwrap();
    let one = ramp(2000, 1).remove(0);
    let input = vec![one.clone(), one];
    let output = run(&mut vibrato, &input);
    assert_eq!(output[0], output[1]);
    // The modulation does move the read position.
    let mut plain = VFilter::new(44100, 10_000, 0, 7_000, 1).unwrap();
    let unmodulated = run(&mut plain, &vec![input[0].clone()]);
    assert_ne!(output[0], unmodulated[0]);
}

#[test]
fn width_beyond_delay_is_refused() {
    let r = VFilter::new(44100, 10_000, 10_001, 5_000, 1);
    assert!(matches!(
        r,
        Err(Error::InvalidParameter { name: Param::Width, value: 10_001 })
    ));
    // Equal width and delay is accepted.
    assert!(VFilter::new(44100, 10_000, 10_000, 5_000, 1).is_ok());
}

#[test]
fn non_positive_modulation_frequency_is_refused() {
    let r = VFilter::new(44100, 10_000, 5_000, 0, 1);
    assert!(matches!(
        r,
        Err(Error::InvalidParameter { name: Param::ModFreq, value: 0 })
    ));
    let r = VFilter::new(44100, 10_000, 5_000, -2_000, 1);
    assert!(matches!(
        r,
        Err(Error::InvalidParameter { name: Param::ModFreq, value: -2_000 })
    ));
    assert_eq!(Param::ModFreq.name(), "modulation frequency in millihertz");
}

#[test]
fn refused_set_param_keeps_the_filter() {
    let mut vibrato = VFilter::new(1000, 2_000, 0, 3_000, 1).unwrap();
    run(&mut vibrato, &vec![vec![4, 5]]);
    let r = vibrato.set_param(1_000, 2_000, 3_000);
    assert_eq!(
        r,
        Err(Error::InvalidParameter { name: Param::Width, value: 2_000 })
    );
    assert_eq!(vibrato.get_param(), (2_000, 0, 3_000));
    // The history survived.
    assert_eq!(run(&mut vibrato, &vec![vec![6, 7]]), vec![vec![4, 5]]);
    assert_eq!(
        vibrato.set_param(2_000, 0, -1),
        Err(Error::InvalidParameter { name: Param::ModFreq, value: -1 })
    );
}

#[test]
fn set_param_drops_the_history() {
    let mut vibrato = VFilter::new(1000, 2_000, 0, 3_000, 1).unwrap();
    run(&mut vibrato, &vec![vec![4, 5]]);
    vibrato.set_param(1_000, 0, 3_000).unwrap();
    assert_eq!(run(&mut vibrato, &vec![vec![6, 7, 8]]), vec![vec![0, 6, 7]]);
}

#[test]
fn reset_silences_the_delay_lines() {
    let mut vibrato = VFilter::new(1000, 2_000, 0, 3_000, 2).unwrap();
    run(&mut vibrato, &vec![vec![4, 5], vec![1, 2]]);
    vibrato.reset();
    assert_eq!(
        run(&mut vibrato, &vec![vec![6, 7, 8], vec![3, 3, 3]]),
        vec![vec![0, 0, 6], vec![0, 0, 3]]
    );
}

#[test]
fn fractional_base_delay_interpolates() {
    // 15 us at 100 kHz is 1.5 samples; at 1 mHz the oscillator stays at 0.
    let mut vibrato = VFilter::new(100_000, 15, 10, 1, 1).unwrap();
    let output = run(&mut vibrato, &vec![vec![4, 0, 0]]);
    assert_eq!(output, vec![vec![0, 2, 2]]);
}

#[test]
fn delay_line_length_has_room_for_the_fraction() {
    assert_eq!(delay_line_capacity(44100, 10_000, 5_000), 2 + 441 + 2 * 220);
    assert_eq!(delay_line_capacity(3, 1_000_000, 0), 5);
}
