use std::f32::consts::PI;
use vibrato::{LFO, ONE};

fn to_f32(x: i64) -> f32 {
    x as f32 / ONE as f32
}

// This one is not realistic (wave table size > sample_rate, but easy for understanding)
#[test]
fn test_next_mod() {
    let mut lfo = LFO::new(2, 4);
    lfo.set_frequency(1000);
    lfo.set_amplitude(1);
    let val = to_f32(lfo.next_mod());
    assert!((val - 0.0).abs() < 0.0001);
}

#[test]
fn test_next_mod_frac() {
    let mut lfo = LFO::new(5, 3);
    lfo.set_frequency(1000);
    lfo.set_amplitude(1);
    let val = to_f32(lfo.next_mod());
    assert!((val - 0.6 * (2.0 * PI / 3.0).sin()).abs() < 0.0001);
}

#[test]
fn quarter_steps_hit_the_table_entries() {
    // One table entry per sample: the four quarter points of the sine.
    let mut lfo = LFO::new(4, 4);
    lfo.set_frequency(1000);
    let got: Vec<i64> = (0..8).map(|_| lfo.next_mod()).collect();
    let one = ONE as i64;
    assert_eq!(got, vec![one, 0, -one, 0, one, 0, -one, 0]);
}

#[test]
fn table_follows_the_sine() {
    let n: u32 = 360;
    let mut lfo = LFO::new(n, n as usize);
    lfo.set_frequency(1000);
    for i in 1..=n {
        let v = to_f32(lfo.next_mod());
        let expected = (2.0 * PI * (i % n) as f32 / n as f32).sin();
        assert!((v - expected).abs() < 0.0001, "entry {}: {} vs {}", i, v, expected);
    }
}

#[test]
fn amplitude_scales_the_output() {
    let mut lfo = LFO::new(4, 4);
    lfo.set_frequency(1000);
    lfo.set_amplitude(220);
    assert_eq!(lfo.next_mod(), 220 * ONE as i64);
}

#[test]
fn negative_frequency_runs_backwards() {
    let mut lfo = LFO::new(4, 4);
    lfo.set_frequency(-1000);
    let one = ONE as i64;
    assert_eq!(lfo.next_mod(), -one);
    assert_eq!(lfo.next_mod(), 0);
    assert_eq!(lfo.next_mod(), one);
    let (_, _, phase) = lfo.get_params();
    assert_eq!(phase, ONE as u64);
}

#[test]
fn periodic_after_rate_over_frequency_steps() {
    let mut lfo = LFO::new(1000, 1024);
    lfo.set_frequency(10_000);
    lfo.set_amplitude(100);
    let first = lfo.next_mod();
    for _ in 1..100 {
        lfo.next_mod();
    }
    let again = lfo.next_mod();
    // Within step rounding and the fixed-point resolution of the product.
    assert!((to_f32(again) - to_f32(first)).abs() < 0.01);
}

#[test]
fn exactly_periodic_when_steps_fill_the_table() {
    let mut lfo = LFO::new(48, 64);
    lfo.set_frequency(3000);
    lfo.set_amplitude(7);
    let first: Vec<i64> = (0..16).map(|_| lfo.next_mod()).collect();
    let second: Vec<i64> = (0..16).map(|_| lfo.next_mod()).collect();
    assert_eq!(first, second);
}

#[test]
fn setters_and_reset() {
    let mut lfo = LFO::new(44100, 1024);
    assert_eq!(lfo.get_params(), (0, 1, 0));
    lfo.set_frequency(5000);
    lfo.set_amplitude(2);
    lfo.set_phase(1024 * ONE as u64 + 5);
    assert_eq!(lfo.get_params(), (5000, 2, 5));
    lfo.next_mod();
    lfo.reset(2048);
    assert_eq!(lfo.get_params(), (5000, 2, 0));
}
