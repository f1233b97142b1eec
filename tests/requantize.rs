use audio_dsp::error::AudioError;
use audio_dsp::requantize::{
    check_config, draw_dither, requantize, requantize_step, requantize_with_dither, DITHER_ONE,
};
use rand::rngs::StdRng;
use rand::SeedableRng;

fn ramp(n: usize, bits: u32) -> Vec<i32> {
    let lo = -(1i64 << (bits - 1));
    let span = 1i64 << bits;
    (0..n).map(|i| (lo + (i as i64 * 7919) % span) as i32).collect()
}

fn fits(v: &[i32], bits: u32) -> bool {
    let half = 1i64 << (bits - 1);
    v.iter().all(|&x| -half <= x as i64 && (x as i64) < half)
}

fn convert_and_check_depth(source: u16, target: u16) {
    let mut rng = StdRng::seed_from_u64(44100);
    let input = ramp(4096, source as u32);
    let out = requantize(&input, source, target, &mut rng).unwrap();
    assert_eq!(out.len(), input.len());
    assert!(fits(&out, target as u32));
}

#[test]
fn test_8bit() {
    convert_and_check_depth(16, 8);
}

#[test]
fn test_16bit() {
    convert_and_check_depth(24, 16);
}

#[test]
fn test_24bit() {
    convert_and_check_depth(32, 24);
}

#[test]
fn test_invalid_bit() {
    let mut rng = StdRng::seed_from_u64(44100);
    let input = ramp(100, 16);
    assert_eq!(requantize(&input, 16, 12, &mut rng), Err(AudioError::ConfigurationError));
}

#[test]
fn test8bit() {
    convert_and_check_depth(32, 8);
}

#[test]
fn test16bit() {
    convert_and_check_depth(32, 16);
}

#[test]
fn test24bit() {
    convert_and_check_depth(32, 24);
}

#[test]
fn testinvalidbit() {
    let mut rng = StdRng::seed_from_u64(44100);
    let input = ramp(100, 16);
    assert_eq!(requantize(&input, 12, 12, &mut rng), Err(AudioError::ConfigurationError));
}

#[test]
fn output_length_matches_input_for_every_valid_pair() {
    let mut rng = StdRng::seed_from_u64(7);
    for &(s, t) in &[(16u16, 8u16), (24, 8), (24, 16), (32, 8), (32, 16), (32, 24)] {
        for n in [0usize, 1, 2, 3, 100, 1000] {
            let input = ramp(n, s as u32);
            let out = requantize(&input, s, t, &mut rng).unwrap();
            assert_eq!(out.len(), n);
        }
    }
}

#[test]
fn invalid_target_depth_is_configuration_error() {
    let mut rng = StdRng::seed_from_u64(3);
    let input = ramp(50, 16);
    for t in [0u16, 1, 7, 9, 12, 15, 17, 20, 25, 31, 33, 64, 65535] {
        assert_eq!(requantize(&input, 32, t, &mut rng), Err(AudioError::ConfigurationError));
        assert_eq!(requantize(&[].to_vec(), 32, t, &mut rng), Err(AudioError::ConfigurationError));
    }
}

#[test]
fn target_above_source_is_configuration_error() {
    let mut rng = StdRng::seed_from_u64(3);
    assert_eq!(requantize(&vec![1, 2, 3], 8, 16, &mut rng), Err(AudioError::ConfigurationError));
    assert_eq!(check_config(16, 24), Some(AudioError::ConfigurationError));
}

#[test]
fn source_above_thirty_two_bits_is_domain_error() {
    let mut rng = StdRng::seed_from_u64(3);
    assert_eq!(requantize(&vec![1, 2, 3], 40, 16, &mut rng), Err(AudioError::DomainError));
    assert_eq!(check_config(33, 32), Some(AudioError::DomainError));
    assert_eq!(check_config(32, 32), None);
}

#[test]
fn empty_buffer_gives_empty_buffer() {
    let mut rng = StdRng::seed_from_u64(1);
    assert_eq!(requantize(&Vec::new(), 16, 8, &mut rng), Ok(Vec::new()));
    assert_eq!(requantize_with_dither(&Vec::new(), 24, 16, &Vec::new()), Ok(Vec::new()));
}

#[test]
fn equal_depths_leave_buffer_unchanged() {
    let mut rng = StdRng::seed_from_u64(5);
    let input = ramp(500, 24);
    assert_eq!(requantize(&input, 24, 24, &mut rng), Ok(input.clone()));
}

#[test]
fn second_pass_at_target_depth_changes_nothing() {
    let mut rng = StdRng::seed_from_u64(11);
    let input = ramp(2000, 16);
    let once = requantize(&input, 16, 8, &mut rng).unwrap();
    let twice = requantize(&once, 8, 8, &mut rng).unwrap();
    assert_eq!(once, twice);
}

#[test]
fn zero_dither_values() {
    let input = vec![256, -256, 1000, -1000, 32767, -32768];
    let out = requantize_with_dither(&input, 16, 8, &vec![0; 6]).unwrap();
    assert_eq!(out, vec![1, -1, 3, -3, 114, -115]);
}

#[test]
fn dither_and_error_feedback_values() {
    let input = vec![256, -256, 1000, -1000, 32767, -32768];
    let dither = vec![32768, -32768, 65535, -65536, -1, 1];
    let out = requantize_with_dither(&input, 16, 8, &dither).unwrap();
    assert_eq!(out, vec![1, -2, 4, -5, 115, -116]);
}

#[test]
fn lowest_dither_carries_error_forward() {
    let input = vec![40, 40, 40, 40];
    let out = requantize_with_dither(&input, 11, 8, &vec![-DITHER_ONE as i32; 4]).unwrap();
    assert_eq!(out, vec![4, 4, 4, 4]);
}

#[test]
fn step_values() {
    // floor(3 + 0.5 + 0.8) = 4, round(0.9 * 4) = 4, error 3 - 4 = -1
    assert_eq!(requantize_step(3, 32768, 1), (4, -1));
    // floor(-3 - 1 - 0.8) = -5, round(-4.5) = -5, error 2
    assert_eq!(requantize_step(-3, -65536, -1), (-5, 2));
    // floor(0 + 0 + 8) = 8, round(7.2) = 7, error -8
    assert_eq!(requantize_step(0, 0, 10), (7, -8));
}

#[test]
fn drawn_dither_is_in_range_and_varies() {
    let mut rng = StdRng::seed_from_u64(99);
    let d = draw_dither(&mut rng, 1000);
    assert_eq!(d.len(), 1000);
    assert!(d.iter().all(|&x| -(DITHER_ONE as i32) <= x && x < DITHER_ONE as i32));
    assert!(d.iter().any(|&x| x != d[0]));
    assert!(d.iter().any(|&x| x > 0) && d.iter().any(|&x| x < 0));
}

#[test]
fn carried_error_mean_over_long_buffer() {
    let mut rng = StdRng::seed_from_u64(2024);
    let n = 20000usize;
    let d = draw_dither(&mut rng, n);
    let mut err = 0i32;
    let mut total = 0i64;
    for &x in &d {
        let (_, e) = requantize_step(0, x, err);
        assert!((-8..=9).contains(&e));
        err = e;
        total += e as i64;
    }
    let mean = total as f64 / n as f64;
    // floor-based quantization with 0.8 feedback settles at a mean of 5/18
    assert!((mean - 5.0 / 18.0).abs() < 0.05, "mean {}", mean);
}
