use iq_pipeline::config::ConfigError;
use iq_pipeline::decode::{IqSample, SCALE};
use iq_pipeline::edge::EdgeFilter;
use iq_pipeline::narrowband::{dc_coeffs, NarrowbandPowerFilter};
use iq_pipeline::pipeline::{
    encode_i16, encode_i16_all, normalize, run_raw, run_tone, select_i, smooth_all,
    tone_amplitudes, SignalType,
};

#[test]
fn raw_mode_on_zero_capture_gives_zero_int16() {
    // Four zero bytes, equal rates: two samples (0, 0), encoded as 0, 0.
    let out = run_raw(&vec![0u8, 0, 0, 0], 44100, 44100).unwrap();
    assert_eq!(out, vec![0i64, 0]);
    assert_eq!(encode_i16_all(&out), vec![0i16, 0]);
}

#[test]
fn raw_mode_selects_the_in_phase_channel() {
    // (i, q) pairs (0x7F, 0x00) decode to i = 32512, q = 0.
    let out = run_raw(&vec![0x7Fu8, 0x00, 0x7F, 0x00], 100, 100).unwrap();
    assert_eq!(out, vec![32512i64, 32512]);
}

#[test]
fn raw_mode_resamples_the_channel() {
    let out = run_raw(&vec![0x00u8, 0, 0x04, 0], 1, 4).unwrap();
    // Channel values 0 and 1024, interpolated in quarters.
    assert_eq!(out, vec![0i64, 256, 512, 768, 1024]);
}

#[test]
fn raw_mode_rejects_zero_rates() {
    assert_eq!(run_raw(&vec![0u8, 0], 0, 44100).unwrap_err(), ConfigError::ZeroRate);
    assert_eq!(run_raw(&vec![0u8, 0], 44100, 0).unwrap_err(), ConfigError::ZeroRate);
}

#[test]
fn tone_mode_normalizes_identical_chunks_to_one() {
    // Two identical chunks under a window of two: both normalize to 1.0,
    // since the maximum equals each chunk's own amplitude.
    let bytes = vec![0x7Fu8, 0x00, 0x7F, 0x00, 0x7F, 0x00, 0x7F, 0x00];
    let out = run_tone(&bytes, dc_coeffs(2), None, 2, 1).unwrap();
    assert_eq!(out, vec![SCALE as i64, SCALE as i64]);
}

#[test]
fn tone_mode_with_unit_history_smoothing_is_unchanged() {
    let bytes = vec![0x7Fu8, 0x00, 0x7F, 0x00, 0x7F, 0x00, 0x7F, 0x00];
    let out = run_tone(&bytes, dc_coeffs(2), Some(1), 2, 1).unwrap();
    assert_eq!(out, vec![SCALE as i64, SCALE as i64]);
}

#[test]
fn tone_mode_rejects_bad_configuration() {
    let bytes = vec![0u8, 0];
    assert_eq!(
        run_tone(&bytes, Vec::new(), None, 100, 100).unwrap_err(),
        ConfigError::ZeroWindow
    );
    assert_eq!(
        run_tone(&bytes, dc_coeffs(2), Some(0), 100, 100).unwrap_err(),
        ConfigError::ZeroHistory
    );
    assert_eq!(
        run_tone(&bytes, dc_coeffs(2), None, 100, 0).unwrap_err(),
        ConfigError::ZeroRate
    );
    // A window outweighing the input rate truncates the chunk rate to zero.
    assert_eq!(
        run_tone(&bytes, dc_coeffs(2), None, 1, 100).unwrap_err(),
        ConfigError::ZeroRate
    );
}

#[test]
fn unit_amplitude_chunks_normalize_to_one() {
    // The same normalization fact at the component level: two identical
    // unit-amplitude chunks both map to exactly 1.0.
    let mut filter = NarrowbandPowerFilter::new(dc_coeffs(2)).unwrap();
    let unit = IqSample { i: SCALE, q: 0 };
    let samples = vec![unit, unit, unit, unit];
    let amps = tone_amplitudes(&samples, &mut filter);
    assert_eq!(amps, vec![SCALE as i64, SCALE as i64]);
    assert_eq!(normalize(&amps), vec![SCALE as i64, SCALE as i64]);
}

#[test]
fn normalize_scales_the_maximum_to_one() {
    assert_eq!(normalize(&vec![2i64, 4]), vec![16384, 32768]);
    assert_eq!(normalize(&vec![0i64, 0, 0]), vec![0, 0, 0]);
    assert_eq!(normalize(&Vec::new()), Vec::<i64>::new());
}

#[test]
fn smoothing_runs_the_edge_filter_over_the_stream() {
    let mut edge = EdgeFilter::new(2).unwrap();
    assert_eq!(smooth_all(&vec![2i64, 4, 6], &mut edge), vec![2, 3, 5]);
}

#[test]
fn select_i_drops_the_quadrature_channel() {
    let samples = vec![IqSample { i: 5, q: -7 }, IqSample { i: -9, q: 11 }];
    assert_eq!(select_i(&samples), vec![5i64, -9]);
}

#[test]
fn int16_encoding_clamps_to_the_code_range() {
    assert_eq!(encode_i16(0), 0);
    assert_eq!(encode_i16(100), 100);
    assert_eq!(encode_i16(-100), -100);
    assert_eq!(encode_i16(32768), 32767);
    assert_eq!(encode_i16(-32768), -32768);
    assert_eq!(encode_i16(-40000), -32768);
    assert_eq!(encode_i16(1 << 40), 32767);
}

#[test]
fn signal_type_selects_the_mode() {
    assert!(!SignalType::Raw.is_filtered());
    assert!(SignalType::Filtered(130000).is_filtered());
    assert_eq!(SignalType::Filtered(5), SignalType::Filtered(5));
}
