use iq_pipeline::config::ConfigError;
use iq_pipeline::decode::{IqSample, SCALE};
use iq_pipeline::edge::EdgeFilter;
use iq_pipeline::narrowband::{dc_coeffs, IqCoeff, NarrowbandPowerFilter};

#[test]
fn dc_filter_on_unit_tone_reports_one() {
    // Zero target frequency, rectangular window, four identical unit
    // samples: the reported amplitude is exactly 1.0 (= SCALE).
    let mut filter = NarrowbandPowerFilter::new(dc_coeffs(4)).unwrap();
    let unit = IqSample { i: SCALE, q: 0 };
    assert_eq!(filter.push(unit), None);
    assert_eq!(filter.push(unit), None);
    assert_eq!(filter.push(unit), None);
    assert_eq!(filter.push(unit), Some(SCALE as i64));
}

#[test]
fn dc_filter_resets_between_chunks() {
    let mut filter = NarrowbandPowerFilter::new(dc_coeffs(2)).unwrap();
    let unit = IqSample { i: SCALE, q: 0 };
    let zero = IqSample { i: 0, q: 0 };
    assert_eq!(filter.push(unit), None);
    assert_eq!(filter.push(unit), Some(SCALE as i64));
    assert_eq!(filter.push(zero), None);
    assert_eq!(filter.push(zero), Some(0));
}

#[test]
fn magnitude_combines_both_components() {
    // One-sample window, unit coefficient: a (3, 4) sample has amplitude 5
    // in the same fixed-point unit, by the integer square root.
    let mut filter = NarrowbandPowerFilter::new(dc_coeffs(1)).unwrap();
    assert_eq!(filter.push(IqSample { i: 3, q: 4 }), Some(5));
}

#[test]
fn phase_rotation_cancels_a_negative_sample() {
    // A coefficient of -1.0 flips the sample's sign; two opposite samples
    // under opposite coefficients accumulate constructively.
    let coeffs = vec![IqCoeff { re: SCALE, im: 0 }, IqCoeff { re: -SCALE, im: 0 }];
    let mut filter = NarrowbandPowerFilter::new(coeffs).unwrap();
    assert_eq!(filter.push(IqSample { i: SCALE, q: 0 }), None);
    assert_eq!(filter.push(IqSample { i: -SCALE, q: 0 }), Some(SCALE as i64));
}

#[test]
fn empty_window_is_rejected() {
    match NarrowbandPowerFilter::new(Vec::new()) {
        Err(e) => assert_eq!(e, ConfigError::ZeroWindow),
        Ok(_) => panic!("expected a configuration error"),
    }
}

#[test]
fn out_of_range_coefficient_is_rejected() {
    let coeffs = vec![IqCoeff { re: SCALE + 1, im: 0 }];
    match NarrowbandPowerFilter::new(coeffs) {
        Err(e) => assert_eq!(e, ConfigError::CoeffOutOfRange),
        Ok(_) => panic!("expected a configuration error"),
    }
}

#[test]
fn edge_filter_reports_moving_average() {
    let mut edge = EdgeFilter::new(2).unwrap();
    assert_eq!(edge.output(), 0);
    edge.input(2);
    assert_eq!(edge.output(), 2);
    edge.input(4);
    assert_eq!(edge.output(), 3);
    edge.input(6);
    // The history holds only the last two values: (4 + 6) / 2.
    assert_eq!(edge.output(), 5);
}

#[test]
fn edge_filter_average_truncates_toward_zero() {
    let mut edge = EdgeFilter::new(2).unwrap();
    edge.input(-3);
    edge.input(-4);
    assert_eq!(edge.output(), -3);
}

#[test]
fn edge_filter_rejects_zero_history() {
    match EdgeFilter::new(0) {
        Err(e) => assert_eq!(e, ConfigError::ZeroHistory),
        Ok(_) => panic!("expected a configuration error"),
    }
}

#[test]
fn edge_filter_rejects_oversized_history() {
    match EdgeFilter::new(0x100001) {
        Err(e) => assert_eq!(e, ConfigError::HistoryTooLarge),
        Ok(_) => panic!("expected a configuration error"),
    }
}
