use iq_pipeline::config::ConfigError;
use iq_pipeline::rate::{convert, RateConverter};

#[test]
fn equal_rates_give_identical_output() {
    let input = vec![1i64, 2, 3, -4, 5];
    assert_eq!(convert(&input, 10, 10), input);
    assert_eq!(convert(&input, 44100, 44100), input);
}

#[test]
fn constant_stream_stays_constant_at_any_ratio() {
    let input = vec![5i64, 5, 5];
    assert_eq!(convert(&input, 3, 7), vec![5i64; 5]);
    assert_eq!(convert(&input, 7, 3), vec![5i64]);
    assert_eq!(convert(&input, 1, 4), vec![5i64; 9]);
}

#[test]
fn upsampling_interpolates_linearly() {
    let input = vec![0i64, 100];
    // Positions 0, 1/4, 2/4, 3/4, 1 of the input.
    assert_eq!(convert(&input, 1, 4), vec![0, 25, 50, 75, 100]);
}

#[test]
fn downsampling_skips_between_samples() {
    let input = vec![0i64, 10, 20, 30];
    // Positions 0 and 2; position 4 is past the end.
    assert_eq!(convert(&input, 2, 1), vec![0, 20]);
}

#[test]
fn interpolation_truncates_toward_zero_on_descent() {
    // From 0 down to -5 in halves: the midpoint -5/2 truncates to -2.
    let input = vec![0i64, -5];
    assert_eq!(convert(&input, 1, 2), vec![0, -2, -5]);
}

#[test]
fn empty_input_converts_to_empty_output() {
    assert_eq!(convert(&Vec::new(), 5, 3), Vec::<i64>::new());
}

#[test]
fn single_sample_yields_single_sample() {
    assert_eq!(convert(&vec![7i64], 3, 1000), vec![7]);
}

#[test]
fn streaming_converter_pulls_the_same_samples() {
    let mut conv = RateConverter::new(vec![0i64, 100], 1, 4).unwrap();
    assert_eq!(conv.next(), Some(0));
    assert_eq!(conv.next(), Some(25));
    assert_eq!(conv.next(), Some(50));
    assert_eq!(conv.next(), Some(75));
    assert_eq!(conv.next(), Some(100));
    assert_eq!(conv.next(), None);
    assert_eq!(conv.next(), None);
}

#[test]
fn streaming_converter_rejects_zero_rates() {
    match RateConverter::new(vec![1i64], 0, 4) {
        Err(e) => assert_eq!(e, ConfigError::ZeroRate),
        Ok(_) => panic!("expected a configuration error"),
    }
}
